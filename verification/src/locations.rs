//! Location records and the index that owns them.
use vstd::prelude::*;

verus! {

/// A wrapper around a string to represent a location.
#[derive(Debug, Eq, Hash)]
pub struct LocationId(String);

impl View for LocationId {
    type V = Seq<char>;

    closed spec fn view(&self) -> Seq<char> {
        self.0@
    }
}

impl DeepView for LocationId {
    type V = Seq<char>;

    open spec fn deep_view(&self) -> Seq<char> {
        self@
    }
}

impl LocationId {
    /// Wrap a string as a location identifier.
    pub fn new(s: String) -> (r: LocationId)
        ensures
            r@ == s@,
    {
        LocationId(s)
    }
}

impl Clone for LocationId {
    fn clone(&self) -> (r: Self)
        ensures
            r == *self,
    {
        LocationId(self.0.clone())
    }
}

impl PartialEq for LocationId {
    fn eq(&self, other: &Self) -> (r: bool) {
        self.0 == other.0
    }
}

impl vstd::std_specs::cmp::PartialEqSpecImpl for LocationId {
    open spec fn obeys_eq_spec() -> bool {
        true
    }

    open spec fn eq_spec(&self, other: &Self) -> bool {
        self@ == other@
    }
}

/// A location.
#[derive(Debug)]
pub struct Location {
    /// The id of the location.
    pub id: LocationId,
    /// The name of the location.
    pub name: String,
    /// Locations that are a parent of this one (authored input).
    pub parent_locations: Vec<LocationId>,
    /// Locations that this location is a parent of (derived at
    /// construction from the full parent graph).
    pub children_locations: Vec<LocationId>,
    /// A description of the location (intended for public knowledge).
    pub info: Option<String>,
}

/// The mathematical content of a [`Location`].
pub ghost struct LocationView {
    /// The id of the location.
    pub id: Seq<char>,
    /// The name of the location.
    pub name: Seq<char>,
    /// The authored parent ids.
    pub parents: Seq<Seq<char>>,
    /// The derived child ids.
    pub children: Seq<Seq<char>>,
    /// The optional description.
    pub info: Option<Seq<char>>,
}

impl View for Location {
    type V = LocationView;

    open spec fn view(&self) -> LocationView {
        LocationView {
            id: self.id@,
            name: self.name@,
            parents: self.parent_locations.deep_view(),
            children: self.children_locations.deep_view(),
            info: self.info.deep_view(),
        }
    }
}

impl DeepView for Location {
    type V = LocationView;

    open spec fn deep_view(&self) -> LocationView {
        self@
    }
}

/// A location as authored: every [`Location`] field except the derived
/// `children_locations`, which only the full record set determines.
#[derive(Debug)]
pub struct LocationDraft {
    /// The id of the location.
    pub id: LocationId,
    /// The name of the location.
    pub name: String,
    /// Locations that are a parent of this one.
    pub parent_locations: Vec<LocationId>,
    /// A description of the location (intended for public knowledge).
    pub info: Option<String>,
}

/// The mathematical content of a [`LocationDraft`].
pub ghost struct LocationDraftView {
    /// The id of the location.
    pub id: Seq<char>,
    /// The name of the location.
    pub name: Seq<char>,
    /// The authored parent ids.
    pub parents: Seq<Seq<char>>,
    /// The optional description.
    pub info: Option<Seq<char>>,
}

impl View for LocationDraft {
    type V = LocationDraftView;

    open spec fn view(&self) -> LocationDraftView {
        LocationDraftView {
            id: self.id@,
            name: self.name@,
            parents: self.parent_locations.deep_view(),
            info: self.info.deep_view(),
        }
    }
}

impl DeepView for LocationDraft {
    type V = LocationDraftView;

    open spec fn deep_view(&self) -> LocationDraftView {
        self@
    }
}

/// A primary record: a location stored under its key.
#[derive(Debug)]
struct StoredLocation {
    key: LocationId,
    loc: Location,
}

spec fn stored_keys_unique(s: Seq<StoredLocation>) -> bool {
    forall|i: int, j: int| 0 <= i < j < s.len() ==> s[i].key@ != s[j].key@
}

spec fn stored_map_at(s: Seq<StoredLocation>, k: Seq<char>) -> Option<LocationView> {
    if exists|i: int| 0 <= i < s.len() && s[i].key@ == k {
        Some(s[choose|i: int| 0 <= i < s.len() && s[i].key@ == k].loc@)
    } else {
        None
    }
}

proof fn lemma_stored_map_at_key(s: Seq<StoredLocation>, i: int, k: Seq<char>)
    requires
        stored_keys_unique(s),
        0 <= i < s.len(),
        s[i].key@ == k,
    ensures
        stored_map_at(s, k) == Some(s[i].loc@),
{
    let j = choose|j: int| 0 <= j < s.len() && s[j].key@ == k;
    if j < i {
        assert(s[j].key@ != s[i].key@);
    } else if i < j {
        assert(s[i].key@ != s[j].key@);
    }
}

spec fn draft_ids_unique(s: Seq<LocationDraftView>) -> bool {
    forall|i: int, j: int| 0 <= i < j < s.len() ==> s[i].id != s[j].id
}

/// Replace the draft sharing `d`'s id (keeping its position), or append
/// `d` when no draft has that id yet.
pub open spec fn upsert(s: Seq<LocationDraftView>, d: LocationDraftView) -> Seq<LocationDraftView> {
    if exists|i: int| 0 <= i < s.len() && s[i].id == d.id {
        s.update(choose|i: int| 0 <= i < s.len() && s[i].id == d.id, d)
    } else {
        s.push(d)
    }
}

/// Merge a draft sequence front to back: the last draft with an id wins,
/// at the position of the first.
pub open spec fn merged(drafts: Seq<LocationDraftView>) -> Seq<LocationDraftView>
    decreases drafts.len(),
{
    if drafts.len() == 0 {
        Seq::empty()
    } else {
        upsert(merged(drafts.drop_last()), drafts.last())
    }
}

/// The child ids of `p` derived from a full record scan: each record
/// contributes its id once per occurrence of `p` among its parents, in
/// record order.
pub open spec fn children_from(s: Seq<LocationDraftView>, p: Seq<char>) -> Seq<Seq<char>>
    decreases s.len(),
{
    if s.len() == 0 {
        Seq::empty()
    } else {
        children_from(s.drop_last(), p) + Seq::new(
            crate::idseq::count_occ(s.last().parents, p),
            |x: int| s.last().id,
        )
    }
}

/// Complete a draft into a full location: its derived children come from
/// scanning the whole merged record set.
pub open spec fn finish_draft(d: LocationDraftView, s: Seq<LocationDraftView>) -> LocationView {
    LocationView {
        id: d.id,
        name: d.name,
        parents: d.parents,
        children: children_from(s, d.id),
        info: d.info,
    }
}

/// The record sequence an index built from `drafts` holds, in storage
/// order: the merged drafts, each completed with its derived children.
pub open spec fn built(drafts: Seq<LocationDraftView>) -> Seq<LocationView> {
    let base = merged(drafts);
    Seq::new(base.len(), |i: int| finish_draft(base[i], base))
}

/// A holder for many locations.
#[derive(Debug)]
pub struct Locations {
    locations: Vec<StoredLocation>,
}

impl Locations {
    /// The storage table keys its rows by distinct identifiers.
    pub closed spec fn wf(self) -> bool {
        stored_keys_unique(self.locations@)
    }

    /// Every stored location sits under its own id. This holds after
    /// construction; rewriting a location's id through `get_mut` may
    /// break it (a documented desync).
    pub closed spec fn coherent(self) -> bool {
        forall|i: int|
            0 <= i < self.locations@.len() ==> self.locations@[i].loc@.id
                == self.locations@[i].key@
    }

    /// The primary record stored under id `k`, if any.
    pub closed spec fn spec_get(self, k: Seq<char>) -> Option<LocationView> {
        stored_map_at(self.locations@, k)
    }

    /// The stored records in storage order.
    pub closed spec fn records(self) -> Seq<LocationView> {
        self.locations@.map_values(|e: StoredLocation| e.loc@)
    }

    /// Resolve a sequence of location ids against primary storage, in
    /// order, silently dropping ids that do not resolve.
    pub open spec fn resolve_ids(self, ids: Seq<Seq<char>>) -> Seq<LocationView>
        decreases ids.len(),
    {
        if ids.len() == 0 {
            Seq::empty()
        } else {
            let rest = self.resolve_ids(ids.drop_last());
            match self.spec_get(ids.last()) {
                Some(v) => rest.push(v),
                None => rest,
            }
        }
    }

    /// What `iter_parents` returns.
    pub open spec fn query_parents(self, id: Seq<char>) -> Seq<LocationView> {
        match self.spec_get(id) {
            Some(v) => self.resolve_ids(v.parents),
            None => Seq::empty(),
        }
    }

    /// What `iter_children` returns.
    pub open spec fn query_children(self, id: Seq<char>) -> Seq<LocationView> {
        match self.spec_get(id) {
            Some(v) => self.resolve_ids(v.children),
            None => Seq::empty(),
        }
    }

    /// Create a new empty instance.
    pub fn new() -> (r: Locations)
        ensures
            r.wf(),
            r.coherent(),
            r.records() == Seq::<LocationView>::empty(),
            forall|k: Seq<char>| r.spec_get(k) is None,
    {
        let r = Locations { locations: Vec::new() };
        proof {
            assert(r.records() =~= Seq::<LocationView>::empty());
        }
        r
    }
}

impl Default for Locations {
    /// The default instance is the empty index.
    fn default() -> (r: Self)
        ensures
            r.wf(),
            r.coherent(),
            r.records() == Seq::<LocationView>::empty(),
            forall|k: Seq<char>| r.spec_get(k) is None,
    {
        Locations::new()
    }
}

fn find_stored_idx(s: &Vec<StoredLocation>, id: &LocationId) -> (r: Option<usize>)
    ensures
        match r {
            Some(i) => i < s.len() && s@[i as int].key@ == id@,
            None => forall|j: int| 0 <= j < s@.len() ==> s@[j].key@ != id@,
        },
{
    let mut i: usize = 0;
    while i < s.len()
        invariant
            i <= s.len(),
            forall|j: int| 0 <= j < i ==> s@[j].key@ != id@,
        decreases s.len() - i,
    {
        if s[i].key == *id {
            return Some(i);
        }
        i = i + 1;
    }
    None
}

fn find_draft_idx(s: &Vec<LocationDraft>, id: &LocationId) -> (r: Option<usize>)
    ensures
        match r {
            Some(i) => i < s.len() && s@[i as int].id@ == id@,
            None => forall|j: int| 0 <= j < s@.len() ==> s@[j].id@ != id@,
        },
{
    let mut i: usize = 0;
    while i < s.len()
        invariant
            i <= s.len(),
            forall|j: int| 0 <= j < i ==> s@[j].id@ != id@,
        decreases s.len() - i,
    {
        if s[i].id == *id {
            return Some(i);
        }
        i = i + 1;
    }
    None
}

proof fn lemma_upsert_present(s: Seq<LocationDraftView>, j: int, d: LocationDraftView)
    requires
        draft_ids_unique(s),
        0 <= j < s.len(),
        s[j].id == d.id,
    ensures
        upsert(s, d) == s.update(j, d),
        draft_ids_unique(upsert(s, d)),
{
    let i = choose|i: int| 0 <= i < s.len() && s[i].id == d.id;
    if i < j {
        assert(s[i].id != s[j].id);
    } else if j < i {
        assert(s[j].id != s[i].id);
    }
    assert(forall|x: int| 0 <= x < s.len() ==> s.update(j, d)[x].id == s[x].id);
}

/// Collect, in record order, the ids of records that list `parent`
/// among their parents, once per occurrence.
fn children_for(base: &Vec<LocationDraft>, parent: &LocationId) -> (r: Vec<LocationId>)
    ensures
        r.deep_view() == children_from(base.deep_view(), parent@),
{
    let ghost bview = base.deep_view();
    let ghost p = parent@;
    let mut r: Vec<LocationId> = Vec::new();
    proof {
        assert(r.deep_view() =~= Seq::<Seq<char>>::empty());
        assert(bview.take(0) =~= Seq::<LocationDraftView>::empty());
    }
    let mut j: usize = 0;
    while j < base.len()
        invariant
            j <= base.len(),
            bview == base.deep_view(),
            p == parent@,
            r.deep_view() == children_from(bview.take(j as int), p),
        decreases base.len() - j,
    {
        let rec = &base[j];
        let ghost parents = rec.parent_locations.deep_view();
        let ghost cid = rec.id@;
        proof {
            assert(parents == bview[j as int].parents);
            assert(cid == bview[j as int].id);
        }
        let ghost base_r = r.deep_view();
        let mut k: usize = 0;
        while k < rec.parent_locations.len()
            invariant
                k <= rec.parent_locations.len(),
                parents == rec.parent_locations.deep_view(),
                cid == rec.id@,
                p == parent@,
                r.deep_view() == base_r + Seq::new(
                    crate::idseq::count_occ(parents.take(k as int), p),
                    |x: int| cid,
                ),
            decreases rec.parent_locations.len() - k,
        {
            let ghost prev = r.deep_view();
            if rec.parent_locations[k] == *parent {
                r.push(rec.id.clone());
                proof {
                    assert(r.deep_view() =~= prev.push(cid));
                }
            }
            proof {
                let x = k as int;
                crate::idseq::lemma_count_occ_take_step(parents, p, x);
                assert(parents[x] == rec.parent_locations@[x]@);
                let n = crate::idseq::count_occ(parents.take(x), p);
                if parents[x] == p {
                    assert((base_r + Seq::new(n, |y: int| cid)).push(cid) =~= base_r + Seq::new(
                        n + 1,
                        |y: int| cid,
                    ));
                }
            }
            k = k + 1;
        }
        proof {
            let x = j as int;
            assert(parents.take(parents.len() as int) =~= parents);
            assert(bview.take(x + 1).drop_last() =~= bview.take(x));
            assert(bview.take(x + 1).last() == bview[x]);
        }
        j = j + 1;
    }
    proof {
        assert(bview.take(bview.len() as int) =~= bview);
    }
    r
}

impl Locations {
    /// Build an index from authored drafts. The build is two-phase:
    /// drafts are first merged into primary records (the last draft with
    /// an id wins), then every record's derived `children_locations` is
    /// computed from a scan of the full merged set. A location that no
    /// record names as a parent ends up with an explicit empty child
    /// sequence, never a missing entry.
    pub fn from_drafts(drafts: Vec<LocationDraft>) -> (r: Locations)
        ensures
            r.wf(),
            r.coherent(),
            r.records() == built(drafts.deep_view()),
    {
        let ghost s = drafts.deep_view();
        let mut base: Vec<LocationDraft> = Vec::new();
        proof {
            assert(base.deep_view() =~= Seq::<LocationDraftView>::empty());
            assert(s.take(0) =~= Seq::<LocationDraftView>::empty());
        }
        let mut i: usize = 0;
        while i < drafts.len()
            invariant
                i <= drafts.len(),
                s == drafts.deep_view(),
                draft_ids_unique(base.deep_view()),
                base.deep_view() == merged(s.take(i as int)),
            decreases drafts.len() - i,
        {
            let d = clone_draft(&drafts[i]);
            let ghost dv = d@;
            let ghost before = base.deep_view();
            proof {
                assert(dv == s[i as int]);
            }
            match find_draft_idx(&base, &d.id) {
                Some(j) => {
                    proof {
                        lemma_upsert_present(before, j as int, dv);
                    }
                    let slot = &mut base[j];
                    *slot = d;
                    proof {
                        assert(base.deep_view() =~= before.update(j as int, dv));
                    }
                }
                None => {
                    base.push(d);
                    proof {
                        assert(base.deep_view() =~= before.push(dv));
                        assert(forall|x: int| 0 <= x < before.len() ==> before[x].id != dv.id);
                    }
                }
            }
            proof {
                let x = i as int;
                assert(s.take(x + 1).drop_last() =~= s.take(x));
                assert(s.take(x + 1).last() == s[x]);
            }
            i = i + 1;
        }
        proof {
            assert(s.take(s.len() as int) =~= s);
        }
        let ghost bview = base.deep_view();
        let mut stored: Vec<StoredLocation> = Vec::new();
        let mut i: usize = 0;
        while i < base.len()
            invariant
                i <= base.len(),
                bview == base.deep_view(),
                draft_ids_unique(bview),
                stored@.len() == i,
                forall|j: int| 0 <= j < i ==> (#[trigger] stored@[j]).key@ == bview[j].id,
                forall|j: int|
                    0 <= j < i ==> (#[trigger] stored@[j]).loc@ == finish_draft(bview[j], bview),
            decreases base.len() - i,
        {
            let ch = children_for(&base, &base[i].id);
            let d = clone_draft(&base[i]);
            let key = d.id.clone();
            let loc = Location {
                id: d.id,
                name: d.name,
                parent_locations: d.parent_locations,
                children_locations: ch,
                info: d.info,
            };
            proof {
                assert(loc@ == finish_draft(bview[i as int], bview));
            }
            stored.push(StoredLocation { key, loc });
            i = i + 1;
        }
        let r = Locations { locations: stored };
        proof {
            assert(forall|x: int, y: int|
                0 <= x < y < r.locations@.len() ==> r.locations@[x].key@ != r.locations@[y].key@);
            assert(r.records() =~= built(s));
        }
        r
    }

    /// Get an optional reference to a [`Location`] by its id.
    pub fn get(&self, id: &LocationId) -> (r: Option<&Location>)
        requires
            self.wf(),
        ensures
            match r {
                Some(v) => self.spec_get(id@) == Some(v@),
                None => self.spec_get(id@) is None,
            },
    {
        match find_stored_idx(&self.locations, id) {
            Some(i) => {
                proof {
                    lemma_stored_map_at_key(self.locations@, i as int, id@);
                }
                Some(&self.locations[i].loc)
            }
            None => None,
        }
    }

    /// Get all resolvable parents of a location, in authored order; ids
    /// that do not resolve are silently dropped. Empty if `id` itself is
    /// unknown.
    pub fn iter_parents<'a>(&'a self, id: &LocationId) -> (r: Vec<&'a Location>)
        requires
            self.wf(),
        ensures
            r.deep_view() == self.query_parents(id@),
    {
        let mut r: Vec<&'a Location> = Vec::new();
        match find_stored_idx(&self.locations, id) {
            None => {
                proof {
                    assert(r.deep_view() =~= Seq::<LocationView>::empty());
                }
                r
            }
            Some(ei) => {
                proof {
                    lemma_stored_map_at_key(self.locations@, ei as int, id@);
                }
                let ids = &self.locations[ei].loc.parent_locations;
                let ghost pseq = self.spec_get(id@).unwrap().parents;
                proof {
                    assert(pseq == ids.deep_view());
                }
                let mut i: usize = 0;
                while i < ids.len()
                    invariant
                        i <= ids.len(),
                        self.wf(),
                        pseq == ids.deep_view(),
                        r.deep_view() == self.resolve_ids(pseq.take(i as int)),
                    decreases ids.len() - i,
                {
                    let ghost prev = r.deep_view();
                    match self.get(&ids[i]) {
                        Some(v) => {
                            r.push(v);
                            proof {
                                assert(r.deep_view() =~= prev.push(v@));
                            }
                        }
                        None => {}
                    }
                    proof {
                        let j = i as int;
                        assert(pseq.take(j + 1).drop_last() =~= pseq.take(j));
                        assert(pseq.take(j + 1).last() == pseq[j]);
                        assert(pseq[j] == ids@[j]@);
                    }
                    i = i + 1;
                }
                proof {
                    assert(pseq.take(pseq.len() as int) =~= pseq);
                }
                r
            }
        }
    }

    /// Get all resolvable children of a location, in build-time order;
    /// ids that do not resolve are silently dropped. Empty if `id`
    /// itself is unknown.
    pub fn iter_children<'a>(&'a self, id: &LocationId) -> (r: Vec<&'a Location>)
        requires
            self.wf(),
        ensures
            r.deep_view() == self.query_children(id@),
    {
        let mut r: Vec<&'a Location> = Vec::new();
        match find_stored_idx(&self.locations, id) {
            None => {
                proof {
                    assert(r.deep_view() =~= Seq::<LocationView>::empty());
                }
                r
            }
            Some(ei) => {
                proof {
                    lemma_stored_map_at_key(self.locations@, ei as int, id@);
                }
                let ids = &self.locations[ei].loc.children_locations;
                let ghost cseq = self.spec_get(id@).unwrap().children;
                proof {
                    assert(cseq == ids.deep_view());
                }
                let mut i: usize = 0;
                while i < ids.len()
                    invariant
                        i <= ids.len(),
                        self.wf(),
                        cseq == ids.deep_view(),
                        r.deep_view() == self.resolve_ids(cseq.take(i as int)),
                    decreases ids.len() - i,
                {
                    let ghost prev = r.deep_view();
                    match self.get(&ids[i]) {
                        Some(v) => {
                            r.push(v);
                            proof {
                                assert(r.deep_view() =~= prev.push(v@));
                            }
                        }
                        None => {}
                    }
                    proof {
                        let j = i as int;
                        assert(cseq.take(j + 1).drop_last() =~= cseq.take(j));
                        assert(cseq.take(j + 1).last() == cseq[j]);
                        assert(cseq[j] == ids@[j]@);
                    }
                    i = i + 1;
                }
                proof {
                    assert(cseq.take(cseq.len() as int) =~= cseq);
                }
                r
            }
        }
    }
}

proof fn lemma_stored_replace(pre: Seq<StoredLocation>, i: int, e2: StoredLocation)
    requires
        stored_keys_unique(pre),
        0 <= i < pre.len(),
        e2.key@ == pre[i].key@,
    ensures
        stored_keys_unique(pre.update(i, e2)),
        forall|k: Seq<char>|
            stored_map_at(pre.update(i, e2), k) == (if k == pre[i].key@ {
                Some(e2.loc@)
            } else {
                stored_map_at(pre, k)
            }),
{
    let post = pre.update(i, e2);
    assert(forall|j: int| 0 <= j < post.len() ==> post[j].key@ == pre[j].key@);
    assert forall|k: Seq<char>|
        stored_map_at(post, k) == (if k == pre[i].key@ {
            Some(e2.loc@)
        } else {
            stored_map_at(pre, k)
        }) by {
        if k == pre[i].key@ {
            lemma_stored_map_at_key(post, i, k);
        } else {
            if exists|j: int| 0 <= j < pre.len() && pre[j].key@ == k {
                let j = choose|j: int| 0 <= j < pre.len() && pre[j].key@ == k;
                lemma_stored_map_at_key(pre, j, k);
                lemma_stored_map_at_key(post, j, k);
                assert(post[j] == pre[j]);
            } else {
                assert(forall|j: int| 0 <= j < post.len() ==> post[j].key@ != k);
            }
        }
    }
}

impl Locations {
    /// Get an optional mutable reference to a [`Location`] by its id.
    /// Mutation through the reference rewrites the primary record only:
    /// derived `children_locations` of other records are not recomputed
    /// (documented limitation).
    pub fn get_mut(&mut self, id: &LocationId) -> (r: Option<&mut Location>)
        requires
            old(self).wf(),
        ensures
            final(self).wf(),
            r is Some ==> old(self).spec_get(id@) == Some((*r.unwrap())@),
            r is Some ==> forall|k: Seq<char>|
                final(self).spec_get(k) == (if k == id@ {
                    Some((*final(r.unwrap()))@)
                } else {
                    old(self).spec_get(k)
                }),
            r is None ==> *final(self) == *old(self) && old(self).spec_get(id@) is None,
    {
        let ghost pre_entries = self.locations@;
        match find_stored_idx(&self.locations, id) {
            Some(i) => {
                proof {
                    lemma_stored_map_at_key(pre_entries, i as int, id@);
                    assert forall|e2: StoredLocation| #![trigger pre_entries.update(i as int, e2)]
                        e2.key@ == id@ ==> {
                            &&& stored_keys_unique(pre_entries.update(i as int, e2))
                            &&& forall|k: Seq<char>|
                                stored_map_at(pre_entries.update(i as int, e2), k) == (if k
                                    == id@ {
                                    Some(e2.loc@)
                                } else {
                                    stored_map_at(pre_entries, k)
                                })
                        } by {
                        if e2.key@ == id@ {
                            lemma_stored_replace(pre_entries, i as int, e2);
                        }
                    }
                }
                let slot = &mut self.locations[i];
                Some(&mut slot.loc)
            }
            None => None,
        }
    }
}

proof fn lemma_children_from_source(s: Seq<LocationDraftView>, p: Seq<char>, c: Seq<char>)
    requires
        children_from(s, p).contains(c),
    ensures
        exists|j: int| 0 <= j < s.len() && s[j].id == c && s[j].parents.contains(p),
    decreases s.len(),
{
    let whole = children_from(s, p);
    let rest = children_from(s.drop_last(), p);
    let blk = Seq::new(crate::idseq::count_occ(s.last().parents, p), |x: int| s.last().id);
    let w = choose|w: int| 0 <= w < whole.len() && whole[w] == c;
    if w < rest.len() {
        assert(rest[w] == c);
        assert(rest.contains(c));
        lemma_children_from_source(s.drop_last(), p, c);
        let j = choose|j: int|
            0 <= j < s.drop_last().len() && s.drop_last()[j].id == c && s.drop_last()[
                j
            ].parents.contains(p);
        assert(s[j].id == c && s[j].parents.contains(p));
    } else {
        assert(blk[w - rest.len()] == c);
        assert(c == s.last().id);
        if !s.last().parents.contains(p) {
            crate::idseq::lemma_count_occ_zero(s.last().parents, p);
            assert(false);
        }
        let j = s.len() - 1;
        assert(s[j].id == c && s[j].parents.contains(p));
    }
}

/// Derived children are consistent with their source immediately after
/// construction: every child listed under a location is a stored record
/// that names that location among its parents.
pub proof fn lemma_children_consistent(locs: Locations, drafts: Seq<LocationDraftView>)
    requires
        locs.records() == built(drafts),
    ensures
        forall|i: int, c: Seq<char>|
            0 <= i < locs.records().len() && #[trigger] locs.records()[i].children.contains(c)
                ==> exists|j: int|
                0 <= j < locs.records().len() && locs.records()[j].id == c && locs.records()[
                    j
                ].parents.contains(locs.records()[i].id),
{
    let base = merged(drafts);
    assert forall|i: int, c: Seq<char>|
        0 <= i < locs.records().len() && #[trigger] locs.records()[i].children.contains(c)
            implies exists|j: int|
        0 <= j < locs.records().len() && locs.records()[j].id == c && locs.records()[
            j
        ].parents.contains(locs.records()[i].id) by {
        assert(locs.records()[i] == finish_draft(base[i], base));
        lemma_children_from_source(base, base[i].id, c);
        let j = choose|j: int|
            0 <= j < base.len() && base[j].id == c && base[j].parents.contains(base[i].id);
        assert(locs.records()[j] == finish_draft(base[j], base));
        assert(locs.records()[j].id == c && locs.records()[j].parents.contains(
            locs.records()[i].id,
        ));
    }
}

/// An index built from no drafts stores nothing: every id lookup is
/// absent, and the relationship queries answer empty.
pub proof fn lemma_built_empty(locs: Locations)
    requires
        locs.records() == built(Seq::empty()),
    ensures
        forall|k: Seq<char>| #[trigger] locs.spec_get(k) is None,
        forall|k: Seq<char>| #[trigger] locs.query_parents(k) == Seq::<LocationView>::empty(),
        forall|k: Seq<char>| #[trigger] locs.query_children(k) == Seq::<LocationView>::empty(),
{
    assert(merged(Seq::<LocationDraftView>::empty()) == Seq::<LocationDraftView>::empty());
    assert(built(Seq::empty()) =~= Seq::<LocationView>::empty());
    assert(locs.records().len() == 0);
}

/// Building an index from the same draft sequence twice yields
/// structurally identical record tables.
pub proof fn lemma_locations_deterministic(a: Locations, b: Locations, drafts: Seq<
    LocationDraftView,
>)
    requires
        a.records() == built(drafts),
        b.records() == built(drafts),
    ensures
        a.records() == b.records(),
{
}

proof fn lemma_merged_ids_absent(drafts: Seq<LocationDraftView>, k: Seq<char>)
    requires
        forall|i: int| 0 <= i < drafts.len() ==> drafts[i].id != k,
    ensures
        forall|i: int| 0 <= i < merged(drafts).len() ==> merged(drafts)[i].id != k,
    decreases drafts.len(),
{
    if drafts.len() > 0 {
        assert(forall|i: int|
            0 <= i < drafts.drop_last().len() ==> drafts.drop_last()[i].id != k);
        lemma_merged_ids_absent(drafts.drop_last(), k);
        let m = merged(drafts.drop_last());
        let d = drafts.last();
        assert(d.id != k);
        if exists|i: int| 0 <= i < m.len() && m[i].id == d.id {
            let i = choose|i: int| 0 <= i < m.len() && m[i].id == d.id;
            assert(forall|x: int| 0 <= x < m.len() ==> m.update(i, d)[x].id == (if x == i {
                d.id
            } else {
                m[x].id
            }));
        }
    }
}

/// An id that no draft carries is absent from the built index: its
/// lookup answers `None` and its relationship queries answer empty.
pub proof fn lemma_unknown_location(
    locs: Locations,
    drafts: Seq<LocationDraftView>,
    k: Seq<char>,
)
    requires
        locs.wf(),
        locs.coherent(),
        locs.records() == built(drafts),
        forall|i: int| 0 <= i < drafts.len() ==> drafts[i].id != k,
    ensures
        locs.spec_get(k) is None,
        locs.query_parents(k) == Seq::<LocationView>::empty(),
        locs.query_children(k) == Seq::<LocationView>::empty(),
{
    lemma_merged_ids_absent(drafts, k);
    let base = merged(drafts);
    assert(forall|i: int| 0 <= i < locs.records().len() ==> locs.records()[i]
        == finish_draft(base[i], base));
    assert(forall|i: int| 0 <= i < locs.records().len() ==> locs.records()[i].id != k);
    if locs.spec_get(k) is Some {
        let entries = locs.locations@;
        let i = choose|i: int| 0 <= i < entries.len() && entries[i].key@ == k;
        assert(entries[i].loc@.id == k);
        assert(locs.records()[i] == entries[i].loc@);
        assert(false);
    }
}


/// Clone a draft; the copy has the same mathematical content.
fn clone_draft(d: &LocationDraft) -> (r: LocationDraft)
    ensures
        r@ == d@,
{
    let parent_locations = d.parent_locations.clone();
    proof {
        assert(forall|i: int|
            0 <= i < d.parent_locations@.len() ==> parent_locations@[i] == d.parent_locations@[i]);
        assert(parent_locations.deep_view() =~= d.parent_locations.deep_view());
    }
    let info = match &d.info {
        Some(s) => Some(s.clone()),
        None => None,
    };
    LocationDraft { id: d.id.clone(), name: d.name.clone(), parent_locations, info }
}

} // verus!
