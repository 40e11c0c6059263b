//! Clue records and the index that owns them.
use vstd::prelude::*;

use crate::locations::LocationId;

verus! {

/// A wrapper around a string to represent a person.
#[derive(Debug, Eq, Hash)]
pub struct PersonId(String);

impl View for PersonId {
    type V = Seq<char>;

    closed spec fn view(&self) -> Seq<char> {
        self.0@
    }
}

impl DeepView for PersonId {
    type V = Seq<char>;

    open spec fn deep_view(&self) -> Seq<char> {
        self@
    }
}

impl PersonId {
    /// Wrap a string as a person identifier.
    pub fn new(s: String) -> (r: PersonId)
        ensures
            r@ == s@,
    {
        PersonId(s)
    }
}

impl Clone for PersonId {
    fn clone(&self) -> (r: Self)
        ensures
            r == *self,
    {
        PersonId(self.0.clone())
    }
}

impl PartialEq for PersonId {
    fn eq(&self, other: &Self) -> (r: bool) {
        self.0 == other.0
    }
}

impl vstd::std_specs::cmp::PartialEqSpecImpl for PersonId {
    open spec fn obeys_eq_spec() -> bool {
        true
    }

    open spec fn eq_spec(&self, other: &Self) -> bool {
        self@ == other@
    }
}

/// A wrapper around a string to represent a clue.
#[derive(Debug, Eq, Hash)]
pub struct ClueId(String);

impl View for ClueId {
    type V = Seq<char>;

    closed spec fn view(&self) -> Seq<char> {
        self.0@
    }
}

impl DeepView for ClueId {
    type V = Seq<char>;

    open spec fn deep_view(&self) -> Seq<char> {
        self@
    }
}

impl ClueId {
    /// Wrap a string as a clue identifier.
    pub fn new(s: String) -> (r: ClueId)
        ensures
            r@ == s@,
    {
        ClueId(s)
    }
}

impl Clone for ClueId {
    fn clone(&self) -> (r: Self)
        ensures
            r == *self,
    {
        ClueId(self.0.clone())
    }
}

impl PartialEq for ClueId {
    fn eq(&self, other: &Self) -> (r: bool) {
        self.0 == other.0
    }
}

impl vstd::std_specs::cmp::PartialEqSpecImpl for ClueId {
    open spec fn obeys_eq_spec() -> bool {
        true
    }

    open spec fn eq_spec(&self, other: &Self) -> bool {
        self@ == other@
    }
}

/// A clue: a specific piece of information that is linked
/// to several locations and persons.
#[derive(Debug)]
pub struct Clue {
    /// The id of the clue.
    pub id: ClueId,
    /// The locations relevant to the clue.
    pub locations: Vec<LocationId>,
    /// The persons relevant to the clue.
    pub persons: Vec<PersonId>,
    /// The actual information of the clue.
    pub information: String,
}

/// The mathematical content of a [`Clue`]: every field as a plain sequence.
pub ghost struct ClueView {
    /// The id of the clue.
    pub id: Seq<char>,
    /// The locations relevant to the clue.
    pub locations: Seq<Seq<char>>,
    /// The persons relevant to the clue.
    pub persons: Seq<Seq<char>>,
    /// The actual information of the clue.
    pub information: Seq<char>,
}

impl View for Clue {
    type V = ClueView;

    open spec fn view(&self) -> ClueView {
        ClueView {
            id: self.id@,
            locations: self.locations.deep_view(),
            persons: self.persons.deep_view(),
            information: self.information@,
        }
    }
}

impl DeepView for Clue {
    type V = ClueView;

    open spec fn deep_view(&self) -> ClueView {
        self@
    }
}

/// A primary record: a clue stored under its key.
#[derive(Debug)]
struct ClueEntry {
    key: ClueId,
    clue: Clue,
}

/// A reverse-lookup row: the clue ids referencing one person.
#[derive(Debug)]
struct PersonEntry {
    key: PersonId,
    ids: Vec<ClueId>,
}

/// A reverse-lookup row: the clue ids referencing one location.
#[derive(Debug)]
struct LocationEntry {
    key: LocationId,
    ids: Vec<ClueId>,
}

spec fn clue_keys_unique(s: Seq<ClueEntry>) -> bool {
    forall|i: int, j: int| 0 <= i < j < s.len() ==> s[i].key@ != s[j].key@
}

spec fn person_keys_unique(s: Seq<PersonEntry>) -> bool {
    forall|i: int, j: int| 0 <= i < j < s.len() ==> s[i].key@ != s[j].key@
}

spec fn location_keys_unique(s: Seq<LocationEntry>) -> bool {
    forall|i: int, j: int| 0 <= i < j < s.len() ==> s[i].key@ != s[j].key@
}

spec fn clue_map_at(s: Seq<ClueEntry>, k: Seq<char>) -> Option<ClueView> {
    if exists|i: int| 0 <= i < s.len() && s[i].key@ == k {
        Some(s[choose|i: int| 0 <= i < s.len() && s[i].key@ == k].clue@)
    } else {
        None
    }
}

spec fn person_table_at(s: Seq<PersonEntry>, p: Seq<char>) -> Seq<Seq<char>> {
    if exists|i: int| 0 <= i < s.len() && s[i].key@ == p {
        s[choose|i: int| 0 <= i < s.len() && s[i].key@ == p].ids.deep_view()
    } else {
        Seq::empty()
    }
}

spec fn location_table_at(s: Seq<LocationEntry>, l: Seq<char>) -> Seq<Seq<char>> {
    if exists|i: int| 0 <= i < s.len() && s[i].key@ == l {
        s[choose|i: int| 0 <= i < s.len() && s[i].key@ == l].ids.deep_view()
    } else {
        Seq::empty()
    }
}

proof fn lemma_clue_map_at_key(s: Seq<ClueEntry>, i: int, k: Seq<char>)
    requires
        clue_keys_unique(s),
        0 <= i < s.len(),
        s[i].key@ == k,
    ensures
        clue_map_at(s, k) == Some(s[i].clue@),
{
    let j = choose|j: int| 0 <= j < s.len() && s[j].key@ == k;
    if j < i {
        assert(s[j].key@ != s[i].key@);
    } else if i < j {
        assert(s[i].key@ != s[j].key@);
    }
}

proof fn lemma_person_table_at_key(s: Seq<PersonEntry>, i: int, p: Seq<char>)
    requires
        person_keys_unique(s),
        0 <= i < s.len(),
        s[i].key@ == p,
    ensures
        person_table_at(s, p) == s[i].ids.deep_view(),
{
    let j = choose|j: int| 0 <= j < s.len() && s[j].key@ == p;
    if j < i {
        assert(s[j].key@ != s[i].key@);
    } else if i < j {
        assert(s[i].key@ != s[j].key@);
    }
}

proof fn lemma_location_table_at_key(s: Seq<LocationEntry>, i: int, l: Seq<char>)
    requires
        location_keys_unique(s),
        0 <= i < s.len(),
        s[i].key@ == l,
    ensures
        location_table_at(s, l) == s[i].ids.deep_view(),
{
    let j = choose|j: int| 0 <= j < s.len() && s[j].key@ == l;
    if j < i {
        assert(s[j].key@ != s[i].key@);
    } else if i < j {
        assert(s[i].key@ != s[j].key@);
    }
}

/// A holder for many clues; allows looking clues up by a common
/// person or location through reverse-lookup tables built on insertion.
#[derive(Debug)]
pub struct Clues {
    clues: Vec<ClueEntry>,
    by_person: Vec<PersonEntry>,
    by_location: Vec<LocationEntry>,
}

impl Clues {
    /// Each storage table keys its rows by distinct identifiers.
    pub closed spec fn wf(self) -> bool {
        &&& clue_keys_unique(self.clues@)
        &&& person_keys_unique(self.by_person@)
        &&& location_keys_unique(self.by_location@)
    }

    /// Every stored clue sits under its own id. This holds after
    /// construction and insertion; rewriting a clue's id through
    /// `get_mut` may break it (a documented desync).
    pub closed spec fn coherent(self) -> bool {
        forall|i: int|
            0 <= i < self.clues@.len() ==> self.clues@[i].clue@.id == self.clues@[i].key@
    }

    /// The primary record stored under id `k`, if any.
    pub closed spec fn spec_get(self, k: Seq<char>) -> Option<ClueView> {
        clue_map_at(self.clues@, k)
    }

    /// The reverse-lookup sequence of clue ids for person `p`
    /// (empty if `p` has no row).
    pub closed spec fn person_ids(self, p: Seq<char>) -> Seq<Seq<char>> {
        person_table_at(self.by_person@, p)
    }

    /// The reverse-lookup sequence of clue ids for location `l`
    /// (empty if `l` has no row).
    pub closed spec fn location_ids(self, l: Seq<char>) -> Seq<Seq<char>> {
        location_table_at(self.by_location@, l)
    }

    /// Resolve a sequence of clue ids against primary storage, in order,
    /// silently dropping ids that do not resolve.
    pub open spec fn resolve_ids(self, ids: Seq<Seq<char>>) -> Seq<ClueView>
        decreases ids.len(),
    {
        if ids.len() == 0 {
            Seq::empty()
        } else {
            let rest = self.resolve_ids(ids.drop_last());
            match self.spec_get(ids.last()) {
                Some(c) => rest.push(c),
                None => rest,
            }
        }
    }

    /// What `get_by_person` returns.
    pub open spec fn query_by_person(self, p: Seq<char>) -> Seq<ClueView> {
        self.resolve_ids(self.person_ids(p))
    }

    /// What `get_by_location` returns.
    pub open spec fn query_by_location(self, l: Seq<char>) -> Seq<ClueView> {
        self.resolve_ids(self.location_ids(l))
    }

    /// What `get_by_person_and_location` returns: the person's clue ids,
    /// kept only where also listed under the location, then resolved.
    pub open spec fn query_by_person_and_location(self, p: Seq<char>, l: Seq<char>) -> Seq<
        ClueView,
    > {
        self.resolve_ids(member_filter(self.person_ids(p), self.location_ids(l)))
    }

    /// How one insertion changes the index: the primary record under the
    /// clue's id is replaced, and the clue's id is appended to the row of
    /// every person and location the clue references, once per occurrence.
    pub open spec fn insert_effect(pre: Clues, post: Clues, c: ClueView) -> bool {
        &&& forall|k: Seq<char>|
            post.spec_get(k) == (if k == c.id {
                Some(c)
            } else {
                pre.spec_get(k)
            })
        &&& forall|p: Seq<char>|
            post.person_ids(p) == pre.person_ids(p) + Seq::new(
                crate::idseq::count_occ(c.persons, p),
                |x: int| c.id,
            )
        &&& forall|l: Seq<char>|
            post.location_ids(l) == pre.location_ids(l) + Seq::new(
                crate::idseq::count_occ(c.locations, l),
                |x: int| c.id,
            )
    }

    /// Construct a new empty instance.
    pub fn new() -> (r: Clues)
        ensures
            r.wf(),
            r.coherent(),
            forall|k: Seq<char>| r.spec_get(k) is None,
            forall|p: Seq<char>| r.person_ids(p) == Seq::<Seq<char>>::empty(),
            forall|l: Seq<char>| r.location_ids(l) == Seq::<Seq<char>>::empty(),
    {
        Clues { clues: Vec::new(), by_person: Vec::new(), by_location: Vec::new() }
    }
}

impl Default for Clues {
    /// The default instance is the empty index.
    fn default() -> (r: Self)
        ensures
            r.wf(),
            r.coherent(),
            forall|k: Seq<char>| r.spec_get(k) is None,
            forall|p: Seq<char>| r.person_ids(p) == Seq::<Seq<char>>::empty(),
            forall|l: Seq<char>| r.location_ids(l) == Seq::<Seq<char>>::empty(),
    {
        Clues::new()
    }
}

fn find_clue_idx(s: &Vec<ClueEntry>, id: &ClueId) -> (r: Option<usize>)
    ensures
        match r {
            Some(i) => i < s.len() && s@[i as int].key@ == id@,
            None => forall|j: int| 0 <= j < s@.len() ==> s@[j].key@ != id@,
        },
{
    let mut i: usize = 0;
    while i < s.len()
        invariant
            i <= s.len(),
            forall|j: int| 0 <= j < i ==> s@[j].key@ != id@,
        decreases s.len() - i,
    {
        if s[i].key == *id {
            return Some(i);
        }
        i = i + 1;
    }
    None
}

fn find_person_idx(s: &Vec<PersonEntry>, key: &PersonId) -> (r: Option<usize>)
    ensures
        match r {
            Some(i) => i < s.len() && s@[i as int].key@ == key@,
            None => forall|j: int| 0 <= j < s@.len() ==> s@[j].key@ != key@,
        },
{
    let mut i: usize = 0;
    while i < s.len()
        invariant
            i <= s.len(),
            forall|j: int| 0 <= j < i ==> s@[j].key@ != key@,
        decreases s.len() - i,
    {
        if s[i].key == *key {
            return Some(i);
        }
        i = i + 1;
    }
    None
}

fn find_location_idx(s: &Vec<LocationEntry>, key: &LocationId) -> (r: Option<usize>)
    ensures
        match r {
            Some(i) => i < s.len() && s@[i as int].key@ == key@,
            None => forall|j: int| 0 <= j < s@.len() ==> s@[j].key@ != key@,
        },
{
    let mut i: usize = 0;
    while i < s.len()
        invariant
            i <= s.len(),
            forall|j: int| 0 <= j < i ==> s@[j].key@ != key@,
        decreases s.len() - i,
    {
        if s[i].key == *key {
            return Some(i);
        }
        i = i + 1;
    }
    None
}

impl Clues {
    /// Insert a new clue: append its id to every referenced person's and
    /// location's reverse-lookup row, then store it under its id,
    /// overwriting any previous record with the same id. Re-inserting an
    /// id appends fresh reverse-lookup entries without removing stale
    /// ones (documented behavior).
    pub fn insert(&mut self, clue: Clue)
        requires
            old(self).wf(),
        ensures
            final(self).wf(),
            old(self).coherent() ==> final(self).coherent(),
            Clues::insert_effect(*old(self), *final(self), clue@),
    {
        let ghost pre = *self;
        let ghost pview = clue.persons.deep_view();
        let ghost lview = clue.locations.deep_view();
        let ghost cid = clue.id@;
        let mut pi: usize = 0;
        while pi < clue.persons.len()
            invariant
                pi <= clue.persons.len(),
                pview == clue.persons.deep_view(),
                cid == clue.id@,
                person_keys_unique(self.by_person@),
                self.clues == pre.clues,
                self.by_location == pre.by_location,
                forall|q: Seq<char>|
                    self.person_ids(q) == pre.person_ids(q) + Seq::new(
                        crate::idseq::count_occ(pview.take(pi as int), q),
                        |x: int| cid,
                    ),
            decreases clue.persons.len() - pi,
        {
            let ghost before = *self;
            append_person(&mut self.by_person, &clue.persons[pi], clue.id.clone());
            proof {
                let i = pi as int;
                assert(pview[i] == clue.persons@[i]@);
                assert forall|q: Seq<char>|
                    self.person_ids(q) == pre.person_ids(q) + Seq::new(
                        crate::idseq::count_occ(pview.take(i + 1), q),
                        |x: int| cid,
                    ) by {
                    crate::idseq::lemma_count_occ_take_step(pview, q, i);
                    let n = crate::idseq::count_occ(pview.take(i), q);
                    if q == pview[i] {
                        assert(self.person_ids(q) == before.person_ids(q).push(cid));
                        assert((pre.person_ids(q) + Seq::new(n, |x: int| cid)).push(cid) =~= pre
                            .person_ids(q) + Seq::new(n + 1, |x: int| cid));
                    } else {
                        assert(self.person_ids(q) == before.person_ids(q));
                    }
                }
            }
            pi = pi + 1;
        }
        proof {
            assert(pview.take(pview.len() as int) =~= pview);
        }
        let mut li: usize = 0;
        while li < clue.locations.len()
            invariant
                li <= clue.locations.len(),
                lview == clue.locations.deep_view(),
                pview == clue.persons.deep_view(),
                cid == clue.id@,
                person_keys_unique(self.by_person@),
                location_keys_unique(self.by_location@),
                self.clues == pre.clues,
                forall|q: Seq<char>|
                    self.person_ids(q) == pre.person_ids(q) + Seq::new(
                        crate::idseq::count_occ(pview, q),
                        |x: int| cid,
                    ),
                forall|q: Seq<char>|
                    self.location_ids(q) == pre.location_ids(q) + Seq::new(
                        crate::idseq::count_occ(lview.take(li as int), q),
                        |x: int| cid,
                    ),
            decreases clue.locations.len() - li,
        {
            let ghost before = *self;
            append_location(&mut self.by_location, &clue.locations[li], clue.id.clone());
            proof {
                let i = li as int;
                assert(lview[i] == clue.locations@[i]@);
                assert forall|q: Seq<char>|
                    self.location_ids(q) == pre.location_ids(q) + Seq::new(
                        crate::idseq::count_occ(lview.take(i + 1), q),
                        |x: int| cid,
                    ) by {
                    crate::idseq::lemma_count_occ_take_step(lview, q, i);
                    let n = crate::idseq::count_occ(lview.take(i), q);
                    if q == lview[i] {
                        assert(self.location_ids(q) == before.location_ids(q).push(cid));
                        assert((pre.location_ids(q) + Seq::new(n, |x: int| cid)).push(cid) =~= pre
                            .location_ids(q) + Seq::new(n + 1, |x: int| cid));
                    } else {
                        assert(self.location_ids(q) == before.location_ids(q));
                    }
                }
                assert(self.by_person == before.by_person);
                assert forall|q: Seq<char>|
                    self.person_ids(q) == pre.person_ids(q) + Seq::new(
                        crate::idseq::count_occ(pview, q),
                        |x: int| cid,
                    ) by {
                    assert(self.person_ids(q) == person_table_at(self.by_person@, q));
                    assert(before.person_ids(q) == person_table_at(before.by_person@, q));
                    assert(self.person_ids(q) == before.person_ids(q));
                    assert(before.person_ids(q) == pre.person_ids(q) + Seq::new(
                        crate::idseq::count_occ(pview, q),
                        |x: int| cid,
                    ));
                }
            }
            li = li + 1;
        }
        proof {
            assert(lview.take(lview.len() as int) =~= lview);
        }
        let ghost mid = *self;
        let ghost cv = clue@;
        let key = clue.id.clone();
        match find_clue_idx(&self.clues, &key) {
            Some(i) => {
                let slot = &mut self.clues[i];
                *slot = ClueEntry { key, clue };
                proof {
                    let post = self.clues@;
                    let prev = mid.clues@;
                    assert(self.by_person == mid.by_person);
                    assert(self.by_location == mid.by_location);
                    assert forall|q: Seq<char>|
                        self.person_ids(q) == pre.person_ids(q) + Seq::new(
                            crate::idseq::count_occ(cv.persons, q),
                            |x: int| cv.id,
                        ) by {
                        assert(self.person_ids(q) == person_table_at(self.by_person@, q));
                        assert(mid.person_ids(q) == person_table_at(mid.by_person@, q));
                        assert(self.person_ids(q) == mid.person_ids(q));
                        assert(mid.person_ids(q) == pre.person_ids(q) + Seq::new(
                            crate::idseq::count_occ(pview, q),
                            |x: int| cid,
                        ));
                        assert(cv.persons == pview);
                        assert(cv.id == cid);
                    }
                    assert forall|q: Seq<char>|
                        self.location_ids(q) == pre.location_ids(q) + Seq::new(
                            crate::idseq::count_occ(cv.locations, q),
                            |x: int| cv.id,
                        ) by {
                        assert(self.location_ids(q) == location_table_at(self.by_location@, q));
                        assert(mid.location_ids(q) == location_table_at(mid.by_location@, q));
                        assert(self.location_ids(q) == mid.location_ids(q));
                        assert(mid.location_ids(q) == pre.location_ids(q) + Seq::new(
                            crate::idseq::count_occ(lview, q),
                            |x: int| cid,
                        ));
                        assert(cv.locations == lview);
                        assert(cv.id == cid);
                    }
                    assert(post =~= prev.update(i as int, post[i as int]));
                    assert(post[i as int].key@ == cv.id);
                    assert(post[i as int].clue@ == cv);
                    assert(forall|j: int| 0 <= j < post.len() ==> post[j].key@ == prev[j].key@);
                    assert forall|k: Seq<char>|
                        self.spec_get(k) == (if k == cv.id {
                            Some(cv)
                        } else {
                            pre.spec_get(k)
                        }) by {
                        if k == cv.id {
                            lemma_clue_map_at_key(post, i as int, k);
                        } else {
                            if exists|j: int| 0 <= j < prev.len() && prev[j].key@ == k {
                                let j = choose|j: int|
                                    0 <= j < prev.len() && prev[j].key@ == k;
                                lemma_clue_map_at_key(prev, j, k);
                                lemma_clue_map_at_key(post, j, k);
                                assert(post[j] == prev[j]);
                            } else {
                                assert(forall|j: int|
                                    0 <= j < post.len() ==> post[j].key@ != k);
                            }
                        }
                    }
                }
            }
            None => {
                self.clues.push(ClueEntry { key, clue });
                proof {
                    let post = self.clues@;
                    let prev = mid.clues@;
                    let n = prev.len() as int;
                    assert(self.by_person == mid.by_person);
                    assert(self.by_location == mid.by_location);
                    assert forall|q: Seq<char>|
                        self.person_ids(q) == pre.person_ids(q) + Seq::new(
                            crate::idseq::count_occ(cv.persons, q),
                            |x: int| cv.id,
                        ) by {
                        assert(self.person_ids(q) == person_table_at(self.by_person@, q));
                        assert(mid.person_ids(q) == person_table_at(mid.by_person@, q));
                        assert(self.person_ids(q) == mid.person_ids(q));
                        assert(mid.person_ids(q) == pre.person_ids(q) + Seq::new(
                            crate::idseq::count_occ(pview, q),
                            |x: int| cid,
                        ));
                        assert(cv.persons == pview);
                        assert(cv.id == cid);
                    }
                    assert forall|q: Seq<char>|
                        self.location_ids(q) == pre.location_ids(q) + Seq::new(
                            crate::idseq::count_occ(cv.locations, q),
                            |x: int| cv.id,
                        ) by {
                        assert(self.location_ids(q) == location_table_at(self.by_location@, q));
                        assert(mid.location_ids(q) == location_table_at(mid.by_location@, q));
                        assert(self.location_ids(q) == mid.location_ids(q));
                        assert(mid.location_ids(q) == pre.location_ids(q) + Seq::new(
                            crate::idseq::count_occ(lview, q),
                            |x: int| cid,
                        ));
                        assert(cv.locations == lview);
                        assert(cv.id == cid);
                    }
                    assert(post[n].key@ == cv.id);
                    assert(post[n].clue@ == cv);
                    assert forall|k: Seq<char>|
                        self.spec_get(k) == (if k == cv.id {
                            Some(cv)
                        } else {
                            pre.spec_get(k)
                        }) by {
                        if k == cv.id {
                            lemma_clue_map_at_key(post, n, k);
                        } else {
                            if exists|j: int| 0 <= j < prev.len() && prev[j].key@ == k {
                                let j = choose|j: int|
                                    0 <= j < prev.len() && prev[j].key@ == k;
                                lemma_clue_map_at_key(prev, j, k);
                                lemma_clue_map_at_key(post, j, k);
                                assert(post[j] == prev[j]);
                            } else {
                                assert(forall|j: int|
                                    0 <= j < post.len() ==> post[j].key@ != k);
                            }
                        }
                    }
                }
            }
        }
    }
}

impl Clues {
    /// Get a reference to a clue by its [`ClueId`].
    pub fn get(&self, clue: &ClueId) -> (r: Option<&Clue>)
        requires
            self.wf(),
        ensures
            match r {
                Some(c) => self.spec_get(clue@) == Some(c@),
                None => self.spec_get(clue@) is None,
            },
    {
        match find_clue_idx(&self.clues, clue) {
            Some(i) => {
                proof {
                    lemma_clue_map_at_key(self.clues@, i as int, clue@);
                }
                Some(&self.clues[i].clue)
            }
            None => None,
        }
    }

    /// Get all clues referencing a [`LocationId`], resolved against primary
    /// storage in reverse-lookup order; ids that no longer resolve are
    /// silently dropped.
    pub fn get_by_location<'a>(&'a self, location: &LocationId) -> (r: Vec<&'a Clue>)
        requires
            self.wf(),
        ensures
            r.deep_view() == self.query_by_location(location@),
    {
        let mut r: Vec<&'a Clue> = Vec::new();
        match find_location_idx(&self.by_location, location) {
            None => {
                proof {
                    assert(r.deep_view() =~= Seq::<ClueView>::empty());
                }
                r
            }
            Some(ei) => {
                proof {
                    lemma_location_table_at_key(self.by_location@, ei as int, location@);
                }
                let ids = &self.by_location[ei].ids;
                let ghost lseq = self.location_ids(location@);
                let mut i: usize = 0;
                while i < ids.len()
                    invariant
                        i <= ids.len(),
                        self.wf(),
                        lseq == ids.deep_view(),
                        lseq == self.location_ids(location@),
                        r.deep_view() == self.resolve_ids(lseq.take(i as int)),
                    decreases ids.len() - i,
                {
                    let ghost prev = r.deep_view();
                    match self.get(&ids[i]) {
                        Some(c) => {
                            r.push(c);
                            proof {
                                assert(r.deep_view() =~= prev.push(c@));
                            }
                        }
                        None => {}
                    }
                    proof {
                        let j = i as int;
                        assert(lseq.take(j + 1).drop_last() =~= lseq.take(j));
                        assert(lseq.take(j + 1).last() == lseq[j]);
                        assert(lseq[j] == ids@[j]@);
                    }
                    i = i + 1;
                }
                proof {
                    assert(lseq.take(lseq.len() as int) =~= lseq);
                }
                r
            }
        }
    }

    /// Get all clues referencing a [`PersonId`], resolved against primary
    /// storage in reverse-lookup order; ids that no longer resolve are
    /// silently dropped.
    pub fn get_by_person<'a>(&'a self, person: &PersonId) -> (r: Vec<&'a Clue>)
        requires
            self.wf(),
        ensures
            r.deep_view() == self.query_by_person(person@),
    {
        let mut r: Vec<&'a Clue> = Vec::new();
        match find_person_idx(&self.by_person, person) {
            None => {
                proof {
                    assert(r.deep_view() =~= Seq::<ClueView>::empty());
                }
                r
            }
            Some(ei) => {
                proof {
                    lemma_person_table_at_key(self.by_person@, ei as int, person@);
                }
                let ids = &self.by_person[ei].ids;
                let ghost pseq = self.person_ids(person@);
                let mut i: usize = 0;
                while i < ids.len()
                    invariant
                        i <= ids.len(),
                        self.wf(),
                        pseq == ids.deep_view(),
                        pseq == self.person_ids(person@),
                        r.deep_view() == self.resolve_ids(pseq.take(i as int)),
                    decreases ids.len() - i,
                {
                    let ghost prev = r.deep_view();
                    match self.get(&ids[i]) {
                        Some(c) => {
                            r.push(c);
                            proof {
                                assert(r.deep_view() =~= prev.push(c@));
                            }
                        }
                        None => {}
                    }
                    proof {
                        let j = i as int;
                        assert(pseq.take(j + 1).drop_last() =~= pseq.take(j));
                        assert(pseq.take(j + 1).last() == pseq[j]);
                        assert(pseq[j] == ids@[j]@);
                    }
                    i = i + 1;
                }
                proof {
                    assert(pseq.take(pseq.len() as int) =~= pseq);
                }
                r
            }
        }
    }

    /// Get all clues referencing both a [`PersonId`] and a [`LocationId`]:
    /// the person's clue ids drive the iteration (so duplicates there
    /// duplicate results), kept only where also listed under the location,
    /// then resolved against primary storage.
    pub fn get_by_person_and_location<'a>(
        &'a self,
        person: &PersonId,
        location: &LocationId,
    ) -> (r: Vec<&'a Clue>)
        requires
            self.wf(),
        ensures
            r.deep_view() == self.query_by_person_and_location(person@, location@),
    {
        let mut r: Vec<&'a Clue> = Vec::new();
        let empty_ids: Vec<ClueId> = Vec::new();
        let pids: &Vec<ClueId> = match find_person_idx(&self.by_person, person) {
            Some(i) => {
                proof {
                    lemma_person_table_at_key(self.by_person@, i as int, person@);
                }
                &self.by_person[i].ids
            }
            None => &empty_ids,
        };
        let lids: &Vec<ClueId> = match find_location_idx(&self.by_location, location) {
            Some(i) => {
                proof {
                    lemma_location_table_at_key(self.by_location@, i as int, location@);
                }
                &self.by_location[i].ids
            }
            None => &empty_ids,
        };
        let ghost pseq = self.person_ids(person@);
        let ghost lseq = self.location_ids(location@);
        proof {
            assert(pseq =~= pids.deep_view());
            assert(lseq =~= lids.deep_view());
        }
        let mut i: usize = 0;
        while i < pids.len()
            invariant
                i <= pids.len(),
                self.wf(),
                pseq == pids.deep_view(),
                lseq == lids.deep_view(),
                pseq == self.person_ids(person@),
                lseq == self.location_ids(location@),
                r.deep_view() == self.resolve_ids(member_filter(pseq.take(i as int), lseq)),
            decreases pids.len() - i,
        {
            let ghost prev = r.deep_view();
            let ghost mf_prev = member_filter(pseq.take(i as int), lseq);
            if ids_contains(lids, &pids[i]) {
                match self.get(&pids[i]) {
                    Some(c) => {
                        r.push(c);
                        proof {
                            assert(r.deep_view() =~= prev.push(c@));
                        }
                    }
                    None => {}
                }
            }
            proof {
                let j = i as int;
                assert(pseq.take(j + 1).drop_last() =~= pseq.take(j));
                assert(pseq.take(j + 1).last() == pseq[j]);
                assert(pseq[j] == pids@[j]@);
                if lseq.contains(pseq[j]) {
                    let mf = member_filter(pseq.take(j + 1), lseq);
                    assert(mf == mf_prev.push(pseq[j]));
                    assert(mf.drop_last() =~= mf_prev);
                    assert(mf.last() == pseq[j]);
                }
            }
            i = i + 1;
        }
        proof {
            assert(pseq.take(pseq.len() as int) =~= pseq);
        }
        r
    }
}

proof fn lemma_clue_replace(pre: Seq<ClueEntry>, i: int, e2: ClueEntry)
    requires
        clue_keys_unique(pre),
        0 <= i < pre.len(),
        e2.key@ == pre[i].key@,
    ensures
        clue_keys_unique(pre.update(i, e2)),
        forall|k: Seq<char>|
            clue_map_at(pre.update(i, e2), k) == (if k == pre[i].key@ {
                Some(e2.clue@)
            } else {
                clue_map_at(pre, k)
            }),
{
    let post = pre.update(i, e2);
    assert(forall|j: int| 0 <= j < post.len() ==> post[j].key@ == pre[j].key@);
    assert forall|k: Seq<char>|
        clue_map_at(post, k) == (if k == pre[i].key@ {
            Some(e2.clue@)
        } else {
            clue_map_at(pre, k)
        }) by {
        if k == pre[i].key@ {
            lemma_clue_map_at_key(post, i, k);
        } else {
            if exists|j: int| 0 <= j < pre.len() && pre[j].key@ == k {
                let j = choose|j: int| 0 <= j < pre.len() && pre[j].key@ == k;
                lemma_clue_map_at_key(pre, j, k);
                lemma_clue_map_at_key(post, j, k);
                assert(post[j] == pre[j]);
            } else {
                assert(forall|j: int| 0 <= j < post.len() ==> post[j].key@ != k);
            }
        }
    }
}

impl Clues {
    /// Get a mutable reference to a clue by its [`ClueId`]. Mutation
    /// through the reference rewrites the primary record only: the
    /// reverse-lookup tables are not maintained, so renaming a clue's
    /// `persons`/`locations` afterwards desynchronizes the indexes
    /// (documented limitation).
    pub fn get_mut(&mut self, clue: &ClueId) -> (r: Option<&mut Clue>)
        requires
            old(self).wf(),
        ensures
            final(self).wf(),
            r is Some ==> old(self).spec_get(clue@) == Some((*r.unwrap())@),
            r is Some ==> forall|k: Seq<char>|
                final(self).spec_get(k) == (if k == clue@ {
                    Some((*final(r.unwrap()))@)
                } else {
                    old(self).spec_get(k)
                }),
            r is Some ==> forall|p: Seq<char>| final(self).person_ids(p) == old(self).person_ids(p),
            r is Some ==> forall|l: Seq<char>|
                final(self).location_ids(l) == old(self).location_ids(l),
            r is None ==> *final(self) == *old(self) && old(self).spec_get(clue@) is None,
    {
        let ghost pre_entries = self.clues@;
        match find_clue_idx(&self.clues, clue) {
            Some(i) => {
                proof {
                    lemma_clue_map_at_key(pre_entries, i as int, clue@);
                    assert forall|e2: ClueEntry| #![trigger pre_entries.update(i as int, e2)]
                        e2.key@ == clue@ ==> {
                            &&& clue_keys_unique(pre_entries.update(i as int, e2))
                            &&& forall|k: Seq<char>|
                                clue_map_at(pre_entries.update(i as int, e2), k) == (if k
                                    == clue@ {
                                    Some(e2.clue@)
                                } else {
                                    clue_map_at(pre_entries, k)
                                })
                        } by {
                        if e2.key@ == clue@ {
                            lemma_clue_replace(pre_entries, i as int, e2);
                        }
                    }
                }
                let slot = &mut self.clues[i];
                Some(&mut slot.clue)
            }
            None => None,
        }
    }
}

/// Does `ids` contain an id whose view is `id@`?
fn ids_contains(ids: &Vec<ClueId>, id: &ClueId) -> (r: bool)
    ensures
        r == ids.deep_view().contains(id@),
{
    let mut i: usize = 0;
    while i < ids.len()
        invariant
            i <= ids.len(),
            forall|j: int| 0 <= j < i ==> ids@[j]@ != id@,
    decreases ids.len() - i,
    {
        if ids[i] == *id {
            proof {
                assert(ids.deep_view()[i as int] == id@);
            }
            return true;
        }
        i = i + 1;
    }
    proof {
        assert(forall|j: int| 0 <= j < ids.deep_view().len() ==> ids.deep_view()[j] != id@);
    }
    false
}

/// The primary record a record sequence leaves under id `k`: the last
/// record with that id, if any.
pub open spec fn clue_map_from(s: Seq<ClueView>, k: Seq<char>) -> Option<ClueView>
    decreases s.len(),
{
    if s.len() == 0 {
        None
    } else if s.last().id == k {
        Some(s.last())
    } else {
        clue_map_from(s.drop_last(), k)
    }
}

/// The person reverse-lookup row a record sequence builds for `p`: each
/// record contributes its id once per occurrence of `p` in its persons.
pub open spec fn person_table_from(s: Seq<ClueView>, p: Seq<char>) -> Seq<Seq<char>>
    decreases s.len(),
{
    if s.len() == 0 {
        Seq::empty()
    } else {
        person_table_from(s.drop_last(), p) + Seq::new(
            crate::idseq::count_occ(s.last().persons, p),
            |x: int| s.last().id,
        )
    }
}

/// The location reverse-lookup row a record sequence builds for `l`.
pub open spec fn location_table_from(s: Seq<ClueView>, l: Seq<char>) -> Seq<Seq<char>>
    decreases s.len(),
{
    if s.len() == 0 {
        Seq::empty()
    } else {
        location_table_from(s.drop_last(), l) + Seq::new(
            crate::idseq::count_occ(s.last().locations, l),
            |x: int| s.last().id,
        )
    }
}

/// Clone a clue; the copy has the same mathematical content.
fn clone_clue(c: &Clue) -> (r: Clue)
    ensures
        r@ == c@,
{
    let persons = c.persons.clone();
    let locations = c.locations.clone();
    proof {
        assert(forall|i: int| 0 <= i < c.persons@.len() ==> persons@[i] == c.persons@[i]);
        assert(forall|i: int| 0 <= i < c.locations@.len() ==> locations@[i] == c.locations@[i]);
        assert(persons.deep_view() =~= c.persons.deep_view());
        assert(locations.deep_view() =~= c.locations.deep_view());
    }
    Clue { id: c.id.clone(), locations, persons, information: c.information.clone() }
}

impl Clues {
    /// The index's tables are exactly those built from the record
    /// sequence `s`, inserted in order into an empty index.
    pub open spec fn models(self, s: Seq<ClueView>) -> bool {
        &&& forall|k: Seq<char>| #[trigger] self.spec_get(k) == clue_map_from(s, k)
        &&& forall|p: Seq<char>| #[trigger] self.person_ids(p) == person_table_from(s, p)
        &&& forall|l: Seq<char>| #[trigger] self.location_ids(l) == location_table_from(s, l)
    }

    /// Build an index from a record sequence by inserting every record in
    /// order into an empty index.
    pub fn from_clues(records: Vec<Clue>) -> (r: Clues)
        ensures
            r.wf(),
            r.coherent(),
            r.models(records.deep_view()),
    {
        let ghost s = records.deep_view();
        let mut r = Clues::new();
        proof {
            assert(s.take(0) =~= Seq::<ClueView>::empty());
            assert forall|k: Seq<char>| #[trigger] r.spec_get(k) == clue_map_from(s.take(0), k) by {
                assert(clue_map_from(s.take(0), k) is None);
            }
            assert forall|p: Seq<char>| #[trigger] r.person_ids(p) == person_table_from(
                s.take(0),
                p,
            ) by {
                assert(person_table_from(s.take(0), p) == Seq::<Seq<char>>::empty());
            }
            assert forall|l: Seq<char>| #[trigger] r.location_ids(l) == location_table_from(
                s.take(0),
                l,
            ) by {
                assert(location_table_from(s.take(0), l) == Seq::<Seq<char>>::empty());
            }
        }
        let mut i: usize = 0;
        while i < records.len()
            invariant
                i <= records.len(),
                s == records.deep_view(),
                r.wf(),
                r.coherent(),
                r.models(s.take(i as int)),
            decreases records.len() - i,
        {
            let c = clone_clue(&records[i]);
            let ghost before = r;
            let ghost cv = c@;
            r.insert(c);
            proof {
                let j = i as int;
                assert(cv == s[j]);
                assert(s.take(j + 1).drop_last() =~= s.take(j));
                assert(s.take(j + 1).last() == s[j]);
                assert forall|k: Seq<char>| #[trigger] r.spec_get(k) == clue_map_from(
                    s.take(j + 1),
                    k,
                ) by {
                    assert(before.spec_get(k) == clue_map_from(s.take(j), k));
                }
                assert forall|p: Seq<char>| #[trigger] r.person_ids(p) == person_table_from(
                    s.take(j + 1),
                    p,
                ) by {
                    assert(before.person_ids(p) == person_table_from(s.take(j), p));
                    assert(Seq::new(crate::idseq::count_occ(cv.persons, p), |x: int| cv.id)
                        =~= Seq::new(crate::idseq::count_occ(s[j].persons, p), |x: int| s[j].id));
                }
                assert forall|l: Seq<char>| #[trigger] r.location_ids(l) == location_table_from(
                    s.take(j + 1),
                    l,
                ) by {
                    assert(before.location_ids(l) == location_table_from(s.take(j), l));
                    assert(Seq::new(crate::idseq::count_occ(cv.locations, l), |x: int| cv.id)
                        =~= Seq::new(
                        crate::idseq::count_occ(s[j].locations, l),
                        |x: int| s[j].id,
                    ));
                }
            }
            i = i + 1;
        }
        proof {
            assert(s.take(s.len() as int) =~= s);
        }
        r
    }

    proof fn lemma_resolve_contains(self, ids: Seq<Seq<char>>, k: Seq<char>)
        requires
            ids.contains(k),
            self.spec_get(k) is Some,
        ensures
            self.resolve_ids(ids).contains(self.spec_get(k).unwrap()),
        decreases ids.len(),
    {
        let c = self.spec_get(k).unwrap();
        if ids.last() == k {
            let rest = self.resolve_ids(ids.drop_last());
            assert(self.resolve_ids(ids) == rest.push(c));
            assert(rest.push(c)[rest.len() as int] == c);
        } else {
            let i = choose|i: int| 0 <= i < ids.len() && ids[i] == k;
            assert(ids.drop_last()[i] == k);
            assert(ids.drop_last().contains(k));
            self.lemma_resolve_contains(ids.drop_last(), k);
            let rest = self.resolve_ids(ids.drop_last());
            let w = choose|w: int| 0 <= w < rest.len() && rest[w] == c;
            match self.spec_get(ids.last()) {
                Some(c2) => {
                    assert(self.resolve_ids(ids) == rest.push(c2));
                    assert(rest.push(c2)[w] == c);
                }
                None => {}
            }
        }
    }

    proof fn lemma_resolve_sources(self, ids: Seq<Seq<char>>, c: ClueView)
        requires
            self.resolve_ids(ids).contains(c),
        ensures
            exists|k: Seq<char>| ids.contains(k) && self.spec_get(k) == Some(c),
        decreases ids.len(),
    {
        let rest = self.resolve_ids(ids.drop_last());
        let pushed = self.spec_get(ids.last()) is Some && self.spec_get(ids.last()).unwrap() == c
            && self.resolve_ids(ids).last() == c;
        if pushed && self.resolve_ids(ids) == rest.push(c) {
            let k = ids.last();
            assert(ids[ids.len() - 1] == k);
            assert(ids.contains(k));
            assert(self.spec_get(k) == Some(c));
        } else {
            let w = choose|w: int| 0 <= w < self.resolve_ids(ids).len() && self.resolve_ids(
                ids,
            )[w] == c;
            match self.spec_get(ids.last()) {
                Some(c2) => {
                    if c2 == c {
                        let k = ids.last();
                        assert(ids[ids.len() - 1] == k);
                        assert(ids.contains(k));
                    } else {
                        assert(w < rest.len());
                        assert(rest[w] == c);
                        assert(rest.contains(c));
                        self.lemma_resolve_sources(ids.drop_last(), c);
                        let k = choose|k: Seq<char>| ids.drop_last().contains(k)
                            && self.spec_get(k) == Some(c);
                        let wi = choose|wi: int| 0 <= wi < ids.drop_last().len()
                            && ids.drop_last()[wi] == k;
                        assert(ids[wi] == k);
                        assert(ids.contains(k));
                    }
                }
                None => {
                    assert(rest.contains(c));
                    self.lemma_resolve_sources(ids.drop_last(), c);
                    let k = choose|k: Seq<char>| ids.drop_last().contains(k) && self.spec_get(k)
                        == Some(c);
                    let wi = choose|wi: int| 0 <= wi < ids.drop_last().len() && ids.drop_last()[wi]
                        == k;
                    assert(ids[wi] == k);
                    assert(ids.contains(k));
                }
            }
        }
    }
}

proof fn lemma_member_filter_sub(ids: Seq<Seq<char>>, allowed: Seq<Seq<char>>, k: Seq<char>)
    requires
        member_filter(ids, allowed).contains(k),
    ensures
        ids.contains(k),
        allowed.contains(k),
    decreases ids.len(),
{
    let rest = member_filter(ids.drop_last(), allowed);
    if allowed.contains(ids.last()) && member_filter(ids, allowed) == rest.push(ids.last()) && ids
        .last() == k {
        assert(ids[ids.len() - 1] == k);
        assert(ids.contains(k));
    } else {
        let w = choose|w: int| 0 <= w < member_filter(ids, allowed).len() && member_filter(
            ids,
            allowed,
        )[w] == k;
        if allowed.contains(ids.last()) {
            if ids.last() == k {
                assert(ids[ids.len() - 1] == k);
                assert(ids.contains(k));
            } else {
                assert(w < rest.len());
                assert(rest[w] == k);
                assert(rest.contains(k));
                lemma_member_filter_sub(ids.drop_last(), allowed, k);
                let wi = choose|wi: int| 0 <= wi < ids.drop_last().len() && ids.drop_last()[wi]
                    == k;
                assert(ids[wi] == k);
                assert(ids.contains(k));
            }
        } else {
            assert(rest.contains(k));
            lemma_member_filter_sub(ids.drop_last(), allowed, k);
            let wi = choose|wi: int| 0 <= wi < ids.drop_last().len() && ids.drop_last()[wi] == k;
            assert(ids[wi] == k);
            assert(ids.contains(k));
        }
    }
}

/// After an insertion, the inserted clue is found by every person it
/// references: `get_by_person` on any `p` in `c.persons` contains `c`.
pub proof fn lemma_insert_found_by_person(pre: Clues, post: Clues, c: ClueView, p: Seq<char>)
    requires
        Clues::insert_effect(pre, post, c),
        c.persons.contains(p),
    ensures
        post.query_by_person(p).contains(c),
{
    crate::idseq::lemma_count_occ_pos(c.persons, p);
    let ids = post.person_ids(p);
    let n = crate::idseq::count_occ(c.persons, p);
    assert(ids == pre.person_ids(p) + Seq::new(n, |x: int| c.id));
    assert(ids[ids.len() - 1] == c.id);
    assert(ids.contains(c.id));
    assert(post.spec_get(c.id) == Some(c));
    post.lemma_resolve_contains(ids, c.id);
}

/// After an insertion, the inserted clue is found by every location it
/// references: `get_by_location` on any `l` in `c.locations` contains `c`.
pub proof fn lemma_insert_found_by_location(pre: Clues, post: Clues, c: ClueView, l: Seq<char>)
    requires
        Clues::insert_effect(pre, post, c),
        c.locations.contains(l),
    ensures
        post.query_by_location(l).contains(c),
{
    crate::idseq::lemma_count_occ_pos(c.locations, l);
    let ids = post.location_ids(l);
    let n = crate::idseq::count_occ(c.locations, l);
    assert(ids == pre.location_ids(l) + Seq::new(n, |x: int| c.id));
    assert(ids[ids.len() - 1] == c.id);
    assert(ids.contains(c.id));
    assert(post.spec_get(c.id) == Some(c));
    post.lemma_resolve_contains(ids, c.id);
}

/// A combined person-and-location query answers with clues that each
/// single-key query answers with as well.
pub proof fn lemma_person_and_location_subset(c: Clues, p: Seq<char>, l: Seq<char>)
    ensures
        forall|cv: ClueView| #[trigger]
            c.query_by_person_and_location(p, l).contains(cv) ==> c.query_by_person(p).contains(
                cv,
            ) && c.query_by_location(l).contains(cv),
{
    let mf = member_filter(c.person_ids(p), c.location_ids(l));
    assert forall|cv: ClueView| #[trigger]
        c.query_by_person_and_location(p, l).contains(cv) implies c.query_by_person(p).contains(
        cv,
    ) && c.query_by_location(l).contains(cv) by {
        c.lemma_resolve_sources(mf, cv);
        let k = choose|k: Seq<char>| mf.contains(k) && c.spec_get(k) == Some(cv);
        lemma_member_filter_sub(c.person_ids(p), c.location_ids(l), k);
        c.lemma_resolve_contains(c.person_ids(p), k);
        c.lemma_resolve_contains(c.location_ids(l), k);
    }
}

/// An index built from no records answers every lookup with an empty or
/// absent result.
pub proof fn lemma_empty_index(c: Clues)
    requires
        c.models(Seq::empty()),
    ensures
        forall|k: Seq<char>| #[trigger] c.spec_get(k) is None,
        forall|p: Seq<char>| #[trigger] c.person_ids(p) == Seq::<Seq<char>>::empty(),
        forall|l: Seq<char>| #[trigger] c.location_ids(l) == Seq::<Seq<char>>::empty(),
        forall|p: Seq<char>| #[trigger] c.query_by_person(p) == Seq::<ClueView>::empty(),
        forall|l: Seq<char>| #[trigger] c.query_by_location(l) == Seq::<ClueView>::empty(),
        forall|p: Seq<char>, l: Seq<char>| #[trigger]
            c.query_by_person_and_location(p, l) == Seq::<ClueView>::empty(),
{
    assert forall|p: Seq<char>, l: Seq<char>| #[trigger]
        c.query_by_person_and_location(p, l) == Seq::<ClueView>::empty() by {
        assert(c.person_ids(p) == person_table_from(Seq::empty(), p));
        assert(c.location_ids(l) == location_table_from(Seq::empty(), l));
        assert(member_filter(Seq::empty(), c.location_ids(l)) == Seq::<Seq<char>>::empty());
    }
    assert forall|p: Seq<char>| #[trigger] c.query_by_person(p) == Seq::<ClueView>::empty() by {
        assert(c.person_ids(p) == person_table_from(Seq::empty(), p));
    }
    assert forall|l: Seq<char>| #[trigger] c.query_by_location(l) == Seq::<ClueView>::empty() by {
        assert(c.location_ids(l) == location_table_from(Seq::empty(), l));
    }
}

/// Building an index from the same record sequence twice yields
/// structurally identical primary and reverse-lookup tables.
pub proof fn lemma_build_deterministic(a: Clues, b: Clues, s: Seq<ClueView>)
    requires
        a.models(s),
        b.models(s),
    ensures
        forall|k: Seq<char>| #[trigger] a.spec_get(k) == b.spec_get(k),
        forall|p: Seq<char>| #[trigger] a.person_ids(p) == b.person_ids(p),
        forall|l: Seq<char>| #[trigger] a.location_ids(l) == b.location_ids(l),
{
    assert forall|k: Seq<char>| #[trigger] a.spec_get(k) == b.spec_get(k) by {
        assert(a.spec_get(k) == clue_map_from(s, k));
        assert(b.spec_get(k) == clue_map_from(s, k));
    }
    assert forall|p: Seq<char>| #[trigger] a.person_ids(p) == b.person_ids(p) by {
        assert(a.person_ids(p) == person_table_from(s, p));
        assert(b.person_ids(p) == person_table_from(s, p));
    }
    assert forall|l: Seq<char>| #[trigger] a.location_ids(l) == b.location_ids(l) by {
        assert(a.location_ids(l) == location_table_from(s, l));
        assert(b.location_ids(l) == location_table_from(s, l));
    }
}

proof fn lemma_clue_map_from_absent(s: Seq<ClueView>, k: Seq<char>)
    requires
        forall|i: int| 0 <= i < s.len() ==> s[i].id != k,
    ensures
        clue_map_from(s, k) is None,
    decreases s.len(),
{
    if s.len() > 0 {
        assert(forall|i: int| 0 <= i < s.drop_last().len() ==> s.drop_last()[i].id != k);
        lemma_clue_map_from_absent(s.drop_last(), k);
    }
}

proof fn lemma_person_table_from_absent(s: Seq<ClueView>, p: Seq<char>)
    requires
        forall|i: int| 0 <= i < s.len() ==> !s[i].persons.contains(p),
    ensures
        person_table_from(s, p) == Seq::<Seq<char>>::empty(),
    decreases s.len(),
{
    if s.len() > 0 {
        assert(forall|i: int|
            0 <= i < s.drop_last().len() ==> !s.drop_last()[i].persons.contains(p));
        lemma_person_table_from_absent(s.drop_last(), p);
        crate::idseq::lemma_count_occ_zero(s.last().persons, p);
        assert(person_table_from(s, p) =~= Seq::<Seq<char>>::empty());
    }
}

proof fn lemma_location_table_from_absent(s: Seq<ClueView>, l: Seq<char>)
    requires
        forall|i: int| 0 <= i < s.len() ==> !s[i].locations.contains(l),
    ensures
        location_table_from(s, l) == Seq::<Seq<char>>::empty(),
    decreases s.len(),
{
    if s.len() > 0 {
        assert(forall|i: int|
            0 <= i < s.drop_last().len() ==> !s.drop_last()[i].locations.contains(l));
        lemma_location_table_from_absent(s.drop_last(), l);
        crate::idseq::lemma_count_occ_zero(s.last().locations, l);
        assert(location_table_from(s, l) =~= Seq::<Seq<char>>::empty());
    }
}

/// Identifiers never mentioned by any record are absent from every
/// accessor: an unknown clue id has no primary record, and an unknown
/// person or location answers every query with an empty result.
pub proof fn lemma_unknown_ids(c: Clues, s: Seq<ClueView>, k: Seq<char>, p: Seq<char>, l: Seq<char>)
    requires
        c.models(s),
        forall|i: int| 0 <= i < s.len() ==> s[i].id != k,
        forall|i: int| 0 <= i < s.len() ==> !s[i].persons.contains(p),
        forall|i: int| 0 <= i < s.len() ==> !s[i].locations.contains(l),
    ensures
        c.spec_get(k) is None,
        c.person_ids(p) == Seq::<Seq<char>>::empty(),
        c.location_ids(l) == Seq::<Seq<char>>::empty(),
        c.query_by_person(p) == Seq::<ClueView>::empty(),
        c.query_by_location(l) == Seq::<ClueView>::empty(),
        c.query_by_person_and_location(p, l) == Seq::<ClueView>::empty(),
{
    lemma_clue_map_from_absent(s, k);
    lemma_person_table_from_absent(s, p);
    lemma_location_table_from_absent(s, l);
    assert(c.spec_get(k) == clue_map_from(s, k));
    assert(c.person_ids(p) == person_table_from(s, p));
    assert(c.location_ids(l) == location_table_from(s, l));
    assert(member_filter(Seq::empty(), c.location_ids(l)) == Seq::<Seq<char>>::empty());
}

/// Append `id` to the row of `key`, creating the row if absent.
fn append_person(entries: &mut Vec<PersonEntry>, key: &PersonId, id: ClueId)
    requires
        person_keys_unique(old(entries)@),
    ensures
        person_keys_unique(final(entries)@),
        forall|q: Seq<char>|
            person_table_at(final(entries)@, q) == (if q == key@ {
                person_table_at(old(entries)@, q).push(id@)
            } else {
                person_table_at(old(entries)@, q)
            }),
{
    let ghost pre = entries@;
    match find_person_idx(entries, key) {
        Some(i) => {
            let row = &mut entries[i];
            row.ids.push(id);
            proof {
                let post = entries@;
                assert(post =~= pre.update(i as int, post[i as int]));
                assert(post[i as int].key@ == key@);
                assert(post[i as int].ids.deep_view() =~= pre[i as int].ids.deep_view().push(
                    id@,
                ));
                assert(forall|j: int| 0 <= j < post.len() ==> post[j].key@ == pre[j].key@);
                assert forall|q: Seq<char>|
                    person_table_at(post, q) == (if q == key@ {
                        person_table_at(pre, q).push(id@)
                    } else {
                        person_table_at(pre, q)
                    }) by {
                    if q == key@ {
                        lemma_person_table_at_key(pre, i as int, q);
                        lemma_person_table_at_key(post, i as int, q);
                    } else {
                        if exists|j: int| 0 <= j < pre.len() && pre[j].key@ == q {
                            let j = choose|j: int| 0 <= j < pre.len() && pre[j].key@ == q;
                            lemma_person_table_at_key(pre, j, q);
                            lemma_person_table_at_key(post, j, q);
                            assert(post[j] == pre[j]);
                        } else {
                            assert(forall|j: int| 0 <= j < post.len() ==> post[j].key@ != q);
                        }
                    }
                }
            }
        }
        None => {
            let mut ids: Vec<ClueId> = Vec::new();
            ids.push(id);
            entries.push(PersonEntry { key: key.clone(), ids });
            proof {
                let post = entries@;
                let n = pre.len() as int;
                assert(post[n].key@ == key@);
                assert(post[n].ids.deep_view() =~= Seq::<Seq<char>>::empty().push(id@));
                assert forall|q: Seq<char>|
                    person_table_at(post, q) == (if q == key@ {
                        person_table_at(pre, q).push(id@)
                    } else {
                        person_table_at(pre, q)
                    }) by {
                    if q == key@ {
                        lemma_person_table_at_key(post, n, q);
                        assert(!(exists|j: int| 0 <= j < pre.len() && pre[j].key@ == q));
                    } else {
                        if exists|j: int| 0 <= j < pre.len() && pre[j].key@ == q {
                            let j = choose|j: int| 0 <= j < pre.len() && pre[j].key@ == q;
                            lemma_person_table_at_key(pre, j, q);
                            lemma_person_table_at_key(post, j, q);
                            assert(post[j] == pre[j]);
                        } else {
                            assert(forall|j: int| 0 <= j < post.len() ==> post[j].key@ != q);
                        }
                    }
                }
            }
        }
    }
}

/// Append `id` to the row of `key`, creating the row if absent.
fn append_location(entries: &mut Vec<LocationEntry>, key: &LocationId, id: ClueId)
    requires
        location_keys_unique(old(entries)@),
    ensures
        location_keys_unique(final(entries)@),
        forall|q: Seq<char>|
            location_table_at(final(entries)@, q) == (if q == key@ {
                location_table_at(old(entries)@, q).push(id@)
            } else {
                location_table_at(old(entries)@, q)
            }),
{
    let ghost pre = entries@;
    match find_location_idx(entries, key) {
        Some(i) => {
            let row = &mut entries[i];
            row.ids.push(id);
            proof {
                let post = entries@;
                assert(post =~= pre.update(i as int, post[i as int]));
                assert(post[i as int].key@ == key@);
                assert(post[i as int].ids.deep_view() =~= pre[i as int].ids.deep_view().push(
                    id@,
                ));
                assert(forall|j: int| 0 <= j < post.len() ==> post[j].key@ == pre[j].key@);
                assert forall|q: Seq<char>|
                    location_table_at(post, q) == (if q == key@ {
                        location_table_at(pre, q).push(id@)
                    } else {
                        location_table_at(pre, q)
                    }) by {
                    if q == key@ {
                        lemma_location_table_at_key(pre, i as int, q);
                        lemma_location_table_at_key(post, i as int, q);
                    } else {
                        if exists|j: int| 0 <= j < pre.len() && pre[j].key@ == q {
                            let j = choose|j: int| 0 <= j < pre.len() && pre[j].key@ == q;
                            lemma_location_table_at_key(pre, j, q);
                            lemma_location_table_at_key(post, j, q);
                            assert(post[j] == pre[j]);
                        } else {
                            assert(forall|j: int| 0 <= j < post.len() ==> post[j].key@ != q);
                        }
                    }
                }
            }
        }
        None => {
            let mut ids: Vec<ClueId> = Vec::new();
            ids.push(id);
            entries.push(LocationEntry { key: key.clone(), ids });
            proof {
                let post = entries@;
                let n = pre.len() as int;
                assert(post[n].key@ == key@);
                assert(post[n].ids.deep_view() =~= Seq::<Seq<char>>::empty().push(id@));
                assert forall|q: Seq<char>|
                    location_table_at(post, q) == (if q == key@ {
                        location_table_at(pre, q).push(id@)
                    } else {
                        location_table_at(pre, q)
                    }) by {
                    if q == key@ {
                        lemma_location_table_at_key(post, n, q);
                        assert(!(exists|j: int| 0 <= j < pre.len() && pre[j].key@ == q));
                    } else {
                        if exists|j: int| 0 <= j < pre.len() && pre[j].key@ == q {
                            let j = choose|j: int| 0 <= j < pre.len() && pre[j].key@ == q;
                            lemma_location_table_at_key(pre, j, q);
                            lemma_location_table_at_key(post, j, q);
                            assert(post[j] == pre[j]);
                        } else {
                            assert(forall|j: int| 0 <= j < post.len() ==> post[j].key@ != q);
                        }
                    }
                }
            }
        }
    }
}

/// Keep, in order, the ids of `ids` that also occur in `allowed`.
pub open spec fn member_filter(ids: Seq<Seq<char>>, allowed: Seq<Seq<char>>) -> Seq<Seq<char>>
    decreases ids.len(),
{
    if ids.len() == 0 {
        Seq::empty()
    } else {
        let rest = member_filter(ids.drop_last(), allowed);
        if allowed.contains(ids.last()) {
            rest.push(ids.last())
        } else {
            rest
        }
    }
}

} // verus!
