use revealer::locations::{LocationDraft, LocationId, Locations};

fn draft(id: &str, name: &str, parents: &[&str], info: Option<&str>) -> LocationDraft {
    LocationDraft {
        id: LocationId::new(String::from(id)),
        name: String::from(name),
        parent_locations: parents
            .iter()
            .map(|p| LocationId::new(String::from(*p)))
            .collect(),
        info: info.map(String::from),
    }
}

fn location_id(l: &str) -> LocationId {
    LocationId::new(String::from(l))
}

#[test]
fn castle_tower_children_and_parents() {
    let index = Locations::from_drafts(vec![
        draft("castle", "The Castle", &[], None),
        draft("tower", "The Tower", &["castle"], None),
    ]);
    let children = index.iter_children(&location_id("castle"));
    assert!(children.len() == 1);
    assert!(children[0].id == location_id("tower"));
    let parents = index.iter_parents(&location_id("tower"));
    assert!(parents.len() == 1);
    assert!(parents[0].id == location_id("castle"));
    assert!(index.iter_children(&location_id("tower")).is_empty());
}

#[test]
fn empty_location_index_lookups() {
    let index = Locations::from_drafts(Vec::new());
    assert!(index.get(&location_id("anywhere")).is_none());
    assert!(index.iter_parents(&location_id("anywhere")).is_empty());
    assert!(index.iter_children(&location_id("anywhere")).is_empty());
}

#[test]
fn unknown_location_id_is_absent_everywhere() {
    let index = Locations::from_drafts(vec![draft("castle", "The Castle", &[], None)]);
    assert!(index.get(&location_id("swamp")).is_none());
    assert!(index.iter_parents(&location_id("swamp")).is_empty());
    assert!(index.iter_children(&location_id("swamp")).is_empty());
}

#[test]
fn locations_without_children_get_explicit_empty_lists() {
    let index = Locations::from_drafts(vec![
        draft("castle", "The Castle", &[], None),
        draft("tower", "The Tower", &["castle"], None),
    ]);
    let tower = index.get(&location_id("tower")).expect("tower is stored");
    assert!(tower.children_locations.is_empty());
    let castle = index.get(&location_id("castle")).expect("castle is stored");
    assert!(castle.children_locations == vec![location_id("tower")]);
}

#[test]
fn phantom_parent_is_tolerated() {
    // A parent id that names no stored record has no effect on the child
    // tables, and resolving it is silently dropped.
    let index = Locations::from_drafts(vec![draft("tower", "The Tower", &["mirage"], None)]);
    assert!(index.get(&location_id("mirage")).is_none());
    assert!(index.iter_parents(&location_id("tower")).is_empty());
    assert!(index.iter_children(&location_id("mirage")).is_empty());
    let tower = index.get(&location_id("tower")).expect("tower is stored");
    assert!(tower.parent_locations == vec![location_id("mirage")]);
}

#[test]
fn children_are_consistent_with_parents_after_build() {
    let index = Locations::from_drafts(vec![
        draft("realm", "The Realm", &[], None),
        draft("castle", "The Castle", &["realm"], None),
        draft("tower", "The Tower", &["castle", "realm"], None),
    ]);
    for id in ["realm", "castle", "tower"] {
        let here = index.get(&location_id(id)).expect("record is stored");
        let own_id = location_id(id);
        for child_id in &here.children_locations {
            let child = index.get(child_id).expect("child must be stored");
            assert!(child.parent_locations.contains(&own_id));
        }
    }
}

#[test]
fn children_preserve_file_order() {
    let index = Locations::from_drafts(vec![
        draft("realm", "The Realm", &[], None),
        draft("castle", "The Castle", &["realm"], None),
        draft("tower", "The Tower", &["realm"], None),
    ]);
    let children = index.iter_children(&location_id("realm"));
    assert!(children.len() == 2);
    assert!(children[0].id == location_id("castle"));
    assert!(children[1].id == location_id("tower"));
}

#[test]
fn duplicate_draft_id_last_one_wins() {
    let index = Locations::from_drafts(vec![
        draft("castle", "Old Name", &[], None),
        draft("castle", "New Name", &[], Some("rebuilt")),
    ]);
    let castle = index.get(&location_id("castle")).expect("castle is stored");
    assert!(castle.name == "New Name");
    assert!(castle.info == Some(String::from("rebuilt")));
}

#[test]
fn duplicate_parent_entries_duplicate_children() {
    let index = Locations::from_drafts(vec![
        draft("castle", "The Castle", &[], None),
        draft("tower", "The Tower", &["castle", "castle"], None),
    ]);
    let children = index.iter_children(&location_id("castle"));
    assert!(children.len() == 2);
    assert!(children[0].id == location_id("tower"));
    assert!(children[1].id == location_id("tower"));
}

#[test]
fn location_get_mut_updates_record() {
    let mut index = Locations::from_drafts(vec![draft("castle", "The Castle", &[], None)]);
    {
        let castle = index.get_mut(&location_id("castle")).expect("castle is stored");
        castle.info = Some(String::from("besieged"));
    }
    let castle = index.get(&location_id("castle")).expect("castle is stored");
    assert!(castle.info == Some(String::from("besieged")));
    assert!(index.get_mut(&location_id("swamp")).is_none());
}

#[test]
fn rebuild_from_same_drafts_is_identical() {
    let drafts = || {
        vec![
            draft("realm", "The Realm", &[], Some("wide")),
            draft("castle", "The Castle", &["realm"], None),
            draft("tower", "The Tower", &["castle"], None),
        ]
    };
    let a = Locations::from_drafts(drafts());
    let b = Locations::from_drafts(drafts());
    for id in ["realm", "castle", "tower"] {
        let la = a.get(&location_id(id)).expect("stored in a");
        let lb = b.get(&location_id(id)).expect("stored in b");
        assert!(la.name == lb.name);
        assert!(la.parent_locations == lb.parent_locations);
        assert!(la.children_locations == lb.children_locations);
        assert!(la.info == lb.info);
    }
}

#[test]
fn new_location_index_is_empty() {
    let index = Locations::new();
    assert!(index.get(&location_id("castle")).is_none());
}
