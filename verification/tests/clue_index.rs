use revealer::clues::{Clue, ClueId, Clues, PersonId};
use revealer::locations::LocationId;

fn clue(id: &str, persons: &[&str], locations: &[&str], information: &str) -> Clue {
    Clue {
        id: ClueId::new(String::from(id)),
        locations: locations
            .iter()
            .map(|l| LocationId::new(String::from(*l)))
            .collect(),
        persons: persons
            .iter()
            .map(|p| PersonId::new(String::from(*p)))
            .collect(),
        information: String::from(information),
    }
}

fn person(p: &str) -> PersonId {
    PersonId::new(String::from(p))
}

fn location(l: &str) -> LocationId {
    LocationId::new(String::from(l))
}

fn clue_id(c: &str) -> ClueId {
    ClueId::new(String::from(c))
}

#[test]
fn empty_clue_index_lookups() {
    let index = Clues::from_clues(Vec::new());
    assert!(index.get(&clue_id("anything")).is_none());
    assert!(index.get_by_person(&person("alice")).is_empty());
    assert!(index.get_by_location(&location("castle")).is_empty());
    assert!(index
        .get_by_person_and_location(&person("alice"), &location("castle"))
        .is_empty());
}

#[test]
fn insert_then_get() {
    let mut index = Clues::new();
    index.insert(clue("c1", &["alice"], &["castle"], "a torn letter"));
    let got = index.get(&clue_id("c1")).expect("clue must be stored");
    assert!(got.id == clue_id("c1"));
    assert!(got.information == "a torn letter");
    assert!(got.persons == vec![person("alice")]);
    assert!(got.locations == vec![location("castle")]);
}

#[test]
fn get_by_person_preserves_insertion_order() {
    let mut index = Clues::new();
    index.insert(clue("c1", &["alice"], &["castle"], "first"));
    index.insert(clue("c2", &["alice"], &["tower"], "second"));
    let found = index.get_by_person(&person("alice"));
    assert!(found.len() == 2);
    assert!(found[0].id == clue_id("c1"));
    assert!(found[1].id == clue_id("c2"));
}

#[test]
fn person_and_location_scenario() {
    let mut index = Clues::new();
    index.insert(clue("c1", &["alice"], &["castle"], "first"));
    index.insert(clue("c2", &["alice"], &["tower"], "second"));
    let found = index.get_by_person_and_location(&person("alice"), &location("castle"));
    assert!(found.len() == 1);
    assert!(found[0].id == clue_id("c1"));
}

#[test]
fn inserted_clue_found_by_every_person() {
    let mut index = Clues::new();
    index.insert(clue("c1", &["alice", "bob"], &[], "shared"));
    for p in ["alice", "bob"] {
        let found = index.get_by_person(&person(p));
        assert!(found.iter().any(|c| c.id == clue_id("c1")));
    }
}

#[test]
fn inserted_clue_found_by_every_location() {
    let mut index = Clues::new();
    index.insert(clue("c1", &[], &["castle", "tower"], "shared"));
    for l in ["castle", "tower"] {
        let found = index.get_by_location(&location(l));
        assert!(found.iter().any(|c| c.id == clue_id("c1")));
    }
}

#[test]
fn combined_query_is_subset_of_both() {
    let mut index = Clues::new();
    index.insert(clue("c1", &["alice"], &["castle"], "one"));
    index.insert(clue("c2", &["alice"], &["tower"], "two"));
    index.insert(clue("c3", &["bob"], &["castle"], "three"));
    let combined = index.get_by_person_and_location(&person("alice"), &location("castle"));
    let by_person = index.get_by_person(&person("alice"));
    let by_location = index.get_by_location(&location("castle"));
    for c in combined {
        assert!(by_person.iter().any(|d| d.id == c.id));
        assert!(by_location.iter().any(|d| d.id == c.id));
    }
}

#[test]
fn unknown_ids_are_absent_everywhere() {
    let mut index = Clues::new();
    index.insert(clue("c1", &["alice"], &["castle"], "one"));
    assert!(index.get(&clue_id("ghost")).is_none());
    assert!(index.get_by_person(&person("nobody")).is_empty());
    assert!(index.get_by_location(&location("nowhere")).is_empty());
    assert!(index
        .get_by_person_and_location(&person("nobody"), &location("castle"))
        .is_empty());
    assert!(index
        .get_by_person_and_location(&person("alice"), &location("nowhere"))
        .is_empty());
}

#[test]
fn duplicate_person_entries_duplicate_results() {
    let mut index = Clues::new();
    index.insert(clue("c1", &["alice", "alice"], &["castle"], "twice"));
    let found = index.get_by_person(&person("alice"));
    assert!(found.len() == 2);
    assert!(found[0].id == clue_id("c1"));
    assert!(found[1].id == clue_id("c1"));
    // Duplicates in the location table do not duplicate combined results:
    // the person sequence drives the iteration.
    let combined = index.get_by_person_and_location(&person("alice"), &location("castle"));
    assert!(combined.len() == 2);
}

#[test]
fn reinsert_appends_stale_reverse_entries() {
    let mut index = Clues::new();
    index.insert(clue("c1", &["alice"], &[], "first version"));
    index.insert(clue("c1", &["alice"], &[], "second version"));
    // The primary record is replaced, but the reverse table now lists the
    // id twice (documented behavior, not guarded against).
    let got = index.get(&clue_id("c1")).expect("clue must be stored");
    assert!(got.information == "second version");
    let found = index.get_by_person(&person("alice"));
    assert!(found.len() == 2);
    assert!(found.iter().all(|c| c.information == "second version"));
}

#[test]
fn get_mut_rewrites_record() {
    let mut index = Clues::new();
    index.insert(clue("c1", &["alice"], &[], "draft"));
    {
        let c = index.get_mut(&clue_id("c1")).expect("clue must be stored");
        c.information = String::from("redacted");
    }
    let got = index.get(&clue_id("c1")).expect("clue must be stored");
    assert!(got.information == "redacted");
    assert!(index.get_mut(&clue_id("ghost")).is_none());
}

#[test]
fn get_mut_does_not_maintain_reverse_tables() {
    let mut index = Clues::new();
    index.insert(clue("c1", &["alice"], &[], "one"));
    {
        let c = index.get_mut(&clue_id("c1")).expect("clue must be stored");
        c.persons = vec![person("bob")];
    }
    // The reverse table still answers for the old person and not the new
    // one: a documented desync tolerated at query time.
    assert!(index.get_by_person(&person("alice")).len() == 1);
    assert!(index.get_by_person(&person("bob")).is_empty());
}

#[test]
fn rebuild_from_same_records_is_identical() {
    let records = || {
        vec![
            clue("c1", &["alice"], &["castle"], "one"),
            clue("c2", &["bob", "alice"], &["tower", "castle"], "two"),
        ]
    };
    let a = Clues::from_clues(records());
    let b = Clues::from_clues(records());
    for p in ["alice", "bob", "nobody"] {
        let fa = a.get_by_person(&person(p));
        let fb = b.get_by_person(&person(p));
        assert!(fa.len() == fb.len());
        assert!(fa.iter().zip(fb.iter()).all(|(x, y)| x.id == y.id));
    }
    for l in ["castle", "tower", "nowhere"] {
        let fa = a.get_by_location(&location(l));
        let fb = b.get_by_location(&location(l));
        assert!(fa.len() == fb.len());
        assert!(fa.iter().zip(fb.iter()).all(|(x, y)| x.id == y.id));
    }
}
