use sorted::case::{Diagnostic, Location, NamedCase};
use sorted::order::less;
use sorted::validator::{validate, SeenSet};

fn case(key: &str, id: u64) -> NamedCase {
    NamedCase { key: key.to_string(), qualifier: None, location: Location { id } }
}

fn cases(keys: &[&str]) -> Vec<NamedCase> {
    let mut out = Vec::new();
    for (i, key) in keys.iter().enumerate() {
        out.push(case(key, i as u64));
    }
    out
}

fn out_of_order(d: Diagnostic) -> (NamedCase, NamedCase, String) {
    match d {
        Diagnostic::OutOfOrder { offending, neighbor, message } => (offending, neighbor, message),
        other => panic!("unexpected diagnostic {:?}", other),
    }
}

#[test]
fn an_empty_sequence_is_valid() {
    assert_eq!(validate(&cases(&[])), Ok(()));
}

#[test]
fn a_single_case_is_valid() {
    assert_eq!(validate(&cases(&["Only"])), Ok(()));
}

#[test]
fn non_decreasing_sequences_are_valid() {
    assert_eq!(validate(&cases(&["Bar", "Baz", "Foo"])), Ok(()));
    assert_eq!(validate(&cases(&["A", "B", "C", "D", "E", "F", "G"])), Ok(()));
    assert_eq!(validate(&cases(&["A", "Z", "_", "a", "z"])), Ok(()));
}

#[test]
fn equal_keys_are_permitted() {
    assert_eq!(validate(&cases(&["A", "A"])), Ok(()));
    assert_eq!(validate(&cases(&["A", "B", "B", "B", "C"])), Ok(()));
}

#[test]
fn every_sorted_listing_of_samples_is_valid() {
    let mut keys = vec!["q", "Q", "_", "m", "Mm", "M", "zz", "a", "A", "b", "_x", "é"];
    keys.sort();
    for end in 0..=keys.len() {
        assert_eq!(validate(&cases(&keys[..end])), Ok(()));
    }
}

#[test]
fn a_descent_names_the_case_it_belongs_before() {
    let d = validate(&cases(&["Foo", "Bar"])).unwrap_err();
    assert_eq!(d.message(), "Bar should sort before Foo");
    assert_eq!(d.location(), Some(Location { id: 1 }));
    let (offending, neighbor, _) = out_of_order(d);
    assert_eq!(offending, case("Bar", 1));
    assert_eq!(neighbor, case("Foo", 0));
}

#[test]
fn the_neighbor_is_the_insertion_point_not_the_predecessor() {
    let d = validate(&cases(&["A", "C", "E", "G", "D"])).unwrap_err();
    assert_eq!(d.message(), "D should sort before E");
    let (offending, neighbor, _) = out_of_order(d);
    assert_eq!(offending, case("D", 4));
    assert_eq!(neighbor, case("E", 2));
}

#[test]
fn a_key_smaller_than_all_belongs_before_the_first() {
    let d = validate(&cases(&["B", "C", "D", "A"])).unwrap_err();
    assert_eq!(d.message(), "A should sort before B");
    let (_, neighbor, _) = out_of_order(d);
    assert_eq!(neighbor.location, Location { id: 0 });
}

#[test]
fn a_repeated_key_belongs_before_its_first_occurrence() {
    let d = validate(&cases(&["A", "B", "B", "C", "B"])).unwrap_err();
    assert_eq!(d.message(), "B should sort before B");
    let (offending, neighbor, _) = out_of_order(d);
    assert_eq!(offending, case("B", 4));
    assert_eq!(neighbor, case("B", 1));
}

#[test]
fn only_the_first_descent_is_reported() {
    let d = validate(&cases(&["B", "A", "D", "C"])).unwrap_err();
    assert_eq!(d.message(), "A should sort before B");
    assert_eq!(d.location(), Some(Location { id: 1 }));
}

#[test]
fn what_follows_the_first_descent_changes_nothing() {
    let short = validate(&cases(&["M", "N", "C"])).unwrap_err();
    let long = validate(&cases(&["M", "N", "C", "A", "Z", "B"])).unwrap_err();
    assert_eq!(short, long);
}

#[test]
fn a_single_descent_is_reported_with_the_least_key_not_below() {
    let sorted_keys = ["Ab", "Ba", "Bb", "Ca", "Da", "Ea", "Fa"];
    let inserts = ["Aa", "Ac", "Bb", "Bz", "Cz", "Dz", "Ez"];
    for insert in inserts.iter() {
        let mut keys: Vec<&str> = sorted_keys.to_vec();
        keys.push(insert);
        let d = validate(&cases(&keys)).unwrap_err();
        let expected = sorted_keys.iter().find(|k| !less(k, insert)).unwrap();
        let (offending, neighbor, message) = out_of_order(d);
        assert_eq!(offending.key, *insert);
        assert_eq!(neighbor.key, *expected);
        assert_eq!(message, format!("{} should sort before {}", insert, expected));
    }
}

#[test]
fn a_qualified_case_is_named_behind_its_qualifier() {
    let mut list = cases(&["Y"]);
    list.push(NamedCase {
        key: "X".to_string(),
        qualifier: Some("B".to_string()),
        location: Location { id: 7 },
    });
    let d = validate(&list).unwrap_err();
    assert_eq!(d.message(), "B::X should sort before B::Y");
    assert_eq!(d.location(), Some(Location { id: 7 }));
}

#[test]
fn a_seen_set_accepts_in_order_and_keeps_what_it_had_on_failure() {
    let mut seen = SeenSet::new();
    assert_eq!(seen.len(), 0);
    assert_eq!(seen.accept(case("B", 0)), Ok(()));
    assert_eq!(seen.accept(case("D", 1)), Ok(()));
    assert_eq!(seen.len(), 2);
    let d = seen.accept(case("C", 2)).unwrap_err();
    assert_eq!(d.message(), "C should sort before D");
    assert_eq!(seen.len(), 2);
    assert_eq!(seen.accept(case("D", 3)), Ok(()));
    assert_eq!(seen.accept(case("E", 4)), Ok(()));
    assert_eq!(seen.len(), 4);
}

#[test]
fn the_insertion_point_is_the_first_key_not_below() {
    let mut seen = SeenSet::new();
    for (i, key) in ["A", "C", "C", "E", "G"].iter().enumerate() {
        assert_eq!(seen.accept(case(key, i as u64)), Ok(()));
    }
    assert_eq!(seen.insertion_point(""), 0);
    assert_eq!(seen.insertion_point("A"), 0);
    assert_eq!(seen.insertion_point("B"), 1);
    assert_eq!(seen.insertion_point("C"), 1);
    assert_eq!(seen.insertion_point("D"), 3);
    assert_eq!(seen.insertion_point("E"), 3);
    assert_eq!(seen.insertion_point("F"), 4);
    assert_eq!(seen.insertion_point("G"), 4);
    assert_eq!(seen.insertion_point("H"), 5);
    assert_eq!(SeenSet::new().insertion_point("A"), 0);
}

#[test]
fn diagnostics_carry_their_fixed_messages() {
    let u = Diagnostic::unsupported(Location { id: 3 });
    assert_eq!(u.message(), "unsupported by #[sorted]");
    assert_eq!(u.location(), Some(Location { id: 3 }));
    let i = Diagnostic::inapplicable();
    assert_eq!(i.message(), "expected enum or match expression");
    assert_eq!(i.location(), None);
    let o = Diagnostic::out_of_order(case("Bar", 1), case("Foo", 0));
    assert_eq!(o.message(), "Bar should sort before Foo");
    assert_eq!(o.location(), Some(Location { id: 1 }));
}

#[test]
fn a_cloned_case_equals_its_source() {
    let c = NamedCase {
        key: "K".to_string(),
        qualifier: Some("Q".to_string()),
        location: Location { id: 9 },
    };
    assert_eq!(c.clone(), c);
}
