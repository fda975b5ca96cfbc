use sorted::case::{Diagnostic, Failure, Location, NamedCase};
use sorted::declaration::ordered;
use sorted::sorted;
use sorted::syntax::{EnumDecl, Item, Variant};

fn variant(name: &str, id: u64) -> Variant {
    Variant { name: name.to_string(), location: Location { id } }
}

fn decl(names: &[&str]) -> EnumDecl {
    let mut variants = Vec::new();
    for (i, name) in names.iter().enumerate() {
        variants.push(variant(name, i as u64));
    }
    EnumDecl { variants }
}

fn args(tokens: &[&str]) -> Vec<String> {
    tokens.iter().map(|t| t.to_string()).collect()
}

#[test]
fn sorted_variants_are_accepted() {
    let out = sorted(&args(&[]), Item::Enum(decl(&["Bar", "Baz", "Foo"])));
    assert_eq!(out, Ok(Item::Enum(decl(&["Bar", "Baz", "Foo"]))));
}

#[test]
fn misplaced_variant_is_reported() {
    match sorted(&args(&[]), Item::Enum(decl(&["Foo", "Bar"]))) {
        Err(Failure::Rejected(d)) => {
            assert_eq!(d.message(), "Bar should sort before Foo");
            assert_eq!(d.location(), Some(Location { id: 1 }));
            match d {
                Diagnostic::OutOfOrder { offending, neighbor, .. } => {
                    assert_eq!(offending.key, "Bar");
                    assert_eq!(offending.qualifier, None);
                    assert_eq!(neighbor.key, "Foo");
                    assert_eq!(neighbor.location, Location { id: 0 });
                }
                other => panic!("unexpected diagnostic {:?}", other),
            }
        }
        other => panic!("unexpected result {:?}", other),
    }
}

#[test]
fn an_enum_without_variants_is_accepted() {
    assert_eq!(sorted(&args(&[]), Item::Enum(decl(&[]))), Ok(Item::Enum(decl(&[]))));
    assert_eq!(ordered(&decl(&[])), Ok(()));
}

#[test]
fn an_item_that_is_no_enum_is_rejected() {
    match sorted(&args(&[]), Item::Other) {
        Err(Failure::Rejected(d)) => {
            assert_eq!(d, Diagnostic::inapplicable());
            assert_eq!(d.message(), "expected enum or match expression");
            assert_eq!(d.location(), None);
        }
        other => panic!("unexpected result {:?}", other),
    }
}

#[test]
fn arguments_are_a_usage_error_whatever_the_item() {
    let given = args(&["foo"]);
    assert_eq!(sorted(&given, Item::Enum(decl(&["Bar", "Baz", "Foo"]))), Err(Failure::Usage));
    assert_eq!(sorted(&given, Item::Enum(decl(&["Foo", "Bar"]))), Err(Failure::Usage));
    assert_eq!(sorted(&given, Item::Enum(decl(&[]))), Err(Failure::Usage));
    assert_eq!(sorted(&given, Item::Other), Err(Failure::Usage));
    assert_eq!(sorted(&args(&["a", ",", "b"]), Item::Other), Err(Failure::Usage));
}

#[test]
fn variants_are_projected_to_their_names_in_order() {
    let cases = decl(&["Zeta", "Alpha"]).extract_keys();
    assert_eq!(
        cases,
        vec![
            NamedCase { key: "Zeta".to_string(), qualifier: None, location: Location { id: 0 } },
            NamedCase { key: "Alpha".to_string(), qualifier: None, location: Location { id: 1 } },
        ]
    );
    assert_eq!(variant("V", 4).named_case().location, Location { id: 4 });
}

#[test]
fn ordered_reports_the_first_misplaced_variant_only() {
    let d = ordered(&decl(&["Apple", "Cherry", "Banana", "Aardvark"])).unwrap_err();
    assert_eq!(d.message(), "Banana should sort before Cherry");
    assert_eq!(d.location(), Some(Location { id: 2 }));
}

#[test]
fn variant_names_compare_case_sensitively() {
    assert_eq!(ordered(&decl(&["Zed", "apple"])), Ok(()));
    let d = ordered(&decl(&["apple", "Zed"])).unwrap_err();
    assert_eq!(d.message(), "Zed should sort before apple");
}
