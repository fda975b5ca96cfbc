use sorted::case::{Diagnostic, Failure, Location};
use sorted::syntax::{Arm, Attribute, EnumDecl, Function, Item, MatchStmt, Pattern, Stmt, Variant};
use sorted::{check, sorted};

struct Counter {
    next: u64,
}

impl Counter {
    fn place(&mut self) -> Location {
        self.next += 1;
        Location { id: self.next - 1 }
    }
}

fn lower_item(item: &syn::Item) -> Item {
    let mut places = Counter { next: 0 };
    match item {
        syn::Item::Enum(e) => Item::Enum(EnumDecl {
            variants: e
                .variants
                .iter()
                .map(|v| Variant { name: v.ident.to_string(), location: places.place() })
                .collect(),
        }),
        _ => Item::Other,
    }
}

fn lower_arm(arm: &syn::Arm, places: &mut Counter) -> Arm {
    let location = places.place();
    let pattern = match &arm.pat {
        syn::Pat::TupleStruct(p) => {
            let mut names = p.path.segments.iter().map(|s| s.ident.to_string());
            let head = names.next().unwrap();
            Pattern::Path { head, tail: names.collect(), location }
        }
        syn::Pat::Ident(p) => Pattern::Ident { name: p.ident.to_string(), location },
        syn::Pat::Wild(_) => Pattern::Wild { location },
        _ => Pattern::Unsupported { location },
    };
    Arm { pattern, guarded: arm.guard.is_some() }
}

fn lower_fn(item_fn: &syn::ItemFn) -> Function {
    let mut places = Counter { next: 0 };
    let mut stmts = Vec::new();
    for stmt in item_fn.block.stmts.iter() {
        match stmt {
            syn::Stmt::Expr(syn::Expr::Match(m), ..) => {
                let mut attrs = Vec::new();
                for attr in m.attrs.iter() {
                    let location = places.place();
                    attrs.push(match &attr.meta {
                        syn::Meta::Path(path) => {
                            Attribute::Path { head: path.segments[0].ident.to_string(), location }
                        }
                        _ => Attribute::Other { location },
                    });
                }
                let arms = m.arms.iter().map(|arm| lower_arm(arm, &mut places)).collect();
                stmts.push(Stmt::Match(MatchStmt { attrs, arms }));
            }
            _ => stmts.push(Stmt::Other),
        }
    }
    Function { stmts }
}

fn run_on_item(source: &str) -> Result<Item, Failure> {
    let item: syn::Item = syn::parse_str(source).unwrap();
    sorted(&Vec::new(), lower_item(&item))
}

fn run_on_fn(source: &str) -> (Function, Option<Diagnostic>) {
    let item_fn: syn::ItemFn = syn::parse_str(source).unwrap();
    let out = check(&Vec::new(), lower_fn(&item_fn)).unwrap();
    (out.function, out.diagnostic)
}

fn marked(function: &Function) -> usize {
    let mut n = 0;
    for stmt in function.stmts.iter() {
        if let Stmt::Match(m) = stmt {
            if m.is_marked() {
                n += 1;
            }
        }
    }
    n
}

#[test]
fn a_parsed_enum_in_order_is_accepted() {
    let out = run_on_item("pub enum Error { Fmt(fmt::Error), Io(io::Error), Utf8 { at: usize } }");
    assert!(out.is_ok());
}

#[test]
fn a_parsed_enum_out_of_order_is_reported() {
    match run_on_item("enum E { That, This, Other(u8), Those }") {
        Err(Failure::Rejected(d)) => {
            assert_eq!(d.message(), "Other should sort before That");
            assert_eq!(d.location(), Some(Location { id: 2 }));
        }
        other => panic!("unexpected result {:?}", other),
    }
}

#[test]
fn a_parsed_struct_is_inapplicable() {
    assert_eq!(
        run_on_item("struct S { b: u8, a: u8 }"),
        Err(Failure::Rejected(Diagnostic::inapplicable()))
    );
}

#[test]
fn a_parsed_match_in_order_is_accepted() {
    let (function, diagnostic) = run_on_fn(
        "fn f(e: E) -> u8 {
            let n = 1;
            #[sorted]
            match e { A => n, B::C(..) => 2, B::D(x) => x, _ => 0 }
        }",
    );
    assert_eq!(diagnostic, None);
    assert_eq!(function.stmts.len(), 2);
    assert_eq!(marked(&function), 0);
}

#[test]
fn a_parsed_match_out_of_order_is_reported_behind_the_qualifier() {
    let (function, diagnostic) = run_on_fn(
        "fn f(e: E) { #[sorted] match e { B::Y(..) => {} B::X(..) => {} B::A(..) => {} } }",
    );
    let d = diagnostic.unwrap();
    assert_eq!(d.message(), "B::X should sort before B::Y");
    assert_eq!(d.location(), Some(Location { id: 2 }));
    assert_eq!(marked(&function), 0);
}

#[test]
fn a_parsed_literal_pattern_is_unsupported() {
    let (function, diagnostic) =
        run_on_fn("fn f(n: u8) { #[sorted] match n { A => {} 1 => {} B => {} } }");
    assert_eq!(diagnostic, Some(Diagnostic::unsupported(Location { id: 2 })));
    assert_eq!(marked(&function), 0);
}

#[test]
fn a_parsed_guard_makes_its_arm_unsupported() {
    let (_, diagnostic) =
        run_on_fn("fn f(e: E) { #[sorted] match e { A => {} B if cond() => {} C => {} } }");
    assert_eq!(diagnostic, Some(Diagnostic::unsupported(Location { id: 2 })));
}

#[test]
fn a_parsed_match_without_the_marker_is_left_alone() {
    let (function, diagnostic) =
        run_on_fn("fn f(e: E) { #[allow(unused)] match e { B => {} A => {} } }");
    assert_eq!(diagnostic, None);
    match &function.stmts[0] {
        Stmt::Match(m) => assert_eq!(m.attrs, vec![Attribute::Other { location: Location { id: 0 } }]),
        other => panic!("unexpected statement {:?}", other),
    }
}

#[test]
fn a_nested_match_is_not_found() {
    let (function, diagnostic) =
        run_on_fn("fn f(e: E) { if true { #[sorted] match e { B => {} A => {} } } }");
    assert_eq!(diagnostic, None);
    assert_eq!(function, Function { stmts: vec![Stmt::Other] });
}
