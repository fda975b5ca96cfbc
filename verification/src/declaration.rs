//! Validation of the variants of an enum declaration.

use vstd::prelude::*;
use crate::case::{keys, Diagnostic, DiagnosticView, Failure, FailureView};
use crate::syntax::{EnumDecl, Item, ItemView};
use crate::validator::{non_decreasing, reported, validate, violation};

verus! {

/// Validates the variants of an enum in declaration order: each is ordered
/// by its name.
pub fn ordered(item: &EnumDecl) -> (r: Result<(), Diagnostic>)
    ensures
        reported(r) == violation(item@.cases()),
        r is Ok <==> non_decreasing(keys(item@.cases())),
{
    let cases = item.extract_keys();
    validate(&cases)
}

/// What a run over `item` with arguments `args` gives. With arguments given
/// nothing is examined. An item that is not an enum is rejected as it
/// stands. An enum comes back as it is when its variants are in order.
pub open spec fn sorted_outcome(args: Seq<Seq<char>>, item: ItemView) -> Result<
    ItemView,
    FailureView,
> {
    if args.len() > 0 {
        Err(FailureView::Usage)
    } else {
        match item {
            ItemView::Enum(e) => match violation(e.cases()) {
                Some(d) => Err(FailureView::Rejected(d)),
                None => Ok(item),
            },
            ItemView::Other => Err(FailureView::Rejected(DiagnosticView::inapplicable())),
        }
    }
}

/// Validates an item that was asked to be sorted. `args` are the arguments
/// given with the request; none are accepted. On success the item comes back
/// unchanged.
pub fn sorted(args: &Vec<String>, item: Item) -> (r: Result<Item, Failure>)
    ensures
        match r {
            Ok(out) => out == item && sorted_outcome(args.deep_view(), item@) == Ok::<
                ItemView,
                FailureView,
            >(item@),
            Err(f) => sorted_outcome(args.deep_view(), item@) == Err::<ItemView, FailureView>(f@),
        },
        args.len() > 0 ==> r == Err::<Item, Failure>(Failure::Usage),
{
    if args.len() > 0 {
        return Err(Failure::Usage);
    }
    match &item {
        Item::Enum(e) => {
            match ordered(e) {
                Ok(_) => {},
                Err(d) => {
                    return Err(Failure::Rejected(d));
                },
            }
        },
        Item::Other => {
            return Err(Failure::Rejected(Diagnostic::inapplicable()));
        },
    }
    Ok(item)
}

} // verus!
