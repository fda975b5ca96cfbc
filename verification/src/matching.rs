//! Validation of the arms of a marked match statement, and removal of the
//! marker.

use vstd::prelude::*;
use crate::case::{CaseView, Diagnostic, DiagnosticView, Failure, FailureView};
use crate::syntax::{
    lemma_first_marked_is, lemma_strip_idempotent, lemma_strip_unmarks, Arm, ArmView, Function,
    FunctionView, Stmt, StmtView,
};
use crate::validator::{accept, reported, violation, SeenSet};

verus! {

/// One step over the arms of a match: an arm that has a key is accepted after
/// the cases seen, or reported where its key does not fit; an arm that has
/// none is reported at its pattern.
pub open spec fn accept_arm(seen: Seq<CaseView>, arm: ArmView) -> Result<
    Seq<CaseView>,
    DiagnosticView,
> {
    match arm.named_case() {
        Some(case) => accept(seen, case),
        None => Err(DiagnosticView::unsupported(arm.pattern.location())),
    }
}

/// The arms taken in source order: the cases accepted when every arm is, else
/// the diagnostic for the first arm that is not. Arms behind that one play no
/// part.
pub open spec fn scan_arms(arms: Seq<ArmView>) -> Result<Seq<CaseView>, DiagnosticView>
    decreases arms.len(),
{
    if arms.len() == 0 {
        Ok(Seq::empty())
    } else {
        match scan_arms(arms.drop_last()) {
            Ok(seen) => accept_arm(seen, arms.last()),
            Err(d) => Err(d),
        }
    }
}

/// What validation reports of the arms of a match.
pub open spec fn match_violation(arms: Seq<ArmView>) -> Option<DiagnosticView> {
    match scan_arms(arms) {
        Ok(_) => None,
        Err(d) => Some(d),
    }
}

/// A prefix of arms that is reported decides the whole.
pub proof fn lemma_scan_arms_prefix(arms: Seq<ArmView>, n: int)
    requires
        0 <= n <= arms.len(),
        scan_arms(arms.take(n)) is Err,
    ensures
        scan_arms(arms) == scan_arms(arms.take(n)),
    decreases arms.len() - n,
{
    if n < arms.len() {
        assert(arms.take(n + 1).drop_last() =~= arms.take(n));
        lemma_scan_arms_prefix(arms, n + 1);
    } else {
        assert(arms.take(n) =~= arms);
    }
}

/// Arms of which a prefix is reported are reported as that prefix is: the
/// run ends at the first violation and no arm behind it is looked at.
pub proof fn lemma_first_violation_decides(arms: Seq<ArmView>, n: int)
    requires
        0 <= n <= arms.len(),
        match_violation(arms.take(n)) is Some,
    ensures
        match_violation(arms) == match_violation(arms.take(n)),
{
    lemma_scan_arms_prefix(arms, n);
}

/// An arm without a key, behind arms that are in order, is the one reported,
/// whatever follows it: no arm behind it is reported for its order.
pub proof fn lemma_unsupported_ends_run(arms: Seq<ArmView>, at: int)
    requires
        0 <= at < arms.len(),
        match_violation(arms.take(at)) is None,
        arms[at].named_case() is None,
    ensures
        match_violation(arms) == Some(DiagnosticView::unsupported(arms[at].pattern.location())),
{
    assert(arms.take(at + 1).drop_last() =~= arms.take(at));
    assert(arms.take(at + 1).last() == arms[at]);
    lemma_scan_arms_prefix(arms, at + 1);
}

/// The cases of arms that all have a key.
pub open spec fn arm_cases(arms: Seq<ArmView>) -> Seq<CaseView> {
    arms.map_values(|a: ArmView| a.named_case()->0)
}

/// Arms that all have a key are validated as their cases are: as a sequence
/// of named cases like any other.
pub proof fn lemma_keyed_arms(arms: Seq<ArmView>)
    requires
        forall|k: int| 0 <= k < arms.len() ==> (#[trigger] arms[k]).named_case() is Some,
    ensures
        match_violation(arms) == violation(arm_cases(arms)),
        match_violation(arms) is None ==> scan_arms(arms) == Ok::<
            Seq<CaseView>,
            DiagnosticView,
        >(arm_cases(arms)),
    decreases arms.len(),
{
    if arms.len() > 0 {
        let front = arms.drop_last();
        assert forall|k: int| 0 <= k < front.len() implies (#[trigger] front[k]).named_case() is Some by {
            assert(front[k] == arms[k]);
        }
        lemma_keyed_arms(front);
        assert(arm_cases(arms).drop_last() =~= arm_cases(front));
        assert(arm_cases(arms).last() == arms.last().named_case()->0);
        assert(arms.last().named_case() is Some);
        if match_violation(front) is None {
            assert(arm_cases(front).push(arms.last().named_case()->0) =~= arm_cases(arms));
        }
    } else {
        assert(arm_cases(arms) =~= Seq::<CaseView>::empty());
    }
}

/// Validates the arms of a match in source order. Each arm is reduced to its
/// case and accepted after the cases before it. The first arm that has no
/// key, or whose key comes before the key of the arm written just before it,
/// ends the run with its diagnostic; the arms behind it are not looked at.
pub fn ordered_match(arms: &Vec<Arm>) -> (r: Result<(), Diagnostic>)
    ensures
        reported(r) == match_violation(arms.deep_view()),
{
    let ghost all = arms.deep_view();
    let mut seen = SeenSet::new();
    let mut i: usize = 0;
    assert(all.take(0) =~= Seq::<ArmView>::empty());
    while i < arms.len()
        invariant
            i <= arms.len(),
            all == arms.deep_view(),
            seen.wf(),
            scan_arms(all.take(i as int)) == Ok::<Seq<CaseView>, DiagnosticView>(seen@),
        decreases arms.len() - i,
    {
        let arm = &arms[i];
        proof {
            assert(all.take(i + 1).drop_last() =~= all.take(i as int));
            assert(all.take(i + 1).last() == arm@);
        }
        match arm.named_case() {
            Some(case) => {
                match seen.accept(case) {
                    Ok(_) => {},
                    Err(d) => {
                        proof {
                            lemma_scan_arms_prefix(all, i + 1);
                        }
                        return Err(d);
                    },
                }
            },
            None => {
                proof {
                    lemma_scan_arms_prefix(all, i + 1);
                }
                return Err(Diagnostic::unsupported(arm.pattern.location()));
            },
        }
        i += 1;
    }
    assert(all.take(i as int) =~= all);
    Ok(())
}

/// Finds the arms to validate: those of the first statement, directly in the
/// body, that is a match carrying the marker. Matches nested in other
/// statements are not found.
pub fn get_arms(item_fn: &Function) -> (r: Option<&Vec<Arm>>)
    ensures
        match r {
            Some(arms) => item_fn@.marked_arms() == Some(arms.deep_view()),
            None => item_fn@.marked_arms() is None,
        },
{
    let mut i: usize = 0;
    while i < item_fn.stmts.len()
        invariant
            i <= item_fn.stmts.len(),
            forall|k: int| 0 <= k < i ==> !(#[trigger] item_fn@.stmts[k]).is_marked(),
        decreases item_fn.stmts.len() - i,
    {
        match &item_fn.stmts[i] {
            Stmt::Match(m) => {
                if m.is_marked() {
                    proof {
                        assert(item_fn@.stmts[i as int] == StmtView::Match(m@));
                        lemma_first_marked_is(item_fn@.stmts, i as int);
                    }
                    return Some(&m.arms);
                }
            },
            Stmt::Other => {},
        }
        assert(!item_fn@.stmts[i as int].is_marked());
        i += 1;
    }
    proof {
        lemma_first_marked_is(item_fn@.stmts, i as int);
    }
    None
}

/// Removes the marker from every match statement, directly in the body, that
/// carries it. Other attributes, the arms and all other statements stay as
/// they are, in their order.
pub fn remove_attr(item_fn: Function) -> (r: Function)
    ensures
        r@ == item_fn@.strip(),
{
    let ghost all = item_fn.stmts.deep_view();
    let Function { stmts } = item_fn;
    let mut out: Vec<Stmt> = Vec::new();
    for stmt in it: stmts
        invariant
            all == stmts.deep_view(),
            it.seq() == stmts@,
            out.len() == it.index(),
            forall|k: int| 0 <= k < out.len() ==> (#[trigger] out[k])@ == all[k].strip(),
    {
        match stmt {
            Stmt::Match(m) => {
                out.push(Stmt::Match(m.strip()));
            },
            Stmt::Other => {
                out.push(Stmt::Other);
            },
        }
    }
    assert(out.deep_view() =~= all.map_values(|s: StmtView| s.strip()));
    Function { stmts: out }
}

/// What a run over a function gives back: the function without the marker,
/// and the diagnostic, if there is one, to report beside it.
#[derive(Debug, PartialEq, Eq)]
pub struct Checked {
    pub function: Function,
    pub diagnostic: Option<Diagnostic>,
}

/// The result of a run over a function, as a mathematical value.
pub struct CheckedView {
    pub function: FunctionView,
    pub diagnostic: Option<DiagnosticView>,
}

impl View for Checked {
    type V = CheckedView;

    open spec fn view(&self) -> CheckedView {
        CheckedView {
            function: self.function@,
            diagnostic: match self.diagnostic {
                Some(d) => Some(d@),
                None => None,
            },
        }
    }
}

/// What a run over `item_fn` with arguments `args` gives. With arguments
/// given nothing is examined. Otherwise the marker is removed in every case,
/// and the arms of the first marked match statement, if there is one, are
/// validated.
pub open spec fn check_outcome(args: Seq<Seq<char>>, item_fn: FunctionView) -> Result<
    CheckedView,
    FailureView,
> {
    if args.len() > 0 {
        Err(FailureView::Usage)
    } else {
        Ok(
            CheckedView {
                function: item_fn.strip(),
                diagnostic: match item_fn.marked_arms() {
                    Some(arms) => match_violation(arms),
                    None => None,
                },
            },
        )
    }
}

/// A second run over what a first run gave back finds no marked match
/// statement: it reports nothing and changes nothing.
pub proof fn lemma_rerun_is_trivial(item_fn: FunctionView)
    ensures
        check_outcome(Seq::empty(), item_fn.strip()) == Ok::<CheckedView, FailureView>(
            CheckedView { function: item_fn.strip(), diagnostic: None },
        ),
{
    lemma_strip_idempotent(item_fn);
    lemma_strip_unmarks(item_fn);
}

/// Validates the first marked match statement of a function and removes the
/// marker. `args` are the arguments given with the request; none are
/// accepted. The function comes back without the marker whether its arms are
/// in order, are not, or were never looked at.
pub fn check(args: &Vec<String>, item_fn: Function) -> (r: Result<Checked, Failure>)
    ensures
        match r {
            Ok(c) => check_outcome(args.deep_view(), item_fn@) == Ok::<CheckedView, FailureView>(
                c@,
            ),
            Err(f) => check_outcome(args.deep_view(), item_fn@) == Err::<CheckedView, FailureView>(
                f@,
            ),
        },
        args.len() > 0 <==> r is Err,
        r is Err ==> r == Err::<Checked, Failure>(Failure::Usage),
{
    if args.len() > 0 {
        return Err(Failure::Usage);
    }
    let diagnostic = match get_arms(&item_fn) {
        Some(arms) => match ordered_match(arms) {
            Ok(_) => None,
            Err(d) => Some(d),
        },
        None => None,
    };
    let function = remove_attr(item_fn);
    Ok(Checked { function, diagnostic })
}

} // verus!
