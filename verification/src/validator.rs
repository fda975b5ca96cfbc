//! The ordering validator: accepts cases one by one for as long as their keys
//! do not decrease, and says where the first one that does belongs.

use vstd::prelude::*;
use crate::case::{keys, ordering_message, CaseView, Diagnostic, DiagnosticView, NamedCase};
use crate::order::{
    lemma_lex_asymmetric, lemma_lex_irreflexive, lemma_lex_le_transitive, lemma_lex_total,
    lemma_lex_transitive, less, lex_le, lex_less,
};

verus! {

/// No key comes before one that stands earlier in the sequence.
pub open spec fn non_decreasing(keys: Seq<Seq<char>>) -> bool {
    forall|i: int, j: int| 0 <= i <= j < keys.len() ==> lex_le(#[trigger] keys[i], #[trigger] keys[j])
}

/// The first position at or after `from` whose key does not come before
/// `key`; the length of `keys` where there is none.
pub open spec fn lower_bound_from(keys: Seq<Seq<char>>, key: Seq<char>, from: int) -> int
    decreases keys.len() - from,
{
    if 0 <= from < keys.len() && lex_less(keys[from], key) {
        lower_bound_from(keys, key, from + 1)
    } else {
        from
    }
}

/// The first position of `keys` whose key does not come before `key`: where
/// `key` is inserted into sorted `keys` to keep them sorted.
pub open spec fn lower_bound(keys: Seq<Seq<char>>, key: Seq<char>) -> int {
    lower_bound_from(keys, key, 0)
}

/// `case` may be written after the cases in `seen`: it does not sort before
/// the last of them.
pub open spec fn fits(seen: Seq<CaseView>, case: CaseView) -> bool {
    seen.len() == 0 || lex_le(seen.last().key, case.key)
}

/// The diagnostic for a `case` that does not fit after `seen`: it names the
/// case at the insertion point of its key among the keys seen.
pub open spec fn misplaced(seen: Seq<CaseView>, case: CaseView) -> DiagnosticView {
    DiagnosticView::out_of_order(case, seen[lower_bound(keys(seen), case.key)])
}

/// One step of validation: `seen` with `case` appended where it fits, the
/// diagnostic where it does not.
pub open spec fn accept(seen: Seq<CaseView>, case: CaseView) -> Result<
    Seq<CaseView>,
    DiagnosticView,
> {
    if fits(seen, case) {
        Ok(seen.push(case))
    } else {
        Err(misplaced(seen, case))
    }
}

/// What validation reports of `cases`, taken in order: nothing when every
/// case fits after those before it, else the diagnostic for the first case
/// that does not.
pub open spec fn violation(cases: Seq<CaseView>) -> Option<DiagnosticView>
    decreases cases.len(),
{
    if cases.len() == 0 {
        None
    } else {
        match violation(cases.drop_last()) {
            Some(d) => Some(d),
            None => match accept(cases.drop_last(), cases.last()) {
                Ok(_) => None,
                Err(d) => Some(d),
            },
        }
    }
}

/// What a result reports.
pub open spec fn reported(r: Result<(), Diagnostic>) -> Option<DiagnosticView> {
    match r {
        Ok(_) => None,
        Err(d) => Some(d@),
    }
}

/// The keys of a sequence with one more case are the keys of the sequence
/// with one more key.
pub proof fn lemma_keys_push(seen: Seq<CaseView>, case: CaseView)
    ensures
        keys(seen.push(case)) == keys(seen).push(case.key),
{
    assert(keys(seen.push(case)) =~= keys(seen).push(case.key));
}

/// Appending a key that does not come before the last keeps a sequence
/// non-decreasing.
pub proof fn lemma_non_decreasing_push(sorted: Seq<Seq<char>>, key: Seq<char>)
    requires
        non_decreasing(sorted),
        sorted.len() == 0 || lex_le(sorted.last(), key),
    ensures
        non_decreasing(sorted.push(key)),
{
    let longer = sorted.push(key);
    assert forall|i: int, j: int| 0 <= i <= j < longer.len() implies lex_le(
        #[trigger] longer[i],
        #[trigger] longer[j],
    ) by {
        if j < sorted.len() {
            assert(lex_le(sorted[i], sorted[j]));
        } else if i < sorted.len() {
            assert(lex_le(sorted[i], sorted.last()));
            lemma_lex_le_transitive(sorted[i], sorted.last(), key);
        } else {
            lemma_lex_irreflexive(key);
        }
    }
}

/// A position up to which every key comes before `key`, and at which the key
/// does not, is the lower bound.
pub proof fn lemma_lower_bound_is(keys: Seq<Seq<char>>, key: Seq<char>, at: int)
    requires
        0 <= at <= keys.len(),
        forall|k: int| 0 <= k < at ==> lex_less(#[trigger] keys[k], key),
        at < keys.len() ==> lex_le(key, keys[at]),
    ensures
        lower_bound(keys, key) == at,
{
    lemma_lower_bound_from(keys, key, at, 0);
}

proof fn lemma_lower_bound_from(keys: Seq<Seq<char>>, key: Seq<char>, at: int, from: int)
    requires
        0 <= from <= at <= keys.len(),
        forall|k: int| 0 <= k < at ==> lex_less(#[trigger] keys[k], key),
        at < keys.len() ==> lex_le(key, keys[at]),
    ensures
        lower_bound_from(keys, key, from) == at,
    decreases at - from,
{
    if from < at {
        assert(lex_less(keys[from], key));
        lemma_lower_bound_from(keys, key, at, from + 1);
    }
}

/// Where the lower bound lies: within the sequence or at its end, behind
/// keys that all come before `key`, and at a key that does not.
pub proof fn lemma_lower_bound_splits(keys: Seq<Seq<char>>, key: Seq<char>)
    ensures
        0 <= lower_bound(keys, key) <= keys.len(),
        forall|k: int| 0 <= k < lower_bound(keys, key) ==> lex_less(#[trigger] keys[k], key),
        lower_bound(keys, key) < keys.len() ==> lex_le(key, keys[lower_bound(keys, key)]),
{
    lemma_lower_bound_from_splits(keys, key, 0);
}

proof fn lemma_lower_bound_from_splits(keys: Seq<Seq<char>>, key: Seq<char>, from: int)
    requires
        0 <= from <= keys.len(),
    ensures
        from <= lower_bound_from(keys, key, from) <= keys.len(),
        forall|k: int|
            from <= k < lower_bound_from(keys, key, from) ==> lex_less(#[trigger] keys[k], key),
        lower_bound_from(keys, key, from) < keys.len() ==> lex_le(
            key,
            keys[lower_bound_from(keys, key, from)],
        ),
    decreases keys.len() - from,
{
    if from < keys.len() && lex_less(keys[from], key) {
        lemma_lower_bound_from_splits(keys, key, from + 1);
    }
}

/// A prefix of cases that is reported decides the whole: what follows the
/// first violation is not looked at.
pub proof fn lemma_violation_prefix(cases: Seq<CaseView>, n: int)
    requires
        0 <= n <= cases.len(),
        violation(cases.take(n)) is Some,
    ensures
        violation(cases) == violation(cases.take(n)),
    decreases cases.len() - n,
{
    if n < cases.len() {
        assert(cases.take(n + 1).drop_last() =~= cases.take(n));
        lemma_violation_prefix(cases, n + 1);
    } else {
        assert(cases.take(n) =~= cases);
    }
}

/// Keys of which each does not come before the one written just before it
/// are non-decreasing throughout.
pub proof fn lemma_adjacent_non_decreasing(keys: Seq<Seq<char>>)
    requires
        forall|k: int| 0 < k < keys.len() ==> lex_le(#[trigger] keys[k - 1], keys[k]),
    ensures
        non_decreasing(keys),
    decreases keys.len(),
{
    if keys.len() > 0 {
        let front = keys.drop_last();
        assert forall|k: int| 0 < k < front.len() implies lex_le(
            #[trigger] front[k - 1],
            front[k],
        ) by {
            assert(lex_le(keys[k - 1], keys[k]));
        }
        lemma_adjacent_non_decreasing(front);
        if front.len() > 0 {
            assert(lex_le(keys[keys.len() - 1 - 1], keys[keys.len() - 1]));
        }
        lemma_non_decreasing_push(front, keys.last());
        assert(front.push(keys.last()) =~= keys);
    }
}

/// Validation reports nothing exactly of the sequences whose keys are
/// non-decreasing.
pub proof fn lemma_valid_iff_non_decreasing(cases: Seq<CaseView>)
    ensures
        violation(cases) is None <==> non_decreasing(keys(cases)),
    decreases cases.len(),
{
    if cases.len() > 0 {
        let front = cases.drop_last();
        let last = cases.last();
        lemma_valid_iff_non_decreasing(front);
        lemma_keys_push(front, last);
        assert(front.push(last) =~= cases);
        if non_decreasing(keys(cases)) {
            assert forall|i: int, j: int| 0 <= i <= j < keys(front).len() implies lex_le(
                #[trigger] keys(front)[i],
                #[trigger] keys(front)[j],
            ) by {
                assert(lex_le(keys(cases)[i], keys(cases)[j]));
            }
            if front.len() > 0 {
                assert(lex_le(keys(cases)[front.len() - 1], keys(cases)[front.len() as int]));
            }
        }
        if violation(cases) is None {
            lemma_non_decreasing_push(keys(front), last.key);
        }
    }
}

/// A case whose key comes before the key written just before it, behind
/// cases that are in order, is the one reported, whatever follows it.
pub proof fn lemma_first_descent(cases: Seq<CaseView>, at: int)
    requires
        0 < at < cases.len(),
        non_decreasing(keys(cases.take(at))),
        lex_less(cases[at].key, cases[at - 1].key),
    ensures
        violation(cases) == Some(misplaced(cases.take(at), cases[at])),
{
    lemma_valid_iff_non_decreasing(cases.take(at));
    assert(cases.take(at + 1).drop_last() =~= cases.take(at));
    assert(cases.take(at + 1).last() == cases[at]);
    assert(cases.take(at).last() == cases[at - 1]);
    lemma_violation_prefix(cases, at + 1);
}

/// The case that a misplaced one is told to sort before is, of the cases
/// seen whose key does not come before its key, one with the least key, and
/// the first of them.
pub proof fn lemma_neighbor_is_least(seen: Seq<CaseView>, case: CaseView)
    requires
        non_decreasing(keys(seen)),
        !fits(seen, case),
    ensures
        0 <= lower_bound(keys(seen), case.key) < seen.len(),
        lex_le(case.key, seen[lower_bound(keys(seen), case.key)].key),
        forall|k: int|
            0 <= k < lower_bound(keys(seen), case.key) ==> lex_less(
                (#[trigger] seen[k]).key,
                case.key,
            ),
        forall|k: int|
            0 <= k < seen.len() && lex_le(case.key, (#[trigger] seen[k]).key) ==> lex_le(
                seen[lower_bound(keys(seen), case.key)].key,
                seen[k].key,
            ),
{
    let at = lower_bound(keys(seen), case.key);
    lemma_lower_bound_splits(keys(seen), case.key);
    if at == seen.len() {
        assert(lex_less(keys(seen)[seen.len() - 1], case.key));
        lemma_lex_asymmetric(seen.last().key, case.key);
    }
    assert(keys(seen)[at] == seen[at].key);
    assert forall|k: int| 0 <= k < at implies lex_less((#[trigger] seen[k]).key, case.key) by {
        assert(lex_less(keys(seen)[k], case.key));
    }
    assert forall|k: int|
        0 <= k < seen.len() && lex_le(case.key, (#[trigger] seen[k]).key) implies lex_le(
        seen[at].key,
        seen[k].key,
    ) by {
        if k < at {
            assert(lex_less(keys(seen)[k], case.key));
        } else {
            assert(lex_le(keys(seen)[at], keys(seen)[k]));
        }
    }
}

/// A sequence with exactly one descent, at `at`, is reported there: the
/// diagnostic names the case at `at` and, of the cases before it whose key
/// does not come before its key, one with the least key.
pub proof fn lemma_single_descent(cases: Seq<CaseView>, at: int)
    requires
        0 < at < cases.len(),
        forall|k: int|
            0 < k < cases.len() ==> (lex_less((#[trigger] cases[k]).key, cases[k - 1].key) <==> k
                == at),
    ensures
        violation(cases) matches Some(DiagnosticView::OutOfOrder { offending, neighbor, message })
            && {
            &&& offending == cases[at]
            &&& message == ordering_message(cases[at], neighbor)
            &&& exists|j: int| 0 <= j < at && neighbor == #[trigger] cases[j]
            &&& lex_le(cases[at].key, neighbor.key)
            &&& forall|k: int|
                0 <= k < at && lex_le(cases[at].key, (#[trigger] cases[k]).key) ==> lex_le(
                    neighbor.key,
                    cases[k].key,
                )
        },
{
    let seen = cases.take(at);
    assert forall|k: int| 0 < k < keys(seen).len() implies lex_le(
        #[trigger] keys(seen)[k - 1],
        keys(seen)[k],
    ) by {
        assert(!lex_less(cases[k].key, cases[k - 1].key));
    }
    lemma_adjacent_non_decreasing(keys(seen));
    assert(lex_less(cases[at].key, cases[at - 1].key));
    lemma_first_descent(cases, at);
    assert(seen.last() == cases[at - 1]);
    lemma_neighbor_is_least(seen, cases[at]);
    let j = lower_bound(keys(seen), cases[at].key);
    assert(seen[j] == cases[j]);
    assert forall|k: int|
        0 <= k < at && lex_le(cases[at].key, (#[trigger] cases[k]).key) implies lex_le(
        seen[j].key,
        cases[k].key,
    ) by {
        assert(seen[k] == cases[k]);
    }
}

/// The cases accepted so far, in the order they were written. Their keys never
/// decrease, so the place of a new key among them is found by bisection.
pub struct SeenSet {
    cases: Vec<NamedCase>,
}

impl View for SeenSet {
    type V = Seq<CaseView>;

    closed spec fn view(&self) -> Seq<CaseView> {
        self.cases.deep_view()
    }
}

impl SeenSet {
    /// The keys of the accepted cases do not decrease.
    pub open spec fn wf(&self) -> bool {
        non_decreasing(keys(self@))
    }

    /// An empty set: nothing has been seen.
    pub fn new() -> (s: SeenSet)
        ensures
            s.wf(),
            s@ == Seq::<CaseView>::empty(),
    {
        let s = SeenSet { cases: Vec::new() };
        assert(s.cases.deep_view() =~= Seq::<CaseView>::empty());
        s
    }

    /// The number of cases accepted.
    pub fn len(&self) -> (n: usize)
        ensures
            n == self@.len(),
    {
        self.cases.len()
    }

    /// The position among the accepted cases at which `key` belongs: the first
    /// whose key does not come before it.
    pub fn insertion_point(&self, key: &str) -> (at: usize)
        requires
            self.wf(),
        ensures
            at == lower_bound(keys(self@), key@),
    {
        let ghost sorted = keys(self.cases.deep_view());
        let mut lo: usize = 0;
        let mut hi: usize = self.cases.len();
        while lo < hi
            invariant
                lo <= hi <= self.cases.len(),
                sorted == keys(self.cases.deep_view()),
                non_decreasing(sorted),
                forall|k: int| 0 <= k < lo ==> lex_less(#[trigger] sorted[k], key@),
                forall|k: int| hi <= k < sorted.len() ==> lex_le(key@, #[trigger] sorted[k]),
            decreases hi - lo,
        {
            let mid: usize = lo + (hi - lo) / 2;
            let probe = &self.cases[mid];
            assert(sorted[mid as int] == probe.key@);
            if less(probe.key.as_str(), key) {
                assert forall|k: int| 0 <= k < mid + 1 implies lex_less(
                    #[trigger] sorted[k],
                    key@,
                ) by {
                    assert(lex_le(sorted[k], sorted[mid as int]));
                    lemma_lex_total(sorted[k], sorted[mid as int]);
                    if lex_less(sorted[k], sorted[mid as int]) {
                        lemma_lex_transitive(sorted[k], sorted[mid as int], key@);
                    }
                }
                lo = mid + 1;
            } else {
                assert forall|k: int| mid <= k < sorted.len() implies lex_le(
                    key@,
                    #[trigger] sorted[k],
                ) by {
                    assert(lex_le(sorted[mid as int], sorted[k]));
                    lemma_lex_le_transitive(key@, sorted[mid as int], sorted[k]);
                }
                hi = mid;
            }
        }
        proof {
            lemma_lower_bound_is(sorted, key@, lo as int);
        }
        lo
    }

    /// Takes `case` as the next one written. Where its key does not come
    /// before the last key accepted, the case is accepted. Where it does,
    /// nothing is accepted and the diagnostic names the accepted case that
    /// `case` belongs directly before.
    pub fn accept(&mut self, case: NamedCase) -> (r: Result<(), Diagnostic>)
        requires
            old(self).wf(),
        ensures
            final(self).wf(),
            match r {
                Ok(_) => accept(old(self)@, case@) == Ok::<Seq<CaseView>, DiagnosticView>(
                    final(self)@,
                ),
                Err(d) => accept(old(self)@, case@) == Err::<Seq<CaseView>, DiagnosticView>(d@)
                    && final(self)@ == old(self)@,
            },
    {
        let ghost before = self.cases.deep_view();
        let n = self.cases.len();
        if n > 0 && less(case.key.as_str(), self.cases[n - 1].key.as_str()) {
            assert(before.last().key == self.cases[n - 1].key@);
            let at = self.insertion_point(case.key.as_str());
            proof {
                lemma_lower_bound_splits(keys(before), case.key@);
                if at == n {
                    lemma_lex_asymmetric(case.key@, keys(before)[n - 1]);
                }
            }
            let neighbor = self.cases[at].clone();
            assert(neighbor@ == before[at as int]);
            Err(Diagnostic::out_of_order(case, neighbor))
        } else {
            proof {
                if n > 0 {
                    assert(before.last().key == self.cases[n - 1].key@);
                }
                lemma_keys_push(before, case@);
                lemma_non_decreasing_push(keys(before), case.key@);
            }
            self.cases.push(case);
            assert(self.cases.deep_view() =~= before.push(case@));
            Ok(())
        }
    }
}

/// Validates `cases` in the order they were written: accepts them one by one
/// and stops at the first whose key comes before the key written just before
/// it. The diagnostic names that case and the earlier case that it belongs
/// directly before.
pub fn validate(cases: &Vec<NamedCase>) -> (r: Result<(), Diagnostic>)
    ensures
        reported(r) == violation(cases.deep_view()),
        r is Ok <==> non_decreasing(keys(cases.deep_view())),
{
    let ghost all = cases.deep_view();
    let mut seen = SeenSet::new();
    let mut i: usize = 0;
    assert(all.take(0) =~= Seq::<CaseView>::empty());
    while i < cases.len()
        invariant
            i <= cases.len(),
            all == cases.deep_view(),
            seen.wf(),
            seen@ == all.take(i as int),
            violation(all.take(i as int)) is None,
        decreases cases.len() - i,
    {
        let case = cases[i].clone();
        proof {
            assert(all.take(i + 1).drop_last() =~= all.take(i as int));
            assert(all.take(i + 1).last() == case@);
        }
        match seen.accept(case) {
            Ok(_) => {},
            Err(d) => {
                proof {
                    lemma_violation_prefix(all, i + 1);
                    lemma_valid_iff_non_decreasing(all);
                }
                return Err(d);
            },
        }
        i += 1;
    }
    proof {
        assert(all.take(i as int) =~= all);
        lemma_valid_iff_non_decreasing(all);
    }
    Ok(())
}

} // verus!
