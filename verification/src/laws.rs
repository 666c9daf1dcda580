//! The laws the validator obeys, proved once and for all programs.
//!
//! Each law is stated over [`check_spec`], which by the contract of
//! [`crate::validate::check_program`] is exactly what a run of the
//! validator returns.

use vstd::prelude::*;
use crate::borrows::{
    core_diags, creation_contained, exclusive_isolated, lemma_denied_reported,
    lemma_uncontained_reported, lemma_walk_diags_monotone, lemma_walk_exclusive_isolated,
    lemma_walk_kinds, request_denied, walk_upto,
};
use crate::program::{Diagnostic, DiagKind, ProgramView};
use crate::report::{dedup_spec, lemma_dedup_distinct, lemma_dedup_empty, lemma_dedup_membership};
use crate::resolve::{arity_bad, arity_diags, lemma_arity_membership};
use crate::scope::{build_ok, tree_of};
use crate::validate::check_spec;

verus! {

proof fn lemma_add_contains(s1: Seq<Diagnostic>, s2: Seq<Diagnostic>, d: Diagnostic)
    ensures
        (s1 + s2).contains(d) <==> s1.contains(d) || s2.contains(d),
{
    if s1.contains(d) {
        let k = choose|k: int| 0 <= k < s1.len() && s1[k] == d;
        assert((s1 + s2)[k] == d);
    }
    if s2.contains(d) {
        let k = choose|k: int| 0 <= k < s2.len() && s2[k] == d;
        assert((s1 + s2)[s1.len() + k] == d);
    }
    if (s1 + s2).contains(d) {
        let k = choose|k: int| 0 <= k < (s1 + s2).len() && (s1 + s2)[k] == d;
        if k < s1.len() {
            assert(s1[k] == d);
        } else {
            assert(s2[k - s1.len()] == d);
        }
    }
}

/// Determinism: checking is a pure function of the program, so checking the
/// same program twice yields identical diagnostic sequences. Any two
/// results that `check_program`'s contract allows for one program are
/// equal.
pub proof fn lemma_checking_deterministic(pv: ProgramView, d1: Seq<Diagnostic>, d2: Seq<Diagnostic>)
    requires
        d1 == check_spec(pv),
        d2 == check_spec(pv),
    ensures
        d1 == d2,
{
}

/// Soundness of the transition table: at every point of the core's walk
/// over any program, an exclusive borrow never has an extent overlapping
/// any other open borrow of the same binding — a request that would cause
/// such an overlap is rejected (with a `ConflictingBorrow`) rather than
/// activated, so at most one of the shared and the exclusive side is ever
/// open.
pub proof fn lemma_transition_soundness(pv: ProgramView, i: int)
    ensures
        exclusive_isolated(walk_upto(pv, tree_of(pv), i).actives),
{
    lemma_walk_exclusive_isolated(pv, tree_of(pv), i);
}

/// The diagnostic side of the transition table's soundness: whenever some
/// borrow request of a statement is rejected, the validator's result holds
/// a `ConflictingBorrow` at that statement — an overlap is never passed
/// over in silence.
pub proof fn lemma_conflict_reported(pv: ProgramView, i: int)
    requires
        build_ok(pv),
        pv.stmts.len() <= usize::MAX,
        0 <= i < pv.stmts.len(),
        request_denied(pv, tree_of(pv), i),
    ensures
        check_spec(pv).contains(
            Diagnostic { kind: DiagKind::ConflictingBorrow, location: i as usize },
        ),
{
    let t = tree_of(pv);
    let dc = Diagnostic { kind: DiagKind::ConflictingBorrow, location: i as usize };
    lemma_denied_reported(pv, t, i);
    lemma_walk_diags_monotone(pv, t, i + 1, pv.stmts.len() as int, dc);
    lemma_add_contains(arity_diags(pv), core_diags(pv, t), dc);
    lemma_dedup_membership(arity_diags(pv) + core_diags(pv, t), dc);
}

/// Containment: a program the validator accepts with no diagnostic has
/// every borrow's extent contained in its referent's scope extent.
pub proof fn lemma_accepted_containment(pv: ProgramView)
    requires
        check_spec(pv).len() == 0,
        pv.stmts.len() <= usize::MAX,
    ensures
        forall|i: int|
            0 <= i < pv.stmts.len() ==> creation_contained(pv, tree_of(pv), i),
{
    let t = tree_of(pv);
    assert(build_ok(pv));
    let raw = arity_diags(pv) + core_diags(pv, t);
    assert forall|i: int| 0 <= i < pv.stmts.len() implies creation_contained(pv, t, i) by {
        if !creation_contained(pv, t, i) {
            let dd = Diagnostic { kind: DiagKind::DanglingReference, location: i as usize };
            lemma_uncontained_reported(pv, t, i);
            lemma_walk_diags_monotone(pv, t, i + 1, pv.stmts.len() as int, dd);
            lemma_add_contains(arity_diags(pv), core_diags(pv, t), dd);
            lemma_dedup_membership(raw, dd);
            assert(check_spec(pv).contains(dd));
            assert(false);
        }
    }
}

/// Arity: the validator reports an `ArityMismatch` at a statement exactly
/// when that statement is a use site whose supplied lifetime argument count
/// differs from the declared one — and, by [`lemma_diagnostics_distinct`],
/// exactly once per such site.
pub proof fn lemma_arity_reported(pv: ProgramView, loc: usize)
    requires
        build_ok(pv),
        pv.stmts.len() <= usize::MAX,
    ensures
        check_spec(pv).contains(Diagnostic { kind: DiagKind::ArityMismatch, location: loc })
            <==> ((loc as int) < pv.stmts.len() && arity_bad(pv, loc as int)),
{
    let t = tree_of(pv);
    let d = Diagnostic { kind: DiagKind::ArityMismatch, location: loc };
    let raw = arity_diags(pv) + core_diags(pv, t);
    lemma_dedup_membership(raw, d);
    lemma_add_contains(arity_diags(pv), core_diags(pv, t), d);
    lemma_arity_membership(pv, pv.stmts.len() as int, d);
    if core_diags(pv, t).contains(d) {
        lemma_walk_kinds(pv, t, pv.stmts.len() as int, d);
    }
}

/// No diagnostic is reported twice: the result of a check holds no two
/// equal entries, so each violation of one kind at one location appears at
/// most once.
pub proof fn lemma_diagnostics_distinct(pv: ProgramView)
    ensures
        forall|j: int, k: int|
            0 <= j < k < check_spec(pv).len() ==> check_spec(pv)[j] != check_spec(pv)[k],
{
    if build_ok(pv) {
        lemma_dedup_distinct(arity_diags(pv) + core_diags(pv, tree_of(pv)));
    }
}

/// A valid program is exactly one for which no violation was discovered:
/// the verdict is empty exactly when neither pass found anything.
pub proof fn lemma_valid_means_no_raw_diags(pv: ProgramView)
    requires
        build_ok(pv),
    ensures
        check_spec(pv).len() == 0 <==> (arity_diags(pv) + core_diags(pv, tree_of(pv))).len() == 0,
{
    lemma_dedup_empty(arity_diags(pv) + core_diags(pv, tree_of(pv)));
}

} // verus!
