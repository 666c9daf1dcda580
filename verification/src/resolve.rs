//! The lifetime parameter resolver.
//!
//! Lifetime parameters bind by position: the Nth lifetime argument of a use
//! site binds to the Nth declared parameter, so a use site is sound exactly
//! when it supplies as many arguments as the definition declares; a
//! mismatch is an [`DiagKind::ArityMismatch`] and resolves no further
//! parameters for that site. When a method signature ties an input
//! reference's lifetime to the output's, the two candidate scopes unify to
//! the narrower (more deeply nested) one: the stricter bound wins, since the
//! output must not outlive whichever input it might alias.

use vstd::prelude::*;
use crate::program::{Diagnostic, DiagKind, Program, ProgramView, Stmt};
use crate::scope::ScopeNode;

verus! {

/// Whether the extent of `outer` contains the extent of `inner`: scopes are
/// numbered by a pre-order walk, so ancestry is this interval test.
pub open spec fn sc_contains(outer: ScopeNode, inner: ScopeNode) -> bool {
    outer.start <= inner.start && inner.end <= outer.end
}

/// Whether statement `i` is a use site whose supplied lifetime argument
/// count differs from what its definition declares.
pub open spec fn arity_bad(pv: ProgramView, i: int) -> bool {
    match pv.stmts[i] {
        Stmt::UseStruct { def, supplied } => (def as int) < pv.structs.len()
            && supplied != pv.structs[def as int].lifetime_params,
        _ => false,
    }
}

/// The arity diagnostics for the first `i` statements, in program order.
pub open spec fn arity_upto(pv: ProgramView, i: int) -> Seq<Diagnostic>
    decreases i,
{
    if i <= 0 {
        Seq::empty()
    } else {
        let front = arity_upto(pv, i - 1);
        if arity_bad(pv, i - 1) {
            front.push(Diagnostic { kind: DiagKind::ArityMismatch, location: (i - 1) as usize })
        } else {
            front
        }
    }
}

/// All arity diagnostics of the program, in program order.
pub open spec fn arity_diags(pv: ProgramView) -> Seq<Diagnostic> {
    arity_upto(pv, pv.stmts.len() as int)
}

/// An arity diagnostic stands at `loc` exactly when the use site at `loc`
/// mismatches; every emitted diagnostic is an arity mismatch.
pub proof fn lemma_arity_membership(pv: ProgramView, i: int, d: Diagnostic)
    requires
        0 <= i <= pv.stmts.len(),
        i <= usize::MAX,
    ensures
        arity_upto(pv, i).contains(d) <==> (d.kind == DiagKind::ArityMismatch
            && (d.location as int) < i && arity_bad(pv, d.location as int)),
    decreases i,
{
    if i > 0 {
        lemma_arity_membership(pv, i - 1, d);
        let front = arity_upto(pv, i - 1);
        if arity_bad(pv, i - 1) {
            let nd = Diagnostic { kind: DiagKind::ArityMismatch, location: (i - 1) as usize };
            assert(arity_upto(pv, i) == front.push(nd));
            if d == nd {
                assert(arity_upto(pv, i)[front.len() as int] == nd);
                assert(arity_upto(pv, i).contains(d));
            } else {
                if arity_upto(pv, i).contains(d) {
                    let k = choose|k: int|
                        0 <= k < arity_upto(pv, i).len() && arity_upto(pv, i)[k] == d;
                    assert(k < front.len() && front[k] == d);
                    assert(front.contains(d));
                }
                if front.contains(d) {
                    let k = choose|k: int| 0 <= k < front.len() && front[k] == d;
                    assert(arity_upto(pv, i)[k] == d);
                    assert(arity_upto(pv, i).contains(d));
                }
            }
        }
    }
}

/// Scans the program for lifetime-arity violations: one diagnostic per
/// mismatched use site, in program order.
pub fn arity_scan(p: &Program) -> (r: Vec<Diagnostic>)
    ensures
        r@ == arity_diags(p@),
{
    let n = p.stmts.len();
    let mut out: Vec<Diagnostic> = Vec::new();
    let mut i: usize = 0;
    while i < n
        invariant
            n == p@.stmts.len(),
            0 <= i <= n,
            out@ == arity_upto(p@, i as int),
        decreases n - i,
    {
        match p.stmts[i] {
            Stmt::UseStruct { def, supplied } => {
                if def < p.structs.len() && supplied != p.structs[def].lifetime_params {
                    out.push(Diagnostic { kind: DiagKind::ArityMismatch, location: i });
                }
            },
            _ => {},
        }
        i = i + 1;
    }
    out
}

/// The scope the unification of two candidate scopes resolves to: the
/// nested one when the first contains the second, the first otherwise.
pub open spec fn narrower_spec(scopes: Seq<ScopeNode>, a: int, b: int) -> int {
    if sc_contains(scopes[a], scopes[b]) {
        b
    } else {
        a
    }
}

/// Unification law: whenever one candidate scope contains the other, the
/// unified scope is contained in both candidates — the stricter bound wins.
pub proof fn lemma_narrower_nested(scopes: Seq<ScopeNode>, a: int, b: int)
    requires
        0 <= a < scopes.len(),
        0 <= b < scopes.len(),
        sc_contains(scopes[a], scopes[b]) || sc_contains(scopes[b], scopes[a]),
    ensures
        sc_contains(scopes[a], scopes[narrower_spec(scopes, a, b)]),
        sc_contains(scopes[b], scopes[narrower_spec(scopes, a, b)]),
{
}

/// Unifies two lifetime candidate scopes to the narrower one.
pub fn narrower(scopes: &Vec<ScopeNode>, a: usize, b: usize) -> (r: usize)
    requires
        (a as int) < scopes@.len(),
        (b as int) < scopes@.len(),
    ensures
        r as int == narrower_spec(scopes@, a as int, b as int),
        r == a || r == b,
{
    let sa = scopes[a];
    let sb = scopes[b];
    if sa.start <= sb.start && sb.end <= sa.end {
        b
    } else {
        a
    }
}

} // verus!
