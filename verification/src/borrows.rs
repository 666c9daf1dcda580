//! The borrow checker core.
//!
//! A single linear pass over the statements in program order. Each binding
//! is, at any point, in one of the states of a small machine —
//! [`BindingState::Unborrowed`], [`BindingState::SharedBorrowed`] with a
//! count, or [`BindingState::ExclusiveBorrowed`] — derived from the borrows
//! whose extents are still open. A request that the transition table rejects
//! is a [`DiagKind::ConflictingBorrow`]; a borrow whose extent is not
//! contained in its referent's scope is a [`DiagKind::DanglingReference`].
//! Both are recorded and checking continues; a rejected borrow is never
//! activated.

use vstd::prelude::*;
use crate::program::{BorrowKind, Diagnostic, DiagKind, Program, ProgramView, Stmt};
use crate::resolve::{narrower, narrower_spec};
use crate::scope::{ScopeTree, TreeView, tree_wf};

verus! {

/// A borrow whose extent is still open: its referent binding, its kind, and
/// the last statement index of its extent.
#[derive(Clone, Copy, Debug, PartialEq, Eq, Structural)]
pub struct ActiveBorrow {
    pub referent: usize,
    pub kind: BorrowKind,
    pub end: usize,
}

/// The borrow state of one binding.
#[derive(Clone, Copy, Debug, PartialEq, Eq, Structural)]
pub enum BindingState {
    /// No open borrow.
    Unborrowed,
    /// `count` open shared borrows and no exclusive one.
    SharedBorrowed { count: usize },
    /// One open exclusive borrow and nothing else.
    ExclusiveBorrowed,
}

/// The transition table: a shared borrow is granted unless an exclusive one
/// is open; an exclusive borrow (including a reassignment of the bound
/// value) is granted only when no borrow at all is open.
pub open spec fn grants(st: BindingState, kind: BorrowKind) -> bool {
    match kind {
        BorrowKind::Shared => !(st is ExclusiveBorrowed),
        BorrowKind::Exclusive => st is Unborrowed,
    }
}

/// The open borrows that survive into statement `i`: release happens at the
/// end of a borrow's extent.
pub open spec fn retain_live(s: Seq<ActiveBorrow>, i: int) -> Seq<ActiveBorrow>
    decreases s.len(),
{
    if s.len() == 0 {
        Seq::empty()
    } else {
        let front = retain_live(s.drop_last(), i);
        if s.last().end >= i {
            front.push(s.last())
        } else {
            front
        }
    }
}

/// How many open shared borrows of binding `b` the set holds.
pub open spec fn shared_count(s: Seq<ActiveBorrow>, b: int) -> nat
    decreases s.len(),
{
    if s.len() == 0 {
        0
    } else {
        let c = shared_count(s.drop_last(), b);
        if s.last().referent == b && s.last().kind is Shared {
            c + 1
        } else {
            c
        }
    }
}

/// Whether the set holds an open exclusive borrow of binding `b`.
pub open spec fn has_exclusive(s: Seq<ActiveBorrow>, b: int) -> bool
    decreases s.len(),
{
    if s.len() == 0 {
        false
    } else {
        has_exclusive(s.drop_last(), b) || (s.last().referent == b
            && s.last().kind is Exclusive)
    }
}

/// How many open borrows of binding `b` the set holds, of either kind.
pub open spec fn total_count(s: Seq<ActiveBorrow>, b: int) -> nat
    decreases s.len(),
{
    if s.len() == 0 {
        0
    } else {
        let c = total_count(s.drop_last(), b);
        if s.last().referent == b {
            c + 1
        } else {
            c
        }
    }
}

/// The state of binding `b`, derived from the open borrows.
pub open spec fn state_of(s: Seq<ActiveBorrow>, b: int) -> BindingState {
    if has_exclusive(s, b) {
        BindingState::ExclusiveBorrowed
    } else if shared_count(s, b) > 0 {
        BindingState::SharedBorrowed { count: shared_count(s, b) as usize }
    } else {
        BindingState::Unborrowed
    }
}

/// The walker's state after some prefix of the statements: the borrows
/// whose extents are still open, and the diagnostics found so far.
#[verifier::ext_equal]
pub ghost struct WalkSt {
    pub actives: Seq<ActiveBorrow>,
    pub diags: Seq<Diagnostic>,
}

/// The last statement index of the extent of a borrow created at statement
/// `i`: the statement itself for a temporary, the end of the innermost
/// scope for a borrow held by a binding of that scope.
pub open spec fn bound_extent_end(t: TreeView, i: int, temp: bool) -> usize {
    if temp {
        i as usize
    } else {
        t.scopes[t.stmt_scope[i] as int].end
    }
}

/// Whether an extent reaching from statement `i` to `ext_end` stays inside
/// the scope of the referent binding — the no-dangling rule.
pub open spec fn extent_contained(t: TreeView, referent: usize, i: int, ext_end: usize) -> bool {
    let rs = t.scopes[t.binding_scope[referent as int] as int];
    rs.start <= i && i <= rs.end && ext_end <= rs.end
}

/// One borrow creation: the transition table is consulted, the containment
/// rule is checked, and the borrow is activated only when granted.
pub open spec fn borrow_event(
    st: WalkSt,
    t: TreeView,
    referent: usize,
    kind: BorrowKind,
    i: int,
    ext_end: usize,
) -> WalkSt {
    let granted = grants(state_of(st.actives, referent as int), kind);
    let d1 = if granted {
        st.diags
    } else {
        st.diags.push(Diagnostic { kind: DiagKind::ConflictingBorrow, location: i as usize })
    };
    let d2 = if extent_contained(t, referent, i, ext_end) {
        d1
    } else {
        d1.push(Diagnostic { kind: DiagKind::DanglingReference, location: i as usize })
    };
    let acts = if granted {
        st.actives.push(ActiveBorrow { referent, kind, end: ext_end })
    } else {
        st.actives
    };
    WalkSt { actives: acts, diags: d2 }
}

/// One step of the walk, on statement `i`: expired borrows are released,
/// then the statement's own requests are checked.
pub open spec fn walk_step(pv: ProgramView, t: TreeView, st0: WalkSt, i: int) -> WalkSt {
    let st = WalkSt { actives: retain_live(st0.actives, i), diags: st0.diags };
    match pv.stmts[i] {
        Stmt::TakeBorrow { referent, kind, temp } => borrow_event(
            st,
            t,
            referent,
            kind,
            i,
            bound_extent_end(t, i, temp),
        ),
        Stmt::Assign { target } => {
            if grants(state_of(st.actives, target as int), BorrowKind::Exclusive) {
                st
            } else {
                WalkSt {
                    diags: st.diags.push(
                        Diagnostic { kind: DiagKind::ConflictingBorrow, location: i as usize },
                    ),
                    ..st
                }
            }
        },
        Stmt::CallTied { left, right } => {
            let u = narrower_spec(
                t.scopes,
                t.binding_scope[left as int] as int,
                t.binding_scope[right as int] as int,
            );
            let ext_end = t.scopes[u].end;
            let st1 = borrow_event(st, t, left, BorrowKind::Shared, i, ext_end);
            borrow_event(st1, t, right, BorrowKind::Shared, i, ext_end)
        },
        _ => st,
    }
}

/// The walker's state after the first `i` statements.
pub open spec fn walk_upto(pv: ProgramView, t: TreeView, i: int) -> WalkSt
    decreases i,
{
    if i <= 0 {
        WalkSt { actives: Seq::empty(), diags: Seq::empty() }
    } else {
        walk_step(pv, t, walk_upto(pv, t, i - 1), i - 1)
    }
}

/// The diagnostics of the whole walk, in program order.
pub open spec fn core_diags(pv: ProgramView, t: TreeView) -> Seq<Diagnostic> {
    walk_upto(pv, t, pv.stmts.len() as int).diags
}

/// Computes the state of binding `b` from the open borrows.
pub fn binding_state(actives: &Vec<ActiveBorrow>, b: usize) -> (r: BindingState)
    ensures
        r == state_of(actives@, b as int),
{
    let n = actives.len();
    let mut excl = false;
    let mut cnt: usize = 0;
    let mut j: usize = 0;
    while j < n
        invariant
            n == actives@.len(),
            0 <= j <= n,
            excl == has_exclusive(actives@.take(j as int), b as int),
            cnt == shared_count(actives@.take(j as int), b as int),
            cnt <= j,
        decreases n - j,
    {
        let a = actives[j];
        proof {
            assert(actives@.take(j as int + 1).drop_last() =~= actives@.take(j as int));
            assert(actives@.take(j as int + 1).last() == actives@[j as int]);
        }
        if a.referent == b {
            match a.kind {
                BorrowKind::Exclusive => {
                    excl = true;
                },
                BorrowKind::Shared => {
                    cnt = cnt + 1;
                },
            }
        }
        j = j + 1;
    }
    proof {
        assert(actives@.take(n as int) =~= actives@);
    }
    if excl {
        BindingState::ExclusiveBorrowed
    } else if cnt > 0 {
        BindingState::SharedBorrowed { count: cnt }
    } else {
        BindingState::Unborrowed
    }
}

/// Whether the transition table grants a request of `kind` in state `st`.
pub fn grants_request(st: BindingState, kind: BorrowKind) -> (r: bool)
    ensures
        r == grants(st, kind),
{
    match kind {
        BorrowKind::Shared => !matches!(st, BindingState::ExclusiveBorrowed),
        BorrowKind::Exclusive => matches!(st, BindingState::Unborrowed),
    }
}

/// Releases every borrow whose extent ended before statement `i`.
fn release_expired(actives: &Vec<ActiveBorrow>, i: usize) -> (r: Vec<ActiveBorrow>)
    ensures
        r@ == retain_live(actives@, i as int),
{
    let n = actives.len();
    let mut out: Vec<ActiveBorrow> = Vec::new();
    let mut j: usize = 0;
    while j < n
        invariant
            n == actives@.len(),
            0 <= j <= n,
            out@ == retain_live(actives@.take(j as int), i as int),
        decreases n - j,
    {
        let a = actives[j];
        proof {
            assert(actives@.take(j as int + 1).drop_last() =~= actives@.take(j as int));
            assert(actives@.take(j as int + 1).last() == actives@[j as int]);
        }
        if a.end >= i {
            out.push(a);
        }
        j = j + 1;
    }
    proof {
        assert(actives@.take(n as int) =~= actives@);
    }
    out
}

/// Applies one borrow creation to the live state, recording its
/// diagnostics and activating the borrow when the transition table grants
/// it.
fn apply_borrow(
    actives: &mut Vec<ActiveBorrow>,
    diags: &mut Vec<Diagnostic>,
    t: &ScopeTree,
    referent: usize,
    kind: BorrowKind,
    i: usize,
    ext_end: usize,
)
    requires
        (referent as int) < t@.binding_scope.len(),
        (t@.binding_scope[referent as int] as int) < t@.scopes.len(),
    ensures
        ({
            let w = borrow_event(
                WalkSt { actives: old(actives)@, diags: old(diags)@ },
                t@,
                referent,
                kind,
                i as int,
                ext_end,
            );
            final(actives)@ == w.actives && final(diags)@ == w.diags
        }),
{
    let st = binding_state(actives, referent);
    let granted = grants_request(st, kind);
    if !granted {
        diags.push(Diagnostic { kind: DiagKind::ConflictingBorrow, location: i });
    }
    let rs = t.scopes[t.binding_scope[referent]];
    if !(rs.start <= i && i <= rs.end && ext_end <= rs.end) {
        diags.push(Diagnostic { kind: DiagKind::DanglingReference, location: i });
    }
    if granted {
        actives.push(ActiveBorrow { referent, kind, end: ext_end });
    }
}

/// Walks the statements in program order over the scope tree, releasing
/// borrows at the ends of their extents and checking every borrow request
/// against the transition table and the containment rule.
pub fn borrow_walk(p: &Program, t: &ScopeTree) -> (r: Vec<Diagnostic>)
    requires
        tree_wf(p@, t@),
    ensures
        r@ == core_diags(p@, t@),
{
    let n = p.stmts.len();
    let mut actives: Vec<ActiveBorrow> = Vec::new();
    let mut diags: Vec<Diagnostic> = Vec::new();
    let mut i: usize = 0;
    while i < n
        invariant
            n == p@.stmts.len(),
            0 <= i <= n,
            tree_wf(p@, t@),
            actives@ == walk_upto(p@, t@, i as int).actives,
            diags@ == walk_upto(p@, t@, i as int).diags,
        decreases n - i,
    {
        let mut live = release_expired(&actives, i);
        match p.stmts[i] {
            Stmt::TakeBorrow { referent, kind, temp } => {
                let ext_end = if temp {
                    i
                } else {
                    t.scopes[t.stmt_scope[i]].end
                };
                apply_borrow(&mut live, &mut diags, t, referent, kind, i, ext_end);
            },
            Stmt::Assign { target } => {
                let st = binding_state(&live, target);
                if !grants_request(st, BorrowKind::Exclusive) {
                    diags.push(Diagnostic { kind: DiagKind::ConflictingBorrow, location: i });
                }
            },
            Stmt::CallTied { left, right } => {
                let u = narrower(&t.scopes, t.binding_scope[left], t.binding_scope[right]);
                let ext_end = t.scopes[u].end;
                apply_borrow(&mut live, &mut diags, t, left, BorrowKind::Shared, i, ext_end);
                apply_borrow(&mut live, &mut diags, t, right, BorrowKind::Shared, i, ext_end);
            },
            _ => {},
        }
        actives = live;
        i = i + 1;
    }
    diags
}

/// Exclusivity of the open borrows: whenever an exclusive borrow of a
/// binding is open, it is the only open borrow of that binding.
pub open spec fn exclusive_isolated(s: Seq<ActiveBorrow>) -> bool {
    forall|b: int| has_exclusive(s, b) ==> total_count(s, b) == 1
}

proof fn lemma_retain_has_exclusive(s: Seq<ActiveBorrow>, i: int, b: int)
    ensures
        has_exclusive(retain_live(s, i), b) ==> has_exclusive(s, b),
    decreases s.len(),
{
    if s.len() > 0 {
        lemma_retain_has_exclusive(s.drop_last(), i, b);
        let front = retain_live(s.drop_last(), i);
        if s.last().end >= i {
            assert(retain_live(s, i) == front.push(s.last()));
            assert(front.push(s.last()).drop_last() =~= front);
            assert(front.push(s.last()).last() == s.last());
        }
    }
}

proof fn lemma_retain_total_le(s: Seq<ActiveBorrow>, i: int, b: int)
    ensures
        total_count(retain_live(s, i), b) <= total_count(s, b),
    decreases s.len(),
{
    if s.len() > 0 {
        lemma_retain_total_le(s.drop_last(), i, b);
        let front = retain_live(s.drop_last(), i);
        if s.last().end >= i {
            assert(retain_live(s, i) == front.push(s.last()));
            assert(retain_live(s, i).drop_last() =~= front);
        }
    }
}

proof fn lemma_has_exclusive_total(s: Seq<ActiveBorrow>, b: int)
    ensures
        has_exclusive(s, b) ==> total_count(s, b) >= 1,
    decreases s.len(),
{
    if s.len() > 0 {
        lemma_has_exclusive_total(s.drop_last(), b);
    }
}

proof fn lemma_unborrowed_total(s: Seq<ActiveBorrow>, b: int)
    ensures
        !has_exclusive(s, b) && shared_count(s, b) == 0 ==> total_count(s, b) == 0,
    decreases s.len(),
{
    if s.len() > 0 {
        lemma_unborrowed_total(s.drop_last(), b);
    }
}

proof fn lemma_push_counts(s: Seq<ActiveBorrow>, a: ActiveBorrow, b: int)
    ensures
        has_exclusive(s.push(a), b) == (has_exclusive(s, b) || (a.referent == b
            && a.kind is Exclusive)),
        total_count(s.push(a), b) == total_count(s, b) + if a.referent == b {
            1int
        } else {
            0int
        },
{
    assert(s.push(a).drop_last() =~= s);
    assert(s.push(a).last() == a);
}

proof fn lemma_retain_isolated(s: Seq<ActiveBorrow>, i: int)
    requires
        exclusive_isolated(s),
    ensures
        exclusive_isolated(retain_live(s, i)),
{
    assert forall|b: int| has_exclusive(retain_live(s, i), b) implies total_count(
        retain_live(s, i),
        b,
    ) == 1 by {
        lemma_retain_has_exclusive(s, i, b);
        lemma_retain_total_le(s, i, b);
        lemma_has_exclusive_total(retain_live(s, i), b);
    }
}

proof fn lemma_event_isolated(
    st: WalkSt,
    t: TreeView,
    referent: usize,
    kind: BorrowKind,
    i: int,
    ext_end: usize,
)
    requires
        exclusive_isolated(st.actives),
    ensures
        exclusive_isolated(borrow_event(st, t, referent, kind, i, ext_end).actives),
{
    let granted = grants(state_of(st.actives, referent as int), kind);
    if granted {
        let a = ActiveBorrow { referent, kind, end: ext_end };
        assert forall|b: int| has_exclusive(st.actives.push(a), b) implies total_count(
            st.actives.push(a),
            b,
        ) == 1 by {
            lemma_push_counts(st.actives, a, b);
            if a.referent == b && a.kind is Exclusive {
                lemma_unborrowed_total(st.actives, b);
            } else if has_exclusive(st.actives, b) {
                if a.referent == b {
                    assert(state_of(st.actives, referent as int) is ExclusiveBorrowed);
                }
            }
        }
    }
}

/// The exclusivity law holds of the walk at every step: the checker never
/// lets an exclusive borrow's extent overlap any other borrow of the same
/// binding — a request that would do so is rejected with a
/// `ConflictingBorrow` instead of being activated.
pub proof fn lemma_walk_exclusive_isolated(pv: ProgramView, t: TreeView, i: int)
    ensures
        exclusive_isolated(walk_upto(pv, t, i).actives),
    decreases i,
{
    if i <= 0 {
    } else {
        lemma_walk_exclusive_isolated(pv, t, i - 1);
        let st0 = walk_upto(pv, t, i - 1);
        let st = WalkSt { actives: retain_live(st0.actives, i - 1), diags: st0.diags };
        lemma_retain_isolated(st0.actives, i - 1);
        match pv.stmts[i - 1] {
            Stmt::TakeBorrow { referent, kind, temp } => {
                lemma_event_isolated(
                    st,
                    t,
                    referent,
                    kind,
                    i - 1,
                    bound_extent_end(t, i - 1, temp),
                );
            },
            Stmt::CallTied { left, right } => {
                let u = narrower_spec(
                    t.scopes,
                    t.binding_scope[left as int] as int,
                    t.binding_scope[right as int] as int,
                );
                let ext_end = t.scopes[u].end;
                let st1 = borrow_event(st, t, left, BorrowKind::Shared, i - 1, ext_end);
                lemma_event_isolated(st, t, left, BorrowKind::Shared, i - 1, ext_end);
                lemma_event_isolated(st1, t, right, BorrowKind::Shared, i - 1, ext_end);
            },
            _ => {},
        }
    }
}

proof fn lemma_push_contains(s: Seq<Diagnostic>, x: Diagnostic, d: Diagnostic)
    requires
        s.contains(d),
    ensures
        s.push(x).contains(d),
{
    let k = choose|k: int| 0 <= k < s.len() && s[k] == d;
    assert(s.push(x)[k] == d);
}

/// Diagnostics only accumulate: what some step of the walk has found, every
/// later step still reports.
pub proof fn lemma_walk_diags_monotone(pv: ProgramView, t: TreeView, i: int, j: int, d: Diagnostic)
    requires
        0 <= i <= j,
        walk_upto(pv, t, i).diags.contains(d),
    ensures
        walk_upto(pv, t, j).diags.contains(d),
    decreases j - i,
{
    if j > i {
        lemma_walk_diags_monotone(pv, t, i, j - 1, d);
        let st0 = walk_upto(pv, t, j - 1);
        let st = WalkSt { actives: retain_live(st0.actives, j - 1), diags: st0.diags };
        match pv.stmts[j - 1] {
            Stmt::TakeBorrow { referent, kind, temp } => {
                lemma_event_contains(st, t, referent, kind, j - 1, bound_extent_end(t, j - 1, temp), d);
            },
            Stmt::Assign { .. } => {
                if walk_upto(pv, t, j).diags != st.diags {
                    lemma_push_contains(
                        st.diags,
                        Diagnostic { kind: DiagKind::ConflictingBorrow, location: (j - 1) as usize },
                        d,
                    );
                }
            },
            Stmt::CallTied { left, right } => {
                let u = narrower_spec(
                    t.scopes,
                    t.binding_scope[left as int] as int,
                    t.binding_scope[right as int] as int,
                );
                let ext_end = t.scopes[u].end;
                let st1 = borrow_event(st, t, left, BorrowKind::Shared, j - 1, ext_end);
                lemma_event_contains(st, t, left, BorrowKind::Shared, j - 1, ext_end, d);
                lemma_event_contains(st1, t, right, BorrowKind::Shared, j - 1, ext_end, d);
            },
            _ => {},
        }
    }
}

proof fn lemma_event_contains(
    st: WalkSt,
    t: TreeView,
    referent: usize,
    kind: BorrowKind,
    i: int,
    ext_end: usize,
    d: Diagnostic,
)
    requires
        st.diags.contains(d),
    ensures
        borrow_event(st, t, referent, kind, i, ext_end).diags.contains(d),
{
    let granted = grants(state_of(st.actives, referent as int), kind);
    let d1 = if granted {
        st.diags
    } else {
        st.diags.push(Diagnostic { kind: DiagKind::ConflictingBorrow, location: i as usize })
    };
    if !granted {
        lemma_push_contains(
            st.diags,
            Diagnostic { kind: DiagKind::ConflictingBorrow, location: i as usize },
            d,
        );
    }
    if !extent_contained(t, referent, i, ext_end) {
        lemma_push_contains(
            d1,
            Diagnostic { kind: DiagKind::DanglingReference, location: i as usize },
            d,
        );
    }
}

/// Whether statement `i` creates a borrow whose extent stays inside its
/// referent's scope — for a tied call, inside the scopes of both bindings
/// the result might alias.
pub open spec fn creation_contained(pv: ProgramView, t: TreeView, i: int) -> bool {
    match pv.stmts[i] {
        Stmt::TakeBorrow { referent, kind, temp } => extent_contained(
            t,
            referent,
            i,
            bound_extent_end(t, i, temp),
        ),
        Stmt::CallTied { left, right } => {
            let u = narrower_spec(
                t.scopes,
                t.binding_scope[left as int] as int,
                t.binding_scope[right as int] as int,
            );
            extent_contained(t, left, i, t.scopes[u].end) && extent_contained(
                t,
                right,
                i,
                t.scopes[u].end,
            )
        },
        _ => true,
    }
}

/// A borrow creation that breaks the containment rule is reported: the walk
/// holds a `DanglingReference` at that statement.
pub proof fn lemma_uncontained_reported(pv: ProgramView, t: TreeView, i: int)
    requires
        0 <= i < pv.stmts.len(),
        i < usize::MAX,
        !creation_contained(pv, t, i),
    ensures
        walk_upto(pv, t, i + 1).diags.contains(
            Diagnostic { kind: DiagKind::DanglingReference, location: i as usize },
        ),
{
    let st0 = walk_upto(pv, t, i);
    let st = WalkSt { actives: retain_live(st0.actives, i), diags: st0.diags };
    let dd = Diagnostic { kind: DiagKind::DanglingReference, location: i as usize };
    match pv.stmts[i] {
        Stmt::TakeBorrow { referent, kind, temp } => {
            let ext_end = bound_extent_end(t, i, temp);
            let granted = grants(state_of(st.actives, referent as int), kind);
            let d1 = if granted {
                st.diags
            } else {
                st.diags.push(Diagnostic { kind: DiagKind::ConflictingBorrow, location: i as usize })
            };
            assert(borrow_event(st, t, referent, kind, i, ext_end).diags == d1.push(dd));
            assert(d1.push(dd)[d1.len() as int] == dd);
            assert(d1.push(dd).contains(dd));
        },
        Stmt::CallTied { left, right } => {
            let u = narrower_spec(
                t.scopes,
                t.binding_scope[left as int] as int,
                t.binding_scope[right as int] as int,
            );
            let ext_end = t.scopes[u].end;
            let st1 = borrow_event(st, t, left, BorrowKind::Shared, i, ext_end);
            if !extent_contained(t, left, i, ext_end) {
                let granted = grants(state_of(st.actives, left as int), BorrowKind::Shared);
                let d1 = if granted {
                    st.diags
                } else {
                    st.diags.push(
                        Diagnostic { kind: DiagKind::ConflictingBorrow, location: i as usize },
                    )
                };
                assert(st1.diags == d1.push(dd));
                assert(d1.push(dd)[d1.len() as int] == dd);
                assert(st1.diags.contains(dd));
                lemma_event_contains(st1, t, right, BorrowKind::Shared, i, ext_end, dd);
            } else {
                let granted = grants(state_of(st1.actives, right as int), BorrowKind::Shared);
                let d1 = if granted {
                    st1.diags
                } else {
                    st1.diags.push(
                        Diagnostic { kind: DiagKind::ConflictingBorrow, location: i as usize },
                    )
                };
                let st2 = borrow_event(st1, t, right, BorrowKind::Shared, i, ext_end);
                assert(st2.diags == d1.push(dd));
                assert(d1.push(dd)[d1.len() as int] == dd);
            }
        },
        _ => {},
    }
}

/// Whether the transition table rejects some borrow request of statement
/// `i`, given the borrows still open when the statement runs.
pub open spec fn request_denied(pv: ProgramView, t: TreeView, i: int) -> bool {
    let st0 = walk_upto(pv, t, i);
    let live = retain_live(st0.actives, i);
    match pv.stmts[i] {
        Stmt::TakeBorrow { referent, kind, .. } => !grants(state_of(live, referent as int), kind),
        Stmt::Assign { target } => !grants(
            state_of(live, target as int),
            BorrowKind::Exclusive,
        ),
        Stmt::CallTied { left, right } => {
            let u = narrower_spec(
                t.scopes,
                t.binding_scope[left as int] as int,
                t.binding_scope[right as int] as int,
            );
            let ext_end = t.scopes[u].end;
            let st1 = borrow_event(
                WalkSt { actives: live, diags: st0.diags },
                t,
                left,
                BorrowKind::Shared,
                i,
                ext_end,
            );
            !grants(state_of(live, left as int), BorrowKind::Shared) || !grants(
                state_of(st1.actives, right as int),
                BorrowKind::Shared,
            )
        },
        _ => false,
    }
}

/// A borrow request that the transition table rejects is reported: the walk
/// holds a `ConflictingBorrow` at that statement.
pub proof fn lemma_denied_reported(pv: ProgramView, t: TreeView, i: int)
    requires
        0 <= i < pv.stmts.len(),
        i < usize::MAX,
        request_denied(pv, t, i),
    ensures
        walk_upto(pv, t, i + 1).diags.contains(
            Diagnostic { kind: DiagKind::ConflictingBorrow, location: i as usize },
        ),
{
    let st0 = walk_upto(pv, t, i);
    let st = WalkSt { actives: retain_live(st0.actives, i), diags: st0.diags };
    let dc = Diagnostic { kind: DiagKind::ConflictingBorrow, location: i as usize };
    match pv.stmts[i] {
        Stmt::TakeBorrow { referent, kind, temp } => {
            let ext_end = bound_extent_end(t, i, temp);
            let d1 = st.diags.push(dc);
            assert(d1[st.diags.len() as int] == dc);
            assert(d1.contains(dc));
            if !extent_contained(t, referent, i, ext_end) {
                lemma_push_contains(
                    d1,
                    Diagnostic { kind: DiagKind::DanglingReference, location: i as usize },
                    dc,
                );
            }
        },
        Stmt::Assign { .. } => {
            let d1 = st.diags.push(dc);
            assert(d1[st.diags.len() as int] == dc);
        },
        Stmt::CallTied { left, right } => {
            let u = narrower_spec(
                t.scopes,
                t.binding_scope[left as int] as int,
                t.binding_scope[right as int] as int,
            );
            let ext_end = t.scopes[u].end;
            let st1 = borrow_event(st, t, left, BorrowKind::Shared, i, ext_end);
            if !grants(state_of(st.actives, left as int), BorrowKind::Shared) {
                let d1 = st.diags.push(dc);
                assert(d1[st.diags.len() as int] == dc);
                assert(d1.contains(dc));
                if !extent_contained(t, left, i, ext_end) {
                    lemma_push_contains(
                        d1,
                        Diagnostic { kind: DiagKind::DanglingReference, location: i as usize },
                        dc,
                    );
                }
                assert(st1.diags.contains(dc));
                lemma_event_contains(st1, t, right, BorrowKind::Shared, i, ext_end, dc);
            } else {
                let d1 = st1.diags.push(dc);
                assert(d1[st1.diags.len() as int] == dc);
                assert(d1.contains(dc));
                if !extent_contained(t, right, i, ext_end) {
                    lemma_push_contains(
                        d1,
                        Diagnostic { kind: DiagKind::DanglingReference, location: i as usize },
                        dc,
                    );
                }
            }
        },
        _ => {},
    }
}

/// Every diagnostic of the walk is a borrow diagnostic: a conflict or a
/// dangling reference.
pub proof fn lemma_walk_kinds(pv: ProgramView, t: TreeView, i: int, d: Diagnostic)
    requires
        walk_upto(pv, t, i).diags.contains(d),
    ensures
        d.kind == DiagKind::ConflictingBorrow || d.kind == DiagKind::DanglingReference,
    decreases i,
{
    if i <= 0 {
    } else {
        let st0 = walk_upto(pv, t, i - 1);
        if st0.diags.contains(d) {
            lemma_walk_kinds(pv, t, i - 1, d);
        } else {
            lemma_new_diag_kinds(pv, t, i, d);
        }
    }
}

proof fn lemma_event_new_kinds(
    st: WalkSt,
    t: TreeView,
    referent: usize,
    kind: BorrowKind,
    i: int,
    ext_end: usize,
    d: Diagnostic,
)
    requires
        borrow_event(st, t, referent, kind, i, ext_end).diags.contains(d),
        !st.diags.contains(d),
    ensures
        d.kind == DiagKind::ConflictingBorrow || d.kind == DiagKind::DanglingReference,
{
    let granted = grants(state_of(st.actives, referent as int), kind);
    let dc = Diagnostic { kind: DiagKind::ConflictingBorrow, location: i as usize };
    let dd = Diagnostic { kind: DiagKind::DanglingReference, location: i as usize };
    let d1 = if granted {
        st.diags
    } else {
        st.diags.push(dc)
    };
    let d2 = if extent_contained(t, referent, i, ext_end) {
        d1
    } else {
        d1.push(dd)
    };
    assert(d2.contains(d));
    if d != dc && d != dd {
        let k = choose|k: int| 0 <= k < d2.len() && d2[k] == d;
        if k < d1.len() {
            if !granted {
                if k < st.diags.len() {
                    assert(st.diags[k] == d);
                    assert(st.diags.contains(d));
                } else {
                    assert(d == dc);
                }
            } else {
                assert(st.diags.contains(d));
            }
        } else {
            assert(d == dd);
        }
        assert(false);
    }
}

proof fn lemma_new_diag_kinds(pv: ProgramView, t: TreeView, i: int, d: Diagnostic)
    requires
        0 < i,
        walk_upto(pv, t, i).diags.contains(d),
        !walk_upto(pv, t, i - 1).diags.contains(d),
    ensures
        d.kind == DiagKind::ConflictingBorrow || d.kind == DiagKind::DanglingReference,
{
    let st0 = walk_upto(pv, t, i - 1);
    let st = WalkSt { actives: retain_live(st0.actives, i - 1), diags: st0.diags };
    match pv.stmts[i - 1] {
        Stmt::TakeBorrow { referent, kind, temp } => {
            lemma_event_new_kinds(
                st,
                t,
                referent,
                kind,
                i - 1,
                bound_extent_end(t, i - 1, temp),
                d,
            );
        },
        Stmt::Assign { .. } => {
            let dc = Diagnostic { kind: DiagKind::ConflictingBorrow, location: (i - 1) as usize };
            if walk_upto(pv, t, i).diags == st.diags.push(dc) {
                let k = choose|k: int|
                    0 <= k < st.diags.push(dc).len() && st.diags.push(dc)[k] == d;
                if k < st.diags.len() {
                    assert(st.diags.contains(d));
                } else {
                    assert(d == dc);
                }
            }
        },
        Stmt::CallTied { left, right } => {
            let u = narrower_spec(
                t.scopes,
                t.binding_scope[left as int] as int,
                t.binding_scope[right as int] as int,
            );
            let ext_end = t.scopes[u].end;
            let st1 = borrow_event(st, t, left, BorrowKind::Shared, i - 1, ext_end);
            if st1.diags.contains(d) {
                lemma_event_new_kinds(st, t, left, BorrowKind::Shared, i - 1, ext_end, d);
            } else {
                lemma_event_new_kinds(st1, t, right, BorrowKind::Shared, i - 1, ext_end, d);
            }
        },
        _ => {},
    }
}

} // verus!
