//! The scope tree builder.
//!
//! Converts the flat statement list into a tree of nested lexical scopes,
//! numbered by a pre-order walk so that "is ancestor of" is a cheap interval
//! test, and records for each binding its declaring scope and for each
//! statement its innermost scope. Malformed nesting, and a reference to a
//! binding or struct definition that does not exist, is a structural error:
//! it aborts checking for the program.

use vstd::prelude::*;
use crate::program::{Diagnostic, DiagKind, ProgramView, Program, Stmt};
use crate::resolve::sc_contains;

verus! {

/// One node of the scope tree. `start` and `end` are statement indices: the
/// node's extent is the closed interval from its opening statement to its
/// closing one (the root spans the whole program). The root has no parent.
#[derive(Clone, Copy, Debug, PartialEq, Eq)]
pub struct ScopeNode {
    pub parent: Option<usize>,
    pub start: usize,
    pub end: usize,
}

/// The builder's output: the scope tree in pre-order, the innermost scope of
/// each statement, and the declaring scope of each binding (bindings in
/// declaration order).
#[derive(Clone, Debug)]
pub struct ScopeTree {
    pub scopes: Vec<ScopeNode>,
    pub stmt_scope: Vec<usize>,
    pub binding_scope: Vec<usize>,
}

/// The mathematical view of a [`ScopeTree`].
#[verifier::ext_equal]
pub ghost struct TreeView {
    pub scopes: Seq<ScopeNode>,
    pub stmt_scope: Seq<usize>,
    pub binding_scope: Seq<usize>,
}

impl View for ScopeTree {
    type V = TreeView;

    open spec fn view(&self) -> TreeView {
        TreeView {
            scopes: self.scopes@,
            stmt_scope: self.stmt_scope@,
            binding_scope: self.binding_scope@,
        }
    }
}

/// The builder's state after some prefix of the statements: the scopes made
/// so far, the stack of currently open scopes, the outputs accumulated, and
/// the location of the first structural error, if one was found.
#[verifier::ext_equal]
pub ghost struct BuildSt {
    pub scopes: Seq<ScopeNode>,
    pub stack: Seq<usize>,
    pub stmt_scope: Seq<usize>,
    pub binding_scope: Seq<usize>,
    pub fail: Option<usize>,
}

/// The builder's state before any statement: only the root scope, which
/// spans the whole program, is open.
pub open spec fn build_init(n: usize) -> BuildSt {
    BuildSt {
        scopes: seq![ScopeNode { parent: None, start: 0, end: n }],
        stack: seq![0usize],
        stmt_scope: Seq::empty(),
        binding_scope: Seq::empty(),
        fail: None,
    }
}

/// Whether the references a statement makes stay within `bindings` declared
/// bindings and `defs` struct definitions.
pub open spec fn stmt_refs_ok(s: Stmt, bindings: nat, defs: nat) -> bool {
    match s {
        Stmt::TakeBorrow { referent, .. } => (referent as nat) < bindings,
        Stmt::Assign { target } => (target as nat) < bindings,
        Stmt::UseStruct { def, .. } => (def as nat) < defs,
        Stmt::CallTied { left, right } => (left as nat) < bindings && (right as nat) < bindings,
        _ => true,
    }
}

/// One step of the builder, on statement `i`. After a structural error the
/// state no longer changes.
pub open spec fn build_step(pv: ProgramView, st: BuildSt, i: int) -> BuildSt {
    if st.fail is Some {
        st
    } else {
        let top = st.stack.last();
        match pv.stmts[i] {
            Stmt::Open => {
                let id = st.scopes.len() as usize;
                BuildSt {
                    scopes: st.scopes.push(
                        ScopeNode { parent: Some(top), start: i as usize, end: i as usize },
                    ),
                    stack: st.stack.push(id),
                    stmt_scope: st.stmt_scope.push(id),
                    ..st
                }
            },
            Stmt::Close => {
                if st.stack.len() <= 1 {
                    BuildSt { fail: Some(i as usize), ..st }
                } else {
                    let node = st.scopes[top as int];
                    BuildSt {
                        scopes: st.scopes.update(
                            top as int,
                            ScopeNode { end: i as usize, ..node },
                        ),
                        stack: st.stack.drop_last(),
                        stmt_scope: st.stmt_scope.push(top),
                        ..st
                    }
                }
            },
            Stmt::Decl { .. } => BuildSt {
                binding_scope: st.binding_scope.push(top),
                stmt_scope: st.stmt_scope.push(top),
                ..st
            },
            _ => {
                if stmt_refs_ok(pv.stmts[i], st.binding_scope.len(), pv.structs.len()) {
                    BuildSt { stmt_scope: st.stmt_scope.push(top), ..st }
                } else {
                    BuildSt { fail: Some(i as usize), ..st }
                }
            },
        }
    }
}

/// The builder's state after the first `i` statements.
pub open spec fn build_upto(pv: ProgramView, i: int) -> BuildSt
    decreases i,
{
    if i <= 0 {
        build_init(pv.stmts.len() as usize)
    } else {
        build_step(pv, build_upto(pv, i - 1), i - 1)
    }
}

/// The builder's final state: a scope left open at the end of the program is
/// a structural error located at the program's end.
pub open spec fn build_result(pv: ProgramView) -> BuildSt {
    let st = build_upto(pv, pv.stmts.len() as int);
    if st.fail is None && st.stack.len() != 1 {
        BuildSt { fail: Some(pv.stmts.len() as usize), ..st }
    } else {
        st
    }
}

/// Whether the program's structure is sound: the builder finishes without a
/// structural error.
pub open spec fn build_ok(pv: ProgramView) -> bool {
    build_result(pv).fail is None
}

/// The scope tree of a structurally sound program.
pub open spec fn tree_of(pv: ProgramView) -> TreeView {
    let st = build_result(pv);
    TreeView { scopes: st.scopes, stmt_scope: st.stmt_scope, binding_scope: st.binding_scope }
}

/// The bounds the later passes rely on: every statement has an innermost
/// scope, every recorded scope id is a node of the tree, and every reference
/// a statement makes exists.
pub open spec fn tree_wf(pv: ProgramView, t: TreeView) -> bool {
    &&& t.stmt_scope.len() == pv.stmts.len()
    &&& forall|k: int|
        0 <= k < t.stmt_scope.len() ==> (t.stmt_scope[k] as int) < t.scopes.len()
    &&& forall|k: int|
        0 <= k < t.binding_scope.len() ==> (t.binding_scope[k] as int) < t.scopes.len()
    &&& forall|k: int|
        0 <= k < pv.stmts.len() ==> stmt_refs_ok(
            pv.stmts[k],
            t.binding_scope.len(),
            pv.structs.len(),
        )
}

/// The tree shape of a built scope forest: one root without a parent, and
/// every other node hanging from an earlier node whose extent contains its
/// own.
pub open spec fn tree_shaped(t: TreeView) -> bool {
    &&& t.scopes.len() >= 1
    &&& t.scopes[0].parent is None
    &&& forall|id: int|
        1 <= id < t.scopes.len() ==> (t.scopes[id].parent is Some
            && (t.scopes[id].parent.unwrap() as int) < id && sc_contains(
            t.scopes[t.scopes[id].parent.unwrap() as int],
            t.scopes[id],
        ))
}

/// The builder's internal shape invariant at step `i`: the stack lists the
/// open scopes innermost-last with correct parent links, every open scope
/// started no later than `i`, every closed scope already ended, and the
/// containment between a node and its parent holds as far as both ends are
/// settled.
spec fn build_inv(n: usize, st: BuildSt, i: int) -> bool {
    &&& st.scopes.len() >= 1
    &&& st.scopes.len() <= i + 1
    &&& st.stack.len() >= 1
    &&& st.stack[0] == 0
    &&& st.scopes[0].parent is None
    &&& st.scopes[0].start == 0
    &&& st.scopes[0].end == n
    &&& forall|k: int| 0 <= k < st.stack.len() ==> (st.stack[k] as int) < st.scopes.len()
    &&& forall|k: int|
        0 <= k < st.stack.len() - 1 ==> ((#[trigger] st.stack[k]) as int) < (st.stack[k + 1] as int)
    &&& forall|k: int|
        1 <= k < st.stack.len() ==> st.scopes[st.stack[k] as int].parent == Some(
            st.stack[k - 1],
        )
    &&& forall|k: int| 0 <= k < st.stack.len() ==> st.scopes[st.stack[k] as int].start <= i
    &&& forall|id: int|
        1 <= id < st.scopes.len() ==> (st.scopes[id].parent is Some
            && (st.scopes[id].parent.unwrap() as int) < id
            && st.scopes[st.scopes[id].parent.unwrap() as int].start <= st.scopes[id].start)
    &&& forall|id: int|
        1 <= id < st.scopes.len() && !st.stack.contains(id as usize) ==> (
        st.scopes[id].start <= st.scopes[id].end && st.scopes[id].end < i)
    &&& forall|id: int|
        1 <= id < st.scopes.len() && !st.stack.contains(id as usize) && !st.stack.contains(
            st.scopes[id].parent.unwrap(),
        ) ==> st.scopes[id].end <= st.scopes[st.scopes[id].parent.unwrap() as int].end
}

#[verifier::rlimit(100)]
proof fn lemma_build_inv(pv: ProgramView, i: int)
    requires
        0 <= i <= pv.stmts.len(),
        pv.stmts.len() <= usize::MAX,
        build_upto(pv, i).fail is None,
    ensures
        build_inv(pv.stmts.len() as usize, build_upto(pv, i), i),
    decreases i,
{
    let n = pv.stmts.len() as usize;
    if i == 0 {
        assert(build_upto(pv, 0).stack == seq![0usize]);
    } else {
        if build_upto(pv, i - 1).fail is Some {
            lemma_fail_persists(pv, i - 1, i);
        }
        lemma_build_inv(pv, i - 1);
        let st = build_upto(pv, i - 1);
        let nx = build_upto(pv, i);
        let top = st.stack.last();
        match pv.stmts[i - 1] {
            Stmt::Open => {
                let id = st.scopes.len() as usize;
                assert(nx.stack == st.stack.push(id));
                assert(forall|k: int|
                    0 <= k < st.stack.len() ==> nx.stack[k] == st.stack[k]);
                assert(nx.stack[nx.stack.len() - 1] == id);
                assert(nx.stack.contains(id));
                assert forall|jd: int|
                    1 <= jd < nx.scopes.len() && !nx.stack.contains(jd as usize) implies (
                nx.scopes[jd].start <= nx.scopes[jd].end && nx.scopes[jd].end < i) by {
                    assert(jd != id as int);
                    if st.stack.contains(jd as usize) {
                        let k = choose|k: int|
                            0 <= k < st.stack.len() && st.stack[k] == jd as usize;
                        assert(nx.stack[k] == jd as usize);
                    }
                }
            },
            Stmt::Close => {
                assert(st.stack.len() > 1);
                let k0 = st.stack.len() - 1;
                assert(nx.stack == st.stack.drop_last());
                assert(nx.scopes == st.scopes.update(
                    top as int,
                    ScopeNode { end: (i - 1) as usize, ..st.scopes[top as int] },
                ));
                // the scope being closed is no longer on the stack
                assert(top as int != 0) by {
                    assert(st.stack[0] == 0);
                }
                assert forall|jd: int|
                    1 <= jd < nx.scopes.len() && !nx.stack.contains(jd as usize) implies (
                nx.scopes[jd].start <= nx.scopes[jd].end && nx.scopes[jd].end < i) by {
                    if jd == top as int {
                        assert(st.scopes[top as int].start <= i - 1);
                    } else {
                        if st.stack.contains(jd as usize) {
                            let k = choose|k: int|
                                0 <= k < st.stack.len() && st.stack[k] == jd as usize;
                            assert(k < k0) by {
                                if k == k0 {
                                    assert(st.stack[k] == top);
                                }
                            }
                            assert(nx.stack[k] == jd as usize);
                        }
                    }
                }
                assert forall|jd: int|
                    1 <= jd < nx.scopes.len() && !nx.stack.contains(jd as usize)
                        && !nx.stack.contains(nx.scopes[jd].parent.unwrap()) implies nx.scopes[jd].end
                    <= nx.scopes[nx.scopes[jd].parent.unwrap() as int].end by {
                    let p = nx.scopes[jd].parent.unwrap();
                    if jd == top as int {
                        // the closed scope's parent is the new stack top
                        assert(st.scopes[top as int].parent == Some(st.stack[k0 - 1]));
                        assert(nx.stack[k0 - 1] == st.stack[k0 - 1]);
                        assert(nx.stack.contains(st.stack[k0 - 1]));
                    } else if p == top {
                        // a closed child of the scope being closed ended earlier
                        assert(!st.stack.contains(jd as usize)) by {
                            if st.stack.contains(jd as usize) {
                                let k = choose|k: int|
                                    0 <= k < st.stack.len() && st.stack[k] == jd as usize;
                                if k == k0 {
                                    assert(st.stack[k] == top);
                                } else {
                                    assert(nx.stack[k] == jd as usize);
                                }
                            }
                        }
                        assert(st.scopes[jd].end < i - 1 || st.scopes[jd].end == i - 1);
                        assert(nx.scopes[top as int].end == (i - 1) as usize);
                    } else {
                        assert(!st.stack.contains(jd as usize)) by {
                            if st.stack.contains(jd as usize) {
                                let k = choose|k: int|
                                    0 <= k < st.stack.len() && st.stack[k] == jd as usize;
                                if k == k0 {
                                    assert(st.stack[k] == top);
                                } else {
                                    assert(nx.stack[k] == jd as usize);
                                }
                            }
                        }
                        assert(!st.stack.contains(p)) by {
                            if st.stack.contains(p) {
                                let k = choose|k: int|
                                    0 <= k < st.stack.len() && st.stack[k] == p;
                                if k == k0 {
                                    assert(st.stack[k] == top);
                                } else {
                                    assert(nx.stack[k] == p);
                                }
                            }
                        }
                    }
                }
            },
            _ => {
                assert(nx.stack == st.stack);
                assert(nx.scopes == st.scopes);
            },
        }
    }
}

/// Data-model law: the scope tree of every structurally sound program is a
/// tree — one root spanning the whole program, and every child extent
/// wholly contained in its parent's.
pub proof fn lemma_tree_shaped(pv: ProgramView)
    requires
        build_ok(pv),
        pv.stmts.len() <= usize::MAX,
    ensures
        tree_shaped(tree_of(pv)),
{
    let n = pv.stmts.len() as int;
    lemma_build_inv(pv, n);
    let st = build_upto(pv, n);
    let t = tree_of(pv);
    assert(st.stack.len() == 1);
    assert forall|id: int|
        1 <= id < t.scopes.len() implies (t.scopes[id].parent is Some
        && (t.scopes[id].parent.unwrap() as int) < id && sc_contains(
        t.scopes[t.scopes[id].parent.unwrap() as int],
        t.scopes[id],
    )) by {
        assert(!st.stack.contains(id as usize)) by {
            if st.stack.contains(id as usize) {
                let k = choose|k: int| 0 <= k < st.stack.len() && st.stack[k] == id as usize;
                assert(k == 0);
            }
        }
        let p = st.scopes[id].parent.unwrap();
        if p == 0 {
            assert(st.scopes[id].end < n);
        } else {
            assert(!st.stack.contains(p)) by {
                if st.stack.contains(p) {
                    let k = choose|k: int| 0 <= k < st.stack.len() && st.stack[k] == p;
                    assert(k == 0);
                }
            }
        }
    }
}

/// Once the builder has failed, every later state carries the same failure.
pub proof fn lemma_fail_persists(pv: ProgramView, i: int, j: int)
    requires
        0 <= i <= j,
        build_upto(pv, i).fail is Some,
    ensures
        build_upto(pv, j).fail == build_upto(pv, i).fail,
    decreases j - i,
{
    if j > i {
        lemma_fail_persists(pv, i, j - 1);
    }
}

/// Builds the scope tree of `p`, or reports the first structural error:
/// malformed nesting, or a reference to a binding or struct definition that
/// does not exist.
pub fn build_scopes(p: &Program) -> (r: Result<ScopeTree, Diagnostic>)
    ensures
        match r {
            Ok(t) => build_ok(p@) && t@ == tree_of(p@) && tree_wf(p@, t@),
            Err(d) => !build_ok(p@) && build_result(p@).fail == Some(d.location)
                && d.kind == DiagKind::StructuralError,
        },
{
    let n = p.stmts.len();
    let mut scopes: Vec<ScopeNode> = Vec::new();
    scopes.push(ScopeNode { parent: None, start: 0, end: n });
    let mut stack: Vec<usize> = Vec::new();
    stack.push(0);
    let mut stmt_scope: Vec<usize> = Vec::new();
    let mut binding_scope: Vec<usize> = Vec::new();
    let mut i: usize = 0;
    while i < n
        invariant
            n == p@.stmts.len(),
            0 <= i <= n,
            build_upto(p@, i as int).fail is None,
            scopes@ == build_upto(p@, i as int).scopes,
            stack@ == build_upto(p@, i as int).stack,
            stmt_scope@ == build_upto(p@, i as int).stmt_scope,
            binding_scope@ == build_upto(p@, i as int).binding_scope,
            stack@.len() >= 1,
            forall|k: int| 0 <= k < stack@.len() ==> (stack@[k] as int) < scopes@.len(),
            forall|k: int| 0 <= k < stmt_scope@.len() ==> (stmt_scope@[k] as int) < scopes@.len(),
            forall|k: int|
                0 <= k < binding_scope@.len() ==> (binding_scope@[k] as int) < scopes@.len(),
            stmt_scope@.len() == i,
            forall|k: int|
                0 <= k < i ==> stmt_refs_ok(p@.stmts[k], binding_scope@.len(), p@.structs.len()),
        decreases n - i,
    {
        let ghost pre = build_upto(p@, i as int);
        let ghost nb0 = binding_scope@.len();
        let top = stack[stack.len() - 1];
        match p.stmts[i] {
            Stmt::Open => {
                let id = scopes.len();
                scopes.push(ScopeNode { parent: Some(top), start: i, end: i });
                stack.push(id);
                stmt_scope.push(id);
            },
            Stmt::Close => {
                if stack.len() <= 1 {
                    proof {
                        lemma_fail_persists(p@, i + 1, n as int);
                    }
                    return Err(Diagnostic { kind: DiagKind::StructuralError, location: i });
                }
                let node = scopes[top];
                scopes[top] = ScopeNode { end: i, ..node };
                stack.pop();
                stmt_scope.push(top);
            },
            Stmt::Decl { .. } => {
                binding_scope.push(top);
                stmt_scope.push(top);
            },
            Stmt::TakeBorrow { referent, .. } => {
                if referent >= binding_scope.len() {
                    proof {
                        lemma_fail_persists(p@, i + 1, n as int);
                    }
                    return Err(Diagnostic { kind: DiagKind::StructuralError, location: i });
                }
                stmt_scope.push(top);
            },
            Stmt::Assign { target } => {
                if target >= binding_scope.len() {
                    proof {
                        lemma_fail_persists(p@, i + 1, n as int);
                    }
                    return Err(Diagnostic { kind: DiagKind::StructuralError, location: i });
                }
                stmt_scope.push(top);
            },
            Stmt::UseStruct { def, .. } => {
                if def >= p.structs.len() {
                    proof {
                        lemma_fail_persists(p@, i + 1, n as int);
                    }
                    return Err(Diagnostic { kind: DiagKind::StructuralError, location: i });
                }
                stmt_scope.push(top);
            },
            Stmt::CallTied { left, right } => {
                if left >= binding_scope.len() || right >= binding_scope.len() {
                    proof {
                        lemma_fail_persists(p@, i + 1, n as int);
                    }
                    return Err(Diagnostic { kind: DiagKind::StructuralError, location: i });
                }
                stmt_scope.push(top);
            },
        }
        proof {
            assert(forall|k: int|
                0 <= k < i ==> stmt_refs_ok(p@.stmts[k], nb0, p@.structs.len()));
            assert(nb0 <= binding_scope@.len());
        }
        i = i + 1;
    }
    if stack.len() != 1 {
        return Err(Diagnostic { kind: DiagKind::StructuralError, location: n });
    }
    Ok(ScopeTree { scopes, stmt_scope, binding_scope })
}

} // verus!
