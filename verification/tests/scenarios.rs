use lifecheck::program::{BorrowKind, DiagKind, Program, Stmt, StructDef};
use lifecheck::report::Report;
use lifecheck::validate::check_program;

fn check(structs: Vec<StructDef>, stmts: Vec<Stmt>) -> Report {
    check_program(&Program { structs, stmts })
}

#[test]
fn nested_shared_borrow_is_valid() {
    // An outer binding borrowed immutably inside an inner scope that ends
    // before the binding's own scope does.
    let r = check(
        vec![],
        vec![
            Stmt::Decl { mutable: false },
            Stmt::Open,
            Stmt::Decl { mutable: false },
            Stmt::TakeBorrow { referent: 0, kind: BorrowKind::Shared, temp: false },
            Stmt::Close,
        ],
    );
    assert!(r.is_valid());
    assert_eq!(r.diagnostics().len(), 0);
}

#[test]
fn reassignment_after_borrow_ends_is_valid() {
    // A binding borrowed only inside a nested block that closes, then
    // reassigned afterwards in the outer scope.
    let r = check(
        vec![StructDef { lifetime_params: 1 }],
        vec![
            Stmt::Decl { mutable: true },
            Stmt::Decl { mutable: false },
            Stmt::Open,
            Stmt::Decl { mutable: false },
            Stmt::TakeBorrow { referent: 1, kind: BorrowKind::Shared, temp: false },
            Stmt::Decl { mutable: false },
            Stmt::TakeBorrow { referent: 0, kind: BorrowKind::Shared, temp: false },
            Stmt::UseStruct { def: 0, supplied: 1 },
            Stmt::Close,
            Stmt::Assign { target: 0 },
        ],
    );
    assert!(r.is_valid());
    assert_eq!(r.diagnostics().len(), 0);
}

#[test]
fn arity_mismatch_is_reported_once() {
    // A struct declared with one lifetime parameter, used with two.
    let r = check(
        vec![StructDef { lifetime_params: 1 }],
        vec![Stmt::UseStruct { def: 0, supplied: 2 }],
    );
    assert!(!r.is_valid());
    assert_eq!(r.diagnostics().len(), 1);
    assert_eq!(r.diagnostics()[0].kind, DiagKind::ArityMismatch);
    assert_eq!(r.diagnostics()[0].location, 0);
}

#[test]
fn matching_arity_is_valid() {
    let r = check(
        vec![StructDef { lifetime_params: 2 }],
        vec![Stmt::UseStruct { def: 0, supplied: 2 }],
    );
    assert!(r.is_valid());
}

#[test]
fn reassignment_under_live_borrow_conflicts() {
    // A binding reassigned while a reference to it, taken in the enclosing
    // still-open scope, is still live.
    let r = check(
        vec![],
        vec![
            Stmt::Decl { mutable: true },
            Stmt::TakeBorrow { referent: 0, kind: BorrowKind::Shared, temp: false },
            Stmt::Open,
            Stmt::Assign { target: 0 },
            Stmt::Close,
        ],
    );
    assert!(!r.is_valid());
    assert_eq!(r.diagnostics().len(), 1);
    assert_eq!(r.diagnostics()[0].kind, DiagKind::ConflictingBorrow);
    assert_eq!(r.diagnostics()[0].location, 3);
}

#[test]
fn tied_call_in_one_scope_is_valid() {
    // A method tying the lifetimes of two references whose referents live
    // in the same scope: the unified extent fits both.
    let r = check(
        vec![],
        vec![
            Stmt::Decl { mutable: false },
            Stmt::Decl { mutable: false },
            Stmt::Open,
            Stmt::Decl { mutable: false },
            Stmt::CallTied { left: 0, right: 1 },
            Stmt::Close,
        ],
    );
    assert!(r.is_valid());
}

#[test]
fn tied_call_across_disjoint_scopes_dangles() {
    // The two referents live in sibling scopes; the unified extent cannot
    // lie inside both, and the call site is outside the first referent's
    // scope entirely.
    let r = check(
        vec![],
        vec![
            Stmt::Open,
            Stmt::Decl { mutable: false },
            Stmt::Close,
            Stmt::Open,
            Stmt::Decl { mutable: false },
            Stmt::CallTied { left: 0, right: 1 },
            Stmt::Close,
        ],
    );
    assert!(!r.is_valid());
    assert_eq!(r.diagnostics().len(), 1);
    assert_eq!(r.diagnostics()[0].kind, DiagKind::DanglingReference);
    assert_eq!(r.diagnostics()[0].location, 5);
}

#[test]
fn borrow_of_dead_binding_dangles() {
    let r = check(
        vec![],
        vec![
            Stmt::Open,
            Stmt::Decl { mutable: false },
            Stmt::Close,
            Stmt::TakeBorrow { referent: 0, kind: BorrowKind::Shared, temp: true },
        ],
    );
    assert!(!r.is_valid());
    assert_eq!(r.diagnostics().len(), 1);
    assert_eq!(r.diagnostics()[0].kind, DiagKind::DanglingReference);
    assert_eq!(r.diagnostics()[0].location, 3);
}

#[test]
fn shared_borrows_may_coexist() {
    let r = check(
        vec![],
        vec![
            Stmt::Decl { mutable: false },
            Stmt::TakeBorrow { referent: 0, kind: BorrowKind::Shared, temp: false },
            Stmt::TakeBorrow { referent: 0, kind: BorrowKind::Shared, temp: false },
            Stmt::TakeBorrow { referent: 0, kind: BorrowKind::Shared, temp: true },
        ],
    );
    assert!(r.is_valid());
}

#[test]
fn temporary_borrow_releases_at_its_statement() {
    // A temporary exclusive borrow ends with its own statement, so a later
    // exclusive request is granted.
    let r = check(
        vec![],
        vec![
            Stmt::Decl { mutable: true },
            Stmt::TakeBorrow { referent: 0, kind: BorrowKind::Exclusive, temp: true },
            Stmt::Assign { target: 0 },
        ],
    );
    assert!(r.is_valid());
}
