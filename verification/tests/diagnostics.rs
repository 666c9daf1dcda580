use lifecheck::borrows::{binding_state, grants_request, ActiveBorrow, BindingState};
use lifecheck::program::{BorrowKind, DiagKind, Diagnostic, Program, Stmt, StructDef};
use lifecheck::report::Report;
use lifecheck::resolve::narrower;
use lifecheck::scope::ScopeNode;
use lifecheck::validate::check_program;

fn check(structs: Vec<StructDef>, stmts: Vec<Stmt>) -> Report {
    check_program(&Program { structs, stmts })
}

#[test]
fn stray_close_is_a_structural_error() {
    let r = check(vec![], vec![Stmt::Close]);
    assert!(!r.is_valid());
    assert_eq!(r.diagnostics().len(), 1);
    assert_eq!(r.diagnostics()[0].kind, DiagKind::StructuralError);
    assert_eq!(r.diagnostics()[0].location, 0);
}

#[test]
fn unclosed_scope_is_a_structural_error_at_program_end() {
    let r = check(vec![], vec![Stmt::Open, Stmt::Decl { mutable: false }]);
    assert!(!r.is_valid());
    assert_eq!(r.diagnostics().len(), 1);
    assert_eq!(r.diagnostics()[0].kind, DiagKind::StructuralError);
    assert_eq!(r.diagnostics()[0].location, 2);
}

#[test]
fn undeclared_binding_is_a_structural_error() {
    let r = check(
        vec![],
        vec![Stmt::TakeBorrow { referent: 0, kind: BorrowKind::Shared, temp: true }],
    );
    assert!(!r.is_valid());
    assert_eq!(r.diagnostics()[0].kind, DiagKind::StructuralError);
}

#[test]
fn structural_error_aborts_the_run() {
    // The later arity mismatch is not reached: one fatal diagnostic only.
    let r = check(
        vec![StructDef { lifetime_params: 1 }],
        vec![Stmt::Close, Stmt::UseStruct { def: 0, supplied: 2 }],
    );
    assert_eq!(r.diagnostics().len(), 1);
    assert_eq!(r.diagnostics()[0].kind, DiagKind::StructuralError);
    assert_eq!(r.diagnostics()[0].location, 0);
}

#[test]
fn identical_diagnostics_are_deduplicated() {
    // Both tied arguments name the same exclusively borrowed binding: the
    // two rejections collapse into one conflict at that statement.
    let r = check(
        vec![],
        vec![
            Stmt::Decl { mutable: false },
            Stmt::TakeBorrow { referent: 0, kind: BorrowKind::Exclusive, temp: false },
            Stmt::CallTied { left: 0, right: 0 },
        ],
    );
    assert!(!r.is_valid());
    assert_eq!(r.diagnostics().len(), 1);
    assert_eq!(r.diagnostics()[0].kind, DiagKind::ConflictingBorrow);
    assert_eq!(r.diagnostics()[0].location, 2);
}

#[test]
fn resolver_diagnostics_come_before_borrow_diagnostics() {
    let r = check(
        vec![StructDef { lifetime_params: 1 }],
        vec![
            Stmt::Decl { mutable: true },
            Stmt::TakeBorrow { referent: 0, kind: BorrowKind::Exclusive, temp: false },
            Stmt::Assign { target: 0 },
            Stmt::UseStruct { def: 0, supplied: 2 },
        ],
    );
    let expected = vec![
        Diagnostic { kind: DiagKind::ArityMismatch, location: 3 },
        Diagnostic { kind: DiagKind::ConflictingBorrow, location: 2 },
    ];
    assert_eq!(r.diagnostics(), &expected);
}

#[test]
fn checking_twice_yields_identical_diagnostics() {
    let build = || {
        Program {
            structs: vec![StructDef { lifetime_params: 1 }],
            stmts: vec![
                Stmt::Decl { mutable: true },
                Stmt::TakeBorrow { referent: 0, kind: BorrowKind::Shared, temp: false },
                Stmt::Open,
                Stmt::Assign { target: 0 },
                Stmt::UseStruct { def: 0, supplied: 3 },
                Stmt::Close,
            ],
        }
    };
    let r1 = check_program(&build());
    let r2 = check_program(&build());
    assert_eq!(r1.diagnostics(), r2.diagnostics());
    assert_eq!(r1.is_valid(), r2.is_valid());
}

#[test]
fn messages_name_each_kind() {
    let d = |kind: DiagKind| Diagnostic { kind, location: 0 };
    assert_eq!(d(DiagKind::StructuralError).message(), "malformed scope nesting");
    assert_eq!(d(DiagKind::ArityMismatch).message(), "lifetime parameter arity mismatch");
    assert_eq!(d(DiagKind::ConflictingBorrow).message(), "conflicting borrow");
    assert_eq!(d(DiagKind::DanglingReference).message(), "dangling reference");
}

#[test]
fn transition_table_on_direct_states() {
    let none: Vec<ActiveBorrow> = vec![];
    assert_eq!(binding_state(&none, 0), BindingState::Unborrowed);

    let shared2 = vec![
        ActiveBorrow { referent: 0, kind: BorrowKind::Shared, end: 9 },
        ActiveBorrow { referent: 1, kind: BorrowKind::Exclusive, end: 9 },
        ActiveBorrow { referent: 0, kind: BorrowKind::Shared, end: 5 },
    ];
    assert_eq!(binding_state(&shared2, 0), BindingState::SharedBorrowed { count: 2 });
    assert_eq!(binding_state(&shared2, 1), BindingState::ExclusiveBorrowed);

    assert!(grants_request(BindingState::Unborrowed, BorrowKind::Shared));
    assert!(grants_request(BindingState::Unborrowed, BorrowKind::Exclusive));
    assert!(grants_request(BindingState::SharedBorrowed { count: 1 }, BorrowKind::Shared));
    assert!(!grants_request(BindingState::SharedBorrowed { count: 1 }, BorrowKind::Exclusive));
    assert!(!grants_request(BindingState::ExclusiveBorrowed, BorrowKind::Shared));
    assert!(!grants_request(BindingState::ExclusiveBorrowed, BorrowKind::Exclusive));
}

#[test]
fn transition_table_over_borrow_pairs() {
    // Two consecutive held borrows of one binding: only shared-then-shared
    // passes; every pair involving an exclusive borrow conflicts.
    let kinds = [BorrowKind::Shared, BorrowKind::Exclusive];
    for &k1 in &kinds {
        for &k2 in &kinds {
            let r = check(
                vec![],
                vec![
                    Stmt::Decl { mutable: true },
                    Stmt::TakeBorrow { referent: 0, kind: k1, temp: false },
                    Stmt::TakeBorrow { referent: 0, kind: k2, temp: false },
                ],
            );
            let both_shared = k1 == BorrowKind::Shared && k2 == BorrowKind::Shared;
            assert_eq!(r.is_valid(), both_shared);
            if !both_shared {
                assert_eq!(r.diagnostics().len(), 1);
                assert_eq!(r.diagnostics()[0].kind, DiagKind::ConflictingBorrow);
                assert_eq!(r.diagnostics()[0].location, 2);
            }
        }
    }
}

#[test]
fn unification_picks_the_nested_scope() {
    let scopes = vec![
        ScopeNode { parent: None, start: 0, end: 10 },
        ScopeNode { parent: Some(0), start: 2, end: 6 },
    ];
    assert_eq!(narrower(&scopes, 0, 1), 1);
    assert_eq!(narrower(&scopes, 1, 0), 1);
    assert_eq!(narrower(&scopes, 0, 0), 0);
}

#[test]
fn random_interleavings_are_deterministic_and_exclusivity_safe() {
    // A small linear congruential generator drives random statement
    // sequences; every run must be reproducible, a structural failure must
    // be the run's single diagnostic, and an accepted program must have
    // passed every exclusivity check (no diagnostic at all).
    let mut seed: u64 = 0x2545_f491_4f6c_dd1d;
    let mut next = move || {
        seed = seed.wrapping_mul(6364136223846793005).wrapping_add(1442695040888963407);
        (seed >> 33) as usize
    };
    for _ in 0..300 {
        let len = 1 + next() % 12;
        let mut stmts = Vec::new();
        for _ in 0..len {
            let s = match next() % 6 {
                0 => Stmt::Open,
                1 => Stmt::Close,
                2 => Stmt::Decl { mutable: true },
                3 => Stmt::TakeBorrow {
                    referent: next() % 3,
                    kind: if next() % 2 == 0 { BorrowKind::Shared } else { BorrowKind::Exclusive },
                    temp: next() % 2 == 0,
                },
                4 => Stmt::Assign { target: next() % 3 },
                _ => Stmt::CallTied { left: next() % 3, right: next() % 3 },
            };
            stmts.push(s);
        }
        let p1 = Program { structs: vec![], stmts: stmts.clone() };
        let p2 = Program { structs: vec![], stmts };
        let r1 = check_program(&p1);
        let r2 = check_program(&p2);
        assert_eq!(r1.diagnostics(), r2.diagnostics());
        for d in r1.diagnostics() {
            assert!(d.location <= p1.stmts.len());
        }
        if r1.diagnostics().iter().any(|d| d.kind == DiagKind::StructuralError) {
            assert_eq!(r1.diagnostics().len(), 1);
        }
        if r1.is_valid() {
            assert_eq!(r1.diagnostics().len(), 0);
        }
    }
}
