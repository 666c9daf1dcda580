use lifecheck::program::{DiagKind, Program, Stmt};
use lifecheck::scope::build_scopes;

fn stmts_only(stmts: Vec<Stmt>) -> Program {
    Program { structs: vec![], stmts }
}

#[test]
fn tree_records_parents_and_extents() {
    let p = stmts_only(vec![
        Stmt::Decl { mutable: false },
        Stmt::Open,
        Stmt::Decl { mutable: false },
        Stmt::Open,
        Stmt::Close,
        Stmt::Close,
        Stmt::Decl { mutable: false },
    ]);
    let t = build_scopes(&p).unwrap();

    assert_eq!(t.scopes.len(), 3);
    assert_eq!(t.scopes[0].parent, None);
    assert_eq!((t.scopes[0].start, t.scopes[0].end), (0, 7));
    assert_eq!(t.scopes[1].parent, Some(0));
    assert_eq!((t.scopes[1].start, t.scopes[1].end), (1, 5));
    assert_eq!(t.scopes[2].parent, Some(1));
    assert_eq!((t.scopes[2].start, t.scopes[2].end), (3, 4));

    // Scopes form a tree: each child's extent lies inside its parent's.
    for s in &t.scopes {
        if let Some(par) = s.parent {
            assert!(t.scopes[par].start <= s.start && s.end <= t.scopes[par].end);
        }
    }

    assert_eq!(t.binding_scope, vec![0, 1, 0]);
    assert_eq!(t.stmt_scope, vec![0, 1, 1, 2, 2, 1, 0]);
}

#[test]
fn malformed_nesting_fails_the_build() {
    let stray = stmts_only(vec![Stmt::Decl { mutable: false }, Stmt::Close]);
    let d = build_scopes(&stray).unwrap_err();
    assert_eq!(d.kind, DiagKind::StructuralError);
    assert_eq!(d.location, 1);

    let unclosed = stmts_only(vec![Stmt::Open, Stmt::Open, Stmt::Close]);
    let d = build_scopes(&unclosed).unwrap_err();
    assert_eq!(d.kind, DiagKind::StructuralError);
    assert_eq!(d.location, 3);
}
