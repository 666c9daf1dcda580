//! The structured program description that the validator checks, and the
//! diagnostics it reports.
//!
//! A program arrives already parsed: an ordered list of statements
//! (declarations, borrows, block boundaries) together with the struct
//! definitions it mentions. Bindings are numbered in declaration order;
//! scopes are delimited by explicit open/close statements.

use vstd::prelude::*;

verus! {

/// The kind of access a borrow requests: many shared borrows of one referent
/// may coexist, while an exclusive borrow excludes every other borrow.
#[derive(Clone, Copy, Debug, PartialEq, Eq, Structural)]
pub enum BorrowKind {
    Shared,
    Exclusive,
}

/// One statement of an already-parsed program description, in program order.
#[derive(Clone, Copy, Debug, PartialEq, Eq, Structural)]
pub enum Stmt {
    /// Opens a nested lexical scope.
    Open,
    /// Closes the innermost open scope.
    Close,
    /// Declares the next binding; bindings are numbered in declaration order,
    /// and a binding's extent is exactly the scope that declares it. The
    /// mutability flag records how the binding was declared; the aliasing
    /// rules are independent of it.
    Decl { mutable: bool },
    /// Takes a borrow of the binding `referent`. A temporary borrow is used
    /// only as an expression argument and ends with its own statement; any
    /// other borrow is held by a binding of the current scope and ends with
    /// that scope.
    TakeBorrow { referent: usize, kind: BorrowKind, temp: bool },
    /// Reassigns the binding `target`, which is an exclusive-borrow request
    /// against the binding's current borrow state.
    Assign { target: usize },
    /// Uses the struct definition `def` with `supplied` lifetime arguments,
    /// as an instantiation or an `impl`-style reference.
    UseStruct { def: usize, supplied: usize },
    /// Calls a method that ties the lifetimes of two same-tagged reference
    /// arguments, borrowing `left` and `right`, and whose result may alias
    /// either; the two lifetime parameters unify to the narrower candidate
    /// scope.
    CallTied { left: usize, right: usize },
}

/// A named aggregate: for the validator only the length of its declared
/// lifetime parameter list matters, since lifetime arguments bind by
/// position.
#[derive(Clone, Copy, Debug, PartialEq, Eq, Structural)]
pub struct StructDef {
    pub lifetime_params: usize,
}

/// A whole program description: its struct definitions and the statement
/// list of its entry routine, blocks flattened into open/close statements.
#[derive(Clone, Debug)]
pub struct Program {
    pub structs: Vec<StructDef>,
    pub stmts: Vec<Stmt>,
}

/// The mathematical view of a [`Program`]: the same data as sequences.
#[verifier::ext_equal]
pub ghost struct ProgramView {
    pub structs: Seq<StructDef>,
    pub stmts: Seq<Stmt>,
}

impl View for Program {
    type V = ProgramView;

    open spec fn view(&self) -> ProgramView {
        ProgramView { structs: self.structs@, stmts: self.stmts@ }
    }
}

/// What a diagnostic reports.
#[derive(Clone, Copy, Debug, PartialEq, Eq, Structural)]
pub enum DiagKind {
    /// Malformed nesting; fatal, the run aborts with this one diagnostic.
    StructuralError,
    /// A use site supplied a different number of lifetime arguments than the
    /// definition declares.
    ArityMismatch,
    /// A borrow request that the aliasing rules reject.
    ConflictingBorrow,
    /// A borrow whose extent is not contained in its referent's extent.
    DanglingReference,
}

/// One reported violation: its kind and the index of the statement at which
/// it was discovered. Immutable once produced.
#[derive(Clone, Copy, Debug, PartialEq, Eq, Structural)]
pub struct Diagnostic {
    pub kind: DiagKind,
    pub location: usize,
}

/// The human-readable text for each diagnostic kind.
pub open spec fn message_of(kind: DiagKind) -> Seq<char> {
    match kind {
        DiagKind::StructuralError => "malformed scope nesting"@,
        DiagKind::ArityMismatch => "lifetime parameter arity mismatch"@,
        DiagKind::ConflictingBorrow => "conflicting borrow"@,
        DiagKind::DanglingReference => "dangling reference"@,
    }
}

impl Diagnostic {
    /// The message of this diagnostic, determined by its kind alone.
    pub fn message(&self) -> (r: &'static str)
        ensures
            r@ == message_of(self.kind),
    {
        match self.kind {
            DiagKind::StructuralError => "malformed scope nesting",
            DiagKind::ArityMismatch => "lifetime parameter arity mismatch",
            DiagKind::ConflictingBorrow => "conflicting borrow",
            DiagKind::DanglingReference => "dangling reference",
        }
    }
}

} // verus!
