//! The validator's entry point.
//!
//! One call checks one program: the scope tree is built (a structural error
//! aborts the run with that single diagnostic), the resolver scans the
//! lifetime-parameter use sites, the core walks the statements, and the
//! reporter aggregates everything into an ordered, deduplicated result.
//! The whole outcome is a function of the program alone.

use vstd::prelude::*;
use crate::borrows::{borrow_walk, core_diags};
use crate::program::{Diagnostic, DiagKind, Program, ProgramView};
use crate::report::{dedup_spec, Report};
use crate::resolve::{arity_diags, arity_scan};
use crate::scope::{build_ok, build_result, build_scopes, tree_of};

verus! {

/// Every diagnostic the validator reports for a program, in order: the one
/// structural error when the program's shape is malformed; otherwise the
/// resolver's arity diagnostics followed by the core's borrow diagnostics,
/// each in program order, first occurrences only.
pub open spec fn check_spec(pv: ProgramView) -> Seq<Diagnostic> {
    if build_ok(pv) {
        dedup_spec(arity_diags(pv) + core_diags(pv, tree_of(pv)))
    } else {
        seq![
            Diagnostic {
                kind: DiagKind::StructuralError,
                location: build_result(pv).fail.unwrap(),
            },
        ]
    }
}

/// Checks one program and returns its full diagnostic report; the result is
/// determined by the program alone.
pub fn check_program(p: &Program) -> (r: Report)
    ensures
        r@ == check_spec(p@),
{
    match build_scopes(p) {
        Err(d) => {
            let mut raw: Vec<Diagnostic> = Vec::new();
            raw.push(d);
            let report = Report::from_raw(raw);
            proof {
                reveal_with_fuel(dedup_spec, 2);
                assert(raw@.drop_last() =~= Seq::<Diagnostic>::empty());
                assert(dedup_spec(raw@) =~= seq![d]);
                assert(check_spec(p@) =~= seq![d]);
            }
            report
        },
        Ok(tree) => {
            let mut raw = arity_scan(p);
            let mut core = borrow_walk(p, &tree);
            raw.append(&mut core);
            Report::from_raw(raw)
        },
    }
}

} // verus!
