//! A minimal static lifetime and borrow validator.
//!
//! Given a structured description of a small reference-holding program
//! (scopes, bindings, borrows, struct definitions with lifetime parameters,
//! and calls that tie lifetimes together), the validator decides whether
//! every reference is used only within the extent of the data it points to,
//! and reports one diagnostic per violation.
//!
//! The pipeline runs in one direction: the scope tree builder
//! ([`scope`]), the lifetime parameter resolver ([`resolve`]), the borrow
//! checker core ([`borrows`]), and the diagnostic reporter ([`report`]).
//! The entry point is [`validate::check_program`]; the laws the validator
//! obeys are proved in [`laws`].

pub mod borrows;
pub mod examples;
pub mod laws;
pub mod program;
pub mod report;
pub mod resolve;
pub mod scope;
pub mod validate;
