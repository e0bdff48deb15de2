//! Hardens programs against out-of-bounds memory accesses inside
//! programmer-declared micro-transactions.
//!
//! A micro-transaction is a lexical region of the source program that
//! declares, at its entry, a single contiguous memory window
//! `[base, base + length)` as the only memory the region may read or write.
//! The front end lowers the declarations into calls to the intrinsics
//! `utx1(ptr, len)` (open a window) and `utx0()` (close it).  This crate
//! works on a typed SSA intermediate representation of the annotated
//! functions:
//!
//! - [`runtime`] rewrites a function so that every load and store is guarded
//!   by a bounds check against the currently active window, branching to an
//!   abort block on violation;
//! - [`checks`] builds the guarding sequence itself and states the
//!   predicate it computes;
//! - [`static_checks`] proves specific accesses in bounds ahead of time, so
//!   their runtime checks can be suppressed, and as a standalone verifier
//!   accepts or rejects a whole function;
//! - [`sandboxer`] is a simpler window-list variant of the standalone
//!   verifier;
//! - [`ir`] is the representation itself and [`navigator`] the read-only
//!   queries over it.
#![verifier::loop_isolation(false)]

use vstd::prelude::*;

pub mod bytes;
pub mod checks;
pub mod ir;
pub mod navigator;
pub mod runtime;
pub mod sandboxer;
pub mod static_checks;

verus! {

/// How a transformation or query over the representation can fail.
///
/// Every failure is surfaced to the caller as one of these values; a
/// partially transformed module is the caller's to discard.
#[derive(Clone, Copy, PartialEq, Eq, Structural, Debug)]
pub enum IrError {
    /// An operand had an unexpected type, an access carried no width, an
    /// opcode was not the required one, or a phi's printed form could not be
    /// parsed.
    MalformedIr,
    /// The named function does not exist in the module.
    MissingFunction,
}

} // verus!
