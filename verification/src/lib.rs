//! Ledger query and balance computation engine.
//!
//! The crate records monetary transactions with exact decimal amounts,
//! answers filtered, paginated, per-owner queries over them, and derives
//! a per-owner lock deficit. Identifiers and creation stamps come from
//! outside collaborators; every rule about the data itself is verified.

use vstd::prelude::*;

pub mod amount;
pub mod query;
pub mod store;
pub mod text;

verus! {

/// The error kinds the engine can surface.
///
/// `Unauthorized` is produced by the request boundary when an owner
/// identity cannot be parsed; it is part of the error vocabulary so that
/// callers can branch on one stable set of outcomes.
#[derive(Clone, Copy, Debug, PartialEq, Eq, Structural)]
pub enum LedgerError {
    Unauthorized,
    NotFound,
    InvalidAmount,
    StoreError,
}

} // verus!
