//! A persistent, bounded one-sided Top-N cache over an ordered key-value
//! state table, together with the order-preserving row codec it relies on.

use vstd::prelude::*;

pub mod assoc;
pub mod codec;
pub mod filter_agg;
pub mod order;
pub mod row;
pub mod state_table;
pub mod top_n_state;

verus! {

/// The error kinds surfaced by the library: a row failed to encode or
/// decode, or the state store failed a read, write or commit. The in-memory
/// state table never fails, so its operations are proved to return only
/// `Ok`; the storage kind names the failure a durable store could surface.
#[derive(Clone, Copy, PartialEq, Eq, Structural, Debug)]
pub enum StateError {
    Codec,
    Storage,
}

} // verus!
