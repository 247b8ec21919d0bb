//! Storage adapter for an authenticated, versioned sparse Merkle index over
//! an ordered key/value store: the node-key codec and its ordering contract,
//! rightmost-leaf discovery by bounded ordered-seek probes, and the batched
//! multi-version commit bookkeeping.

pub mod order;
pub mod node_key;
pub mod node;
pub mod store;
pub mod commit;
pub mod rightmost;

use vstd::prelude::*;

verus! {

/// The error taxonomy of the store adapter.
///
/// `NotFound` reports a version with no committed root. `ContractViolation`
/// reports output of the tree engine that breaks its interface contract; it
/// is fatal and never retried.
#[derive(Clone, Copy, PartialEq, Eq, Structural, Debug)]
pub enum StateStoreError {
    NotFound,
    ContractViolation,
}

} // verus!
