//! Verified core of a trait-debugging library: proof-tree node packing,
//! tree topology, DNF correction sets and obligation bookkeeping.
use vstd::prelude::*;

pub mod aadebug;
pub mod analysis;
pub mod ext;
pub mod proof_tree;
pub mod types;

verus! {

} // verus!
