//! Analysis of the obligations of a body: binning them into expressions,
//! relating reported errors, and the per-thread stores.
use vstd::prelude::*;

pub mod entry;
pub mod hir;
pub mod tls;
pub mod transform;

verus! {

} // verus!
