//! Fixed-size multisets whose slots hold multiplicities.
use vstd::prelude::*;

pub mod count;
pub mod seq_counts;
pub mod laws;
pub mod multiset;

pub use count::{Count, ElemScalar};
pub use multiset::SlotMultiset;

verus! {

} // verus!
