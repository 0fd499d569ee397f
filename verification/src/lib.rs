use vstd::prelude::*;

pub mod event;
pub mod track;
pub mod agg;
pub mod filter;
pub mod parse;
pub mod codec;
pub mod clock;
pub mod show;

verus! {

/// Every timestamp the library computes with stays inside this bound
/// (seconds around the Unix epoch, roughly 133 thousand years), so that
/// sums and differences of instants always fit in `i64`.  The bound is a
/// multiple of 60 and of 3600, which keeps minute truncation stable under
/// shifting by it.
pub const INSTANT_BOUND: i64 = 4_200_000_000_000;

} // verus!

