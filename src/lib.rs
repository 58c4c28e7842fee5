//! Flags files whose extension disagrees with the magic number at their start.
use vstd::prelude::*;

pub mod text;
pub mod signature;
pub mod classify;
pub mod report;
pub mod laws;

verus! {

} // verus!
