use vstd::prelude::*;

pub mod apportion;
pub mod calendar;
pub mod cli;
pub mod error;
pub mod exclusion;
pub mod filter;
pub mod git;
pub mod github;
pub mod numeric;
pub mod order;
pub mod output;
pub mod pattern;
pub mod pipeline;
pub mod stats;
pub mod text;

verus! {

} // verus!
