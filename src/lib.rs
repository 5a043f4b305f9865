//! Keeps the changelog of a product's daily builds: the fixes of each build,
//! by category, what is new in them since the last run, and the report that
//! announces it.
use vstd::prelude::*;

pub mod assoc;
pub mod bot;
pub mod icons;
pub mod laws;
pub mod log;
pub mod order;
pub mod parsers;
pub mod text;
pub mod types;

verus! {

} // verus!
