use vstd::prelude::*;

pub mod buffer;
pub mod graph;

verus! {

} // verus!
