use vstd::prelude::*;

pub mod maze;
pub mod picker;
pub mod render;

verus! {

} // verus!
