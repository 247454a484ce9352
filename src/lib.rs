use vstd::prelude::*;

pub mod laws;
pub mod skip;
pub mod source;
pub mod window;

verus! {

} // verus!
