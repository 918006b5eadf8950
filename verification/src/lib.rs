use vstd::prelude::*;

pub mod convert;
pub mod fwmv;
pub mod queue;

verus! {

} // verus!
