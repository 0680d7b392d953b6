use vstd::prelude::*;

pub mod pattern;
pub mod matcher;
pub mod router;

verus! {

} // verus!
