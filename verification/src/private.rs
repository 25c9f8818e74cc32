use vstd::prelude::*;

verus! {

/// Keeps the marker traits of this crate from being implemented outside it.
pub trait Private {

}

} // verus!
