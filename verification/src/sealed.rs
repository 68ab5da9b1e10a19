use vstd::prelude::*;

verus! {

/// Only the seven weekday types of this crate may implement the
/// week-start capability.
pub trait Sealed {

}

} // verus!
