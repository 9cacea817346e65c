//! Graphical representations of tunes.

use vstd::prelude::*;

verus! {

/// A visualisation of a tune.
pub struct Visualisation {}

impl Visualisation {
    pub fn new() -> (r: Visualisation)
        ensures
            r == (Visualisation {}),
    {
        Visualisation {}
    }
}

} // verus!
