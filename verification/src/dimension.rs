//! The axis a tree node splits on.

use vstd::prelude::*;

verus! {

/// Which dimension a tree node has split on. `NoDim` stands for a node
/// that splits on no axis at all, such as a leaf.
#[derive(Clone, Copy, PartialEq, Eq, Structural, Debug)]
pub enum Dimension {
    X,
    Y,
    Z,
    NoDim,
}

impl Dimension {
    /// Whether this is one of the three concrete axes.
    pub open spec fn is_axis(self) -> bool {
        self is X || self is Y || self is Z
    }

    /// The dimension as a string slice.
    pub fn as_string(&self) -> (r: &'static str)
        ensures
            *self is X ==> r@ == "X"@,
            *self is Y ==> r@ == "Y"@,
            *self is Z ==> r@ == "Z"@,
            *self is NoDim ==> r@ == "None"@,
    {
        match *self {
            Dimension::X => "X",
            Dimension::Y => "Y",
            Dimension::Z => "Z",
            Dimension::NoDim => "None",
        }
    }
}

} // verus!
