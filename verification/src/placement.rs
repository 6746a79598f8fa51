//! Layout vocabulary: axes, anchors, size hints and children layouts.
//!
//! The *main axis* is the axis along which widgets are stacked. The other axis is called the
//! *cross axis*.
use vstd::prelude::*;

verus! {

/// One of the two axes of the screen.
#[derive(Copy, Clone, Debug, PartialEq, Eq, Structural)]
pub enum Axis {
    X,
    Y,
}

impl Axis {
    /// The axis that is not `self`.
    pub open spec fn spec_other(self) -> Axis {
        match self {
            Axis::X => Axis::Y,
            Axis::Y => Axis::X,
        }
    }

    /// Returns the other axis: `X` for `Y` and `Y` for `X`.
    pub fn other(self) -> (r: Axis)
        ensures
            r == self.spec_other(),
            r != self,
    {
        match self {
            Axis::X => Axis::Y,
            Axis::Y => Axis::X,
        }
    }
}

/// Taking the other axis twice gives back the axis one started with.
pub proof fn law_other_is_involution(a: Axis)
    ensures
        a.spec_other().spec_other() == a,
        a.spec_other() != a,
{
}

impl<T> std::ops::Index<Axis> for (T, T) {
    type Output = T;

    /// The component of a pair along an axis: the first for `X`, the second for `Y`.
    fn index(&self, idx: Axis) -> (r: &T)
        ensures
            *r == (match idx {
                Axis::X => self.0,
                Axis::Y => self.1,
            }),
    {
        match idx {
            Axis::X => &self.0,
            Axis::Y => &self.1,
        }
    }
}

impl<T> std::ops::IndexMut<Axis> for (T, T) {
    /// The component of a pair along an axis, to be changed.
    fn index_mut(&mut self, idx: Axis) -> (r: &mut T)
        ensures
            *r == (match idx {
                Axis::X => old(self).0,
                Axis::Y => old(self).1,
            }),
            *final(self) == (match idx {
                Axis::X => (*final(r), old(self).1),
                Axis::Y => (old(self).0, *final(r)),
            }),
    {
        match idx {
            Axis::X => &mut self.0,
            Axis::Y => &mut self.1,
        }
    }
}

/// Where along an axis a widget is anchored.
#[derive(Copy, Clone, Debug, PartialEq, Eq, Structural)]
pub enum Anchor {
    Min,
    Center,
    Max,
}

/// How the size of a widget along one axis is decided.
#[derive(Copy, Clone, Debug, PartialEq, Eq, Structural)]
pub enum SizeHint {
    /// Size is given externally - by application or rendering.
    /// For example, a text field's size is determined by the render engine.
    External,
    /// Size is determined by the size of children.
    /// Size will be set to exactly contain children (plus eventual padding).
    Minimize,
}

/// How the children of a widget are stacked.
#[derive(Copy, Clone, Debug, PartialEq, Eq, Structural)]
pub enum ChildrenLayout {
    /// Children are only stacked along X axis
    StackX,
    /// Children are only stacked along Y axis
    StackY,
}

} // verus!
