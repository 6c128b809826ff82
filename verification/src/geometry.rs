//! Plain two-dimensional values: axes, vectors, rectangles, edges and signs.

use vstd::prelude::*;

verus! {

/// One of the two cartesian axes.
#[derive(Clone, Copy, Debug, PartialEq, Eq, Structural)]
pub enum Axis2D {
    /// The horizontal axis.
    X,
    /// The vertical axis.
    Y,
}

impl Axis2D {
    /// The perpendicular axis.
    pub open spec fn spec_flip(self) -> Axis2D {
        match self {
            Axis2D::X => Axis2D::Y,
            Axis2D::Y => Axis2D::X,
        }
    }

    /// Returns the perpendicular axis.
    pub fn flip(&self) -> (r: Axis2D)
        ensures
            r == self.spec_flip(),
            r != *self,
    {
        match self {
            Axis2D::X => Axis2D::Y,
            Axis2D::Y => Axis2D::X,
        }
    }

    /// Returns true when this is the X axis.
    pub fn is_x(&self) -> (r: bool)
        ensures
            r == (*self == Axis2D::X),
    {
        match self {
            Axis2D::X => true,
            Axis2D::Y => false,
        }
    }
}

/// Two-component vector.
#[derive(Clone, Copy, Debug, PartialEq, Eq, Structural)]
pub struct Vec2<T> {
    /// Horizontal component.
    pub x: T,
    /// Vertical component.
    pub y: T,
}

impl<T> Vec2<T> {
    /// The component along `axis`.
    pub open spec fn at(self, axis: Axis2D) -> T {
        match axis {
            Axis2D::X => self.x,
            Axis2D::Y => self.y,
        }
    }

    /// The vector with the component along `axis` replaced by `value`.
    pub open spec fn with(self, axis: Axis2D, value: T) -> Vec2<T> {
        match axis {
            Axis2D::X => Vec2 { x: value, y: self.y },
            Axis2D::Y => Vec2 { x: self.x, y: value },
        }
    }

    /// Constructs a vector from its X and Y components.
    pub fn new(x: T, y: T) -> (r: Vec2<T>)
        ensures
            r.x == x,
            r.y == y,
    {
        Vec2 { x, y }
    }

    /// Returns a vector with both components set to `value`.
    pub fn of(value: T) -> (r: Vec2<T>)
        where
            T: Copy,
        ensures
            r.x == value,
            r.y == value,
    {
        Vec2 { x: value, y: value }
    }

    /// Returns the component along `axis`.
    pub fn get(&self, axis: Axis2D) -> (r: T)
        where
            T: Copy,
        ensures
            r == self.at(axis),
    {
        match axis {
            Axis2D::X => self.x,
            Axis2D::Y => self.y,
        }
    }

    /// Replaces the component along `axis`.
    pub fn set(&mut self, axis: Axis2D, value: T)
        ensures
            *final(self) == old(self).with(axis, value),
    {
        match axis {
            Axis2D::X => { self.x = value; },
            Axis2D::Y => { self.y = value; },
        }
    }
}

/// Axis-aligned rectangle with signed position and unsigned size.
#[derive(Clone, Copy, Debug, PartialEq, Eq, Structural)]
pub struct Rect {
    /// Position of the top-left corner.
    pub pos: Vec2<i32>,
    /// Width and height.
    pub size: Vec2<u16>,
}

impl Rect {
    /// Constructs a rect from a position vector and a size vector.
    pub fn new(pos: Vec2<i32>, size: Vec2<u16>) -> (r: Rect)
        ensures
            r.pos == pos,
            r.size == size,
    {
        Rect { pos, size }
    }
}

/// Top or bottom edge of a rectangle.
#[derive(Clone, Copy, Debug, PartialEq, Eq, Structural)]
pub enum VerticalEdge {
    /// The top edge.
    Top,
    /// The bottom edge.
    Bottom,
}

/// Direction along a one-dimensional axis.
#[derive(Clone, Copy, Debug, PartialEq, Eq, Structural)]
pub enum Sign {
    /// Backward direction.
    Negative,
    /// Forward direction.
    Positive,
}
} // verus!
