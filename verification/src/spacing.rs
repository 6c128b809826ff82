//! Per-edge spacing in cells.

use vstd::prelude::*;
use crate::geometry::{Axis2D, Vec2};

verus! {

/// Spacing on the leading and the trailing edge of one axis.
#[derive(Clone, Copy, Debug, PartialEq, Eq, Structural)]
pub struct EdgePair {
    /// Spacing on the leading edge.
    pub before: u8,
    /// Spacing on the trailing edge.
    pub after: u8,
}

/// Per-edge spacing in cells: for each axis, the leading and the trailing edge.
#[derive(Clone, Copy, Debug, PartialEq, Eq, Structural)]
pub struct Spacing(pub Vec2<EdgePair>);

impl Spacing {
    /// The spacing on the leading edge of `axis`.
    pub open spec fn before(self, axis: Axis2D) -> u8 {
        self.0.at(axis).before
    }

    /// The spacing on the trailing edge of `axis`.
    pub open spec fn after(self, axis: Axis2D) -> u8 {
        self.0.at(axis).after
    }

    /// The spacing with the given four edges.
    pub open spec fn edges(self, left: u8, right: u8, top: u8, bottom: u8) -> bool {
        &&& self.before(Axis2D::X) == left
        &&& self.after(Axis2D::X) == right
        &&& self.before(Axis2D::Y) == top
        &&& self.after(Axis2D::Y) == bottom
    }

    /// Creates zero spacing on every edge.
    pub fn new() -> (r: Spacing)
        ensures
            r.edges(0, 0, 0, 0),
    {
        Spacing(Vec2 { x: EdgePair { before: 0, after: 0 }, y: EdgePair { before: 0, after: 0 } })
    }

    /// Creates equal spacing on each axis scaled to `n` horizontal cells: `n` on the left and
    /// right, `(n + 1) / 3` on the top and bottom.
    pub fn balanced(n: u8) -> (r: Spacing)
        requires
            n < 255,
        ensures
            r.edges(n, n, ((n + 1) / 3) as u8, ((n + 1) / 3) as u8),
    {
        let y = (n + 1) / 3;
        Spacing(Vec2 { x: EdgePair { before: n, after: n }, y: EdgePair { before: y, after: y } })
    }

    /// Sets the left spacing.
    pub fn left(self, n: u8) -> (r: Spacing)
        ensures
            r.edges(n, self.after(Axis2D::X), self.before(Axis2D::Y), self.after(Axis2D::Y)),
    {
        let mut s = self;
        s.0.x.before = n;
        s
    }

    /// Sets the right spacing.
    pub fn right(self, n: u8) -> (r: Spacing)
        ensures
            r.edges(self.before(Axis2D::X), n, self.before(Axis2D::Y), self.after(Axis2D::Y)),
    {
        let mut s = self;
        s.0.x.after = n;
        s
    }

    /// Sets the top spacing.
    pub fn top(self, n: u8) -> (r: Spacing)
        ensures
            r.edges(self.before(Axis2D::X), self.after(Axis2D::X), n, self.after(Axis2D::Y)),
    {
        let mut s = self;
        s.0.y.before = n;
        s
    }

    /// Sets the bottom spacing.
    pub fn bottom(self, n: u8) -> (r: Spacing)
        ensures
            r.edges(self.before(Axis2D::X), self.after(Axis2D::X), self.before(Axis2D::Y), n),
    {
        let mut s = self;
        s.0.y.after = n;
        s
    }

    /// Sets both left and right spacing to `n`.
    pub fn horizontal(self, n: u8) -> (r: Spacing)
        ensures
            r.edges(n, n, self.before(Axis2D::Y), self.after(Axis2D::Y)),
    {
        let mut s = self;
        s.0.x = EdgePair { before: n, after: n };
        s
    }

    /// Sets both top and bottom spacing to `n`.
    pub fn vertical(self, n: u8) -> (r: Spacing)
        ensures
            r.edges(self.before(Axis2D::X), self.after(Axis2D::X), n, n),
    {
        let mut s = self;
        s.0.y = EdgePair { before: n, after: n };
        s
    }

    /// Returns the spacing on the leading edge of `axis`.
    pub fn get_before(&self, axis: Axis2D) -> (r: u8)
        ensures
            r == self.before(axis),
    {
        self.0.get(axis).before
    }

    /// Returns the spacing on the trailing edge of `axis`.
    pub fn get_after(&self, axis: Axis2D) -> (r: u8)
        ensures
            r == self.after(axis),
    {
        self.0.get(axis).after
    }

    /// The total spacing on `axis`.
    pub open spec fn total(self, axis: Axis2D) -> u16 {
        (self.before(axis) + self.after(axis)) as u16
    }

    /// Returns the total spacing on each axis.
    pub fn get_total(&self) -> (r: Vec2<u16>)
        ensures
            r.x == self.before(Axis2D::X) + self.after(Axis2D::X),
            r.y == self.before(Axis2D::Y) + self.after(Axis2D::Y),
            r.x == self.total(Axis2D::X),
            r.y == self.total(Axis2D::Y),
    {
        Vec2 {
            x: self.0.x.before as u16 + self.0.x.after as u16,
            y: self.0.y.before as u16 + self.0.y.after as u16,
        }
    }
}

impl Default for Spacing {
    fn default() -> (r: Spacing)
        ensures
            r.edges(0, 0, 0, 0),
    {
        Spacing::new()
    }
}

} // verus!
