//! Widget identifiers and root-to-leaf paths of them.

use vstd::prelude::*;

verus! {

/// Stable identifier of a widget; zero stands for no widget.
#[derive(Clone, Copy, Debug, PartialEq, Eq, Hash, Structural)]
pub struct WidgetId(pub u64);

impl WidgetId {
    /// Returns the identifier that stands for no widget.
    pub fn empty() -> (r: WidgetId)
        ensures
            r.0 == 0,
    {
        WidgetId(0)
    }

    /// Returns this identifier without a widget type attached.
    pub fn untyped(self) -> (r: WidgetId)
        ensures
            r == self,
    {
        self
    }

    /// Returns true when this is [`WidgetId::empty`].
    pub fn is_empty(self) -> (r: bool)
        ensures
            r == (self.0 == 0),
    {
        self.0 == 0
    }
}

/// Ordered chain of [`WidgetId`]s from a root to a descendant.
#[derive(Clone)]
pub struct WidgetPath {
    ids: Vec<WidgetId>,
}

impl View for WidgetPath {
    type V = Seq<WidgetId>;

    closed spec fn view(&self) -> Seq<WidgetId> {
        self.ids@
    }
}

impl WidgetPath {
    /// Creates a path from a raw id sequence.
    pub fn from_ids(ids: Vec<WidgetId>) -> (r: WidgetPath)
        ensures
            r@ == ids@,
    {
        WidgetPath { ids }
    }

    /// Returns the leaf id the path leads to.
    pub fn get_target(&self) -> (r: WidgetId)
        requires
            self@.len() > 0,
        ensures
            r == self@.last(),
    {
        self.ids[self.ids.len() - 1]
    }

    /// Returns the ids in root-to-leaf order.
    pub fn as_slice(&self) -> (r: &[WidgetId])
        ensures
            r@ == self@,
    {
        self.ids.as_slice()
    }

    /// Returns the number of ids in the path.
    pub fn len(&self) -> (r: usize)
        ensures
            r == self@.len(),
    {
        self.ids.len()
    }

    /// Returns true if the path holds no ids.
    pub fn is_empty(&self) -> (r: bool)
        ensures
            r == (self@.len() == 0),
    {
        self.ids.len() == 0
    }
}

} // verus!
