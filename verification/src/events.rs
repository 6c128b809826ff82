//! Standard widget event payloads.

use vstd::prelude::*;

verus! {

/// Scroll offset change notification.
pub struct ScrollEvent;

/// Click notification.
pub struct ClickEvent;

/// Value change notification carrying the new value.
pub struct ChangeEvent<T>(pub T);

/// Request from a list for the items in the index range `start..end` to be loaded.
pub struct ListRequestEvent(pub std::ops::Range<usize>);

impl ListRequestEvent {
    /// Creates a request for the items `start..end`.
    pub fn new(start: usize, end: usize) -> (r: ListRequestEvent)
        ensures
            r.0.start == start,
            r.0.end == end,
    {
        ListRequestEvent(start..end)
    }
}

} // verus!
