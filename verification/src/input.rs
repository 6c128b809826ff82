//! Input event types and the queue widgets consume during dispatch.

use vstd::prelude::*;
use crate::geometry::Vec2;

verus! {

/// What set off an input event, as far as routing needs to know.
#[derive(Clone, Copy, Debug, PartialEq, Eq, Structural)]
pub enum Trigger {
    /// A key press.
    Key,
    /// The pointer moved with no button held.
    MouseHover,
    /// A mouse button went down.
    MouseDown,
    /// The pointer moved with a button held.
    MouseDrag,
    /// A mouse button went up.
    MouseUp,
    /// A wheel step.
    MouseScroll,
    /// A smooth (pixel-precise) scroll.
    MouseSmoothScroll,
}

/// Key or mouse chord that triggered an event.
#[derive(Clone, Copy, Debug, PartialEq, Eq, Structural)]
pub struct Chord {
    /// The trigger of the chord.
    pub trigger: Trigger,
}

/// Single input event with mouse position, [`Chord`], and repeat count.
#[derive(Clone, Copy, Debug, PartialEq, Eq, Structural)]
pub struct InputEvent {
    /// Mouse position in window coordinates at the time of the event.
    pub mouse_window_pos: Vec2<i32>,
    /// Sub-pixel position within the cell at `mouse_window_pos`.
    pub mouse_window_subpx: Vec2<i32>,
    /// Mouse position in the receiving widget's local coordinates.
    pub mouse_pos: Vec2<i32>,
    /// Key or mouse [`Chord`] that triggered the event.
    pub chord: Chord,
    /// Repeat count. One for the first press, increasing on subsequent repeats.
    pub count: u8,
}

/// The repeat count `count` mapped onto the cycle `1..=max`.
pub open spec fn click_cycle(count: u8, max: u8) -> int {
    1 + (if count == 0 {
        0int
    } else {
        count - 1
    }) % (max as int)
}

impl InputEvent {
    /// Builds a synthetic event from `chord` with no mouse info.
    pub fn from_chord(chord: Chord) -> (r: InputEvent)
        ensures
            r.chord == chord,
            r.mouse_pos == (Vec2 { x: -1i32, y: -1i32 }),
            r.mouse_window_pos == (Vec2 { x: -1i32, y: -1i32 }),
            r.mouse_window_subpx == (Vec2 { x: -1i32, y: -1i32 }),
            r.count == 1,
    {
        let pos = Vec2 { x: -1, y: -1 };
        InputEvent {
            chord,
            mouse_pos: pos,
            mouse_window_pos: pos,
            mouse_window_subpx: Vec2 { x: -1, y: -1 },
            count: 1,
        }
    }

    /// Returns `count` mapped onto the cycle `1..=max`, repeating after `max` clicks.
    pub fn get_click_cycle(&self, max: u8) -> (r: u8)
        requires
            max > 0,
        ensures
            r == click_cycle(self.count, max),
            1 <= r <= max,
    {
        1 + (self.count.saturating_sub(1)) % max
    }

    /// Returns true when [`get_click_cycle`](Self::get_click_cycle) lands on `n`.
    pub fn is_cycle(&self, n: u8, max: u8) -> (r: bool)
        requires
            max > 0,
        ensures
            r == (click_cycle(self.count, max) == n),
    {
        self.get_click_cycle(max) == n
    }

    /// Returns true when the [`Chord`] is any mouse trigger.
    pub fn is_mouse_event(&self) -> (r: bool)
        ensures
            r == (self.chord.trigger != Trigger::Key),
    {
        match self.chord.trigger {
            Trigger::MouseHover | Trigger::MouseDown | Trigger::MouseDrag | Trigger::MouseUp
            | Trigger::MouseScroll | Trigger::MouseSmoothScroll => true,
            Trigger::Key => false,
        }
    }
}

/// The click cycle repeats every `max` clicks and starts over at one after `max`.
pub proof fn lemma_click_cycle_period(count: u8, max: u8)
    requires
        max > 0,
        count >= 1,
        count + max <= u8::MAX,
    ensures
        click_cycle((count + max) as u8, max) == click_cycle(count, max),
        1 <= click_cycle(count, max) <= max,
        count <= max ==> click_cycle(count, max) == count,
{
    vstd::arithmetic::div_mod::lemma_mod_add_multiples_vanish((count - 1) as int, max as int);
    vstd::arithmetic::div_mod::lemma_mod_bound((count - 1) as int, max as int);
    if count <= max {
        vstd::arithmetic::div_mod::lemma_small_mod((count - 1) as nat, max as nat);
    }
}

/// Outcome of a widget consuming an [`InputEvent`].
#[derive(Clone, Copy, Debug, PartialEq, Eq, Structural)]
pub enum InputResult {
    /// Event was consumed and dispatch stops.
    Handled,
    /// Event was not consumed and dispatch continues to the next handler.
    Rejected,
    /// Event was claimed but more events are needed before it resolves.
    Pending,
}

/// Cursor over a slice of [`InputEvent`]s with flushing and unhandled flags.
pub struct InputQueue<'a> {
    events: &'a [InputEvent],
    pos: usize,
    flushing: bool,
    unhandled: bool,
}

impl<'a> InputQueue<'a> {
    #[verifier::type_invariant]
    spec fn inv(self) -> bool {
        self.pos <= self.events@.len()
    }

    /// The whole backing sequence of events.
    pub closed spec fn events(self) -> Seq<InputEvent> {
        self.events@
    }

    /// The number of events consumed so far.
    pub closed spec fn consumed(self) -> int {
        self.pos as int
    }

    /// Whether the queue is in flushing mode.
    pub closed spec fn flushing(self) -> bool {
        self.flushing
    }

    /// Whether no widget consumed the events backing this queue.
    pub closed spec fn unhandled(self) -> bool {
        self.unhandled
    }

    /// Creates a queue starting at the first event.
    pub fn new(events: &'a [InputEvent], unhandled: bool) -> (r: InputQueue<'a>)
        ensures
            r.events() == events@,
            r.consumed() == 0,
            !r.flushing(),
            r.unhandled() == unhandled,
    {
        InputQueue { events, pos: 0, flushing: false, unhandled }
    }

    /// Creates a queue in flushing mode.
    pub fn new_flushing(events: &'a [InputEvent], unhandled: bool) -> (r: InputQueue<'a>)
        ensures
            r.events() == events@,
            r.consumed() == 0,
            r.flushing(),
            r.unhandled() == unhandled,
    {
        InputQueue { events, pos: 0, flushing: true, unhandled }
    }

    /// Returns true when the queue is in flushing mode.
    pub fn is_flushing(&self) -> (r: bool)
        ensures
            r == self.flushing(),
    {
        self.flushing
    }

    /// Returns true when no widget consumed the events backing this queue.
    pub fn is_unhandled(&self) -> (r: bool)
        ensures
            r == self.unhandled(),
    {
        self.unhandled
    }

    /// Advances the cursor and returns the consumed event.
    pub fn next(&mut self) -> (r: Option<&'a InputEvent>)
        ensures
            final(self).events() == old(self).events(),
            final(self).flushing() == old(self).flushing(),
            final(self).unhandled() == old(self).unhandled(),
            old(self).consumed() < old(self).events().len() ==> {
                &&& r == Some(&old(self).events()[old(self).consumed()])
                &&& final(self).consumed() == old(self).consumed() + 1
            },
            old(self).consumed() >= old(self).events().len() ==> {
                &&& r is None
                &&& final(self).consumed() == old(self).consumed()
            },
            0 <= final(self).consumed() <= final(self).events().len(),
    {
        proof {
            use_type_invariant(&*self);
        }
        if self.pos < self.events.len() {
            let event = &self.events[self.pos];
            self.pos = self.pos + 1;
            Some(event)
        } else {
            None
        }
    }

    /// Returns the next event without advancing the cursor.
    pub fn peek(&self) -> (r: Option<&'a InputEvent>)
        ensures
            r == if self.consumed() < self.events().len() {
                Some(&self.events()[self.consumed()])
            } else {
                None
            },
    {
        proof {
            use_type_invariant(self);
        }
        if self.pos < self.events.len() {
            Some(&self.events[self.pos])
        } else {
            None
        }
    }

    /// Returns the number of events consumed so far.
    pub fn get_consumed(&self) -> (r: usize)
        ensures
            r == self.consumed(),
            r <= self.events().len(),
    {
        proof {
            use_type_invariant(self);
        }
        self.pos
    }

    /// Returns the events at or after the cursor.
    pub fn get_remaining(&self) -> (r: &'a [InputEvent])
        ensures
            r@ == self.events().subrange(self.consumed(), self.events().len() as int),
    {
        proof {
            use_type_invariant(self);
        }
        vstd::slice::slice_subrange(self.events, self.pos, self.events.len())
    }

    /// Returns the full backing slice regardless of cursor position.
    pub fn get_all(&self) -> (r: &'a [InputEvent])
        ensures
            r@ == self.events(),
    {
        self.events
    }

    /// Rewinds the cursor to the first event.
    pub fn reset(&mut self)
        ensures
            final(self).consumed() == 0,
            final(self).events() == old(self).events(),
            final(self).flushing() == old(self).flushing(),
            final(self).unhandled() == old(self).unhandled(),
    {
        self.pos = 0;
    }
}

/// What the consumed events and the remaining events add up to: the whole queue.
pub proof fn lemma_consumed_and_remaining(events: Seq<InputEvent>, consumed: int)
    requires
        0 <= consumed <= events.len(),
    ensures
        events.subrange(0, consumed) + events.subrange(consumed, events.len() as int) =~= events,
{
}

} // verus!
