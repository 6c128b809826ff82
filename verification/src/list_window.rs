//! The scroll model of a virtualized list: a window of materialized items inside a longer
//! list, an anchor that pins one item at an offset from the viewport's leading edge, and the
//! estimates used for items outside the window.

use vstd::prelude::*;
use crate::align::Align;
use crate::geometry::{Axis2D, Sign, Vec2};

verus! {

/// An item index and the offset of its leading edge from the viewport's leading edge.
#[derive(Clone, Copy, Debug, PartialEq, Eq, Structural)]
pub struct Anchor {
    /// The anchored item.
    pub index: usize,
    /// Offset of the item's leading edge from the viewport's leading edge, in cells.
    pub offset: i32,
}

impl Anchor {
    /// The anchor at the first item, flush with the viewport.
    pub fn zero() -> (r: Anchor)
        ensures
            r == (Anchor { index: 0, offset: 0 }),
    {
        Anchor { index: 0, offset: 0 }
    }
}

/// What a virtualized list knows about its items while scrolling.
pub struct ListWindow {
    /// The number of items in the list.
    pub len: usize,
    /// The index of the first materialized item.
    pub window_start: usize,
    /// The main-axis size of each materialized item, margin included.
    pub heights: Vec<u16>,
    /// The gap between items.
    pub gap: u8,
    /// The rounded-up average item size used for items outside the window.
    pub avg_height: u16,
    /// The scroll anchor.
    pub anchor: Anchor,
    /// The offset of the first materialized item, as of the last fill.
    pub first_item_offset: i32,
    /// The direction items run in: forwards from the leading edge or backwards from the
    /// trailing edge.
    pub direction: Sign,
}

/// An optional index as an integer.
pub open spec fn widen_index(o: Option<usize>) -> Option<int> {
    match o {
        Some(v) => Some(v as int),
        None => None,
    }
}

/// The item index whose window slot is `wi`, when it lies in `start..start + n`.
pub open spec fn in_window(start: int, n: int, index: int) -> bool {
    start <= index < start + n
}

impl ListWindow {
    /// The window lies inside the list.
    pub open spec fn wf(self) -> bool {
        self.window_start + self.heights@.len() <= self.len
    }

    /// The number of materialized items.
    pub open spec fn n(self) -> int {
        self.heights@.len() as int
    }

    /// One past the last materialized item.
    pub open spec fn window_end(self) -> int {
        self.window_start + self.n()
    }

    /// The estimated size of an item outside the window, gap included.
    pub open spec fn step(self) -> int {
        self.avg_height + self.gap
    }

    /// The size of window slot `wi`, gap included.
    pub open spec fn slot(self, wi: int) -> int {
        self.heights@[wi] + self.gap
    }

    /// The sizes of window slots `from..to`, gaps included.
    pub open spec fn slots(self, from: int, to: int) -> int
        decreases to - from,
    {
        if to <= from {
            0
        } else {
            self.slots(from, to - 1) + self.slot(to - 1)
        }
    }

    /// The window slot of item `index`, if it is materialized.
    pub open spec fn window_slot(self, index: int) -> Option<int> {
        if in_window(self.window_start as int, self.n(), index) {
            Some(index - self.window_start)
        } else {
            None
        }
    }

    /// The size of item `index`: its measured size in the window, the average outside.
    pub open spec fn height_or_estimate(self, index: int) -> int {
        match self.window_slot(index) {
            Some(wi) => self.heights@[wi] as int,
            None => self.avg_height as int,
        }
    }

    /// The offset of window slot `wi` from the viewport's leading edge, measured from the
    /// anchor; zero when the anchor is not materialized.
    pub open spec fn offset_of(self, wi: int) -> int {
        match self.window_slot(self.anchor.index as int) {
            Some(a) => if wi >= a {
                self.anchor.offset + self.slots(a, wi)
            } else {
                self.anchor.offset - self.slots(wi, a)
            },
            None => 0,
        }
    }

    /// The offset of window slot `wi` as the list reads it: the cached first offset for the
    /// first slot.
    pub open spec fn read_offset(self, wi: int) -> int {
        if wi == 0 {
            self.first_item_offset as int
        } else {
            self.offset_of(wi)
        }
    }

    /// The position of item `index` in the content, measured items counting with their size
    /// and the rest with the estimated step.
    pub open spec fn content_offset(self, index: int) -> int {
        let step = self.step();
        if index <= self.window_start || self.n() == 0 {
            index * step
        } else {
            let upto = if index < self.window_end() {
                index
            } else {
                self.window_end()
            };
            let past = if index > self.window_end() {
                index - self.window_end()
            } else {
                0
            };
            self.window_start * step + self.slots(0, upto - self.window_start) + past * step
        }
    }

    /// The first window slot from `wi` on whose end lies past content position `px`, the
    /// window starting at `before`.
    pub open spec fn covering(self, px: int, before: int, wi: int) -> Option<int>
        decreases self.n() - wi,
    {
        if wi < 0 || wi >= self.n() {
            None
        } else if before + self.slots(0, wi + 1) > px {
            Some(wi)
        } else {
            self.covering(px, before, wi + 1)
        }
    }

    /// The scan behind [`ListWindow::get_visible_range`] from window slot `i` on: the first
    /// item that ends past the leading edge, and one past the last item that starts before
    /// `viewport`, stopping at the first item past the trailing edge once one was found.
    pub open spec fn visible_scan(self, viewport: int, i: int, start: Option<int>, end: int) -> (
        Option<int>,
        int,
    )
        decreases self.n() - i,
    {
        if i < 0 || i >= self.n() {
            (start, end)
        } else {
            let off = self.first_item_offset + self.slots(0, i);
            let start2 = if off + self.heights@[i] > 0 && start is None {
                Some(self.window_start + i)
            } else {
                start
            };
            if off < viewport {
                self.visible_scan(viewport, i + 1, start2, self.window_start + i + 1)
            } else if start2 is Some {
                (start2, end)
            } else {
                self.visible_scan(viewport, i + 1, start2, end)
            }
        }
    }

    /// The offset of window slot `wi` counted from the anchor item placed at offset `o`; zero
    /// when the anchor is not materialized.
    pub open spec fn offset_with(self, o: int, wi: int) -> int {
        match self.window_slot(self.anchor.index as int) {
            Some(a) => if wi >= a {
                o + self.slots(a, wi)
            } else {
                o - self.slots(wi, a)
            },
            None => 0,
        }
    }

    /// The anchor offset after the first item is pulled down to the leading edge, when it sits
    /// below it.
    pub open spec fn top_clamped_offset(self) -> int {
        let o0 = self.anchor.offset as int;
        let idx = self.anchor.index as int;
        if idx == 0 && o0 > 0 {
            0
        } else if idx > 0 && self.window_start == 0 && idx < self.n() {
            let top = self.offset_with(o0, 0);
            if top > 0 {
                o0 - top
            } else {
                o0
            }
        } else {
            o0
        }
    }

    /// The anchor offset after clamping in a viewport of `viewport` cells: the first item is
    /// not left below the leading edge, and when the window reaches the end of the list the
    /// last item is not left short of the trailing edge, unless the whole list is shorter than
    /// the viewport, in which case it starts at the leading edge.
    pub open spec fn clamped_offset(self, viewport: int) -> int {
        let o1 = self.top_clamped_offset();
        if self.window_end() >= self.len && self.n() > 0 {
            let last = self.n() - 1;
            let content_end = self.offset_with(o1, last) + self.heights@[last];
            if content_end < viewport {
                let o2 = o1 + (viewport - content_end);
                if self.window_start == 0 {
                    let first = self.offset_with(o2, 0);
                    if first > 0 {
                        o2 - first
                    } else {
                        o2
                    }
                } else {
                    o2
                }
            } else {
                o1
            }
        } else {
            o1
        }
    }

    /// Every value [`ListWindow::clamp_anchor`] computes fits in an `i32`.
    pub open spec fn clamp_fits(self, viewport: int) -> bool {
        let o1 = self.top_clamped_offset();
        let last = self.n() - 1;
        let content_end = self.offset_with(o1, last) + self.heights@[last];
        let o2 = o1 + (viewport - content_end);
        &&& i32::MIN <= self.offset_with(self.anchor.offset as int, 0) <= i32::MAX
        &&& i32::MIN <= o1 <= i32::MAX
        &&& self.n() > 0 ==> {
            &&& i32::MIN <= self.offset_with(o1, last) <= i32::MAX
            &&& content_end <= i32::MAX
            &&& viewport - content_end <= i32::MAX
            &&& o2 <= i32::MAX
            &&& i32::MIN <= self.offset_with(o2, 0) <= i32::MAX
            &&& i32::MIN <= self.clamped_offset(viewport) <= i32::MAX
        }
    }

    /// The scroll position of the anchor (see [`ListWindow::scroll_from_anchor`]).
    pub open spec fn scroll_pos(self) -> int {
        if self.content_offset(self.anchor.index as int) - self.anchor.offset > 0 {
            self.content_offset(self.anchor.index as int) - self.anchor.offset
        } else {
            0
        }
    }

    /// The size of all content (see [`ListWindow::get_content_size`]).
    pub open spec fn content_size(self) -> int {
        if self.len == 0 {
            0
        } else {
            self.content_offset(self.len - 1) + self.height_or_estimate(self.len - 1)
        }
    }

    /// The anchor that puts content position `px` at the viewport's leading edge.
    pub open spec fn anchor_at(self, px: int) -> Anchor {
        let step = self.step();
        let last: int = if self.len > 0 {
            self.len - 1
        } else {
            0
        };
        let before = self.window_start * step;
        if step == 0 {
            Anchor { index: 0, offset: 0 }
        } else if px < before || self.n() == 0 {
            let index = if px / step < last {
                px / step
            } else {
                last
            };
            Anchor { index: index as usize, offset: (-(px - index * step)) as i32 }
        } else {
            match self.covering(px, before, 0) {
                Some(wi) => Anchor {
                    index: (self.window_start + wi) as usize,
                    offset: (-(px - (before + self.slots(0, wi)))) as i32,
                },
                None => {
                    let remaining = px - (before + self.slots(0, self.n()));
                    let past = remaining / step;
                    let index = if self.window_end() + past < last {
                        self.window_end() + past
                    } else {
                        last
                    };
                    Anchor { index: index as usize, offset: (-(remaining - past * step)) as i32 }
                },
            }
        }
    }
}

/// Whether window slot `wi` shows in a viewport of `viewport` cells: it is a slot of the
/// window, and its item, laid out from the first item's offset, starts before the trailing
/// edge and ends past the leading edge.
pub open spec fn slot_shows(w: ListWindow, wi: int, viewport: int) -> bool {
    let start = w.first_item_offset + w.slots(0, wi);
    0 <= wi < w.n() && start < viewport && start + w.heights@[wi] > 0
}

proof fn lemma_pos_mono(w: ListWindow, j: int, k: int)
    requires
        0 <= j <= k <= w.n(),
    ensures
        w.slots(0, j) <= w.slots(0, k),
        j < k ==> w.slots(0, j) + w.heights@[j] <= w.slots(0, k),
{
    lemma_slots_split(w, 0, j, k);
    lemma_slots_bounds(w, j, k);
    if j < k {
        lemma_slots_split(w, j, j + 1, k);
        lemma_slots_bounds(w, j + 1, k);
        assert(w.slots(j, j) == 0);
        assert(w.slots(j, j + 1) == w.slot(j));
    }
}

/// The scan behind [`ListWindow::get_visible_range`], from slot `i` on with what it found so
/// far, ends with exactly the slots that show.
proof fn lemma_scan_shows(w: ListWindow, viewport: int, i: int, start: Option<int>, end: int)
    requires
        0 <= i <= w.n(),
        start is None ==> forall|j: int| 0 <= j < i ==> w.first_item_offset + w.slots(0, j) + w.heights@[j] <= 0,
        start matches Some(v) ==> {
            &&& w.window_start <= v < w.window_start + i
            &&& w.first_item_offset + w.slots(0, v - w.window_start) + w.heights@[v - w.window_start] > 0
            &&& forall|j: int|
                0 <= j < v - w.window_start ==> w.first_item_offset + w.slots(0, j) + w.heights@[j] <= 0
        },
        w.window_start <= end <= w.window_start + i,
        forall|j: int| 0 <= j < end - w.window_start ==> w.first_item_offset + w.slots(0, j) < viewport,
        forall|j: int| end - w.window_start <= j < i ==> w.first_item_offset + w.slots(0, j) >= viewport,
    ensures
        ({
            let scan = w.visible_scan(viewport, i, start, end);
            let s = match scan.0 {
                Some(v) => v,
                None => scan.1,
            };
            let e = scan.1;
            &&& forall|wi: int|
                s <= w.window_start + wi < e ==> #[trigger] slot_shows(w, wi, viewport)
            &&& forall|wi: int|
                #[trigger] slot_shows(w, wi, viewport) ==> s <= w.window_start + wi < e
        }),
    decreases w.n() - i,
{
    let ws = w.window_start as int;
    let n = w.n();
    let scan = w.visible_scan(viewport, i, start, end);
    let s = match scan.0 {
        Some(v) => v,
        None => scan.1,
    };
    let e = scan.1;
    if i >= n {
        assert forall|x: int| s <= w.window_start + x < e implies 0 <= x < w.n() && slot_shows(
            w,
            x,
            viewport,
        ) by {
            let v = start->0;
            lemma_pos_mono(w, v - ws, x);
        }
        assert forall|wi: int| 0 <= wi < w.n() && slot_shows(w, wi, viewport) implies s <= w.window_start + wi < e by {
            if start is None {
                assert(w.first_item_offset + w.slots(0, wi) + w.heights@[wi] <= 0);
            }
        }
    } else {
        let off = w.first_item_offset + w.slots(0, i);
        let start2 = if off + w.heights@[i] > 0 && start is None {
            Some(ws + i)
        } else {
            start
        };
        if off < viewport {
            assert forall|j: int| 0 <= j < i + 1 implies w.first_item_offset + w.slots(0, j) < viewport by {
                lemma_pos_mono(w, j, i);
            }
            lemma_scan_shows(w, viewport, i + 1, start2, ws + i + 1);
        } else if start2 is Some {
            let v = start2->0;
            assert forall|x: int| s <= w.window_start + x < e implies 0 <= x < w.n() && slot_shows(
                w,
                x,
                viewport,
            ) by {
                lemma_pos_mono(w, v - ws, x);
            }
            assert forall|wi: int| 0 <= wi < w.n() && slot_shows(w, wi, viewport) implies s <= w.window_start + wi
                < e by {
                if wi >= i {
                    lemma_pos_mono(w, i, wi);
                }
            }
        } else {
            lemma_scan_shows(w, viewport, i + 1, start2, end);
        }
    }
}

/// The visible range holds exactly the items that show: every item in it is materialized and
/// overlaps the viewport (it starts before the trailing edge and ends past the leading edge),
/// and every materialized item that overlaps the viewport is in it.
pub proof fn lemma_visible_range_shows(w: ListWindow, viewport: int)
    ensures
        ({
            let scan = w.visible_scan(viewport, 0, None, w.window_start as int);
            let s = match scan.0 {
                Some(v) => v,
                None => scan.1,
            };
            let e = scan.1;
            &&& forall|wi: int|
                s <= w.window_start + wi < e ==> #[trigger] slot_shows(w, wi, viewport)
            &&& forall|wi: int|
                #[trigger] slot_shows(w, wi, viewport) ==> s <= w.window_start + wi < e
        }),
{
    lemma_scan_shows(w, viewport, 0, None, w.window_start as int);
}

/// Slot sizes add up over adjacent ranges.
pub proof fn lemma_slots_split(w: ListWindow, a: int, b: int, c: int)
    requires
        a <= b <= c,
    ensures
        w.slots(a, c) == w.slots(a, b) + w.slots(b, c),
    decreases c - b,
{
    if c > b {
        lemma_slots_split(w, a, b, c - 1);
    }
}

/// Slot sizes depend only on the item sizes and the gap.
proof fn lemma_slots_same(w1: ListWindow, w2: ListWindow, a: int, b: int)
    requires
        w1.heights@ == w2.heights@,
        w1.gap == w2.gap,
    ensures
        w1.slots(a, b) == w2.slots(a, b),
    decreases b - a,
{
    if b > a {
        lemma_slots_same(w1, w2, a, b - 1);
    }
}

/// Slot sizes are never negative, and never more than the largest slot times their number.
pub proof fn lemma_slots_bounds(w: ListWindow, a: int, b: int)
    requires
        0 <= a,
        b <= w.n(),
    ensures
        0 <= w.slots(a, b),
        w.slots(a, b) <= (if b > a {
            b - a
        } else {
            0
        }) * 65790,
    decreases b - a,
{
    if b > a {
        lemma_slots_bounds(w, a, b - 1);
        assert((b - 1 - a) * 65790 + 65790 == (b - a) * 65790) by (nonlinear_arith);
    }
}

/// When every slot has some size, a longer run of slots is strictly larger.
proof fn lemma_slots_strict(w: ListWindow, a: int, b: int, c: int)
    requires
        0 <= a <= b < c <= w.n(),
        forall|i: int| 0 <= i < w.n() ==> #[trigger] w.slot(i) > 0,
    ensures
        w.slots(a, b) < w.slots(a, c),
{
    lemma_slots_split(w, a, b, c);
    lemma_slots_split(w, b, c - 1, c);
    lemma_slots_bounds(w, b, c - 1);
}

proof fn lemma_covering_none(w: ListWindow, px: int, before: int, wi: int)
    requires
        0 <= wi <= w.n(),
        before + w.slots(0, w.n()) <= px,
    ensures
        w.covering(px, before, wi) is None,
    decreases w.n() - wi,
{
    if wi < w.n() {
        lemma_slots_split(w, 0, wi + 1, w.n());
        lemma_slots_bounds(w, wi + 1, w.n());
        lemma_covering_none(w, px, before, wi + 1);
    }
}

proof fn lemma_covering_at(w: ListWindow, px: int, before: int, wi: int, target: int)
    requires
        0 <= wi <= target < w.n(),
        px == before + w.slots(0, target),
        forall|i: int| 0 <= i < w.n() ==> #[trigger] w.slot(i) > 0,
    ensures
        w.covering(px, before, wi) == Some(target),
    decreases target - wi,
{
    if wi < target {
        assert(w.slots(0, wi + 1) <= w.slots(0, target)) by {
            lemma_slots_split(w, 0, wi + 1, target);
            lemma_slots_bounds(w, wi + 1, target);
        }
        lemma_covering_at(w, px, before, wi + 1, target);
    } else {
        lemma_slots_strict(w, 0, target, target + 1);
    }
}

/// Reading the anchor for an item's content position gives back that item, flush with the
/// viewport's leading edge, whenever every item has some size.
pub proof fn lemma_anchor_of_content_offset(w: ListWindow, index: int)
    requires
        w.wf(),
        0 <= index < w.len,
        w.step() > 0,
        forall|i: int| 0 <= i < w.n() ==> #[trigger] w.slot(i) > 0,
    ensures
        w.anchor_at(w.content_offset(index)) == (Anchor { index: index as usize, offset: 0 }),
{
    let step = w.step();
    let ws = w.window_start as int;
    let n = w.n();
    let before = ws * step;
    let px = w.content_offset(index);
    let last: int = w.len - 1;
    if index <= ws || n == 0 {
        assert(px == index * step);
        assert((index * step) / step == index) by (nonlinear_arith)
            requires
                step > 0,
        ;
        if index < ws || n == 0 {
            if index < ws {
                assert(index * step < ws * step) by (nonlinear_arith)
                    requires
                        index < ws,
                        step > 0,
                ;
            }
            assert(px < before || n == 0);
            assert(px / step == index);
            assert(index <= last);
            assert(w.anchor_at(px).index == index);
            assert(w.anchor_at(px).offset == 0);
        } else {
            assert(index == ws);
            lemma_covering_at(w, px, before, 0, 0);
            assert(w.anchor_at(px).index == index);
        }
    } else {
        lemma_slots_bounds(w, 0, n);
        if index < w.window_end() {
            lemma_slots_bounds(w, 0, index - ws);
            lemma_covering_at(w, px, before, 0, index - ws);
            assert(w.anchor_at(px).index == index);
        } else {
            let past = index - w.window_end();
            assert(px == before + w.slots(0, n) + past * step);
            lemma_covering_none(w, px, before, 0);
            assert((past * step) / step == past) by (nonlinear_arith)
                requires
                    step > 0,
            ;
            assert(w.anchor_at(px).index == index);
        }
    }
}

impl ListWindow {
    /// The anchor after one step of normalization against a viewport of `viewport` cells: an
    /// anchor scrolled wholly before the viewport moves on to the next item, one at or past
    /// the trailing edge moves back to the previous item, when those are materialized.
    pub open spec fn normalized(self, viewport: int) -> Anchor {
        let anchor = self.anchor;
        match self.window_slot(anchor.index as int) {
            None => anchor,
            Some(a) => {
                let h = self.heights@[a] as int;
                if anchor.offset + h <= 0 {
                    if anchor.index + 1 < self.len {
                        Anchor {
                            index: (anchor.index + 1) as usize,
                            offset: (anchor.offset + h + self.gap) as i32,
                        }
                    } else {
                        anchor
                    }
                } else if anchor.offset >= viewport && anchor.index > 0 && a > 0 {
                    Anchor {
                        index: (anchor.index - 1) as usize,
                        offset: (anchor.offset - self.heights@[a - 1] - self.gap) as i32,
                    }
                } else {
                    anchor
                }
            },
        }
    }

    /// The anchor moved by `delta` cells towards the end of the list, then normalized in a
    /// viewport of `viewport` cells.
    pub open spec fn scrolled_by(self, delta: int, viewport: int) -> Anchor {
        ListWindow {
            anchor: Anchor { index: self.anchor.index, offset: (self.anchor.offset - delta) as i32 },
            ..self
        }.normalized(viewport)
    }

    /// The margin kept around an item of `h` cells: `scrolloff` when the item fits with it on
    /// both sides, otherwise none.
    pub open spec fn reveal_margin(h: int, scrolloff: int, viewport: int) -> int {
        if h + scrolloff * 2 <= viewport {
            scrolloff
        } else {
            0
        }
    }

    /// Where the anchor goes to bring item `index` into a viewport of `viewport` cells with
    /// `scrolloff` cells of margin: nowhere when the item is out of the list or the viewport
    /// is empty, when the item is not materialized (the move then waits for the next fill), or
    /// when it already shows with its margin; otherwise the item is anchored at its screen
    /// position clamped into the viewport less the margins.
    pub open spec fn reveal_anchor(self, index: int, scrolloff: int, viewport: int) -> Option<Anchor> {
        if index >= self.len || viewport == 0 {
            None
        } else {
            match self.window_slot(index) {
                None => None,
                Some(wi) => {
                    let off = self.read_offset(wi);
                    let h = self.heights@[wi] as int;
                    let so = Self::reveal_margin(h, scrolloff, viewport);
                    if off - so >= 0 && off + h + so <= viewport {
                        None
                    } else {
                        let sp = match self.direction {
                            Sign::Positive => off,
                            Sign::Negative => viewport - off - h,
                        };
                        let hi = if viewport - h - so > so {
                            viewport - h - so
                        } else {
                            so
                        };
                        let target = if sp < so {
                            so
                        } else if sp > hi {
                            hi
                        } else {
                            sp
                        };
                        let new_off = match self.direction {
                            Sign::Positive => target,
                            Sign::Negative => viewport - target - h,
                        };
                        Some(Anchor { index: index as usize, offset: new_off as i32 })
                    }
                },
            }
        }
    }

    /// The arithmetic of [`ListWindow::ensure_visible_scrolloff`] stays within `i32`.
    pub open spec fn reveal_fits(self, index: int, scrolloff: int, viewport: int) -> bool {
        self.window_slot(index) matches Some(wi) ==> {
            let off = self.read_offset(wi);
            let h = self.heights@[wi] as int;
            let so = Self::reveal_margin(h, scrolloff, viewport);
            &&& wi != 0 ==> i32::MIN <= self.offset_of(wi) <= i32::MAX
            &&& i32::MIN <= scrolloff * 2 <= i32::MAX
            &&& h + scrolloff * 2 <= i32::MAX
            &&& i32::MIN <= off - so <= i32::MAX
            &&& off + h <= i32::MAX
            &&& i32::MIN <= off + h + so <= i32::MAX
            &&& i32::MIN <= viewport - h - so <= i32::MAX
            &&& self.direction == Sign::Negative ==> i32::MIN <= viewport - off - h <= i32::MAX
                && viewport - off <= i32::MAX
        }
    }

    /// The item range to materialize around item `anchor_idx`: three viewports either side,
    /// widened to whole chunks of sixteen, unless the current window already covers it
    /// without holding more than four spare chunks on either side.
    pub open spec fn render_range(self, anchor_idx: int, viewport: int) -> (int, int) {
        let margin = viewport * 3;
        let lo = if anchor_idx > margin {
            anchor_idx - margin
        } else {
            0
        };
        let start = (lo / 16) * 16;
        let end0 = (anchor_idx + margin + 16) / 16 * 16;
        let end = if end0 < self.len {
            end0
        } else {
            self.len as int
        };
        let old_start = self.window_start as int;
        let old_end = self.window_end();
        let reuse = self.n() > 0 && start >= old_start && end <= old_end && start - old_start
            <= 64 && old_end - end <= 64;
        if reuse {
            (old_start, if old_end < self.len {
                old_end
            } else {
                self.len as int
            })
        } else {
            (start, end)
        }
    }

    /// The window slot of item `data_index`, if it is materialized.
    pub fn data_to_window(&self, data_index: usize) -> (r: Option<usize>)
        requires
            self.wf(),
        ensures
            r matches Some(wi) ==> self.window_slot(data_index as int) == Some(wi as int),
            r is None ==> self.window_slot(data_index as int) is None,
    {
        if data_index >= self.window_start && data_index < self.window_start + self.heights.len() {
            Some(data_index - self.window_start)
        } else {
            None
        }
    }

    /// The size of item `index`: measured in the window, the average outside it.
    pub fn item_height_or_estimate(&self, index: usize) -> (r: u16)
        requires
            self.wf(),
        ensures
            r == self.height_or_estimate(index as int),
    {
        match self.data_to_window(index) {
            Some(wi) => self.heights[wi],
            None => self.avg_height,
        }
    }

    /// The estimated size of an item outside the window, gap included.
    pub fn estimated_step(&self) -> (r: u32)
        ensures
            r == self.step(),
    {
        self.avg_height as u32 + self.gap as u32
    }

    /// The screen position of an item of `item_extent` cells at `anchor_offset` from the
    /// leading edge of a viewport of `viewport` cells: unchanged when items run forwards,
    /// mirrored when they run backwards.
    pub fn screen_pos(&self, viewport: i32, anchor_offset: i32, item_extent: i32) -> (r: i32)
        requires
            self.direction == Sign::Negative ==> i32::MIN <= viewport - anchor_offset <= i32::MAX
                && i32::MIN <= viewport - anchor_offset - item_extent <= i32::MAX,
        ensures
            r == (match self.direction {
                Sign::Positive => anchor_offset as int,
                Sign::Negative => viewport - anchor_offset - item_extent,
            }),
    {
        match self.direction {
            Sign::Positive => anchor_offset,
            Sign::Negative => viewport - anchor_offset - item_extent,
        }
    }

    /// The anchor offset of an item of `item_extent` cells at `screen_pos`: the inverse of
    /// [`ListWindow::screen_pos`].
    pub fn screen_to_offset(&self, viewport: i32, screen_pos: i32, item_extent: i32) -> (r: i32)
        requires
            self.direction == Sign::Negative ==> i32::MIN <= viewport - screen_pos <= i32::MAX
                && i32::MIN <= viewport - screen_pos - item_extent <= i32::MAX,
        ensures
            r == (match self.direction {
                Sign::Positive => screen_pos as int,
                Sign::Negative => viewport - screen_pos - item_extent,
            }),
    {
        match self.direction {
            Sign::Positive => screen_pos,
            Sign::Negative => viewport - screen_pos - item_extent,
        }
    }

    /// The offset of window slot `wi` from the viewport's leading edge, counted from the
    /// anchor; zero when the anchor is not materialized.
    pub fn compute_offset_from_anchor(&self, wi: usize) -> (r: i32)
        requires
            self.wf(),
            self.window_slot(self.anchor.index as int) is Some ==> wi <= self.n(),
            i32::MIN <= self.offset_of(wi as int) <= i32::MAX,
        ensures
            r == self.offset_of(wi as int),
    {
        let n = self.heights.len();
        let gap = self.gap as i32;
        if self.anchor.index >= self.window_start && self.anchor.index - self.window_start < n {
            let a = self.anchor.index - self.window_start;
            let mut offset = self.anchor.offset;
            if wi >= a {
                let mut i = a;
                while i < wi
                    invariant
                        a <= i <= wi <= n == self.n(),
                        gap == self.gap,
                        offset == self.anchor.offset + self.slots(a as int, i as int),
                        self.anchor.offset + self.slots(a as int, wi as int) <= i32::MAX,
                    decreases wi - i,
                {
                    proof {
                        lemma_slots_split(*self, a as int, i as int + 1, wi as int);
                        lemma_slots_bounds(*self, i as int + 1, wi as int);
                    }
                    offset = offset + (self.heights[i] as i32 + gap);
                    i = i + 1;
                }
            } else {
                let mut i = wi;
                proof {
                    lemma_slots_bounds(*self, wi as int, a as int);
                }
                while i < a
                    invariant
                        wi <= i <= a < n == self.n(),
                        gap == self.gap,
                        offset == self.anchor.offset - self.slots(wi as int, i as int),
                        self.anchor.offset - self.slots(wi as int, a as int) >= i32::MIN,
                    decreases a - i,
                {
                    proof {
                        lemma_slots_split(*self, wi as int, i as int + 1, a as int);
                        lemma_slots_bounds(*self, i as int + 1, a as int);
                    }
                    offset = offset - (self.heights[i] as i32 + gap);
                    i = i + 1;
                }
            }
            offset
        } else {
            0
        }
    }

    /// The offset of window slot `wi` as the list reads it: the cached offset of the first
    /// slot, counted from the anchor for the others.
    pub fn offset_from_anchor(&self, wi: usize) -> (r: i32)
        requires
            self.wf(),
            wi != 0 ==> (self.window_slot(self.anchor.index as int) is Some ==> wi <= self.n()),
            wi != 0 ==> i32::MIN <= self.offset_of(wi as int) <= i32::MAX,
        ensures
            r == self.read_offset(wi as int),
    {
        if wi == 0 {
            self.first_item_offset
        } else {
            self.compute_offset_from_anchor(wi)
        }
    }

    /// The position of item `index` in the content.
    pub fn content_offset_of(&self, index: usize) -> (r: u32)
        requires
            self.wf(),
            self.content_offset(index as int) <= u32::MAX,
        ensures
            r == self.content_offset(index as int),
    {
        let step = self.estimated_step();
        let n = self.heights.len();
        let ws = self.window_start;
        let window_end = ws + n;
        if index <= ws || n == 0 {
            if step == 0 {
                assert(index * step == 0) by (nonlinear_arith)
                    requires
                        step == 0,
                ;
                return 0;
            }
            proof {
                assert(self.content_offset(index as int) == index * step);
                assert(index <= index * step) by (nonlinear_arith)
                    requires
                        step > 0,
                        index >= 0,
                ;
            }
            let i = index as u32;
            return i * step;
        }
        let upto = if index < window_end {
            index
        } else {
            window_end
        };
        let past_n: usize = if index > window_end {
            index - window_end
        } else {
            0
        };
        proof {
            lemma_slots_bounds(*self, 0, upto - ws);
            assert(self.content_offset(index as int) == ws * step + self.slots(0, upto - ws)
                + past_n * step);
            assert(0 <= past_n * step) by (nonlinear_arith)
                requires
                    past_n >= 0,
                    step >= 0,
            ;
            assert(0 <= ws * step) by (nonlinear_arith)
                requires
                    ws >= 0,
                    step >= 0,
            ;
        }
        let before: u32 = if step == 0 {
            assert(ws * step == 0) by (nonlinear_arith)
                requires
                    step == 0,
            ;
            0
        } else {
            proof {
                assert(ws <= ws * step) by (nonlinear_arith)
                    requires
                        step > 0,
                        ws >= 0,
                ;
            }
            let w = ws as u32;
            w * step
        };
        let mut in_window: u32 = 0;
        let mut i: usize = 0;
        let count = upto - ws;
        while i < count
            invariant
                i <= count <= n == self.n(),
                count == upto - ws,
                in_window == self.slots(0, i as int),
                before + self.slots(0, count as int) <= u32::MAX,
            decreases count - i,
        {
            proof {
                lemma_slots_split(*self, 0, i as int + 1, count as int);
                lemma_slots_bounds(*self, i as int + 1, count as int);
            }
            in_window = in_window + (self.heights[i] as u32 + self.gap as u32);
            i = i + 1;
        }
        let past: u32 = if step == 0 {
            assert(past_n * step == 0) by (nonlinear_arith)
                requires
                    step == 0,
            ;
            0
        } else {
            proof {
                assert(past_n <= past_n * step) by (nonlinear_arith)
                    requires
                        step > 0,
                        past_n >= 0,
                ;
            }
            let p = past_n as u32;
            p * step
        };
        before + in_window + past
    }

    /// The scroll position of the anchor: its item's content position less its offset, and
    /// never below zero.
    pub fn scroll_from_anchor(&self) -> (r: u32)
        requires
            self.wf(),
            self.content_offset(self.anchor.index as int) <= i32::MAX,
            self.content_offset(self.anchor.index as int) - self.anchor.offset <= i32::MAX,
        ensures
            r == (if self.content_offset(self.anchor.index as int) - self.anchor.offset > 0 {
                self.content_offset(self.anchor.index as int) - self.anchor.offset
            } else {
                0
            }),
    {
        let content_pos = self.content_offset_of(self.anchor.index);
        let d = content_pos as i32 - self.anchor.offset;
        if d > 0 {
            d as u32
        } else {
            0
        }
    }

    /// The anchor that puts content position `px` at the viewport's leading edge.
    pub fn anchor_from_content_px(&self, px: u32) -> (r: Anchor)
        requires
            self.wf(),
            px <= i32::MAX,
            self.window_start * self.step() <= u32::MAX,
            self.len + px <= usize::MAX,
        ensures
            r == self.anchor_at(px as int),
    {
        let step = self.estimated_step();
        if step == 0 {
            return Anchor::zero();
        }
        let n = self.heights.len();
        let ws = self.window_start;
        let window_end = ws + n;
        proof {
            assert(ws <= ws * step) by (nonlinear_arith)
                requires
                    step > 0,
                    ws >= 0,
            ;
        }
        let w = ws as u32;
        let before = w * step;
        let last = if self.len > 0 {
            self.len - 1
        } else {
            0
        };
        if px < before || n == 0 {
            let q32 = px / step;
            let q = q32 as usize;
            let index = if q < last {
                q
            } else {
                last
            };
            proof {
                assert(q * step <= px) by (nonlinear_arith)
                    requires
                        q == px / step,
                        step > 0,
                        px >= 0,
                ;
                assert(index * step <= q * step) by (nonlinear_arith)
                    requires
                        index <= q,
                        step > 0,
                        index >= 0,
                ;
            }
            let i32v = index as u32;
            let taken = i32v * step;
            let rest = px - taken;
            let off = rest as i32;
            assert(i32v == index);
            assert(q == px / step);
            assert(self.anchor_at(px as int).index == index);
            assert(self.anchor_at(px as int).offset == -off);
            return Anchor { index, offset: -off };
        }
        let mut pos = before;
        let mut wi: usize = 0;
        while wi < n
            invariant
                wi <= n == self.n(),
                n > 0,
                step > 0,
                last == (if self.len > 0 {
                    self.len - 1
                } else {
                    0
                }),
                self.len + px <= usize::MAX,
                self.wf(),
                window_end == self.window_end(),
                ws == self.window_start,
                step == self.step(),
                before == ws * step,
                before <= px <= i32::MAX,
                pos == before + self.slots(0, wi as int),
                pos <= px,
                self.covering(px as int, before as int, wi as int) == self.covering(
                    px as int,
                    before as int,
                    0,
                ),
            decreases n - wi,
        {
            let h = self.heights[wi] as u32 + self.gap as u32;
            if pos + h > px {
                let off = (px - pos) as i32;
                assert(self.covering(px as int, before as int, wi as int) == Some(wi as int));
                assert(self.anchor_at(px as int).index == ws + wi);
                assert(self.anchor_at(px as int).offset == -off);
                return Anchor { index: ws + wi, offset: -off };
            }
            pos = pos + h;
            wi = wi + 1;
        }
        let remaining = px - pos;
        let past32 = remaining / step;
        let items_past = past32 as usize;
        proof {
            assert(items_past * step <= remaining) by (nonlinear_arith)
                requires
                    items_past == remaining / step,
                    step > 0,
                    remaining >= 0,
            ;
        }
        let reach = window_end + items_past;
        let index = if reach < last {
            reach
        } else {
            last
        };
        let taken = past32 * step;
        let off = (remaining - taken) as i32;
        assert(self.covering(px as int, before as int, n as int) is None);
        assert(self.anchor_at(px as int).index == index);
        assert(self.anchor_at(px as int).offset == -off);
        Anchor { index, offset: -off }
    }

    /// Whether item `index` shows in a viewport of `viewport` cells: it and the anchor are
    /// materialized and it overlaps the viewport.
    pub fn is_index_visible(&self, index: usize, viewport: i32) -> (r: bool)
        requires
            self.wf(),
            self.window_slot(index as int) matches Some(wi) ==> (self.window_slot(
                self.anchor.index as int,
            ) is Some ==> (i32::MIN <= self.read_offset(wi) <= i32::MAX && self.read_offset(wi)
                + self.heights@[wi] <= i32::MAX)),
        ensures
            r == (match (self.window_slot(index as int), self.window_slot(
                self.anchor.index as int,
            )) {
                (Some(wi), Some(_)) => self.read_offset(wi) + self.heights@[wi] > 0
                    && self.read_offset(wi) < viewport,
                _ => false,
            }),
    {
        let wi = match self.data_to_window(index) {
            Some(wi) => wi,
            None => return false,
        };
        if self.data_to_window(self.anchor.index).is_none() {
            return false;
        }
        let offset = self.offset_from_anchor(wi);
        let height = self.heights[wi] as i32;
        offset + height > 0 && offset < viewport
    }

    /// Moves the anchor one item on when it has scrolled wholly before the viewport, or one
    /// item back when it sits at or past the trailing edge of a viewport of `viewport` cells.
    pub fn normalize_anchor(&mut self, viewport: i32)
        requires
            old(self).wf(),
            old(self).window_slot(old(self).anchor.index as int) matches Some(a) ==> {
                &&& old(self).anchor.offset + old(self).heights@[a] <= i32::MAX
                &&& a > 0 ==> old(self).anchor.offset - old(self).heights@[a - 1] - old(self).gap
                    >= i32::MIN
            },
        ensures
            final(self).anchor == old(self).normalized(viewport as int),
            final(self).len == old(self).len,
            final(self).window_start == old(self).window_start,
            final(self).heights@ == old(self).heights@,
            final(self).gap == old(self).gap,
            final(self).avg_height == old(self).avg_height,
            final(self).first_item_offset == old(self).first_item_offset,
            final(self).direction == old(self).direction,
    {
        let gap = self.gap as i32;
        let anchor_wi = match self.data_to_window(self.anchor.index) {
            Some(a) => a,
            None => return,
        };
        let anchor_height = self.heights[anchor_wi] as i32;
        if self.anchor.offset + anchor_height <= 0 {
            let next = self.anchor.index + 1;
            if next < self.len {
                self.anchor = Anchor { index: next, offset: self.anchor.offset + anchor_height + gap };
            }
        } else if self.anchor.offset >= viewport {
            if self.anchor.index > 0 {
                let prev = self.anchor.index - 1;
                if let Some(prev_wi) = self.data_to_window(prev) {
                    let prev_height = self.heights[prev_wi] as i32;
                    self.anchor = Anchor {
                        index: prev,
                        offset: self.anchor.offset - prev_height - gap,
                    };
                }
            }
        }
    }

    /// Whether the list can scroll forwards in a viewport of `viewport` cells: items lie past
    /// the window, or the last materialized item ends past the trailing edge.
    pub fn can_scroll_forward(&self, viewport: i32) -> (r: bool)
        requires
            self.wf(),
            self.n() > 0 ==> i32::MIN <= self.read_offset(self.n() - 1) <= i32::MAX
                && self.read_offset(self.n() - 1) + self.heights@[self.n() - 1] <= i32::MAX,
        ensures
            r == if self.n() == 0 {
                self.len > 0
            } else if self.window_end() < self.len {
                true
            } else {
                self.read_offset(self.n() - 1) + self.heights@[self.n() - 1] > viewport
            },
    {
        let n = self.heights.len();
        if n == 0 {
            return self.len > 0;
        }
        if self.window_start + n < self.len {
            return true;
        }
        let last_wi = n - 1;
        self.offset_from_anchor(last_wi) + self.heights[last_wi] as i32 > viewport
    }

    /// Whether the list can scroll backwards: items lie before the window, or the first
    /// materialized item starts before the leading edge.
    pub fn can_scroll_backward(&self) -> (r: bool)
        ensures
            r == (self.n() > 0 && (self.window_start > 0 || self.first_item_offset < 0)),
    {
        if self.heights.len() == 0 {
            return false;
        }
        if self.window_start > 0 {
            return true;
        }
        self.first_item_offset < 0
    }

    /// The item range to materialize around item `anchor_idx` for a viewport of `viewport`
    /// cells.
    pub fn compute_render_range(&self, anchor_idx: usize, viewport: i32) -> (r: std::ops::Range<
        usize,
    >)
        requires
            self.wf(),
            viewport >= 0,
            anchor_idx + viewport * 3 + 17 <= usize::MAX,
        ensures
            r.start == self.render_range(anchor_idx as int, viewport as int).0,
            r.end == self.render_range(anchor_idx as int, viewport as int).1,
    {
        let vp = viewport as usize;
        assert(vp == viewport);
        let margin = vp * 3;
        let lo = if anchor_idx > margin {
            anchor_idx - margin
        } else {
            0
        };
        let render_start = (lo / 16) * 16;
        let end0 = (anchor_idx + margin + 1 + 16 - 1) / 16 * 16;
        let render_end = if end0 < self.len {
            end0
        } else {
            self.len
        };
        let old_start = self.window_start;
        let old_end = old_start + self.heights.len();
        let reuse = self.heights.len() > 0 && render_start >= old_start && render_end <= old_end
            && render_start - old_start <= 64 && old_end - render_end <= 64;
        if reuse {
            old_start..(if old_end < self.len {
                old_end
            } else {
                self.len
            })
        } else {
            render_start..render_end
        }
    }

    /// The size of all content: the last item's position plus its size, or zero for an empty
    /// list.
    pub fn get_content_size(&self) -> (r: u32)
        requires
            self.wf(),
            self.len > 0 ==> self.content_offset(self.len - 1) + self.height_or_estimate(
                self.len - 1,
            ) <= u32::MAX,
        ensures
            r == if self.len == 0 {
                0
            } else {
                self.content_offset(self.len - 1) + self.height_or_estimate(self.len - 1)
            },
    {
        if self.len == 0 {
            return 0;
        }
        self.content_offset_of(self.len - 1) + self.item_height_or_estimate(self.len - 1) as u32
    }

    /// Clamps the anchor offset in a viewport of `viewport` cells: the first item is not left
    /// below the leading edge, and once the window reaches the end of the list the last item
    /// is not left short of the trailing edge.
    pub fn clamp_anchor(&mut self, viewport: i32)
        requires
            old(self).wf(),
            old(self).clamp_fits(viewport as int),
        ensures
            final(self).anchor.index == old(self).anchor.index,
            final(self).anchor.offset == old(self).clamped_offset(viewport as int),
            final(self).len == old(self).len,
            final(self).window_start == old(self).window_start,
            final(self).heights@ == old(self).heights@,
            final(self).gap == old(self).gap,
            final(self).avg_height == old(self).avg_height,
            final(self).first_item_offset == old(self).first_item_offset,
            final(self).direction == old(self).direction,
    {
        let ghost w0 = *self;
        let n = self.heights.len();
        if self.anchor.index == 0 && self.anchor.offset > 0 {
            self.anchor.offset = 0;
        } else if self.anchor.index > 0 && self.window_start == 0 && self.anchor.index < n {
            assert(self.offset_of(0) == w0.offset_with(w0.anchor.offset as int, 0));
            let top_offset = self.compute_offset_from_anchor(0);
            if top_offset > 0 {
                self.anchor.offset = self.anchor.offset - top_offset;
            }
        }
        assert(self.anchor.offset == w0.top_clamped_offset());
        if self.window_start + n >= self.len && n > 0 {
            let last_wi = n - 1;
            proof {
                lemma_slots_same(*self, w0, w0.anchor.index - w0.window_start, last_wi as int);
                lemma_slots_same(*self, w0, 0, w0.anchor.index - w0.window_start);
            }
            assert(self.offset_of(last_wi as int) == w0.offset_with(
                w0.top_clamped_offset(),
                last_wi as int,
            ));
            let content_end = self.compute_offset_from_anchor(last_wi) + self.heights[last_wi] as i32;
            if content_end < viewport {
                self.anchor.offset = self.anchor.offset + (viewport - content_end);
                if self.window_start == 0 {
                    proof {
                        lemma_slots_same(*self, w0, 0, w0.anchor.index - w0.window_start);
                    }
                    assert(self.offset_of(0) == w0.offset_with(self.anchor.offset as int, 0));
                    let first_offset = self.compute_offset_from_anchor(0);
                    if first_offset > 0 {
                        self.anchor.offset = self.anchor.offset - first_offset;
                    }
                }
            }
        }
    }

    /// The items that show in a viewport of `viewport` cells, as far as the window knows them.
    pub fn get_visible_range(&self, viewport: u16) -> (r: std::ops::Range<usize>)
        requires
            self.wf(),
            self.first_item_offset + self.slots(0, self.n()) <= i32::MAX,
        ensures
            ({
                let scan = self.visible_scan(viewport as int, 0, None, self.window_start as int);
                if self.n() == 0 || viewport == 0 {
                    r.start == 0 && r.end == 0
                } else {
                    &&& r.end == scan.1
                    &&& r.start == match scan.0 {
                        Some(s) => s,
                        None => scan.1,
                    }
                }
            }),
            forall|wi: int|
                r.start <= self.window_start + wi < r.end ==> #[trigger] slot_shows(*self, wi, viewport as int),
            viewport > 0 ==> forall|wi: int|
                #[trigger] slot_shows(*self, wi, viewport as int) ==> r.start <= self.window_start + wi < r.end,
    {
        proof {
            lemma_visible_range_shows(*self, viewport as int);
        }
        let n = self.heights.len();
        if n == 0 || viewport == 0 {
            let zero: usize = 0;
            return zero..zero;
        }
        let vp = viewport as i32;
        let gap = self.gap as i32;
        let mut start: Option<usize> = None;
        let mut end = self.window_start;
        let mut offset = self.first_item_offset;
        let mut i: usize = 0;
        proof {
            lemma_slots_bounds(*self, 0, n as int);
        }
        while i < n
            invariant
                i <= n == self.n(),
                n > 0,
                viewport > 0,
                self.wf(),
                vp == viewport,
                gap == self.gap,
                offset == self.first_item_offset + self.slots(0, i as int),
                self.first_item_offset + self.slots(0, n as int) <= i32::MAX,
                self.first_item_offset + self.slots(0, i as int) >= i32::MIN,
                start matches Some(v) ==> v <= self.window_start + i,
                end <= self.window_start + n,
                self.visible_scan(viewport as int, i as int, widen_index(start), end as int)
                    == self.visible_scan(viewport as int, 0, None, self.window_start as int),
            decreases n - i,
        {
            proof {
                lemma_slots_split(*self, 0, i as int + 1, n as int);
                lemma_slots_bounds(*self, i as int + 1, n as int);
                lemma_slots_bounds(*self, 0, i as int);
            }
            let h = self.heights[i] as i32;
            let data_idx = self.window_start + i;
            if offset + h > 0 && start.is_none() {
                start = Some(data_idx);
            }
            if offset < vp {
                end = data_idx + 1;
            } else if let Some(v) = start {
                proof {
                    lemma_visible_range_shows(*self, viewport as int);
                }
                return v..end;
            }
            offset = offset + (h + gap);
            i = i + 1;
        }
        let s = match start {
            Some(v) => v,
            None => end,
        };
        s..end
    }

    /// Points the anchor at item `index`, clamped to the list, placed by `align` in a
    /// viewport of `viewport` cells; with no alignment it moves only when the item does not
    /// show.
    pub fn scroll_to_index(&mut self, index: usize, align: Option<Align>, viewport: i32)
        requires
            old(self).wf(),
            i32::MIN <= viewport - old(self).avg_height,
            ({
                let last: int = if old(self).len > 0 {
                    old(self).len - 1
                } else {
                    0
                };
                let i: int = if index < last {
                    index as int
                } else {
                    last
                };
                old(self).window_slot(i) matches Some(wi) ==> (old(self).window_slot(
                    old(self).anchor.index as int,
                ) is Some ==> (i32::MIN <= old(self).read_offset(wi) <= i32::MAX
                    && old(self).read_offset(wi) + old(self).heights@[wi] <= i32::MAX))
            }),
        ensures
            ({
                let last: int = if old(self).len > 0 {
                    old(self).len - 1
                } else {
                    0
                };
                let i: int = if index < last {
                    index as int
                } else {
                    last
                };
                let visible = match (old(self).window_slot(i), old(self).window_slot(
                    old(self).anchor.index as int,
                )) {
                    (Some(wi), Some(_)) => old(self).read_offset(wi) + old(self).heights@[wi] > 0
                        && old(self).read_offset(wi) < viewport,
                    _ => false,
                };
                final(self).anchor == match align {
                    Some(Align::Start) => Anchor { index: i as usize, offset: 0 },
                    Some(Align::Middle) => Anchor {
                        index: i as usize,
                        offset: crate::revelation::half_toward_zero(viewport as int) as i32,
                    },
                    Some(Align::End) => Anchor {
                        index: i as usize,
                        offset: (viewport - old(self).avg_height) as i32,
                    },
                    None => if visible {
                        old(self).anchor
                    } else {
                        Anchor { index: i as usize, offset: 0 }
                    },
                }
            }),
            final(self).len == old(self).len,
            final(self).window_start == old(self).window_start,
            final(self).heights@ == old(self).heights@,
    {
        let last = if self.len > 0 {
            self.len - 1
        } else {
            0
        };
        let index = if index < last {
            index
        } else {
            last
        };
        match align {
            Some(Align::Start) => {
                self.anchor = Anchor { index, offset: 0 };
            },
            Some(Align::Middle) => {
                self.anchor = Anchor { index, offset: viewport / 2 };
            },
            Some(Align::End) => {
                self.anchor = Anchor { index, offset: viewport - self.avg_height as i32 };
            },
            None => {
                if !self.is_index_visible(index, viewport) {
                    self.anchor = Anchor { index, offset: 0 };
                }
            },
        }
    }

    /// Scrolls by `delta` cells along the main axis, then normalizes the anchor in a viewport
    /// of `viewport` cells.
    pub fn scroll_by_delta(&mut self, delta: i32, viewport: i32)
        requires
            old(self).wf(),
            i32::MIN <= old(self).anchor.offset - delta <= i32::MAX,
            old(self).window_slot(old(self).anchor.index as int) matches Some(a) ==> {
                &&& old(self).anchor.offset - delta + old(self).heights@[a] <= i32::MAX
                &&& a > 0 ==> old(self).anchor.offset - delta - old(self).heights@[a - 1]
                    - old(self).gap >= i32::MIN
            },
        ensures
            final(self).anchor == old(self).scrolled_by(delta as int, viewport as int),
            final(self).len == old(self).len,
            final(self).window_start == old(self).window_start,
            final(self).heights@ == old(self).heights@,
    {
        self.anchor = Anchor { index: self.anchor.index, offset: self.anchor.offset - delta };
        self.normalize_anchor(viewport);
    }

    /// Scrolls as little as possible to bring item `index` into a viewport of `viewport`
    /// cells, keeping `scrolloff` cells of margin around it when it fits with them; returns
    /// whether the anchor moved. An item that is not materialized is left for the next fill.
    pub fn ensure_visible_scrolloff(&mut self, index: usize, scrolloff: i32, viewport: u16) -> (r: bool)
        requires
            old(self).wf(),
            old(self).reveal_fits(index as int, scrolloff as int, viewport as int),
        ensures
            r == old(self).reveal_anchor(index as int, scrolloff as int, viewport as int) is Some,
            final(self).anchor == match old(self).reveal_anchor(
                index as int,
                scrolloff as int,
                viewport as int,
            ) {
                Some(a) => a,
                None => old(self).anchor,
            },
            final(self).len == old(self).len,
            final(self).window_start == old(self).window_start,
            final(self).heights@ == old(self).heights@,
    {
        if index >= self.len {
            return false;
        }
        let viewport = viewport as i32;
        if viewport == 0 {
            return false;
        }
        let wi = match self.data_to_window(index) {
            Some(wi) => wi,
            None => return false,
        };
        let offset = self.offset_from_anchor(wi);
        let height = self.heights[wi] as i32;
        let so = if height + scrolloff * 2 <= viewport {
            scrolloff
        } else {
            0
        };
        if offset - so >= 0 && offset + height + so <= viewport {
            return false;
        }
        let sp = self.screen_pos(viewport, offset, height);
        let hi = if viewport - height - so > so {
            viewport - height - so
        } else {
            so
        };
        let target = if sp < so {
            so
        } else if sp > hi {
            hi
        } else {
            sp
        };
        let new_offset = self.screen_to_offset(viewport, target, height);
        self.anchor = Anchor { index, offset: new_offset };
        true
    }

    /// Sets the number of items in the list, pulling the anchor back onto the last item when it
    /// lay past the end, or to the start when the list becomes empty.
    pub fn set_item_count(&mut self, count: usize)
        ensures
            final(self).len == count,
            final(self).anchor == if count == 0 {
                Anchor { index: 0, offset: 0 }
            } else if old(self).anchor.index >= count {
                Anchor { index: (count - 1) as usize, offset: old(self).anchor.offset }
            } else {
                old(self).anchor
            },
            final(self).window_start == old(self).window_start,
            final(self).heights@ == old(self).heights@,
            final(self).gap == old(self).gap,
            final(self).avg_height == old(self).avg_height,
            final(self).first_item_offset == old(self).first_item_offset,
            final(self).direction == old(self).direction,
    {
        self.len = count;
        if count == 0 {
            self.anchor = Anchor::zero();
        } else if self.anchor.index >= count {
            self.anchor = Anchor { index: count - 1, offset: self.anchor.offset };
        }
    }
}

/// Normalizing the anchor never moves the content: when the anchor and the item it moves to
/// are materialized, every materialized item sits at the same offset from the viewport's
/// leading edge before and after.
pub proof fn lemma_normalize_keeps_layout(w: ListWindow, viewport: int, wi: int)
    requires
        w.wf(),
        0 <= wi < w.n(),
        w.window_slot(w.anchor.index as int) matches Some(a) ==> {
            &&& w.anchor.offset + w.heights@[a] + w.gap <= i32::MAX
            &&& a > 0 ==> w.anchor.offset - w.heights@[a - 1] - w.gap >= i32::MIN
        },
        w.window_slot(w.anchor.index as int) is Some,
        (ListWindow { anchor: w.normalized(viewport), ..w }).window_slot(w.normalized(viewport).index as int) is Some,
    ensures
        (ListWindow { anchor: w.normalized(viewport), ..w }).offset_of(wi) == w.offset_of(wi),
{
    let w2 = ListWindow { anchor: w.normalized(viewport), ..w };
    let a = w.anchor.index - w.window_start;
    if wi >= a {
        lemma_slots_same(w2, w, a, wi);
    } else {
        lemma_slots_same(w2, w, wi, a);
    }
    if wi >= a + 1 {
        lemma_slots_same(w2, w, a + 1, wi);
    } else {
        lemma_slots_same(w2, w, wi, a + 1);
    }
    if a >= 1 {
        if wi >= a - 1 {
            lemma_slots_same(w2, w, a - 1, wi);
        } else {
            lemma_slots_same(w2, w, wi, a - 1);
        }
    }
    if w2.anchor == w.anchor {
        assert(w2 == w);
    }
    if w2.anchor.index == w.anchor.index + 1 {
        if wi >= a + 1 {
            lemma_slots_split(w, a, a + 1, wi);
        } else {
            lemma_slots_split(w, wi, a, a + 1);
        }
        assert(w.slots(a, a) == 0);
        assert(w.slots(a, a + 1) == w.slot(a));
    } else if w2.anchor.index + 1 == w.anchor.index {
        if wi >= a {
            lemma_slots_split(w, a - 1, a, wi);
        } else {
            lemma_slots_split(w, wi, a - 1, a);
        }
        assert(w.slots(a - 1, a - 1) == 0);
        assert(w.slots(a - 1, a) == w.slot(a - 1));
    }
}

/// Revealing an item leaves it showing with its margin: when the item fits the viewport, the
/// anchor it is moved to puts it at least the margin (the scroll-off when the item fits with
/// it on both sides, else nothing) inside both edges; and when it is not moved, it already
/// shows that way.
pub proof fn lemma_reveal_shows(w: ListWindow, index: int, scrolloff: int, viewport: int)
    requires
        w.wf(),
        0 <= scrolloff,
        0 <= index < w.len,
        0 < viewport <= i32::MAX,
        w.window_slot(index) is Some,
        w.heights@[w.window_slot(index)->0] <= viewport,
    ensures
        ({
            let wi = w.window_slot(index)->0;
            let h = w.heights@[wi] as int;
            let m = if h + scrolloff * 2 <= viewport {
                scrolloff
            } else {
                0
            };
            match w.reveal_anchor(index, scrolloff, viewport) {
                Some(a) => a.index == index && m <= a.offset && a.offset + h + m <= viewport,
                None => m <= w.read_offset(wi) && w.read_offset(wi) + h + m <= viewport,
            }
        }),
{
}

/// A scroll position in pixels: `cells` whole cells of `cell_px` pixels and `sub` more.
pub open spec fn px_total(cells: int, sub: int, cell_px: int) -> int {
    cells * cell_px + sub
}

/// The position a smooth scroll of `delta` pixels moves the position `cur` to, kept within
/// `0..=max_px`.
pub open spec fn smooth_target(cur: int, delta: int, max_px: int) -> int {
    if cur + delta < 0 {
        0
    } else if cur + delta > max_px {
        max_px
    } else {
        cur + delta
    }
}

/// The position a smooth scroll of `delta` pixels towards the end (`forward`) or the start
/// moves the position `cur` to: capped at `max_px` going forward, at zero going back, and
/// not bounded on the other side.
pub open spec fn smooth_toward(cur: int, delta: int, forward: bool, max_px: int) -> int {
    if forward {
        if cur + delta < max_px {
            cur + delta
        } else {
            max_px
        }
    } else if cur - delta > 0 {
        cur - delta
    } else {
        0
    }
}

proof fn lemma_split_px(total: int, cells: int, sub: int, cell_px: int)
    requires
        cell_px > 0,
        0 <= sub < cell_px,
        total == cells * cell_px + sub,
    ensures
        total / cell_px == cells,
        total % cell_px == sub,
{
    vstd::arithmetic::div_mod::lemma_fundamental_div_mod_converse(total, cell_px, cells, sub);
}

proof fn lemma_px_bounds(cells: u32, sub: u16, cell_px: u16)
    requires
        sub < cell_px,
    ensures
        0 <= px_total(cells as int, sub as int, cell_px as int) < 0x1_0000_0000_0000,
        cells as int * cell_px as int <= px_total(cells as int, sub as int, cell_px as int),
{
    assert(0 <= cells as int * cell_px as int <= 0xFFFF_FFFF * 0xFFFF) by (nonlinear_arith)
        requires
            cells <= 0xFFFF_FFFF,
            cell_px <= 0xFFFF,
    ;
}

/// Splitting a pixel position into whole cells and the pixels left over gives it back, leaves
/// fewer pixels than a cell, and differs from another split exactly when the positions differ.
proof fn lemma_split_facts(total: int, cells: u32, sub: u16, cell_px: u16, w: int, rest: int)
    requires
        cell_px > 0,
        sub < cell_px,
        total >= 0,
        w == total / (cell_px as int),
        rest == total % (cell_px as int),
    ensures
        w * cell_px + rest == total,
        0 <= rest < cell_px,
        (w != cells || rest != sub) == (total != px_total(cells as int, sub as int, cell_px as int)),
{
    vstd::arithmetic::div_mod::lemma_fundamental_div_mod(total, cell_px as int);
    vstd::arithmetic::div_mod::lemma_mod_bound(total, cell_px as int);
    assert(w * cell_px == cell_px * w) by (nonlinear_arith);
    if total == px_total(cells as int, sub as int, cell_px as int) {
        lemma_split_px(total, cells as int, sub as int, cell_px as int);
    }
}

/// Splits a pixel position `total` of at most `bound` whole cells into whole cells and the
/// pixels left over, and says whether it differs from `cells` cells and `sub` pixels.
fn split_px(total: i64, cells: u32, sub: u16, cell_px: u16, bound: u32) -> (r: (u32, u16, bool))
    requires
        cell_px > 0,
        sub < cell_px,
        0 <= total <= bound as int * cell_px as int,
    ensures
        r.0 == (total as int) / (cell_px as int),
        r.1 == (total as int) % (cell_px as int),
        r.2 == (total as int != px_total(cells as int, sub as int, cell_px as int)),
{
    let c = cell_px as i64;
    proof {
        vstd::arithmetic::div_mod::lemma_div_is_ordered(total as int, bound as int * cell_px as int, cell_px as int);
        vstd::arithmetic::div_mod::lemma_div_by_multiple(bound as int, cell_px as int);
        vstd::arithmetic::div_mod::lemma_mod_bound(total as int, cell_px as int);
        lemma_px_bounds(cells, sub, cell_px);
    }
    let whole = (total / c) as u32;
    let rest = (total % c) as u16;
    let cur = cells as i64 * c + sub as i64;
    proof {
        lemma_split_px(cur as int, cells as int, sub as int, cell_px as int);
        vstd::arithmetic::div_mod::lemma_fundamental_div_mod(total as int, cell_px as int);
        if whole == cells && rest == sub {
            assert(total == cell_px * ((total as int) / (cell_px as int)) + (total as int) % (cell_px as int));
            assert(cell_px * cells == cells * cell_px) by (nonlinear_arith);
        }
    }
    (whole, rest, whole != cells || rest != sub)
}

/// A smooth scroll along a list's main axis: moves the position `cur_cells` whole cells and
/// `cur_sub` pixels by `signed_delta_px` pixels, within zero and `max_cells` cells of
/// `cell_px` pixels; returns the new whole cells, the pixels left over, and whether the
/// position changed.
pub fn smooth_scroll_step(cur_cells: u32, cur_sub: u16, signed_delta_px: i64, max_cells: u32, cell_px: u16) -> (r: (
    u32,
    u16,
    bool,
))
    requires
        cell_px > 0,
        cur_sub < cell_px,
        i64::MIN <= px_total(cur_cells as int, cur_sub as int, cell_px as int) + signed_delta_px <= i64::MAX,
    ensures
        ({
            let cur = px_total(cur_cells as int, cur_sub as int, cell_px as int);
            let new = smooth_target(cur, signed_delta_px as int, max_cells as int * cell_px as int);
            &&& r.0 == new / (cell_px as int)
            &&& r.1 == new % (cell_px as int)
            &&& r.2 == (new != cur)
        }),
        r.1 < cell_px,
        ({
            let cur = cur_cells * cell_px + cur_sub;
            let want = cur + signed_delta_px;
            let got = r.0 * cell_px + r.1;
            &&& 0 <= got <= max_cells * cell_px
            &&& 0 <= want <= max_cells * cell_px ==> got == want
            &&& want < 0 ==> r.0 == 0 && r.1 == 0
            &&& want > max_cells * cell_px ==> r.0 == max_cells && r.1 == 0
            &&& r.2 == (r.0 != cur_cells || r.1 != cur_sub)
        }),
{
    proof {
        lemma_px_bounds(cur_cells, cur_sub, cell_px);
        lemma_px_bounds(max_cells, 0, cell_px);
    }
    let c = cell_px as i64;
    let max_total = max_cells as i64 * c;
    let cur_total = cur_cells as i64 * c + cur_sub as i64;
    let moved = cur_total + signed_delta_px;
    let new_total = if moved < 0 {
        0
    } else if moved > max_total {
        max_total
    } else {
        moved
    };
    let r = split_px(new_total, cur_cells, cur_sub, cell_px, max_cells);
    proof {
        lemma_split_facts(new_total as int, cur_cells, cur_sub, cell_px, r.0 as int, r.1 as int);
        if new_total == 0 {
            assert(r.0 == 0 && r.1 == 0);
        }
        if new_total == max_total {
            vstd::arithmetic::div_mod::lemma_div_by_multiple(max_cells as int, cell_px as int);
            vstd::arithmetic::div_mod::lemma_mod_multiples_basic(max_cells as int, cell_px as int);
        }
    }
    r
}

/// A smooth scroll of `delta_px` pixels towards the end (`forward`) or the start: moves the
/// position `cur_cells` whole cells and `cur_sub` pixels, capped at `max_cells` cells of
/// `cell_px` pixels going forward and at zero going back; returns the new whole cells, the
/// pixels left over, and whether the position changed.
pub fn smooth_step_toward(cur_cells: u32, cur_sub: u16, delta_px: u32, forward: bool, max_cells: u32, cell_px: u16) -> (r: (
    u32,
    u16,
    bool,
))
    requires
        cell_px > 0,
        cur_sub < cell_px,
    ensures
        ({
            let cur = px_total(cur_cells as int, cur_sub as int, cell_px as int);
            let new = smooth_toward(cur, delta_px as int, forward, max_cells as int * cell_px as int);
            &&& r.0 == new / (cell_px as int)
            &&& r.1 == new % (cell_px as int)
            &&& r.2 == (new != cur)
        }),
        r.1 < cell_px,
        ({
            let cur = cur_cells * cell_px + cur_sub;
            let got = r.0 * cell_px + r.1;
            &&& forward && cur + delta_px <= max_cells * cell_px ==> got == cur + delta_px
            &&& forward && cur + delta_px > max_cells * cell_px ==> r.0 == max_cells && r.1 == 0
            &&& !forward && cur - delta_px >= 0 ==> got == cur - delta_px
            &&& !forward && cur - delta_px < 0 ==> r.0 == 0 && r.1 == 0
            &&& r.2 == (r.0 != cur_cells || r.1 != cur_sub)
        }),
{
    proof {
        lemma_px_bounds(cur_cells, cur_sub, cell_px);
        lemma_px_bounds(max_cells, 0, cell_px);
    }
    let c = cell_px as i64;
    let max_total = max_cells as i64 * c;
    let cur_total = cur_cells as i64 * c + cur_sub as i64;
    if forward {
        let moved = cur_total + delta_px as i64;
        let new_total = if moved < max_total {
            moved
        } else {
            max_total
        };
        let r = split_px(new_total, cur_cells, cur_sub, cell_px, max_cells);
        proof {
            lemma_split_facts(new_total as int, cur_cells, cur_sub, cell_px, r.0 as int, r.1 as int);
            if new_total == max_total {
                vstd::arithmetic::div_mod::lemma_div_by_multiple(max_cells as int, cell_px as int);
                vstd::arithmetic::div_mod::lemma_mod_multiples_basic(max_cells as int, cell_px as int);
            }
        }
        r
    } else {
        let moved = cur_total - delta_px as i64;
        let new_total = if moved > 0 {
            moved
        } else {
            0
        };
        proof {
            assert(cur_cells as int * cell_px as int + cur_sub <= cur_cells as int * cell_px as int + cell_px);
            assert(cur_cells as int * cell_px as int + cell_px == (cur_cells as int + 1) * cell_px as int) by (nonlinear_arith);
            assert((cur_cells as int + 1) * cell_px as int <= 0x1_0000_0000 * (cell_px as int)) by (nonlinear_arith)
                requires cur_cells < 0x1_0000_0000;
        }
        let r = split_px_up_to(new_total, cur_cells, cur_sub, cell_px);
        proof {
            lemma_split_facts(new_total as int, cur_cells, cur_sub, cell_px, r.0 as int, r.1 as int);
        }
        r
    }
}

/// Splits a pixel position `total` of no more than `cells` cells and `sub` pixels into whole
/// cells and the pixels left over, and says whether it differs from that position.
fn split_px_up_to(total: i64, cells: u32, sub: u16, cell_px: u16) -> (r: (u32, u16, bool))
    requires
        cell_px > 0,
        sub < cell_px,
        0 <= total <= px_total(cells as int, sub as int, cell_px as int),
    ensures
        r.0 == (total as int) / (cell_px as int),
        r.1 == (total as int) % (cell_px as int),
        r.2 == (total as int != px_total(cells as int, sub as int, cell_px as int)),
{
    proof {
        lemma_px_bounds(cells, sub, cell_px);
        lemma_split_px(px_total(cells as int, sub as int, cell_px as int), cells as int, sub as int, cell_px as int);
        vstd::arithmetic::div_mod::lemma_div_is_ordered(total as int, px_total(cells as int, sub as int, cell_px as int), cell_px as int);
    }
    let c = cell_px as i64;
    proof {
        vstd::arithmetic::div_mod::lemma_mod_bound(total as int, cell_px as int);
    }
    let whole = (total / c) as u32;
    let rest = (total % c) as u16;
    proof {
        vstd::arithmetic::div_mod::lemma_fundamental_div_mod(total as int, cell_px as int);
        if whole == cells && rest == sub {
            assert(cell_px * cells == cells * cell_px) by (nonlinear_arith);
        }
    }
    (whole, rest, whole != cells || rest != sub)
}

/// What a list keeps of its scroll position besides its anchor: its offset across the main
/// axis in whole cells, and the pixels past whole cells along each axis.
#[derive(Clone, Copy, Debug, PartialEq, Eq, Structural)]
pub struct ListScroll {
    /// The offset across the main axis, in whole cells.
    pub cross_offset: u32,
    /// The pixels past whole cells along each axis.
    pub subcell: Vec2<u16>,
}

impl ListScroll {
    /// A scroll state at the start, with no pixels past whole cells.
    pub fn new() -> (r: ListScroll)
        ensures
            r.cross_offset == 0,
            r.subcell == (Vec2 { x: 0u16, y: 0u16 }),
    {
        ListScroll { cross_offset: 0, subcell: Vec2 { x: 0, y: 0 } }
    }

    /// Scrolls smoothly across the main axis (along `axis`) by `delta_px` pixels towards the
    /// end (`forward`) or the start, within `max_cross` cells of `cell_px` pixels (see
    /// [`smooth_step_toward`]); returns whether the position changed.
    pub fn smooth_cross(&mut self, axis: Axis2D, delta_px: u32, forward: bool, max_cross: u32, cell_px: u16) -> (changed: bool)
        requires
            cell_px > 0,
            old(self).subcell.at(axis) < cell_px,
        ensures
            ({
                let cur = px_total(old(self).cross_offset as int, old(self).subcell.at(axis) as int, cell_px as int);
                let new = smooth_toward(cur, delta_px as int, forward, max_cross as int * cell_px as int);
                &&& final(self).cross_offset == new / (cell_px as int)
                &&& final(self).subcell == old(self).subcell.with(axis, (new % (cell_px as int)) as u16)
                &&& changed == (new != cur)
            }),
    {
        let (cells, sub, changed) = smooth_step_toward(
            self.cross_offset,
            self.subcell.get(axis),
            delta_px,
            forward,
            max_cross,
            cell_px,
        );
        self.cross_offset = cells;
        self.subcell.set(axis, sub);
        changed
    }

    /// Scrolls `list` smoothly along its main axis `axis` by `signed_delta_px` pixels, within
    /// zero and its content size less the `viewport` (see [`smooth_scroll_step`]): when the
    /// position changes, the anchor moves to the new whole cells and the pixels left over are
    /// kept here; otherwise nothing changes. Returns whether the position changed.
    pub fn smooth_main(
        &mut self,
        list: &mut ListWindow,
        axis: Axis2D,
        signed_delta_px: i64,
        cell_px: u16,
        viewport: u16,
    ) -> (changed: bool)
        requires
            cell_px > 0,
            old(self).subcell.at(axis) < cell_px,
            old(list).wf(),
            old(list).content_offset(old(list).anchor.index as int) <= i32::MAX,
            old(list).content_offset(old(list).anchor.index as int) - old(list).anchor.offset <= i32::MAX,
            old(list).len > 0 ==> old(list).content_offset(old(list).len - 1) + old(list).height_or_estimate(
                old(list).len - 1,
            ) <= i32::MAX,
            old(list).window_start * old(list).step() <= u32::MAX,
            old(list).len + i32::MAX <= usize::MAX,
            i64::MIN <= px_total(old(list).scroll_pos(), old(self).subcell.at(axis) as int, cell_px as int)
                + signed_delta_px <= i64::MAX,
        ensures
            ({
                let cur = px_total(old(list).scroll_pos(), old(self).subcell.at(axis) as int, cell_px as int);
                let max_cells = sat_sub_int(old(list).content_size(), viewport as int);
                let new = smooth_target(cur, signed_delta_px as int, max_cells * cell_px);
                &&& changed == (new != cur)
                &&& changed ==> {
                    &&& final(list).anchor == old(list).anchor_at(new / (cell_px as int))
                    &&& final(self).subcell == old(self).subcell.with(axis, (new % (cell_px as int)) as u16)
                }
                &&& !changed ==> final(list).anchor == old(list).anchor && *final(self) == *old(self)
                &&& final(self).cross_offset == old(self).cross_offset
                &&& final(list).len == old(list).len
                &&& final(list).window_start == old(list).window_start
                &&& final(list).heights@ == old(list).heights@
                &&& final(list).gap == old(list).gap
                &&& final(list).avg_height == old(list).avg_height
                &&& final(list).first_item_offset == old(list).first_item_offset
                &&& final(list).direction == old(list).direction
            }),
    {
        let cur = list.scroll_from_anchor();
        let content = list.get_content_size();
        let max_cells = content.saturating_sub(viewport as u32);
        let (cells, sub, changed) = smooth_scroll_step(cur, self.subcell.get(axis), signed_delta_px, max_cells, cell_px);
        if !changed {
            return false;
        }
        proof {
            lemma_px_bounds(cur, self.subcell.at(axis), cell_px);
            vstd::arithmetic::div_mod::lemma_div_is_ordered(
                smooth_target(
                    px_total(cur as int, self.subcell.at(axis) as int, cell_px as int),
                    signed_delta_px as int,
                    max_cells as int * cell_px as int,
                ),
                max_cells as int * cell_px as int,
                cell_px as int,
            );
            vstd::arithmetic::div_mod::lemma_div_by_multiple(max_cells as int, cell_px as int);
        }
        list.anchor = list.anchor_from_content_px(cells);
        self.subcell.set(axis, sub);
        true
    }
}

/// `a - b`, or zero when `b` is larger.
pub open spec fn sat_sub_int(a: int, b: int) -> int {
    if a > b {
        a - b
    } else {
        0
    }
}

} // verus!
