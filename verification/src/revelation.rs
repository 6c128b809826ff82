//! Priority list of rects threaded through the reveal pass.

use vstd::prelude::*;
use crate::geometry::{Axis2D, Vec2, Rect};
use crate::align::Align;

verus! {

/// `r` clipped on `axis` to the half-open range `[lo, hi)`, or `None` when nothing is left.
pub open spec fn clip_rect(r: Rect, axis: Axis2D, lo: i32, hi: i32) -> Option<Rect> {
    let s = r.pos.at(axis) as int;
    let e = s + r.size.at(axis);
    let new_s = if s > lo {
        s
    } else {
        lo as int
    };
    let new_e = if e < hi {
        e
    } else {
        hi as int
    };
    if new_s >= new_e {
        None
    } else {
        Some(
            Rect {
                pos: r.pos.with(axis, new_s as i32),
                size: r.size.with(axis, (new_e - new_s) as u16),
            },
        )
    }
}

/// The first `k` rects of `s` clipped on `axis` to `[lo, hi)`, empty results dropped.
pub open spec fn clip_all(s: Seq<Rect>, k: int, axis: Axis2D, lo: i32, hi: i32) -> Seq<Rect>
    decreases k,
{
    if k <= 0 {
        Seq::empty()
    } else {
        let prev = clip_all(s, k - 1, axis, lo, hi);
        match clip_rect(s[k - 1], axis, lo, hi) {
            Some(c) => prev.push(c),
            None => prev,
        }
    }
}

/// Whether the end of every rect on `axis` fits in an `i32`.
pub open spec fn ends_fit(s: Seq<Rect>, axis: Axis2D) -> bool {
    forall|i: int| 0 <= i < s.len() ==> #[trigger] s[i].pos.at(axis) + s[i].size.at(axis) <= i32::MAX
}

/// Whether a rect lies within `[lo, hi)` on `axis` and is not empty there.
pub open spec fn within(r: Rect, axis: Axis2D, lo: i32, hi: i32) -> bool {
    &&& lo <= r.pos.at(axis)
    &&& r.pos.at(axis) + r.size.at(axis) <= hi
    &&& r.size.at(axis) > 0
}

/// Priority list of rects collected during a reveal pass, highest priority first.
#[derive(Clone)]
pub struct Revelation {
    rects: Vec<Rect>,
}

impl View for Revelation {
    type V = Seq<Rect>;

    closed spec fn view(&self) -> Seq<Rect> {
        self.rects@
    }
}

impl Revelation {
    /// Creates an empty revelation.
    pub fn new() -> (r: Revelation)
        ensures
            r@ == Seq::<Rect>::empty(),
    {
        Revelation { rects: Vec::new() }
    }

    /// Appends a rect to the list as the lowest priority entry.
    pub fn push(&mut self, r: Rect)
        ensures
            final(self)@ == old(self)@.push(r),
    {
        self.rects.push(r);
    }

    /// Translates every entry by `by`.
    pub fn translate(&mut self, by: Vec2<i32>)
        requires
            forall|i: int|
                0 <= i < old(self)@.len() ==> i32::MIN <= #[trigger] old(self)@[i].pos.x + by.x
                    <= i32::MAX && i32::MIN <= old(self)@[i].pos.y + by.y <= i32::MAX,
        ensures
            final(self)@.len() == old(self)@.len(),
            forall|i: int|
                0 <= i < final(self)@.len() ==> #[trigger] final(self)@[i] == (Rect {
                    pos: Vec2 {
                        x: (old(self)@[i].pos.x + by.x) as i32,
                        y: (old(self)@[i].pos.y + by.y) as i32,
                    },
                    size: old(self)@[i].size,
                }),
    {
        let ghost s = self@;
        let n = self.rects.len();
        let mut i: usize = 0;
        while i < n
            invariant
                n == s.len(),
                self.rects@.len() == n,
                0 <= i <= n,
                forall|j: int|
                    0 <= j < n ==> i32::MIN <= #[trigger] s[j].pos.x + by.x <= i32::MAX && i32::MIN
                        <= s[j].pos.y + by.y <= i32::MAX,
                forall|j: int|
                    0 <= j < i ==> #[trigger] self.rects@[j] == (Rect {
                        pos: Vec2 { x: (s[j].pos.x + by.x) as i32, y: (s[j].pos.y + by.y) as i32 },
                        size: s[j].size,
                    }),
                forall|j: int| i <= j < n ==> #[trigger] self.rects@[j] == s[j],
            decreases n - i,
        {
            let r = self.rects[i];
            assert(r == s[i as int]);
            let moved = Rect { pos: Vec2 { x: r.pos.x + by.x, y: r.pos.y + by.y }, size: r.size };
            self.rects.set(i, moved);
            i += 1;
        }
    }

    /// Clips every entry's `axis` extent to the half-open range `[lo, hi)`, dropping entries
    /// that end up empty.
    pub fn clip_axis(&mut self, axis: Axis2D, lo: i32, hi: i32)
        requires
            ends_fit(old(self)@, axis),
        ensures
            final(self)@ == clip_all(old(self)@, old(self)@.len() as int, axis, lo, hi),
            forall|i: int|
                0 <= i < final(self)@.len() ==> within(#[trigger] final(self)@[i], axis, lo, hi),
    {
        let ghost s = self@;
        let n = self.rects.len();
        let mut out: Vec<Rect> = Vec::new();
        let mut i: usize = 0;
        while i < n
            invariant
                n == s.len(),
                self.rects@ == s,
                0 <= i <= n,
                ends_fit(s, axis),
                out@ == clip_all(s, i as int, axis, lo, hi),
                forall|j: int| 0 <= j < out@.len() ==> within(#[trigger] out@[j], axis, lo, hi),
            decreases n - i,
        {
            let r = self.rects[i];
            assert(r == s[i as int]);
            assert(r.pos.at(axis) + r.size.at(axis) <= i32::MAX);
            let start = r.pos.get(axis);
            let end = start + r.size.get(axis) as i32;
            let new_s = if start > lo {
                start
            } else {
                lo
            };
            let new_e = if end < hi {
                end
            } else {
                hi
            };
            if new_s < new_e {
                let mut c = r;
                c.pos.set(axis, new_s);
                c.size.set(axis, (new_e - new_s) as u16);
                out.push(c);
            }
            i += 1;
        }
        self.rects = out;
    }

    /// Returns the rects in priority order (earliest = highest priority).
    pub fn get_rects(&self) -> (r: &[Rect])
        ensures
            r@ == self@,
    {
        self.rects.as_slice()
    }

    /// Removes every entry.
    pub fn clear(&mut self)
        ensures
            final(self)@ == Seq::<Rect>::empty(),
    {
        self.rects.clear();
    }
}

/// Clipping to a range twice is the same as clipping once.
pub proof fn lemma_clip_idempotent(s: Seq<Rect>, axis: Axis2D, lo: i32, hi: i32)
    ensures
        clip_all(
            clip_all(s, s.len() as int, axis, lo, hi),
            clip_all(s, s.len() as int, axis, lo, hi).len() as int,
            axis,
            lo,
            hi,
        ) == clip_all(s, s.len() as int, axis, lo, hi),
{
    let c = clip_all(s, s.len() as int, axis, lo, hi);
    lemma_clip_all_within(s, s.len() as int, axis, lo, hi);
    lemma_clip_all_fixed(c, c.len() as int, axis, lo, hi);
}

proof fn lemma_clip_all_within(s: Seq<Rect>, k: int, axis: Axis2D, lo: i32, hi: i32)
    requires
        0 <= k <= s.len(),
    ensures
        forall|i: int|
            0 <= i < clip_all(s, k, axis, lo, hi).len() ==> within(
                #[trigger] clip_all(s, k, axis, lo, hi)[i],
                axis,
                lo,
                hi,
            ),
        clip_all(s, k, axis, lo, hi).len() <= k,
    decreases k,
{
    if k > 0 {
        lemma_clip_all_within(s, k - 1, axis, lo, hi);
    }
}

proof fn lemma_clip_all_fixed(c: Seq<Rect>, k: int, axis: Axis2D, lo: i32, hi: i32)
    requires
        0 <= k <= c.len(),
        forall|i: int| 0 <= i < c.len() ==> within(#[trigger] c[i], axis, lo, hi),
    ensures
        clip_all(c, k, axis, lo, hi) == c.take(k),
    decreases k,
{
    if k > 0 {
        lemma_clip_all_fixed(c, k - 1, axis, lo, hi);
        let r = c[k - 1];
        assert(within(r, axis, lo, hi));
        assert(clip_rect(r, axis, lo, hi) == Some(r)) by {
            assert(r.pos.with(axis, r.pos.at(axis)) == r.pos);
            assert(r.size.with(axis, r.size.at(axis)) == r.size);
        }
        assert(c.take(k - 1).push(r) =~= c.take(k));
    } else {
        assert(c.take(0) =~= Seq::<Rect>::empty());
    }
}

/// Rust's `x / 2` on a signed value: rounds toward zero.
pub open spec fn half_toward_zero(x: int) -> int {
    if x >= 0 {
        x / 2
    } else {
        -((-x) / 2)
    }
}

/// The index of the first pass whose size fits the viewport, or the number of passes.
pub open spec fn first_fitting(passes: Seq<(i32, i32)>, viewport: i32, k: int) -> int
    decreases passes.len() - k,
{
    if k >= passes.len() || k < 0 {
        passes.len() as int
    } else if passes[k].1 <= viewport {
        k
    } else {
        first_fitting(passes, viewport, k + 1)
    }
}

/// The scroll-offset delta that brings the pass `(start, size)` into view.
pub open spec fn reveal_delta(start: int, size: int, viewport: int, align: Option<Align>, scrolloff: int) -> int {
    let end = start + size;
    match align {
        Some(Align::Start) => start - scrolloff,
        Some(Align::Middle) => start + half_toward_zero(size) - half_toward_zero(viewport),
        Some(Align::End) => end - viewport + scrolloff,
        None => {
            let slack = if viewport - size > 0 {
                viewport - size
            } else {
                0
            };
            let max_so = slack / 2;
            let so = if scrolloff < max_so {
                scrolloff
            } else {
                max_so
            };
            if end + so > viewport {
                end + so - viewport
            } else if start - so < 0 {
                start - so
            } else {
                0
            }
        },
    }
}

/// Whether `v` fits an `i32`.
pub open spec fn in_i32(v: int) -> bool {
    i32::MIN <= v <= i32::MAX
}

/// Whether the arithmetic that resolves the pass `(start, size)` with `align` stays within
/// `i32`, step by step as the branch taken computes it.
pub open spec fn reveal_fits(start: int, size: int, viewport: int, align: Option<Align>, scrolloff: int) -> bool {
    let end = start + size;
    &&& in_i32(end)
    &&& match align {
        Some(Align::Start) => in_i32(start - scrolloff),
        Some(Align::Middle) => in_i32(start + half_toward_zero(size)) && in_i32(
            start + half_toward_zero(size) - half_toward_zero(viewport),
        ),
        Some(Align::End) => in_i32(end - viewport) && in_i32(end - viewport + scrolloff),
        None => {
            let slack = if viewport - size > 0 {
                viewport - size
            } else {
                0
            };
            let max_so = slack / 2;
            let so = if scrolloff < max_so {
                scrolloff
            } else {
                max_so
            };
            &&& in_i32(viewport - size)
            &&& in_i32(end + so)
            &&& end + so > viewport ==> in_i32(end + so - viewport)
            &&& end + so <= viewport ==> in_i32(start - so)
        },
    }
}

/// Returns the scroll-offset delta that brings the first `(start, size)` entry that fits the
/// viewport into view, or `0` when none fits.
pub fn resolve_revelation_axis(
    passes: &[(i32, i32)],
    viewport: i32,
    align: Option<Align>,
    scrolloff: u16,
) -> (r: i32)
    requires
        ({
            let k = first_fitting(passes@, viewport, 0);
            0 <= k < passes@.len() ==> reveal_fits(
                passes@[k].0 as int,
                passes@[k].1 as int,
                viewport as int,
                align,
                scrolloff as int,
            )
        }),
    ensures
        ({
            let k = first_fitting(passes@, viewport, 0);
            r == if k == passes@.len() {
                0
            } else {
                reveal_delta(
                    passes@[k].0 as int,
                    passes@[k].1 as int,
                    viewport as int,
                    align,
                    scrolloff as int,
                )
            }
        }),
{
    let n = passes.len();
    let mut i: usize = 0;
    while i < n
        invariant
            n == passes@.len(),
            0 <= i <= n,
            first_fitting(passes@, viewport, 0) == first_fitting(passes@, viewport, i as int),
        ensures
            first_fitting(passes@, viewport, 0) == first_fitting(passes@, viewport, i as int),
            i <= n,
            i < n ==> passes@[i as int].1 <= viewport,
        decreases n - i,
    {
        if passes[i].1 <= viewport {
            break;
        }
        i += 1;
    }
    if i == n {
        return 0;
    }
    let (start, size) = passes[i];
    assert(reveal_fits(start as int, size as int, viewport as int, align, scrolloff as int));
    let end = start + size;
    match align {
        Some(Align::Start) => start - scrolloff as i32,
        Some(Align::Middle) => start + size / 2 - viewport / 2,
        Some(Align::End) => end - viewport + scrolloff as i32,
        None => {
            let diff = viewport - size;
            let slack = if diff > 0 {
                diff
            } else {
                0
            };
            let max_so = slack / 2;
            let so = if (scrolloff as i32) < max_so {
                scrolloff as i32
            } else {
                max_so
            };
            if end + so > viewport {
                end + so - viewport
            } else if start - so < 0 {
                start - so
            } else {
                0
            }
        },
    }
}

} // verus!
