//! What a flex pane decides for its children along and across its axis, and how it keeps its
//! scroll offsets and scrollbars in step with its content.

use vstd::prelude::*;
use crate::arith::sat_sub;
use crate::flex::spec_clamp;
use crate::scrollbar::Scrollbar;
use crate::geometry::{Axis2D, Vec2};
use crate::list_window::{px_total, smooth_step_toward, smooth_toward};

verus! {

/// Returns a child's flex basis along the pane's axis: nothing for a flexing child (it takes
/// its share of the free space), its measured size when it flows along the axis, otherwise
/// its preferred size.
pub fn child_basis(flex: u8, flows_along_main: bool, measured_main: u16, preferred_main: u16) -> (r: u16)
    ensures
        r == if flex > 0 {
            0
        } else if flows_along_main {
            measured_main
        } else {
            preferred_main
        },
{
    if flex > 0 {
        0
    } else if flows_along_main {
        measured_main
    } else {
        preferred_main
    }
}

/// Returns a child's effective minimum along the pane's axis: its explicit minimum, or its
/// measured size, when it flows along the axis, otherwise its constraint minimum; never more
/// than its maximum.
pub fn child_min_main(
    flows_along_main: bool,
    explicit_min: Option<u16>,
    measured_main: u16,
    min_main: u16,
    max_main: u16,
) -> (r: u16)
    ensures
        ({
            let m = if flows_along_main {
                match explicit_min {
                    Some(e) => e,
                    None => measured_main,
                }
            } else {
                min_main
            };
            r == if m <= max_main {
                m
            } else {
                max_main
            }
        }),
{
    let m = if flows_along_main {
        match explicit_min {
            Some(e) => e,
            None => measured_main,
        }
    } else {
        min_main
    };
    if m <= max_main {
        m
    } else {
        max_main
    }
}

/// Returns the size along the pane's axis offered to a child when it is measured: the whole
/// container for a flexing child, unbounded otherwise.
pub fn measure_main(flex: u8, container_main: u16) -> (r: u16)
    ensures
        r == if flex > 0 {
            container_main
        } else {
            u16::MAX
        },
{
    if flex > 0 {
        container_main
    } else {
        u16::MAX
    }
}

/// Returns the cross size offered to a child when it is measured: the whole container when it
/// stretches, otherwise its preferred cross size within the container; at least its minimum.
pub fn measure_cross(stretching: bool, container_cross: u16, pref_cross: u16, min_cross: u16) -> (r: u16)
    ensures
        ({
            let base = if stretching {
                container_cross
            } else if pref_cross <= container_cross {
                pref_cross
            } else {
                container_cross
            };
            r == if base >= min_cross {
                base
            } else {
                min_cross
            }
        }),
{
    let base = if stretching {
        container_cross
    } else if pref_cross <= container_cross {
        pref_cross
    } else {
        container_cross
    };
    if base >= min_cross {
        base
    } else {
        min_cross
    }
}

/// The cross size a child is given: the container within its bounds when it stretches and the
/// pane does not scroll across; otherwise its own cross size (`hypothetical`) grown to the
/// container when it stretches or held to it when not, within its bounds.
pub open spec fn used_cross_of(
    stretching: bool,
    cross_scroll: bool,
    container_cross: int,
    min_cross: int,
    max_cross: int,
    hypothetical: int,
) -> int {
    if stretching && !cross_scroll {
        spec_clamp(container_cross, min_cross, max_cross)
    } else if stretching {
        spec_clamp(
            if container_cross >= hypothetical {
                container_cross
            } else {
                hypothetical
            },
            min_cross,
            max_cross,
        )
    } else {
        spec_clamp(
            if hypothetical <= container_cross {
                hypothetical
            } else {
                container_cross
            },
            min_cross,
            max_cross,
        )
    }
}

/// Returns the cross size a child is given.
pub fn used_cross(
    stretching: bool,
    cross_scroll: bool,
    container_cross: u16,
    min_cross: u16,
    max_cross: u16,
    hypothetical: u16,
) -> (r: u16)
    requires
        min_cross <= max_cross,
    ensures
        r == used_cross_of(
            stretching,
            cross_scroll,
            container_cross as int,
            min_cross as int,
            max_cross as int,
            hypothetical as int,
        ),
        min_cross <= r <= max_cross,
{
    let v = if stretching && !cross_scroll {
        container_cross
    } else if stretching {
        if container_cross >= hypothetical {
            container_cross
        } else {
            hypothetical
        }
    } else if hypothetical <= container_cross {
        hypothetical
    } else {
        container_cross
    };
    if v < min_cross {
        min_cross
    } else if v > max_cross {
        max_cross
    } else {
        v
    }
}

/// Returns the padding the pane keeps along an axis: the padding before, plus the padding
/// after less the scrollbar gutter that already stands there.
pub fn axis_pad(before: u16, after: u16, gutter: u16) -> (r: u16)
    requires
        before + sat_sub(after as int, gutter as int) <= u16::MAX,
    ensures
        r == before + sat_sub(after as int, gutter as int),
{
    before + after.saturating_sub(gutter)
}

/// Returns what the pane's chrome takes along an axis: its border on both sides, the
/// scrollbar gutter, and its padding unless the axis scrolls (then the padding scrolls with
/// the content); capped at `u16::MAX`.
pub fn axis_overhead(border_cells: u16, gutter: u16, scroll_enabled: bool, pad: u16) -> (r: u16)
    requires
        border_cells * 2 <= u16::MAX,
    ensures
        ({
            let total = border_cells * 2 + gutter + if scroll_enabled {
                0
            } else {
                pad as int
            };
            r == if total > u16::MAX {
                u16::MAX as int
            } else {
                total
            }
        }),
{
    let border = border_cells * 2;
    let p = if scroll_enabled {
        0
    } else {
        pad
    };
    border.saturating_add(gutter).saturating_add(p)
}

/// Returns the gaps between `n` children `gap` cells apart.
pub fn pane_gap_total(n: usize, gap: u16) -> (r: u32)
    requires
        sat_sub(n as int, 1) * gap <= u32::MAX,
    ensures
        r == sat_sub(n as int, 1) * gap,
{
    let k = if n > 0 {
        n - 1
    } else {
        0
    };
    if gap == 0 {
        return 0;
    }
    assert(k <= u32::MAX) by (nonlinear_arith)
        requires
            k * gap <= u32::MAX,
            gap >= 1,
            k >= 0,
    ;
    k as u32 * gap as u32
}

/// Sum of the first `k` entries of `s`.
pub open spec fn sum16(s: Seq<u16>, k: int) -> int
    decreases k,
{
    if k <= 0 {
        0
    } else {
        sum16(s, k - 1) + s[k - 1] as int
    }
}

/// The largest of the first `k` entries of `s`, zero when there are none.
pub open spec fn max16(s: Seq<u16>, k: int) -> int
    decreases k,
{
    if k <= 0 {
        0
    } else {
        let m = max16(s, k - 1);
        if s[k - 1] as int > m {
            s[k - 1] as int
        } else {
            m
        }
    }
}

/// Returns the extent of the children: along the axis their sizes and the gaps added up
/// (capped at `u32::MAX`), across it the largest of them.
pub fn children_extent(main_sizes: &[u16], cross_sizes: &[u16], gap_total: u32) -> (r: (u32, u32))
    ensures
        r.0 == if sum16(main_sizes@, main_sizes@.len() as int) + gap_total > u32::MAX {
            u32::MAX as int
        } else {
            sum16(main_sizes@, main_sizes@.len() as int) + gap_total
        },
        r.1 == max16(cross_sizes@, cross_sizes@.len() as int),
{
    let mut main: u32 = 0;
    let mut i: usize = 0;
    while i < main_sizes.len()
        invariant
            0 <= i <= main_sizes@.len(),
            main == if sum16(main_sizes@, i as int) > u32::MAX {
                u32::MAX as int
            } else {
                sum16(main_sizes@, i as int)
            },
        decreases main_sizes@.len() - i,
    {
        main = main.saturating_add(main_sizes[i] as u32);
        i += 1;
    }
    let mut cross: u32 = 0;
    i = 0;
    while i < cross_sizes.len()
        invariant
            0 <= i <= cross_sizes@.len(),
            cross == max16(cross_sizes@, i as int),
        decreases cross_sizes@.len() - i,
    {
        if cross_sizes[i] as u32 > cross {
            cross = cross_sizes[i] as u32;
        }
        i += 1;
    }
    (main.saturating_add(gap_total), cross)
}

/// How far the content can scroll along an axis: what it takes beyond the viewport.
pub open spec fn max_scroll_of(padded: int, viewport: int) -> int {
    sat_sub(padded, viewport)
}

/// Returns how far content of `padded` cells can scroll in a viewport of `viewport` cells.
pub fn max_scroll(padded: u32, viewport: u16) -> (r: u32)
    ensures
        r == max_scroll_of(padded as int, viewport as int),
{
    padded.saturating_sub(viewport as u32)
}

/// Returns the scroll offset kept along an axis: within the content's reach when the axis
/// scrolls, zero when it does not.
pub fn clamp_scroll(enabled: bool, scroll: u32, padded: u32, viewport: u16) -> (r: u32)
    ensures
        r == if enabled {
            if scroll <= max_scroll_of(padded as int, viewport as int) {
                scroll as int
            } else {
                max_scroll_of(padded as int, viewport as int)
            }
        } else {
            0
        },
        r <= max_scroll_of(padded as int, viewport as int),
{
    if enabled {
        let m = max_scroll(padded, viewport);
        if scroll <= m {
            scroll
        } else {
            m
        }
    } else {
        0
    }
}

/// Clamping a scroll offset a second time changes nothing.
pub proof fn lemma_clamp_scroll_idempotent(enabled: bool, scroll: int, padded: int, viewport: int)
    requires
        scroll >= 0,
    ensures
        ({
            let once = if enabled {
                if scroll <= max_scroll_of(padded, viewport) {
                    scroll
                } else {
                    max_scroll_of(padded, viewport)
                }
            } else {
                0
            };
            let twice = if enabled {
                if once <= max_scroll_of(padded, viewport) {
                    once
                } else {
                    max_scroll_of(padded, viewport)
                }
            } else {
                0
            };
            once == twice
        }),
{
}

/// Whether a pane shows its scrollbar along an axis: never when the axis does not scroll or
/// hides its bar, always when the bar is visible, and for a bar that hides itself when the
/// children need more than the pane's inside less the gutter across.
pub open spec fn bar_visible_of(mode: Option<Scrollbar>, children_min: int, base: int, cross_gutter: int) -> bool {
    match mode {
        None => false,
        Some(Scrollbar::Hidden) => false,
        Some(Scrollbar::AutoHide) => children_min > sat_sub(base, cross_gutter),
        Some(Scrollbar::Visible) => true,
    }
}

/// Returns whether a pane shows its scrollbar along an axis.
pub fn bar_visible(mode: Option<Scrollbar>, children_min: u32, base: u32, cross_gutter: u32) -> (r: bool)
    ensures
        r == bar_visible_of(mode, children_min as int, base as int, cross_gutter as int),
{
    match mode {
        None => false,
        Some(Scrollbar::Hidden) => false,
        Some(Scrollbar::AutoHide) => children_min > base.saturating_sub(cross_gutter),
        Some(Scrollbar::Visible) => true,
    }
}

/// A pane's scroll position: whole cells along each axis, and the pixels past them.
#[derive(Clone, Copy, Debug, PartialEq, Eq, Structural)]
pub struct PaneScroll {
    /// The scroll position along each axis, in whole cells.
    pub scroll: Vec2<u32>,
    /// The pixels past whole cells along each axis.
    pub subcell: Vec2<u16>,
}

impl PaneScroll {
    /// A scroll position at the start along both axes.
    pub fn new() -> (r: PaneScroll)
        ensures
            r.scroll == (Vec2 { x: 0u32, y: 0u32 }),
            r.subcell == (Vec2 { x: 0u16, y: 0u16 }),
    {
        PaneScroll { scroll: Vec2 { x: 0, y: 0 }, subcell: Vec2 { x: 0, y: 0 } }
    }

    /// Scrolls smoothly along `axis` by `delta_px` pixels towards the end (`forward`) or the
    /// start, capped at `max` cells of `cell_px` pixels going forward and at zero going back
    /// (see [`smooth_step_toward`]); returns whether the position changed.
    pub fn smooth_scroll(&mut self, axis: Axis2D, delta_px: u32, forward: bool, max: u32, cell_px: u16) -> (changed: bool)
        requires
            cell_px > 0,
            old(self).subcell.at(axis) < cell_px,
        ensures
            ({
                let cur = px_total(old(self).scroll.at(axis) as int, old(self).subcell.at(axis) as int, cell_px as int);
                let new = smooth_toward(cur, delta_px as int, forward, max as int * cell_px as int);
                &&& final(self).scroll == old(self).scroll.with(axis, (new / (cell_px as int)) as u32)
                &&& final(self).subcell == old(self).subcell.with(axis, (new % (cell_px as int)) as u16)
                &&& changed == (new != cur)
            }),
    {
        let (cells, sub, changed) = smooth_step_toward(
            self.scroll.get(axis),
            self.subcell.get(axis),
            delta_px,
            forward,
            max,
            cell_px,
        );
        self.scroll.set(axis, cells);
        self.subcell.set(axis, sub);
        changed
    }
}

} // verus!
