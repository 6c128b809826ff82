//! Track sizing for the two-dimensional grid container.

use vstd::prelude::*;
use crate::align::Place;
use crate::flex::FlexItem;
use crate::geometry::{Axis2D, Vec2};

verus! {

/// Row or column track sizing specification.
#[derive(Clone, Copy, Debug, PartialEq, Eq, Structural)]
pub struct Track {
    /// Minimum size in cells.
    pub min: Option<u16>,
    /// Preferred size in cells.
    pub pref: Option<u16>,
    /// Maximum size in cells.
    pub max: Option<u16>,
    /// Grow weight.
    pub flex: u8,
    /// Whether a border is drawn on the track's leading edge: top for rows, left for columns.
    pub start: bool,
    /// Whether a border is drawn on the track's trailing edge: bottom for rows, right for
    /// columns.
    pub end: bool,
}

impl Track {
    /// Returns a track sized from its children.
    pub fn auto() -> (r: Track)
        ensures
            r == (Track { min: None, pref: None, max: None, flex: 0, start: false, end: false }),
    {
        Track { min: None, pref: None, max: None, flex: 0, start: false, end: false }
    }

    /// Returns a fixed-size track of `n` cells.
    pub fn fixed(n: u16) -> (r: Track)
        ensures
            r == (Track { min: Some(n), pref: Some(n), max: Some(n), flex: 0, start: false, end: false }),
    {
        Track { min: Some(n), pref: Some(n), max: Some(n), flex: 0, start: false, end: false }
    }

    /// Returns a child-sized track with flex `weight`.
    pub fn grow(weight: u8) -> (r: Track)
        ensures
            r == (Track { min: None, pref: None, max: None, flex: weight, start: false, end: false }),
    {
        Track { min: None, pref: None, max: None, flex: weight, start: false, end: false }
    }

    /// Sets the minimum size in cells.
    pub fn min(self, n: u16) -> (r: Track)
        ensures
            r == (Track { min: Some(n), ..self }),
    {
        Track { min: Some(n), ..self }
    }

    /// Sets the preferred size in cells.
    pub fn pref(self, n: u16) -> (r: Track)
        ensures
            r == (Track { pref: Some(n), ..self }),
    {
        Track { pref: Some(n), ..self }
    }

    /// Sets the maximum size in cells.
    pub fn max(self, n: u16) -> (r: Track)
        ensures
            r == (Track { max: Some(n), ..self }),
    {
        Track { max: Some(n), ..self }
    }

    /// Sets the grow weight.
    pub fn flex(self, w: u8) -> (r: Track)
        ensures
            r == (Track { flex: w, ..self }),
    {
        Track { flex: w, ..self }
    }
}

/// Sum of the values `v[start..start + k]`.
pub open spec fn span_sum(v: Seq<u16>, start: int, k: int) -> int
    decreases k,
{
    if k <= 0 {
        0
    } else {
        span_sum(v, start, k - 1) + v[start + k - 1]
    }
}

/// The number of tracks a span of `n` tracks from `start` covers, cut at the end of `len`.
pub open spec fn covered_count(len: int, start: int, n: int) -> int {
    let avail = if len > start {
        len - start
    } else {
        0
    };
    if n < avail {
        n
    } else {
        avail
    }
}

/// The track minimums after making room for a child of minimum size `child_min` spanning `n`
/// tracks from `start`: when the covered tracks plus the gaps between them fall short, the
/// deficit is split evenly, the first tracks taking one extra cell each for the remainder,
/// each track capped at the maximum size.
pub open spec fn distributed_mins(
    v: Seq<u16>,
    start: int,
    n: int,
    child_min: int,
    gap: int,
    sep_total: int,
) -> Seq<u16> {
    let m = covered_count(v.len() as int, start, n);
    if m == 0 {
        v
    } else {
        let inner_gap = (m - 1) * gap + sep_total;
        let current = span_sum(v, start, m) + inner_gap;
        if child_min <= current {
            v
        } else {
            let deficit = child_min - current;
            let per = deficit / m;
            let rem = deficit % m;
            Seq::new(
                v.len(),
                |j: int|
                    if start <= j < start + m {
                        let add = per + if j - start < rem {
                            1int
                        } else {
                            0int
                        };
                        if v[j] + add > u16::MAX {
                            u16::MAX
                        } else {
                            (v[j] + add) as u16
                        }
                    } else {
                        v[j]
                    },
            )
        }
    }
}

proof fn lemma_span_sum_bounds(v: Seq<u16>, start: int, k: int)
    requires
        0 <= start,
        0 <= k,
        start + k <= v.len(),
    ensures
        0 <= span_sum(v, start, k) <= k * 65535,
    decreases k,
{
    if k > 0 {
        lemma_span_sum_bounds(v, start, k - 1);
    }
}

/// Makes the tracks `start..start + n` large enough, together with the gaps between them, to
/// hold a child of minimum size `child_min`.
pub fn distribute_min(
    track_mins: &mut [u16],
    start: usize,
    n: usize,
    child_min: u32,
    gap: u8,
    sep_total: u32,
)
    requires
        old(track_mins)@.len() * 255 + sep_total <= u32::MAX,
        old(track_mins)@.len() <= 65536,
    ensures
        final(track_mins)@ == distributed_mins(
            old(track_mins)@,
            start as int,
            n as int,
            child_min as int,
            gap as int,
            sep_total as int,
        ),
{
    let ghost v = track_mins@;
    let ghost n0 = n as int;
    if n == 0 {
        return;
    }
    let len = track_mins.len();
    let avail = if len > start {
        len - start
    } else {
        0
    };
    let n = if n < avail {
        n
    } else {
        avail
    };
    if n == 0 {
        return;
    }
    assert(n as int == covered_count(v.len() as int, start as int, n0));
    proof {
        lemma_span_sum_bounds(v, start as int, n as int);
    }
    assert((n - 1) * (gap as int) <= (len as int) * 255) by (nonlinear_arith)
        requires
            1 <= n <= len,
            gap <= 255,
    ;
    let inner_gap = (n - 1) as u32 * gap as u32 + sep_total;
    let mut sum: u32 = 0;
    let mut i: usize = 0;
    while i < n
        invariant
            0 <= i <= n,
            start + n <= len,
            len == v.len(),
            len <= 65536,
            track_mins@ == v,
            sum as int == span_sum(v, start as int, i as int),
        decreases n - i,
    {
        proof {
            lemma_span_sum_bounds(v, start as int, i as int + 1);
        }
        sum = sum + track_mins[start + i] as u32;
        i += 1;
    }
    let current = sum.saturating_add(inner_gap);
    if child_min <= current {
        return;
    }
    let deficit = child_min - current;
    let per = deficit / n as u32;
    let rem = deficit % n as u32;
    let mut i: usize = 0;
    while i < n
        invariant
            0 <= i <= n,
            start + n <= len,
            len == v.len(),
            track_mins@.len() == len,
            per == deficit as int / n as int,
            rem == deficit as int % n as int,
            n > 0,
            len <= 65536,
            per <= deficit,
            deficit <= u32::MAX,
            forall|j: int|
                0 <= j < len ==> #[trigger] track_mins@[j] == if start <= j < start + i {
                    let add = per + if j - start < rem {
                        1int
                    } else {
                        0int
                    };
                    if v[j] + add > u16::MAX {
                        u16::MAX
                    } else {
                        (v[j] + add) as u16
                    }
                } else {
                    v[j]
                },
        decreases n - i,
    {
        let idx = start + i;
        let extra: u32 = if (i as u32) < rem {
            1
        } else {
            0
        };
        assert(per + extra <= u32::MAX) by {
            if extra == 1 {
                assert(rem < n);
                assert(per * n + rem == deficit) by {
                    vstd::arithmetic::div_mod::lemma_fundamental_div_mod(deficit as int, n as int);
                }
                assert(per * n >= per) by (nonlinear_arith)
                    requires
                        n >= 1,
                        per >= 0,
                ;
                assert(rem > 0);
            }
        }
        let add = per + extra;
        let old_v = track_mins[idx];
        assert(old_v == v[idx as int]);
        let sum2 = (old_v as u64) + (add as u64);
        let nv: u16 = if sum2 > u16::MAX as u64 {
            u16::MAX
        } else {
            sum2 as u16
        };
        track_mins[idx] = nv;
        i += 1;
    }
    proof {
        let m = n as int;
        assert(m == covered_count(v.len() as int, start as int, n0));
        assert(current as int == span_sum(v, start as int, m) + (m - 1) * gap + sep_total);
        assert(track_mins@ =~= distributed_mins(
            v,
            start as int,
            n0,
            child_min as int,
            gap as int,
            sep_total as int,
        ));
    }
}

/// When a child does not fit, distributing its minimum gives it exactly its minimum: unless
/// a track hits the maximum size, the covered tracks plus the gaps add up to `child_min`.
pub proof fn lemma_distribute_min_fits(
    v: Seq<u16>,
    start: int,
    n: int,
    child_min: int,
    gap: int,
    sep_total: int,
)
    requires
        0 <= start,
        0 < n,
        start + n <= v.len(),
        0 <= gap,
        0 <= sep_total,
        span_sum(v, start, n) + (n - 1) * gap + sep_total < child_min,
        ({
            let deficit = child_min - (span_sum(v, start, n) + (n - 1) * gap + sep_total);
            forall|j: int| start <= j < start + n ==> #[trigger] v[j] + deficit / n + 1 <= u16::MAX
        }),
    ensures
        span_sum(distributed_mins(v, start, n, child_min, gap, sep_total), start, n) + (n - 1) * gap
            + sep_total == child_min,
{
    let w = distributed_mins(v, start, n, child_min, gap, sep_total);
    let deficit = child_min - (span_sum(v, start, n) + (n - 1) * gap + sep_total);
    let per = deficit / n;
    let rem = deficit % n;
    assert(covered_count(v.len() as int, start, n) == n);
    lemma_distributed_prefix(v, w, start, n, per, rem, n);
    vstd::arithmetic::div_mod::lemma_fundamental_div_mod(deficit, n);
    assert(rem < n) by {
        vstd::arithmetic::div_mod::lemma_mod_bound(deficit, n);
    }
    assert(n * per == per * n) by (nonlinear_arith);
}

proof fn lemma_distributed_prefix(
    v: Seq<u16>,
    w: Seq<u16>,
    start: int,
    n: int,
    per: int,
    rem: int,
    k: int,
)
    requires
        0 <= start,
        0 <= k <= n,
        start + n <= v.len(),
        w.len() == v.len(),
        0 <= rem < n,
        forall|j: int|
            start <= j < start + n ==> #[trigger] w[j] == v[j] + per + if j - start < rem {
                1int
            } else {
                0int
            },
    ensures
        span_sum(w, start, k) == span_sum(v, start, k) + k * per + (if k < rem {
            k
        } else {
            rem
        }),
    decreases k,
{
    if k > 0 {
        lemma_distributed_prefix(v, w, start, n, per, rem, k - 1);
        assert(k * per == (k - 1) * per + per) by (nonlinear_arith);
        let j = start + k - 1;
        assert(w[j] == v[j] + per + if j - start < rem {
            1int
        } else {
            0int
        });
        assert(span_sum(w, start, k) == span_sum(w, start, k - 1) + w[start + k - 1]);
        assert(span_sum(v, start, k) == span_sum(v, start, k - 1) + v[start + k - 1]);
        let prev_extra = if k - 1 < rem {
            k - 1
        } else {
            rem
        };
        assert(span_sum(w, start, k - 1) == span_sum(v, start, k - 1) + (k - 1) * per + prev_extra);
        if k - 1 < rem {
            assert(span_sum(w, start, k) == span_sum(v, start, k) + k * per + k);
        } else {
            assert(span_sum(w, start, k) == span_sum(v, start, k) + k * per + rem);
        }
    } else {
        assert(0 * per == 0);
    }
}

/// The slack given before track `i` of `n` when `slack` spare cells are placed by `place`.
pub open spec fn pre_gap(place: Place, slack: int, n: int, i: int) -> int {
    match place {
        Place::Evenly => if n >= 1 {
            slack * (i + 1) / (n + 1) - slack * i / (n + 1)
        } else {
            0
        },
        Place::Apart => if n >= 2 {
            if i == 0 {
                0
            } else {
                slack * i / (n - 1) - slack * (i - 1) / (n - 1)
            }
        } else {
            0
        },
        Place::Middle => if i == 0 {
            slack / 2
        } else {
            0
        },
        Place::End => if i == 0 {
            slack
        } else {
            0
        },
        _ => 0,
    }
}

/// Sum of the targets of the first `k` tracks.
pub open spec fn target_sum(t: Seq<FlexItem>, k: int) -> int
    decreases k,
{
    if k <= 0 {
        0
    } else {
        target_sum(t, k - 1) + t[k - 1].target
    }
}

/// Sum of the first `k` gaps.
pub open spec fn gap_sum(g: Seq<u16>, k: int) -> int
    decreases k,
{
    if k <= 0 {
        0
    } else {
        gap_sum(g, k - 1) + g[k - 1]
    }
}

/// Sum of the slack placed before each of the first `k` tracks.
pub open spec fn pre_gap_sum(place: Place, slack: int, n: int, k: int) -> int
    decreases k,
{
    if k <= 0 {
        0
    } else {
        pre_gap_sum(place, slack, n, k - 1) + pre_gap(place, slack, n, k - 1)
    }
}

/// The running position where track `i` starts.
pub open spec fn track_start(
    t: Seq<FlexItem>,
    g: Seq<u16>,
    pre_pad: int,
    place: Place,
    slack: int,
    i: int,
) -> int {
    pre_pad + pre_gap_sum(place, slack, t.len() as int, i + 1) + target_sum(t, i) + gap_sum(g, i)
}

/// The running position after the last track.
pub open spec fn track_end(
    t: Seq<FlexItem>,
    g: Seq<u16>,
    pre_pad: int,
    place: Place,
    slack: int,
) -> int {
    let n = t.len() as int;
    pre_pad + pre_gap_sum(place, slack, n, n) + target_sum(t, n) + gap_sum(
        g,
        if n > 0 {
            n - 1
        } else {
            0
        },
    )
}

/// The spare cells of an axis of `allocated` cells once the tracks, the gaps and the padding
/// are taken off.
pub open spec fn slack_of(
    t: Seq<FlexItem>,
    g: Seq<u16>,
    allocated: int,
    pre_pad: int,
    post_pad: int,
) -> int {
    let n = t.len() as int;
    let used = target_sum(t, n) + gap_sum(
        g,
        if n > 0 {
            n - 1
        } else {
            0
        },
    ) + pre_pad + post_pad;
    if allocated > used {
        allocated - used
    } else {
        0
    }
}

/// A position, capped at the maximum cell.
pub open spec fn cap(v: int) -> u16 {
    if v > u16::MAX {
        u16::MAX
    } else {
        v as u16
    }
}

proof fn lemma_pre_gap_bounds(place: Place, slack: int, n: int, i: int)
    requires
        0 <= slack <= 65535,
        0 <= i < n,
    ensures
        0 <= pre_gap(place, slack, n, i) <= slack,
{
    match place {
        Place::Evenly => {
            assert(slack * i <= slack * (i + 1)) by (nonlinear_arith)
                requires
                    slack >= 0,
                    i >= 0,
            ;
            assert(slack * (i + 1) <= slack * (n + 1)) by (nonlinear_arith)
                requires
                    slack >= 0,
                    i < n,
            ;
            vstd::arithmetic::div_mod::lemma_div_is_ordered(slack * i, slack * (i + 1), n + 1);
            vstd::arithmetic::div_mod::lemma_div_is_ordered(slack * (i + 1), slack * (n + 1), n + 1);
            vstd::arithmetic::div_mod::lemma_div_by_multiple(slack, n + 1);
            assert(slack * (n + 1) == (n + 1) * slack) by (nonlinear_arith);
            vstd::arithmetic::div_mod::lemma_div_pos_is_pos(slack * i, n + 1);
        },
        Place::Apart => {
            if n >= 2 && i > 0 {
                assert(slack * (i - 1) <= slack * i) by (nonlinear_arith)
                    requires
                        slack >= 0,
                        i >= 1,
                ;
                assert(slack * i <= slack * (n - 1)) by (nonlinear_arith)
                    requires
                        slack >= 0,
                        i <= n - 1,
                ;
                vstd::arithmetic::div_mod::lemma_div_is_ordered(slack * (i - 1), slack * i, n - 1);
                vstd::arithmetic::div_mod::lemma_div_is_ordered(slack * i, slack * (n - 1), n - 1);
                vstd::arithmetic::div_mod::lemma_div_by_multiple(slack, n - 1);
                assert(slack * (n - 1) == (n - 1) * slack) by (nonlinear_arith);
                vstd::arithmetic::div_mod::lemma_div_pos_is_pos(slack * (i - 1), n - 1);
            }
        },
        _ => {},
    }
}

/// The slack placed before the first `k` tracks telescopes: it is the share of the slack
/// owed up to track `k`.
pub proof fn lemma_pre_gap_sum_telescopes(place: Place, slack: int, n: int, k: int)
    requires
        0 <= slack,
        0 <= k <= n,
    ensures
        place == Place::Evenly && n >= 1 ==> pre_gap_sum(place, slack, n, k) == slack * k / (n + 1),
        place == Place::Apart && n >= 2 && k >= 1 ==> pre_gap_sum(place, slack, n, k) == slack * (k
            - 1) / (n - 1),
        place == Place::End && k >= 1 ==> pre_gap_sum(place, slack, n, k) == slack,
        place == Place::Middle && k >= 1 ==> pre_gap_sum(place, slack, n, k) == slack / 2,
        place == Place::Start || place == Place::Stretch ==> pre_gap_sum(place, slack, n, k) == 0,
    decreases k,
{
    if k > 0 {
        lemma_pre_gap_sum_telescopes(place, slack, n, k - 1);
        assert(pre_gap_sum(place, slack, n, k) == pre_gap_sum(place, slack, n, k - 1) + pre_gap(
            place,
            slack,
            n,
            k - 1,
        ));
        if k == 1 {
            assert(pre_gap_sum(place, slack, n, 0) == 0);
            assert(slack * 0 == 0);
            if n >= 2 {
                assert(0int / (n - 1) == 0);
            }
            if n >= 1 {
                assert(0int / (n + 1) == 0);
            }
        }
    } else {
        assert(slack * 0 == 0);
        if n >= 1 {
            assert(0int / (n + 1) == 0);
        }
    }
}

fn pre_gap_exec(place: Place, slack: u32, n: u32, iu: u32) -> (r: u32)
    requires
        slack <= 65535,
        iu < n,
        n < 65535,
    ensures
        r == pre_gap(place, slack as int, n as int, iu as int),
{
    proof {
        lemma_pre_gap_bounds(place, slack as int, n as int, iu as int);
    }
    assert(slack * (iu + 1) <= 65535 * 65535) by (nonlinear_arith)
        requires
            slack <= 65535,
            iu + 1 <= 65535,
    ;
    assert(slack * iu <= 65535 * 65535) by (nonlinear_arith)
        requires
            slack <= 65535,
            iu <= 65535,
    ;
    match place {
        Place::Evenly => slack * (iu + 1) / (n + 1) - slack * iu / (n + 1),
        Place::Apart => if n >= 2 {
            if iu == 0 {
                0
            } else {
                assert(slack * (iu - 1) <= slack * iu) by (nonlinear_arith)
                    requires
                        iu >= 1,
                ;
                proof {
                    vstd::arithmetic::div_mod::lemma_div_is_ordered(
                        slack * (iu - 1) as int,
                        slack * iu as int,
                        n as int - 1,
                    );
                }
                slack * iu / (n - 1) - slack * (iu - 1) / (n - 1)
            }
        } else {
            0
        },
        Place::Middle => if iu == 0 {
            slack / 2
        } else {
            0
        },
        Place::End => if iu == 0 {
            slack
        } else {
            0
        },
        _ => 0,
    }
}

proof fn lemma_target_sum_bounds(t: Seq<FlexItem>, k: int)
    requires
        0 <= k <= t.len(),
    ensures
        0 <= target_sum(t, k) <= k * 65535,
    decreases k,
{
    if k > 0 {
        lemma_target_sum_bounds(t, k - 1);
    }
}

proof fn lemma_gap_sum_bounds(g: Seq<u16>, k: int)
    requires
        0 <= k <= g.len(),
    ensures
        0 <= gap_sum(g, k) <= k * 65535,
    decreases k,
{
    if k > 0 {
        lemma_gap_sum_bounds(g, k - 1);
    }
}

proof fn lemma_pre_gap_sum_bounds(place: Place, slack: int, n: int, k: int)
    requires
        0 <= k <= n,
        0 <= slack <= 65535,
    ensures
        0 <= pre_gap_sum(place, slack, n, k) <= k * 65535,
    decreases k,
{
    if k > 0 {
        lemma_pre_gap_sum_bounds(place, slack, n, k - 1);
        lemma_pre_gap_bounds(place, slack, n, k - 1);
    }
}

/// How many gaps lie before track `i` of `n`.
pub open spec fn gaps_before(i: int, n: int) -> int {
    if i < n - 1 {
        i
    } else if n > 0 {
        n - 1
    } else {
        0
    }
}

/// Writes the start offset of each track, and the end of the last one, for tracks laid out
/// with the given gaps and padding, the spare cells placed by `place`.
pub fn bake_offsets(
    tracks: &[FlexItem],
    off: &mut [u16],
    allocated: u16,
    pre_pad: u16,
    post_pad: u16,
    gaps: &[u16],
    place: Place,
)
    requires
        tracks@.len() < 16384,
        gaps@.len() + 1 >= tracks@.len(),
        old(off)@.len() == 0 || old(off)@.len() > tracks@.len(),
    ensures
        final(off)@.len() == old(off)@.len(),
        old(off)@.len() == 0 ==> final(off)@ == old(off)@,
        old(off)@.len() > 0 ==> {
            let t = tracks@;
            let n = t.len() as int;
            let slack = slack_of(t, gaps@, allocated as int, pre_pad as int, post_pad as int);
            &&& forall|i: int|
                0 <= i < n ==> #[trigger] final(off)@[i] == cap(
                    track_start(t, gaps@, pre_pad as int, place, slack, i),
                )
            &&& final(off)@[n] == cap(track_end(t, gaps@, pre_pad as int, place, slack))
            &&& forall|i: int| n < i < old(off)@.len() ==> #[trigger] final(off)@[i] == old(off)@[i]
        },
{
    let n = tracks.len();
    if off.len() == 0 {
        return;
    }
    let ghost t = tracks@;
    let ghost g = gaps@;
    let ghost o = off@;
    let mut track_sum: u32 = 0;
    let mut i: usize = 0;
    while i < n
        invariant
            n == t.len(),
            t == tracks@,
            n < 16384,
            0 <= i <= n,
            track_sum == target_sum(t, i as int),
        decreases n - i,
    {
        proof {
            lemma_target_sum_bounds(t, i as int + 1);
        }
        track_sum = track_sum + tracks[i].target as u32;
        i += 1;
    }
    let gn: usize = if n > 0 {
        n - 1
    } else {
        0
    };
    let mut gap_total: u32 = 0;
    i = 0;
    while i < gn
        invariant
            gn < 16384,
            gn <= g.len(),
            g == gaps@,
            0 <= i <= gn,
            gap_total == gap_sum(g, i as int),
        decreases gn - i,
    {
        proof {
            lemma_gap_sum_bounds(g, i as int + 1);
        }
        gap_total = gap_total + gaps[i] as u32;
        i += 1;
    }
    proof {
        lemma_target_sum_bounds(t, n as int);
        lemma_gap_sum_bounds(g, gn as int);
    }
    let used: u32 = track_sum.saturating_add(gap_total).saturating_add(pre_pad as u32).saturating_add(
        post_pad as u32,
    );
    let slack = (allocated as u32).saturating_sub(used);
    let ghost sl = slack as int;
    assert(sl == slack_of(t, g, allocated as int, pre_pad as int, post_pad as int));
    let mut acc: u32 = pre_pad as u32;
    i = 0;
    while i < n
        invariant
            n == t.len(),
            t == tracks@,
            g == gaps@,
            g.len() + 1 >= n,
            n < 16384,
            0 <= i <= n,
            off@.len() == o.len(),
            o.len() > n,
            sl == slack,
            slack <= 65535,
            acc == pre_pad + pre_gap_sum(place, sl, n as int, i as int) + target_sum(t, i as int)
                + gap_sum(g, gaps_before(i as int, n as int)),
            forall|j: int|
                0 <= j < i ==> #[trigger] off@[j] == cap(
                    track_start(t, g, pre_pad as int, place, sl, j),
                ),
            forall|j: int| n <= j < o.len() ==> #[trigger] off@[j] == o[j],
        decreases n - i,
    {
        proof {
            lemma_target_sum_bounds(t, i as int + 1);
            lemma_gap_sum_bounds(g, gaps_before(i as int + 1, n as int));
            lemma_pre_gap_sum_bounds(place, sl, n as int, i as int + 1);
            lemma_pre_gap_bounds(place, sl, n as int, i as int);
        }
        let pg = pre_gap_exec(place, slack, n as u32, i as u32);
        acc = acc.saturating_add(pg);
        assert(acc == track_start(t, g, pre_pad as int, place, sl, i as int));
        off[i] = if acc > u16::MAX as u32 {
            u16::MAX
        } else {
            acc as u16
        };
        acc = acc.saturating_add(tracks[i].target as u32);
        if i + 1 < n {
            acc = acc.saturating_add(gaps[i] as u32);
        }
        i += 1;
    }
    off[n] = if acc > u16::MAX as u32 {
        u16::MAX
    } else {
        acc as u16
    };
}

/// Track starts never go backwards: a later track starts no earlier than an earlier one, and
/// the end of the last track comes after the start of every track.
pub proof fn lemma_track_starts_monotone(
    t: Seq<FlexItem>,
    g: Seq<u16>,
    pre_pad: int,
    place: Place,
    slack: int,
    i: int,
    j: int,
)
    requires
        0 <= slack <= 65535,
        0 <= i <= j < t.len(),
        g.len() + 1 >= t.len(),
    ensures
        track_start(t, g, pre_pad, place, slack, i) <= track_start(t, g, pre_pad, place, slack, j),
        track_start(t, g, pre_pad, place, slack, j) + t[j].target <= track_end(
            t,
            g,
            pre_pad,
            place,
            slack,
        ),
    decreases j - i,
{
    let n = t.len() as int;
    if i < j {
        lemma_track_starts_monotone(t, g, pre_pad, place, slack, i, j - 1);
        lemma_pre_gap_bounds(place, slack, n, j);
    }
    lemma_track_end_after(t, g, pre_pad, place, slack, j, n);
}

proof fn lemma_track_end_after(
    t: Seq<FlexItem>,
    g: Seq<u16>,
    pre_pad: int,
    place: Place,
    slack: int,
    j: int,
    k: int,
)
    requires
        0 <= slack <= 65535,
        0 <= j < k <= t.len(),
        g.len() + 1 >= t.len(),
    ensures
        track_start(t, g, pre_pad, place, slack, j) + t[j].target <= pre_pad + pre_gap_sum(
            place,
            slack,
            t.len() as int,
            k,
        ) + target_sum(t, k) + gap_sum(g, k - 1),
        k == t.len() ==> pre_pad + pre_gap_sum(place, slack, t.len() as int, k) + target_sum(t, k)
            + gap_sum(g, k - 1) == track_end(t, g, pre_pad, place, slack),
    decreases k - j,
{
    let n = t.len() as int;
    if j + 1 < k {
        lemma_track_end_after(t, g, pre_pad, place, slack, j, k - 1);
        lemma_pre_gap_bounds(place, slack, n, k - 1);
    }
}

/// Returns the extent of `span` tracks from `start`, from the start of the first to the end of
/// the last (cut at the last track), or zero when the span is empty or starts past the end.
pub fn span_size(tracks: &[FlexItem], off: &[u16], start: usize, span: usize) -> (r: u16)
    requires
        off@.len() >= tracks@.len(),
        start + span <= usize::MAX,
    ensures
        ({
            let n = tracks@.len() as int;
            r == if start >= n || span == 0 {
                0
            } else {
                let end = (if start + span < n {
                    start + span
                } else {
                    n
                }) - 1;
                let extent = off@[end] + tracks@[end].target - off@[start as int];
                if extent <= 0 {
                    0u16
                } else {
                    cap(extent)
                }
            }
        }),
{
    let n = tracks.len();
    if start >= n || span == 0 {
        return 0;
    }
    let end = if start + span < n {
        start + span
    } else {
        n
    } - 1;
    let extent = (off[end] as u32 + tracks[end].target as u32).saturating_sub(off[start] as u32);
    if extent > u16::MAX as u32 {
        u16::MAX
    } else {
        extent as u16
    }
}

/// Returns the sum of the tracks' targets plus `chrome`, capped at the maximum cell count.
pub fn natural_extent_sum(tracks: &[FlexItem], chrome: u32) -> (r: u16)
    requires
        tracks@.len() <= 65536,
    ensures
        r == cap(target_sum(tracks@, tracks@.len() as int) + chrome),
{
    let n = tracks.len();
    let mut sum: u32 = 0;
    let mut i: usize = 0;
    while i < n
        invariant
            n == tracks@.len(),
            n <= 65536,
            0 <= i <= n,
            sum == target_sum(tracks@, i as int),
        decreases n - i,
    {
        proof {
            lemma_target_sum_bounds(tracks@, i as int + 1);
        }
        sum = sum + tracks[i].target as u32;
        i += 1;
    }
    let total = sum.saturating_add(chrome);
    if total > u16::MAX as u32 {
        u16::MAX
    } else {
        total as u16
    }
}

/// Sum of the bases of the first `k` tracks.
pub open spec fn basis_sum(t: Seq<FlexItem>, k: int) -> int
    decreases k,
{
    if k <= 0 {
        0
    } else {
        basis_sum(t, k - 1) + t[k - 1].basis
    }
}

proof fn lemma_basis_sum_bounds(t: Seq<FlexItem>, k: int)
    requires
        0 <= k <= t.len(),
    ensures
        0 <= basis_sum(t, k) <= k * 65535,
    decreases k,
{
    if k > 0 {
        lemma_basis_sum_bounds(t, k - 1);
    }
}

/// Returns the sum of the tracks' bases plus `chrome`, capped at the maximum cell count.
pub fn natural_min_extent_sum(tracks: &[FlexItem], chrome: u32) -> (r: u16)
    requires
        tracks@.len() <= 65536,
    ensures
        r == cap(basis_sum(tracks@, tracks@.len() as int) + chrome),
{
    let n = tracks.len();
    let mut sum: u32 = 0;
    let mut i: usize = 0;
    while i < n
        invariant
            n == tracks@.len(),
            n <= 65536,
            0 <= i <= n,
            sum == basis_sum(tracks@, i as int),
        decreases n - i,
    {
        proof {
            lemma_basis_sum_bounds(tracks@, i as int + 1);
        }
        sum = sum + tracks[i].basis as u32;
        i += 1;
    }
    let total = sum.saturating_add(chrome);
    if total > u16::MAX as u32 {
        u16::MAX
    } else {
        total as u16
    }
}

/// Scratch state of a grid solve: the column and row items and their offsets.
pub struct SolveState {
    /// Column items.
    pub cols: Vec<FlexItem>,
    /// Row items.
    pub rows: Vec<FlexItem>,
    /// Column offsets, one more than the columns.
    pub col_off: Vec<u16>,
    /// Row offsets, one more than the rows.
    pub row_off: Vec<u16>,
}

impl SolveState {
    /// Creates empty scratch state.
    pub fn new() -> (r: SolveState)
        ensures
            r.cols@.len() == 0,
            r.rows@.len() == 0,
            r.col_off@.len() == 0,
            r.row_off@.len() == 0,
    {
        SolveState { cols: Vec::new(), rows: Vec::new(), col_off: Vec::new(), row_off: Vec::new() }
    }

    /// Resets the state for `n_cols` columns and `n_rows` rows: unbounded items with zero
    /// basis, and zero offsets.
    pub fn resize(&mut self, n_cols: usize, n_rows: usize)
        requires
            n_cols < usize::MAX,
            n_rows < usize::MAX,
        ensures
            final(self).cols@.len() == n_cols,
            final(self).rows@.len() == n_rows,
            final(self).col_off@.len() == n_cols + 1,
            final(self).row_off@.len() == n_rows + 1,
            forall|i: int|
                0 <= i < n_cols ==> #[trigger] final(self).cols@[i] == FlexItem::new_item(
                    0,
                    0,
                    u16::MAX,
                    0,
                ),
            forall|i: int|
                0 <= i < n_rows ==> #[trigger] final(self).rows@[i] == FlexItem::new_item(
                    0,
                    0,
                    u16::MAX,
                    0,
                ),
            forall|i: int| 0 <= i <= n_cols ==> #[trigger] final(self).col_off@[i] == 0,
            forall|i: int| 0 <= i <= n_rows ==> #[trigger] final(self).row_off@[i] == 0,
    {
        let item = FlexItem::new(0, 0, u16::MAX, 0);
        self.cols.clear();
        self.cols.resize(n_cols, item);
        self.rows.clear();
        self.rows.resize(n_rows, item);
        self.col_off.clear();
        self.col_off.resize(n_cols + 1, 0);
        self.row_off.clear();
        self.row_off.resize(n_rows + 1, 0);
    }
}

/// The gap before track `b` of a solved axis: from the end of track `b - 1` to the start of
/// track `b`, when it has some width.
pub open spec fn gutter(items: Seq<FlexItem>, off: Seq<u16>, b: int) -> Option<(int, int)> {
    if b == 0 || b >= items.len() {
        None
    } else {
        let start = off[b - 1] + items[b - 1].target;
        let end = off[b] as int;
        if end > start {
            Some((start, end))
        } else {
            None
        }
    }
}

/// The first gutter before a track from `b` on whose span holds `p`.
pub open spec fn gutter_hit(items: Seq<FlexItem>, off: Seq<u16>, p: int, b: int) -> Option<
    (int, int),
>
    decreases items.len() - b,
{
    if b < 1 || b >= items.len() {
        None
    } else {
        match gutter(items, off, b) {
            Some((s, e)) => if s <= p < e {
                Some((b, (s + e) / 2))
            } else {
                gutter_hit(items, off, p, b + 1)
            },
            None => gutter_hit(items, off, p, b + 1),
        }
    }
}

impl SolveState {
    /// The solved offsets are laid out: one more offset than tracks on each axis.
    pub open spec fn laid_out(self) -> bool {
        &&& self.col_off@.len() == self.cols@.len() + 1
        &&& self.row_off@.len() == self.rows@.len() + 1
    }

    /// The items and offsets along `axis`.
    pub open spec fn axis_items(self, axis: Axis2D) -> Seq<FlexItem> {
        match axis {
            Axis2D::X => self.cols@,
            Axis2D::Y => self.rows@,
        }
    }

    /// The offsets along `axis`.
    pub open spec fn axis_off(self, axis: Axis2D) -> Seq<u16> {
        match axis {
            Axis2D::X => self.col_off@,
            Axis2D::Y => self.row_off@,
        }
    }

    /// The gap before column `boundary`, as a range of x positions, when it has some width.
    pub fn col_gutter_x(&self, boundary: usize) -> (r: Option<std::ops::Range<i32>>)
        requires
            self.laid_out(),
        ensures
            r matches Some(g) ==> gutter(self.cols@, self.col_off@, boundary as int) == Some(
                (g.start as int, g.end as int),
            ),
            r is None ==> gutter(self.cols@, self.col_off@, boundary as int) is None,
    {
        if boundary == 0 || boundary >= self.cols.len() {
            return None;
        }
        let start = self.col_off[boundary - 1] as i32 + self.cols[boundary - 1].target as i32;
        let end = self.col_off[boundary] as i32;
        if end > start {
            Some(start..end)
        } else {
            None
        }
    }

    /// The gap before row `boundary`, as a range of y positions, when it has some height.
    pub fn row_gutter_y(&self, boundary: usize) -> (r: Option<std::ops::Range<i32>>)
        requires
            self.laid_out(),
        ensures
            r matches Some(g) ==> gutter(self.rows@, self.row_off@, boundary as int) == Some(
                (g.start as int, g.end as int),
            ),
            r is None ==> gutter(self.rows@, self.row_off@, boundary as int) is None,
    {
        if boundary == 0 || boundary >= self.rows.len() {
            return None;
        }
        let start = self.row_off[boundary - 1] as i32 + self.rows[boundary - 1].target as i32;
        let end = self.row_off[boundary] as i32;
        if end > start {
            Some(start..end)
        } else {
            None
        }
    }

    /// The divider under `pos`, with the axis it moves along, the boundary it sits before and
    /// its centre: a column divider when columns are resizable and `pos` lies within the
    /// content's height, else a row divider when rows are resizable and `pos` lies within the
    /// content's width.
    pub fn find_divider_at(&self, pos: Vec2<i32>, resizable_cols: bool, resizable_rows: bool) -> (r:
        Option<(Axis2D, usize, i32)>)
        requires
            self.laid_out(),
        ensures
            ({
                let content_h = self.row_off@[self.rows@.len() as int] as int;
                let content_w = self.col_off@[self.cols@.len() as int] as int;
                let col_hit = if resizable_cols && 0 <= pos.y < content_h {
                    gutter_hit(self.cols@, self.col_off@, pos.x as int, 1)
                } else {
                    None
                };
                let row_hit = if resizable_rows && 0 <= pos.x < content_w {
                    gutter_hit(self.rows@, self.row_off@, pos.y as int, 1)
                } else {
                    None
                };
                r == match col_hit {
                    Some((b, c)) => Some((Axis2D::X, b as usize, c as i32)),
                    None => match row_hit {
                        Some((b, c)) => Some((Axis2D::Y, b as usize, c as i32)),
                        None => None,
                    },
                }
            }),
    {
        let n_cols = self.cols.len();
        let n_rows = self.rows.len();
        let content_h = self.row_off[n_rows] as i32;
        let content_w = self.col_off[n_cols] as i32;
        if resizable_cols && 0 <= pos.y && pos.y < content_h {
            let mut b: usize = 1;
            while b < n_cols
                invariant
                    self.laid_out(),
                    n_cols == self.cols@.len(),
                    n_rows == self.rows@.len(),
                    content_h == self.row_off@[n_rows as int],
                    resizable_cols && 0 <= pos.y < content_h,
                    1 <= b,
                    gutter_hit(self.cols@, self.col_off@, pos.x as int, b as int) == gutter_hit(
                        self.cols@,
                        self.col_off@,
                        pos.x as int,
                        1,
                    ),
                decreases n_cols - b,
            {
                if let Some(g) = self.col_gutter_x(b) {
                    if g.start <= pos.x && pos.x < g.end {
                        let center = (g.start + g.end) / 2;
                        return Some((Axis2D::X, b, center));
                    }
                }
                b = b + 1;
            }
        }
        if resizable_rows && 0 <= pos.x && pos.x < content_w {
            let mut b: usize = 1;
            while b < n_rows
                invariant
                    self.laid_out(),
                    n_rows == self.rows@.len(),
                    n_cols == self.cols@.len(),
                    content_h == self.row_off@[n_rows as int],
                    content_w == self.col_off@[n_cols as int],
                    resizable_rows && 0 <= pos.x < content_w,
                    !(resizable_cols && 0 <= pos.y < content_h) || gutter_hit(
                        self.cols@,
                        self.col_off@,
                        pos.x as int,
                        1,
                    ) is None,
                    1 <= b,
                    gutter_hit(self.rows@, self.row_off@, pos.y as int, b as int) == gutter_hit(
                        self.rows@,
                        self.row_off@,
                        pos.y as int,
                        1,
                    ),
                decreases n_rows - b,
            {
                if let Some(g) = self.row_gutter_y(b) {
                    if g.start <= pos.y && pos.y < g.end {
                        let center = (g.start + g.end) / 2;
                        return Some((Axis2D::Y, b, center));
                    }
                }
                b = b + 1;
            }
        }
        None
    }

    /// The centre of the divider before track `boundary` along `axis`, when it has some width.
    pub fn divider_center(&self, axis: Axis2D, boundary: usize) -> (r: Option<i32>)
        requires
            self.laid_out(),
        ensures
            r == match gutter(self.axis_items(axis), self.axis_off(axis), boundary as int) {
                Some((s, e)) => Some(((s + e) / 2) as i32),
                None => None,
            },
    {
        let g = match axis {
            Axis2D::X => self.col_gutter_x(boundary),
            Axis2D::Y => self.row_gutter_y(boundary),
        };
        match g {
            Some(g) => Some((g.start + g.end) / 2),
            None => None,
        }
    }
}

} // verus!
