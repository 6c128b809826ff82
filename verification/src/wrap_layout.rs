//! Laying out the lines of a wrapping container once its items are broken into lines: each
//! line flexes on its own, takes the cross size of its tallest item, and the lines stack.

use vstd::prelude::*;
use crate::arith::cap16;
use crate::flex::{resolve, resolved, FlexItem};

verus! {

/// Where line `l` ends: where the next line starts, or after the last of `n` items.
pub open spec fn line_end_of(starts: Seq<usize>, l: int, n: int) -> int {
    if l + 1 < starts.len() {
        starts[l + 1] as int
    } else {
        n
    }
}

/// The line starts begin at the first item and strictly increase within the `n` items.
pub open spec fn valid_starts(starts: Seq<usize>, n: int) -> bool {
    &&& starts.len() >= 1
    &&& starts[0] == 0
    &&& forall|i: int, j: int| 0 <= i < j < starts.len() ==> starts[i] < starts[j]
    &&& forall|i: int| 0 < i < starts.len() ==> #[trigger] starts[i] < n
}

/// The gaps between the items of a line of `count` items.
pub open spec fn line_gaps(count: int, gap: u16) -> int {
    (count - 1) * gap
}

/// Line `l`'s items flex-resolved on their own along the container's main axis.
pub open spec fn line_resolved(
    items: Seq<FlexItem>,
    starts: Seq<usize>,
    l: int,
    container: u16,
    gap: u16,
) -> Seq<FlexItem> {
    let s = starts[l] as int;
    let e = line_end_of(starts, l, items.len() as int);
    resolved(items.subrange(s, e), container as int, line_gaps(e - s, gap))
}

proof fn lemma_line_bounds(starts: Seq<usize>, n: int, l: int)
    requires
        valid_starts(starts, n),
        0 <= l < starts.len(),
        n > 0,
    ensures
        0 <= starts[l] < line_end_of(starts, l, n) <= n,
        forall|m: int| l < m < starts.len() ==> line_end_of(starts, l, n) <= #[trigger] starts[m],
{
    if l > 0 {
        assert(starts[l] < n);
    }
    if l + 1 < starts.len() {
        assert(starts[l] < starts[l + 1]);
        assert forall|m: int| l < m < starts.len() implies line_end_of(starts, l, n) <= #[trigger] starts[m] by {
            if m > l + 1 {
                assert(starts[l + 1] < starts[m]);
            }
        }
    }
}

/// Flex-resolves each line of `items`, the lines starting at `line_starts`, on its own in a
/// container of `container_main` cells with `gap_main` cells between neighbours.
pub fn resolve_lines(items: &mut Vec<FlexItem>, line_starts: &[usize], container_main: u16, gap_main: u16)
    requires
        valid_starts(line_starts@, old(items)@.len() as int),
        old(items)@.len() <= 0x4000_0000,
        crate::flex::shrink_load(old(items)@, old(items)@.len() as int) + old(items)@.len() * gap_main
            <= i32::MAX - 65535,
        forall|i: int| 0 <= i < old(items)@.len() ==> #[trigger] old(items)@[i].min <= old(items)@[i].max,
    ensures
        final(items)@.len() == old(items)@.len(),
        forall|l: int, i: int|
            0 <= l < line_starts@.len() && line_starts@[l] <= i < line_end_of(
                line_starts@,
                l,
                old(items)@.len() as int,
            ) ==> #[trigger] final(items)@[i] == #[trigger] line_resolved(
                old(items)@,
                line_starts@,
                l,
                container_main,
                gap_main,
            )[i - line_starts@[l]],
{
    let n = items.len();
    let ghost s0 = items@;
    let ghost st = line_starts@;
    let lines = line_starts.len();
    let mut line: usize = 0;
    while line < lines
        invariant
            n == items@.len(),
            n == s0.len(),
            n <= 0x4000_0000,
            crate::flex::shrink_load(s0, n as int) + n * gap_main <= i32::MAX - 65535,
            st == line_starts@,
            lines == st.len(),
            valid_starts(st, n as int),
            forall|i: int| 0 <= i < n ==> #[trigger] s0[i].min <= s0[i].max,
            0 <= line <= lines,
            forall|l: int, i: int|
                0 <= l < line && st[l] <= i < line_end_of(st, l, n as int) ==> #[trigger] items@[i]
                    == #[trigger] line_resolved(s0, st, l, container_main, gap_main)[i - st[l]],
            line < lines ==> forall|i: int| st[line as int] <= i < n ==> #[trigger] items@[i] == s0[i],
        decreases lines - line,
    {
        let start = line_starts[line];
        let end = if line + 1 < lines {
            line_starts[line + 1]
        } else {
            n
        };
        proof {
            if n > 0 {
                lemma_line_bounds(st, n as int, line as int);
            }
        }
        if start < end {
            let mut seg: Vec<FlexItem> = Vec::new();
            let mut j = start;
            while j < end
                invariant
                    start <= j <= end <= n,
                    n == items@.len(),
                    n == s0.len(),
                    seg@ == s0.subrange(start as int, j as int),
                    forall|i: int| start <= i < n ==> #[trigger] items@[i] == s0[i],
                decreases end - j,
            {
                seg.push(items[j]);
                assert(seg@ =~= s0.subrange(start as int, j as int + 1));
                j += 1;
            }
            let ghost before = seg@;
            assert(before == s0.subrange(start as int, end as int));
            assert forall|k: int| 0 <= k < before.len() implies #[trigger] before[k].min <= before[k].max by {
                assert(before[k] == s0[start + k]);
            }
            let count = end - start;
            assert((count - 1) * (gap_main as int) <= n * (gap_main as int)) by (nonlinear_arith)
                requires
                    1 <= count <= n,
                    gap_main >= 0,
            ;
            proof {
                crate::flex::lemma_load_range(s0, start as int, end as int);
                crate::flex::lemma_load_range(s0, 0, start as int);
                crate::flex::lemma_load_range(s0, end as int, n as int);
                crate::flex::lemma_load_le(s0, 0);
            }
            let gaps: u32 = (count - 1) as u32 * gap_main as u32;
            resolve(seg.as_mut_slice(), container_main, gaps);
            proof {
                crate::flex_laws::lemma_resolved_within_bounds(before, container_main, gaps);
            }
            let ghost after = seg@;
            assert(after == line_resolved(s0, st, line as int, container_main, gap_main));
            let mut k: usize = 0;
            while k < count
                invariant
                    count == end - start,
                    start < end <= n,
                    n == items@.len(),
                    after.len() == count,
                    after == seg@,
                    0 <= k <= count,
                    forall|l: int, i: int|
                        0 <= l < line && st[l] <= i < line_end_of(st, l, n as int)
                            ==> #[trigger] items@[i] == #[trigger] line_resolved(
                            s0,
                            st,
                            l,
                            container_main,
                            gap_main,
                        )[i - st[l]],
                    forall|l: int| 0 <= l < line ==> line_end_of(st, l, n as int) <= start,
                    forall|i: int| start <= i < start + k ==> #[trigger] items@[i] == after[i - start],
                    forall|i: int| start + k <= i < n ==> #[trigger] items@[i] == s0[i],
                decreases count - k,
            {
                items.set(start + k, seg[k]);
                k += 1;
            }
        }
        proof {
            if line + 1 < lines {
                assert(st[line as int] < st[line + 1]);
            }
        }
        line += 1;
    }
}

/// The largest of `v[from..to]`, zero when the range is empty.
pub open spec fn range_max(v: Seq<u16>, from: int, to: int) -> int
    decreases to - from,
{
    if to <= from {
        0
    } else {
        let m = range_max(v, from, to - 1);
        if v[to - 1] as int > m {
            v[to - 1] as int
        } else {
            m
        }
    }
}

/// Sum of `v[from..to]`.
pub open spec fn range_sum(v: Seq<u16>, from: int, to: int) -> int
    decreases to - from,
{
    if to <= from {
        0
    } else {
        range_sum(v, from, to - 1) + v[to - 1] as int
    }
}

/// Returns each line's cross size: the largest cross size of its items.
pub fn line_cross_sizes(cross_sizes: &[u16], line_starts: &[usize]) -> (r: Vec<u16>)
    requires
        valid_starts(line_starts@, cross_sizes@.len() as int),
    ensures
        r@.len() == line_starts@.len(),
        forall|l: int|
            0 <= l < r@.len() ==> #[trigger] r@[l] as int == range_max(
                cross_sizes@,
                line_starts@[l] as int,
                line_end_of(line_starts@, l, cross_sizes@.len() as int),
            ),
{
    let n = cross_sizes.len();
    let lines = line_starts.len();
    let mut out: Vec<u16> = Vec::new();
    let mut line: usize = 0;
    while line < lines
        invariant
            n == cross_sizes@.len(),
            lines == line_starts@.len(),
            valid_starts(line_starts@, n as int),
            0 <= line <= lines,
            out@.len() == line,
            forall|l: int|
                0 <= l < line ==> #[trigger] out@[l] as int == range_max(
                    cross_sizes@,
                    line_starts@[l] as int,
                    line_end_of(line_starts@, l, n as int),
                ),
        decreases lines - line,
    {
        let start = line_starts[line];
        let end = if line + 1 < lines {
            line_starts[line + 1]
        } else {
            n
        };
        proof {
            if line > 0 {
                assert(line_starts@[line as int] < n);
            }
            if line + 1 < lines {
                assert(line_starts@[line + 1] < n);
            }
        }
        let mut best: u16 = 0;
        let mut i = start;
        while i < end
            invariant
                start <= end <= n,
                n == cross_sizes@.len(),
                start <= i <= end,
                best as int == range_max(cross_sizes@, start as int, i as int),
            decreases end - i,
        {
            if cross_sizes[i] > best {
                best = cross_sizes[i];
            }
            i += 1;
        }
        out.push(best);
        line += 1;
    }
    out
}

/// Returns the cross size an item gets in a line `line_cross` cells deep: the line's depth
/// within its bounds when it stretches, otherwise its own cross size held to the line and
/// its maximum, then raised to its minimum.
pub fn fit_line_cross(stretching: bool, line_cross: u16, min_cross: u16, max_cross: u16, cross: u16) -> (r: u16)
    requires
        min_cross <= max_cross,
    ensures
        r == if stretching {
            crate::flex::spec_clamp(line_cross as int, min_cross as int, max_cross as int)
        } else {
            let upper = if max_cross <= line_cross {
                max_cross as int
            } else {
                line_cross as int
            };
            let held = if cross <= upper {
                cross as int
            } else {
                upper
            };
            if held >= min_cross {
                held
            } else {
                min_cross as int
            }
        },
{
    if stretching {
        if line_cross < min_cross {
            min_cross
        } else if line_cross > max_cross {
            max_cross
        } else {
            line_cross
        }
    } else {
        let upper = if max_cross <= line_cross {
            max_cross
        } else {
            line_cross
        };
        let held = if cross <= upper {
            cross
        } else {
            upper
        };
        if held >= min_cross {
            held
        } else {
            min_cross
        }
    }
}

/// The main size of line `l`: its items' sizes plus the gaps between them.
pub open spec fn line_main(targets: Seq<u16>, starts: Seq<usize>, l: int, gap: u16) -> int {
    let s = starts[l] as int;
    let e = line_end_of(starts, l, targets.len() as int);
    if e <= s {
        0
    } else {
        range_sum(targets, s, e) + line_gaps(e - s, gap)
    }
}

/// The largest main size among the first `k` lines.
pub open spec fn widest_line(targets: Seq<u16>, starts: Seq<usize>, gap: u16, k: int) -> int
    decreases k,
{
    if k <= 0 {
        0
    } else {
        let m = widest_line(targets, starts, gap, k - 1);
        let w = line_main(targets, starts, k - 1, gap);
        if w > m {
            w
        } else {
            m
        }
    }
}

/// The lines' cross sizes stacked with `gap` cells between them.
pub open spec fn stacked(line_cross: Seq<u16>, gap: u16) -> int {
    range_sum(line_cross, 0, line_cross.len() as int) + if line_cross.len() > 0 {
        (line_cross.len() - 1) * gap
    } else {
        0
    }
}

proof fn lemma_range_sum_bound(v: Seq<u16>, from: int, to: int)
    requires
        0 <= from <= to <= v.len(),
    ensures
        0 <= range_sum(v, from, to) <= (to - from) * 65535,
    decreases to - from,
{
    if from < to {
        lemma_range_sum_bound(v, from, to - 1);
    }
}

/// Returns the extent of the wrapped lines: along the main axis the widest line, across it
/// the lines stacked with `gap_cross` between them; each capped at `u16::MAX`.
pub fn wrap_extent(
    targets: &[u16],
    line_starts: &[usize],
    line_cross: &[u16],
    gap_main: u16,
    gap_cross: u16,
) -> (r: (u16, u16))
    requires
        valid_starts(line_starts@, targets@.len() as int),
        line_cross@.len() == line_starts@.len(),
        targets@.len() <= 32767,
    ensures
        r.0 == cap16(widest_line(targets@, line_starts@, gap_main, line_starts@.len() as int)),
        r.1 == cap16(stacked(line_cross@, gap_cross)),
{
    let n = targets.len();
    let lines = line_starts.len();
    proof {
        assert(lines <= n + 1) by {
            if lines > n + 1 {
                lemma_starts_grow(line_starts@, n as int, (n + 1) as int);
            }
        }
    }
    let mut widest: u32 = 0;
    let mut line: usize = 0;
    while line < lines
        invariant
            n == targets@.len(),
            n <= 32767,
            lines == line_starts@.len(),
            valid_starts(line_starts@, n as int),
            0 <= line <= lines,
            widest as int == widest_line(targets@, line_starts@, gap_main, line as int),
            widest <= 32767 * 65535 * 2,
        decreases lines - line,
    {
        let start = line_starts[line];
        let end = if line + 1 < lines {
            line_starts[line + 1]
        } else {
            n
        };
        proof {
            if line > 0 {
                assert(line_starts@[line as int] < n);
            }
            if line + 1 < lines {
                assert(line_starts@[line + 1] < n);
            }
        }
        if start < end {
            let mut sum: u32 = 0;
            let mut i = start;
            while i < end
                invariant
                    start <= end <= n,
                    n == targets@.len(),
                    n <= 32767,
                    start <= i <= end,
                    sum as int == range_sum(targets@, start as int, i as int),
                    sum <= (i - start) * 65535,
                decreases end - i,
            {
                proof {
                    lemma_range_sum_bound(targets@, start as int, i as int);
                }
                sum = sum + targets[i] as u32;
                i += 1;
            }
            let count = end - start;
            assert((count - 1) * (gap_main as int) <= 32767 * 65535) by (nonlinear_arith)
                requires
                    1 <= count <= 32767,
                    gap_main <= 65535,
            ;
            assert(sum <= 32767 * 65535) by (nonlinear_arith)
                requires
                    sum <= count * 65535,
                    count <= 32767,
            ;
            let w = sum + (count - 1) as u32 * gap_main as u32;
            if w > widest {
                widest = w;
            }
        }
        line += 1;
    }
    let mut total: u32 = 0;
    let mut k: usize = 0;
    while k < lines
        invariant
            lines == line_cross@.len(),
            lines <= 32768,
            0 <= k <= lines,
            total as int == range_sum(line_cross@, 0, k as int),
            total <= k * 65535,
        decreases lines - k,
    {
        total = total + line_cross[k] as u32;
        k += 1;
    }
    assert((lines - 1) * (gap_cross as int) <= 32768 * 65535) by (nonlinear_arith)
        requires
            1 <= lines <= 32768,
            gap_cross <= 65535,
    ;
    let stacked_cross = total + (lines - 1) as u32 * gap_cross as u32;
    let main = if widest > 65535 {
        65535
    } else {
        widest as u16
    };
    let cross = if stacked_cross > 65535 {
        65535
    } else {
        stacked_cross as u16
    };
    (main, cross)
}

proof fn lemma_starts_grow(starts: Seq<usize>, n: int, k: int)
    requires
        valid_starts(starts, n),
        0 < k < starts.len(),
    ensures
        starts[k] >= k,
    decreases k,
{
    if k > 1 {
        lemma_starts_grow(starts, n, k - 1);
        assert(starts[k - 1] < starts[k]);
    } else {
        assert(starts[0] < starts[1]);
    }
}

} // verus!
