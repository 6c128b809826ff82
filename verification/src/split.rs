//! Space division for the resizable split container.

use vstd::prelude::*;
use crate::apportion::{
    count_true, floor_sum, int_sum, is_top_pick, lemma_count_pos, lemma_floor_sum_bounds,
    lemma_floor_sum_monotone, lemma_floor_sum_whole, lemma_top_pick_unique, pick_largest_remainders,
    positive, remainders, top_picks,
};
use crate::arith::cap16;
use crate::flex::{resolve, resolved, FlexItem};

verus! {

/// The smallest size a split pane may be given.
pub const SPLIT_MINIMUM: u16 = 1;

/// The two sizes of a pane of `total` cells split in two with `gap` cells between them: the
/// new pane takes half (rounded up) less the gap, at least the minimum when there is room and
/// at most what leaves the minimum plus the gap for the existing pane, which takes the rest.
pub open spec fn halves(total: u16, gap: u16) -> (u16, u16) {
    let existing_share = total / 2;
    let raw_new = if total - existing_share > gap {
        total - existing_share - gap
    } else {
        0
    };
    let new_cap = if total > gap + 1 {
        total - gap - 1
    } else {
        0
    };
    let lo = if 1 < new_cap {
        1
    } else {
        new_cap
    };
    let new_size = if raw_new < lo {
        lo
    } else if raw_new > new_cap {
        new_cap
    } else {
        raw_new
    };
    let existing = if total > gap + new_size {
        total - gap - new_size
    } else {
        0
    };
    (existing as u16, new_size as u16)
}

/// Splits `total` cells into the existing pane's and the new pane's sizes, `gap` cells apart.
pub fn halve_with_gap(total: u16, gap: u16) -> (r: (u16, u16))
    requires
        gap < u16::MAX,
    ensures
        r == halves(total, gap),
        r.0 + gap + r.1 <= total || (r.0 == 0 && r.1 == 0),
        total >= gap + 2 ==> r.0 >= 1 && r.1 >= 1 && r.0 + gap + r.1 == total,
{
    let existing_share = total / 2;
    let raw_new = (total - existing_share).saturating_sub(gap);
    let new_cap = total.saturating_sub(gap + SPLIT_MINIMUM);
    let lo = if SPLIT_MINIMUM < new_cap {
        SPLIT_MINIMUM
    } else {
        new_cap
    };
    let new_size = if raw_new < lo {
        lo
    } else if raw_new > new_cap {
        new_cap
    } else {
        raw_new
    };
    let existing = total.saturating_sub(gap + new_size);
    (existing, new_size)
}

/// Sum of the first `k` entries of `s`.
pub open spec fn seq_sum(s: Seq<u16>, k: int) -> int
    decreases k,
{
    if k <= 0 {
        0
    } else {
        seq_sum(s, k - 1) + s[k - 1] as int
    }
}

/// The targets as integer weights.
pub open spec fn widths(t: Seq<u16>) -> Seq<int> {
    Seq::new(t.len(), |i: int| t[i] as int)
}

/// The targets brought down to `limit` when they add up to more: each gives back its share of
/// the excess in proportion to its size, rounded down, and the cells still missing come one
/// each from the targets with the largest rounding remainders (the earlier one on a tie).
pub open spec fn trimmed(t: Seq<u16>, limit: int) -> Seq<u16> {
    let total = seq_sum(t, t.len() as int);
    if total <= limit {
        t
    } else {
        let need = total - limit;
        let w = widths(t);
        let picks = top_picks(
            remainders(w, need, total),
            positive(w),
            need - floor_sum(w, need, total, t.len() as int),
        );
        Seq::new(
            t.len(),
            |i: int|
                (t[i] - t[i] as int * need / total - if picks[i] {
                    1int
                } else {
                    0int
                }) as u16,
        )
    }
}

proof fn lemma_seq_sum_bounds(s: Seq<u16>, k: int)
    requires
        0 <= k <= s.len(),
    ensures
        0 <= seq_sum(s, k) <= k * 65535,
        seq_sum(s, k) == int_sum(widths(s), k),
    decreases k,
{
    if k > 0 {
        lemma_seq_sum_bounds(s, k - 1);
    }
}

proof fn lemma_trimmed_sum(t: Seq<u16>, out: Seq<u16>, picks: Seq<bool>, need: int, total: int, k: int)
    requires
        0 <= k <= t.len(),
        k <= out.len(),
        k <= picks.len(),
        forall|i: int|
            0 <= i < k ==> #[trigger] out[i] as int == t[i] as int - t[i] as int * need / total
                - if picks[i] {
                1int
            } else {
                0int
            },
    ensures
        seq_sum(out, k) == seq_sum(t, k) - floor_sum(widths(t), need, total, k) - count_true(
            picks,
            k,
        ),
    decreases k,
{
    if k > 0 {
        lemma_trimmed_sum(t, out, picks, need, total, k - 1);
    }
}

/// Brings `targets` down to `limit` cells in all, when they add up to more.
pub(crate) fn trim_to_limit(targets: &mut Vec<u16>, limit: u16)
    requires
        old(targets).len() <= 0x7fff_ffff,
    ensures
        final(targets)@ == trimmed(old(targets)@, limit as int),
        final(targets)@.len() == old(targets)@.len(),
        forall|i: int| 0 <= i < old(targets)@.len() ==> #[trigger] final(targets)@[i] <= old(targets)@[i],
        seq_sum(final(targets)@, final(targets)@.len() as int) == if seq_sum(
            old(targets)@,
            old(targets)@.len() as int,
        ) <= limit {
            seq_sum(old(targets)@, old(targets)@.len() as int)
        } else {
            limit as int
        },
{
    let ghost t = targets@;
    let ghost w = widths(t);
    let n = targets.len();
    let mut total: u64 = 0;
    let mut i: usize = 0;
    while i < n
        invariant
            n == targets@.len(),
            targets@ == t,
            n <= 0x7fff_ffff,
            0 <= i <= n,
            total as int == seq_sum(t, i as int),
        decreases n - i,
    {
        proof {
            lemma_seq_sum_bounds(t, i as int);
            assert(i * 65535 <= 0x7fff_ffff * 65535) by (nonlinear_arith)
                requires
                    i <= 0x7fff_ffff,
            ;
        }
        total = total + targets[i] as u64;
        i += 1;
    }
    if total <= limit as u64 {
        return;
    }
    let need: u64 = total - limit as u64;
    let ghost nd = need as int;
    let ghost tt = total as int;
    proof {
        lemma_seq_sum_bounds(t, n as int);
        assert(n * 65535 <= 0x7fff_ffff * 65535) by (nonlinear_arith)
            requires
                n <= 0x7fff_ffff,
        ;
        assert forall|j: int| 0 <= j < w.len() implies #[trigger] w[j] >= 0 by {}
        lemma_floor_sum_bounds(w, nd, tt);
    }
    let mut rems: Vec<u64> = Vec::new();
    let mut eligible: Vec<bool> = Vec::new();
    let mut floor_total: u64 = 0;
    i = 0;
    while i < n
        invariant
            n == targets@.len(),
            n == t.len(),
            w == widths(t),
            0 <= i <= n,
            tt == total as int,
            nd == need as int,
            0 < need <= total,
            total <= 0x7fff_ffff * 65535,
            floor_sum(w, nd, tt, n as int) <= nd,
            forall|j: int| 0 <= j < w.len() ==> #[trigger] w[j] >= 0,
            rems@.len() == i,
            eligible@.len() == i,
            floor_total as int == floor_sum(w, nd, tt, i as int),
            forall|j: int| 0 <= j < i ==> #[trigger] rems@[j] == remainders(w, nd, tt)[j],
            forall|j: int| 0 <= j < i ==> #[trigger] eligible@[j] == positive(w)[j],
            forall|j: int|
                0 <= j < i ==> #[trigger] targets@[j] as int == t[j] - t[j] as int * nd / tt,
            forall|j: int| i <= j < n ==> #[trigger] targets@[j] == t[j],
        decreases n - i,
    {
        let x = targets[i] as u64;
        assert(x * need <= 65535 * (0x7fff_ffff * 65535)) by (nonlinear_arith)
            requires
                x <= 65535,
                need <= 0x7fff_ffff * 65535,
        ;
        let num = x * need;
        let share = num / total;
        assert(share <= x) by (nonlinear_arith)
            requires
                share == num / total,
                num == x * need,
                need <= total,
                total > 0,
        {
            vstd::arithmetic::div_mod::lemma_div_is_ordered(x * need, x * total, total as int);
            vstd::arithmetic::div_mod::lemma_div_multiples_vanish(x as int, total as int);
        }
        targets.set(i, (x - share) as u16);
        proof {
            lemma_floor_sum_monotone(w, nd, tt, i as int + 1, n as int);
        }
        floor_total = floor_total + share;
        rems.push(num % total);
        eligible.push(x > 0);
        i += 1;
    }
    proof {
        assert(rems@ =~= remainders(w, nd, tt));
        assert(eligible@ =~= positive(w));
    }
    let leftover = need - floor_total;
    proof {
        crate::apportion::lemma_count_nonneg_pub(positive(w), n as int);
    }
    let picks = pick_largest_remainders(&rems, &eligible, leftover as usize);
    let ghost mid = targets@;
    i = 0;
    while i < n
        invariant
            n == targets@.len(),
            n == t.len(),
            n == picks@.len(),
            w == widths(t),
            0 <= i <= n,
            tt == total as int,
            nd == need as int,
            0 < need <= total,
            tt == seq_sum(t, n as int),
            tt == int_sum(w, n as int),
            forall|j: int| 0 <= j < w.len() ==> #[trigger] w[j] >= 0,
            leftover as int == nd - floor_sum(w, nd, tt, n as int),
            is_top_pick(remainders(w, nd, tt), positive(w), leftover as int, picks@),
            forall|j: int| 0 <= j < n ==> #[trigger] mid[j] as int == t[j] - t[j] as int * nd / tt,
            forall|j: int|
                0 <= j < i ==> #[trigger] targets@[j] as int == t[j] - t[j] as int * nd / tt
                    - if picks@[j] {
                    1int
                } else {
                    0int
                },
            forall|j: int| i <= j < n ==> #[trigger] targets@[j] == mid[j],
        decreases n - i,
    {
        if picks[i] {
            proof {
                let j = i as int;
                assert(positive(w)[j]);
                if nd == tt {
                    lemma_floor_sum_whole(w, tt, n as int);
                    lemma_count_pos(picks@, n as int, j);
                    assert(false);
                } else {
                    let tj = t[j] as int;
                    assert(tj * nd < tj * tt) by (nonlinear_arith)
                        requires
                            tj > 0,
                            nd < tt,
                    ;
                    assert(tj * nd / tt < tj) by {
                        vstd::arithmetic::div_mod::lemma_div_is_ordered(tj * nd, tj * tt - 1, tt);
                        vstd::arithmetic::div_mod::lemma_fundamental_div_mod(tj * tt - 1, tt);
                        vstd::arithmetic::div_mod::lemma_mod_bound(tj * tt - 1, tt);
                        assert(tj * tt - 1 == tt * (tj - 1) + (tt - 1)) by (nonlinear_arith);
                        vstd::arithmetic::div_mod::lemma_fundamental_div_mod_converse(
                            tj * tt - 1,
                            tt,
                            tj - 1,
                            tt - 1,
                        );
                    }
                }
            }
            let v = targets[i];
            targets.set(i, v - 1);
        }
        i += 1;
    }
    proof {
        let out = targets@;
        assert(out =~= trimmed(t, limit as int)) by {
            let picks2 = top_picks(remainders(w, nd, tt), positive(w), nd - floor_sum(w, nd, tt, n as int));
            lemma_top_pick_unique(remainders(w, nd, tt), positive(w), leftover as int, picks@, picks2);
        }
        lemma_trimmed_sum(t, out, picks@, nd, tt, n as int);
    }
}

/// What the split container reads of one child along its axis: its current size, its
/// effective bounds and preference (`u16::MAX` for none), its flex weight, and whether it
/// draws no border anywhere.
#[derive(Clone, Copy, Debug, PartialEq, Eq, Structural)]
pub struct SplitSizing {
    /// Current size along the axis.
    pub size: u16,
    /// Effective minimum size.
    pub min: u16,
    /// Effective maximum size.
    pub max: u16,
    /// Effective preferred size, `u16::MAX` when there is none.
    pub preferred: u16,
    /// Flex weight used when distributing extra space.
    pub flex: u8,
    /// Whether the child and all its descendants are drawn without borders.
    pub borderless: bool,
}

/// The gap between two neighbours: none when both are borderless.
pub open spec fn pair_gap(a: SplitSizing, b: SplitSizing, gap: u16) -> int {
    if a.borderless && b.borderless {
        0
    } else {
        gap as int
    }
}

/// The gaps between the first `k` neighbouring pairs, added up and saturating at `u16::MAX`.
pub open spec fn gap_fold(s: Seq<SplitSizing>, gap: u16, k: int) -> int
    decreases k,
{
    if k <= 0 {
        0
    } else {
        let v = gap_fold(s, gap, k - 1) + pair_gap(s[k - 1], s[k], gap);
        if v > 65535 {
            65535
        } else {
            v
        }
    }
}

/// The gaps between all neighbouring children.
pub open spec fn total_gap_of(s: Seq<SplitSizing>, gap: u16) -> int {
    if s.len() <= 1 {
        0
    } else {
        gap_fold(s, gap, s.len() - 1)
    }
}

/// Returns the gap drawn between two neighbouring children.
pub fn gap_between(a: &SplitSizing, b: &SplitSizing, gap: u16) -> (r: u16)
    ensures
        r == pair_gap(*a, *b, gap),
{
    if a.borderless && b.borderless {
        0
    } else {
        gap
    }
}

/// Returns the gaps between all neighbouring children, saturating at `u16::MAX`.
pub fn total_gap(children: &[SplitSizing], gap: u16) -> (r: u16)
    ensures
        r == total_gap_of(children@, gap),
{
    let n = children.len();
    if n <= 1 {
        return 0;
    }
    let mut acc: u16 = 0;
    let mut i: usize = 0;
    while i + 1 < n
        invariant
            n == children@.len(),
            n >= 2,
            0 <= i <= n - 1,
            acc == gap_fold(children@, gap, i as int),
        decreases n - i,
    {
        let g = gap_between(&children[i], &children[i + 1], gap);
        acc = acc.saturating_add(g);
        i += 1;
    }
    acc
}

/// A child's preferred size, or its minimum when it has no preference or prefers less.
pub open spec fn preferred_or_min(c: SplitSizing) -> u16 {
    if c.preferred == u16::MAX {
        c.min
    } else if c.preferred >= c.min {
        c.preferred
    } else {
        c.min
    }
}

/// The flex items the container resolves along its axis.
pub open spec fn flex_items_of(s: Seq<SplitSizing>) -> Seq<FlexItem> {
    Seq::new(
        s.len(),
        |i: int|
            FlexItem::new_item(
                preferred_or_min(s[i]),
                if s[i].min <= s[i].max {
                    s[i].min
                } else {
                    s[i].max
                },
                s[i].max,
                s[i].flex,
            ),
    )
}

/// The targets of resolved flex items.
pub open spec fn targets_of(items: Seq<FlexItem>) -> Seq<u16> {
    Seq::new(items.len(), |i: int| items[i].target)
}

/// What the container leaves for its children once the gaps are taken out.
pub open spec fn room_for_children(s: Seq<SplitSizing>, cell_main: u16, gap: u16) -> int {
    if cell_main >= total_gap_of(s, gap) {
        cell_main - total_gap_of(s, gap)
    } else {
        0
    }
}

/// The children's sizes along the container's axis: flex-resolved, then trimmed to fit.
pub open spec fn main_sizes(s: Seq<SplitSizing>, cell_main: u16, gap: u16) -> Seq<u16> {
    trimmed(
        targets_of(resolved(flex_items_of(s), cell_main as int, total_gap_of(s, gap))),
        room_for_children(s, cell_main, gap),
    )
}

/// Returns the children's sizes along the container's axis: each child's preference (or
/// minimum) is flex-resolved into `cell_main` less the gaps, and when the results still add
/// up to more than that room they are trimmed down to it in proportion to their size.
pub fn distribute_main(children: &[SplitSizing], cell_main: u16, gap: u16) -> (r: Vec<u16>)
    requires
        children.len() <= 32000,
    ensures
        r@ == main_sizes(children@, cell_main, gap),
        r@.len() == children@.len(),
        forall|i: int| 0 <= i < r@.len() ==> #[trigger] r@[i] <= children@[i].max,
        seq_sum(r@, r@.len() as int) <= room_for_children(children@, cell_main, gap),
{
    let n = children.len();
    let divider_space = total_gap(children, gap);
    let mut items: Vec<FlexItem> = Vec::new();
    let mut i: usize = 0;
    while i < n
        invariant
            n == children@.len(),
            0 <= i <= n,
            items@.len() == i,
            forall|j: int| 0 <= j < i ==> #[trigger] items@[j] == flex_items_of(children@)[j],
        decreases n - i,
    {
        let c = children[i];
        let basis = if c.preferred == u16::MAX {
            c.min
        } else if c.preferred >= c.min {
            c.preferred
        } else {
            c.min
        };
        let min_eff = if c.min <= c.max {
            c.min
        } else {
            c.max
        };
        items.push(FlexItem::new(basis, min_eff, c.max, c.flex));
        i += 1;
    }
    let ghost s0 = items@;
    assert(s0 =~= flex_items_of(children@));
    assert forall|j: int| 0 <= j < s0.len() implies #[trigger] s0[j].min <= s0[j].max by {}
    assert((s0.len() + 1) * 65535 + divider_space <= i32::MAX) by (nonlinear_arith)
        requires
            s0.len() <= 32000,
            divider_space <= 65535,
    ;
    proof {
        crate::flex::lemma_load_le(s0, s0.len() as int);
    }
    resolve(items.as_mut_slice(), cell_main, divider_space as u32);
    proof {
        crate::flex_laws::lemma_resolved_within_bounds(s0, cell_main, divider_space as u32);
    }
    let mut targets: Vec<u16> = Vec::new();
    i = 0;
    while i < n
        invariant
            n == items@.len(),
            0 <= i <= n,
            targets@.len() == i,
            forall|j: int| 0 <= j < i ==> #[trigger] targets@[j] == items@[j].target,
        decreases n - i,
    {
        targets.push(items[i].target);
        i += 1;
    }
    assert(targets@ =~= targets_of(items@));
    let limit: u16 = if cell_main >= divider_space {
        cell_main - divider_space
    } else {
        0
    };
    let ghost before = targets@;
    trim_to_limit(&mut targets, limit);
    assert forall|j: int| 0 <= j < targets@.len() implies #[trigger] targets@[j] <= children@[j].max by {
        assert(targets@[j] <= before[j]);
        assert(before[j] == items@[j].target);
        assert(items@[j].max == s0[j].max);
    }
    targets
}

/// Sum of the first `k` children's minimums.
pub open spec fn min_sum(s: Seq<SplitSizing>, k: int) -> int
    decreases k,
{
    if k <= 0 {
        0
    } else {
        min_sum(s, k - 1) + s[k - 1].min as int
    }
}

/// Sum of the first `k` children's maximums.
pub open spec fn max_sum(s: Seq<SplitSizing>, k: int) -> int
    decreases k,
{
    if k <= 0 {
        0
    } else {
        max_sum(s, k - 1) + s[k - 1].max as int
    }
}

/// The largest minimum among the first `k` children, `SPLIT_MINIMUM` when there are none.
pub open spec fn largest_min(s: Seq<SplitSizing>, k: int) -> int
    decreases k,
{
    if k <= 0 {
        SPLIT_MINIMUM as int
    } else if k == 1 {
        s[0].min as int
    } else {
        let m = largest_min(s, k - 1);
        if s[k - 1].min as int > m {
            s[k - 1].min as int
        } else {
            m
        }
    }
}

/// The smallest maximum among the first `k` children, `u16::MAX` when there are none.
pub open spec fn smallest_max(s: Seq<SplitSizing>, k: int) -> int
    decreases k,
{
    if k <= 0 {
        u16::MAX as int
    } else {
        let m = smallest_max(s, k - 1);
        if (s[k - 1].max as int) < m {
            s[k - 1].max as int
        } else {
            m
        }
    }
}

/// The effective minimum of a container from its children's: along its own axis the
/// children's minimums and the gaps add up (capped at `u16::MAX`), across it the largest
/// minimum counts.
pub open spec fn container_min_of(same_axis: bool, s: Seq<SplitSizing>, gap: u16) -> int {
    if same_axis {
        cap16(cap16(min_sum(s, s.len() as int)) + total_gap_of(s, gap))
    } else {
        largest_min(s, s.len() as int)
    }
}

/// The effective maximum of a container from its children's: along its own axis the
/// children's maximums and the gaps add up (capped at `u16::MAX`), across it the smallest
/// maximum counts.
pub open spec fn container_max_of(same_axis: bool, s: Seq<SplitSizing>, gap: u16) -> int {
    if same_axis {
        cap16(cap16(max_sum(s, s.len() as int)) + total_gap_of(s, gap))
    } else {
        smallest_max(s, s.len() as int)
    }
}

/// What a child contributes to its container's preference: its preference, or its minimum
/// when it has none.
pub open spec fn pref_value(c: SplitSizing) -> int {
    if c.preferred == u16::MAX {
        c.min as int
    } else {
        c.preferred as int
    }
}

/// Whether some of the first `k` children has a preference.
pub open spec fn any_pref(s: Seq<SplitSizing>, k: int) -> bool {
    exists|i: int| 0 <= i < k && #[trigger] s[i].preferred != u16::MAX
}

/// The first `k` children's contributions combined: added up (capped at `u16::MAX`) along the
/// container's axis, the largest of them across it.
pub open spec fn pref_combined(same_axis: bool, s: Seq<SplitSizing>, k: int) -> int
    decreases k,
{
    if k <= 0 {
        0
    } else {
        let c = pref_combined(same_axis, s, k - 1);
        let v = pref_value(s[k - 1]);
        if same_axis {
            cap16(c + v)
        } else if v > c {
            v
        } else {
            c
        }
    }
}

/// The effective preference of a container: the size it was dragged to, if any; none
/// (`u16::MAX`) when no child has a preference; otherwise its children's contributions
/// combined, plus the gaps along its own axis.
pub open spec fn container_preferred_of(
    same_axis: bool,
    s: Seq<SplitSizing>,
    gap: u16,
    dragged: Option<u16>,
) -> int {
    match dragged {
        Some(locked) => locked as int,
        None => if !any_pref(s, s.len() as int) {
            u16::MAX as int
        } else if same_axis {
            cap16(pref_combined(true, s, s.len() as int) + total_gap_of(s, gap))
        } else {
            pref_combined(false, s, s.len() as int)
        },
    }
}

/// Returns a container's effective minimum along an axis from its children's.
pub fn container_min(same_axis: bool, children: &[SplitSizing], gap: u16) -> (r: u16)
    ensures
        r == container_min_of(same_axis, children@, gap),
{
    let n = children.len();
    let mut i: usize = 0;
    if same_axis {
        let mut sum: u16 = 0;
        while i < n
            invariant
                n == children@.len(),
                0 <= i <= n,
                sum == cap16(min_sum(children@, i as int)),
            decreases n - i,
        {
            sum = sum.saturating_add(children[i].min);
            i += 1;
        }
        sum.saturating_add(total_gap(children, gap))
    } else {
        if n == 0 {
            return SPLIT_MINIMUM;
        }
        let mut best: u16 = children[0].min;
        i = 1;
        while i < n
            invariant
                n == children@.len(),
                1 <= i <= n,
                best == largest_min(children@, i as int),
            decreases n - i,
        {
            if children[i].min > best {
                best = children[i].min;
            }
            i += 1;
        }
        best
    }
}

/// Returns a container's effective maximum along an axis from its children's.
pub fn container_max(same_axis: bool, children: &[SplitSizing], gap: u16) -> (r: u16)
    ensures
        r == container_max_of(same_axis, children@, gap),
{
    let n = children.len();
    let mut i: usize = 0;
    if same_axis {
        let mut sum: u16 = 0;
        while i < n
            invariant
                n == children@.len(),
                0 <= i <= n,
                sum == cap16(max_sum(children@, i as int)),
            decreases n - i,
        {
            sum = sum.saturating_add(children[i].max);
            i += 1;
        }
        sum.saturating_add(total_gap(children, gap))
    } else {
        let mut best: u16 = u16::MAX;
        while i < n
            invariant
                n == children@.len(),
                0 <= i <= n,
                best == smallest_max(children@, i as int),
            decreases n - i,
        {
            if children[i].max < best {
                best = children[i].max;
            }
            i += 1;
        }
        best
    }
}

/// Returns a container's effective preference along an axis from its children's, or the
/// size it was dragged to.
pub fn container_preferred(
    same_axis: bool,
    children: &[SplitSizing],
    gap: u16,
    dragged: Option<u16>,
) -> (r: u16)
    ensures
        r == container_preferred_of(same_axis, children@, gap, dragged),
{
    if let Some(locked) = dragged {
        return locked;
    }
    let n = children.len();
    let mut had_pref = false;
    let mut combined: u16 = 0;
    let mut i: usize = 0;
    while i < n
        invariant
            n == children@.len(),
            0 <= i <= n,
            combined == pref_combined(same_axis, children@, i as int),
            had_pref == any_pref(children@, i as int),
        decreases n - i,
    {
        let c = children[i];
        let value = if c.preferred == u16::MAX {
            c.min
        } else {
            had_pref = true;
            c.preferred
        };
        if same_axis {
            combined = combined.saturating_add(value);
        } else if value > combined {
            combined = value;
        }
        proof {
            if c.preferred != u16::MAX {
                assert(children@[i as int].preferred != u16::MAX);
            }
            assert(any_pref(children@, i as int + 1) == (any_pref(children@, i as int)
                || children@[i as int].preferred != u16::MAX));
        }
        i += 1;
    }
    if !had_pref {
        return u16::MAX;
    }
    if same_axis {
        combined.saturating_add(total_gap(children, gap))
    } else {
        combined
    }
}

/// The effective minimum of a leaf pane: its widget's minimum, raised to its flow size along
/// the widget's flow axis and to `SPLIT_MINIMUM`, plus its padding (capped at `u16::MAX`).
pub open spec fn leaf_min_of(widget_min: u16, flow_size: Option<u16>, padding: u16) -> int {
    let floor = match flow_size {
        Some(f) => if f > widget_min {
            f as int
        } else {
            widget_min as int
        },
        None => widget_min as int,
    };
    let floor = if floor < SPLIT_MINIMUM {
        SPLIT_MINIMUM as int
    } else {
        floor
    };
    cap16(floor + padding)
}

/// Returns a leaf pane's effective minimum; `flow_size` is the widget's flow size when the
/// axis is its flow axis.
pub fn leaf_min(widget_min: u16, flow_size: Option<u16>, padding: u16) -> (r: u16)
    ensures
        r == leaf_min_of(widget_min, flow_size, padding),
{
    let mut floor = widget_min;
    if let Some(f) = flow_size {
        if f > floor {
            floor = f;
        }
    }
    if floor < SPLIT_MINIMUM {
        floor = SPLIT_MINIMUM;
    }
    floor.saturating_add(padding)
}

/// Returns a leaf pane's effective maximum: its widget's maximum plus its padding, capped at
/// `u16::MAX`.
pub fn leaf_max(widget_max: u16, padding: u16) -> (r: u16)
    ensures
        r == cap16(widget_max + padding),
{
    widget_max.saturating_add(padding)
}

/// Returns a leaf pane's effective preference: the size it was dragged to, if any; none
/// (`u16::MAX`) when its widget has none; otherwise the widget's preference plus its padding,
/// capped at `u16::MAX`.
pub fn leaf_preferred(widget_preferred: u16, padding: u16, dragged: Option<u16>) -> (r: u16)
    ensures
        r == match dragged {
            Some(locked) => locked as int,
            None => if widget_preferred == u16::MAX {
                u16::MAX as int
            } else {
                cap16(widget_preferred + padding)
            },
        },
{
    if let Some(locked) = dragged {
        return locked;
    }
    if widget_preferred == u16::MAX {
        return u16::MAX;
    }
    widget_preferred.saturating_add(padding)
}

/// Where child `i` starts along the container's axis: `start` plus the sizes of the children
/// before it and the gaps between them.
pub open spec fn child_offset(s: Seq<SplitSizing>, gap: u16, start: int, i: int) -> int
    decreases i,
{
    if i <= 0 {
        start
    } else {
        child_offset(s, gap, start, i - 1) + s[i - 1].size as int + if i < s.len() {
            pair_gap(s[i - 1], s[i], gap)
        } else {
            0
        }
    }
}

pub(crate) proof fn lemma_offset_from_start(s: Seq<SplitSizing>, gap: u16, start: int, i: int)
    requires
        0 <= i <= s.len(),
    ensures
        start <= child_offset(s, gap, start, i),
    decreases i,
{
    if i > 0 {
        lemma_offset_from_start(s, gap, start, i - 1);
    }
}

pub(crate) proof fn lemma_offsets_grow(s: Seq<SplitSizing>, gap: u16, start: int, i: int, k: int)
    requires
        0 <= i <= k <= s.len(),
    ensures
        start <= child_offset(s, gap, start, i) <= child_offset(s, gap, start, k),
    decreases k - i,
{
    lemma_offset_from_start(s, gap, start, i);
    if i < k {
        lemma_offsets_grow(s, gap, start, i, k - 1);
    }
}

/// Returns where each child starts along the container's axis, the first at `start`.
pub fn child_offsets(children: &[SplitSizing], gap: u16, start: i32) -> (r: Vec<i32>)
    requires
        child_offset(children@, gap, start as int, children@.len() as int) <= i32::MAX,
    ensures
        r@.len() == children@.len(),
        forall|i: int| 0 <= i < r@.len() ==> #[trigger] r@[i] as int == child_offset(children@, gap, start as int, i),
{
    let n = children.len();
    let mut out: Vec<i32> = Vec::new();
    let mut offset: i32 = start;
    let mut i: usize = 0;
    while i < n
        invariant
            n == children@.len(),
            0 <= i <= n,
            out@.len() == i,
            offset as int == child_offset(children@, gap, start as int, i as int),
            child_offset(children@, gap, start as int, n as int) <= i32::MAX,
            forall|j: int| 0 <= j < i ==> #[trigger] out@[j] as int == child_offset(children@, gap, start as int, j),
        decreases n - i,
    {
        out.push(offset);
        proof {
            lemma_offsets_grow(children@, gap, start as int, i as int + 1, n as int);
        }
        let pair = if i + 1 < n {
            gap_between(&children[i], &children[i + 1], gap)
        } else {
            0
        };
        offset = offset + children[i].size as i32 + pair as i32;
        i += 1;
    }
    out
}

/// Returns where the divider after child `divider_idx` sits along the container's axis: the
/// end of that child, the first child starting at `start`.
pub fn divider_offset(children: &[SplitSizing], gap: u16, start: i32, divider_idx: usize) -> (r: i32)
    requires
        divider_idx < children@.len(),
        child_offset(children@, gap, start as int, children@.len() as int) <= i32::MAX,
    ensures
        r == child_offset(children@, gap, start as int, divider_idx as int)
            + children@[divider_idx as int].size,
{
    let n = children.len();
    let mut offset: i32 = start;
    let mut i: usize = 0;
    while i <= divider_idx
        invariant
            n == children@.len(),
            divider_idx < n,
            0 <= i <= divider_idx + 1,
            offset as int == if i == 0 {
                start as int
            } else {
                child_offset(children@, gap, start as int, i as int - 1)
                    + children@[i - 1].size
            },
            child_offset(children@, gap, start as int, n as int) <= i32::MAX,
        decreases divider_idx + 1 - i,
    {
        proof {
            lemma_offsets_grow(children@, gap, start as int, i as int + 1, n as int);
            lemma_offsets_grow(children@, gap, start as int, i as int, n as int);
        }
        if i > 0 {
            let pair = gap_between(&children[i - 1], &children[i], gap);
            offset = offset + pair as i32;
        }
        offset = offset + children[i].size as i32;
        i += 1;
    }
    offset
}

/// Which neighbour takes over a removed child's space: none when it is the only child, the
/// next one when it is the first, otherwise the one before it.
pub open spec fn donation_target(idx: int, len: int) -> Option<int> {
    if len == 1 {
        None
    } else if idx == 0 {
        Some(1int)
    } else {
        Some(idx - 1)
    }
}

/// Returns the neighbour that takes over the space of the child at `idx` when it is removed,
/// and how much it grows: the child's size plus the gap that separated them.
pub fn removal_donation(children: &[SplitSizing], idx: usize, gap: u16) -> (r: Option<(usize, u32)>)
    requires
        idx < children@.len(),
    ensures
        match donation_target(idx as int, children@.len() as int) {
            None => r is None,
            Some(rcv) => r == Some(
                (
                    rcv as usize,
                    (children@[idx as int].size + if idx < rcv {
                        pair_gap(children@[idx as int], children@[rcv], gap)
                    } else {
                        pair_gap(children@[rcv], children@[idx as int], gap)
                    }) as u32,
                ),
            ),
        },
{
    let n = children.len();
    if n == 1 {
        return None;
    }
    let rcv = if idx == 0 {
        1
    } else {
        idx - 1
    };
    let (lo, hi) = if idx < rcv {
        (idx, rcv)
    } else {
        (rcv, idx)
    };
    let bridge = gap_between(&children[lo], &children[hi], gap);
    Some((rcv, children[idx].size as u32 + bridge as u32))
}

/// Whether a pointer at `pos_along`, `pos_cross` hits the divider at the end of a child:
/// the cell of the gap when there is one, otherwise the cell on the draggable side (either
/// one when both are), within the child's cross extent widened by one cell before it.
pub open spec fn hits_boundary_of(
    boundary: int,
    cross_start: int,
    cross_end: int,
    pair_gap: u16,
    left_draggable: bool,
    right_draggable: bool,
    pos_along: int,
    pos_cross: int,
) -> bool {
    let along_hit = if pair_gap > 0 {
        pos_along == boundary
    } else if left_draggable && right_draggable {
        boundary - 1 <= pos_along <= boundary
    } else if left_draggable {
        pos_along == boundary - 1
    } else if right_draggable {
        pos_along == boundary
    } else {
        false
    };
    along_hit && cross_start - 1 <= pos_cross <= cross_end
}

/// Returns whether a pointer hits the divider at the end of a child.
pub fn hits_boundary(
    boundary: i32,
    cross_start: i32,
    cross_end: i32,
    pair_gap: u16,
    left_draggable: bool,
    right_draggable: bool,
    pos_along: i32,
    pos_cross: i32,
) -> (r: bool)
    requires
        boundary > i32::MIN,
        cross_start > i32::MIN,
    ensures
        r == hits_boundary_of(
            boundary as int,
            cross_start as int,
            cross_end as int,
            pair_gap,
            left_draggable,
            right_draggable,
            pos_along as int,
            pos_cross as int,
        ),
{
    let along_hit = if pair_gap > 0 {
        pos_along == boundary
    } else if left_draggable && right_draggable {
        pos_along >= boundary - 1 && pos_along <= boundary
    } else if left_draggable {
        pos_along == boundary - 1
    } else if right_draggable {
        pos_along == boundary
    } else {
        false
    };
    along_hit && pos_cross >= cross_start - 1 && pos_cross <= cross_end
}

} // verus!
