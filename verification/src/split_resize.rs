//! How a split container spreads a change of its size over its children along its axis.

use vstd::prelude::*;
use crate::apportion::{
    count_true, int_sum, is_top_pick, pick_largest_remainders, remainders, top_picks,
};
use crate::arith::{min_int, sat_sub};
use crate::split::{seq_sum, total_gap, total_gap_of, SplitSizing};

verus! {

/// How far a child can move in the direction of the change: up to its maximum when growing,
/// down to its minimum when shrinking.
pub open spec fn room(c: SplitSizing, growing: bool) -> int {
    if growing {
        sat_sub(c.max as int, c.size as int)
    } else {
        sat_sub(c.size as int, c.min as int)
    }
}

/// The children's current sizes.
pub open spec fn sizes_of(s: Seq<SplitSizing>) -> Seq<u16> {
    Seq::new(s.len(), |i: int| s[i].size)
}

/// Whether some child has a positive flex weight.
pub open spec fn any_flex(s: Seq<SplitSizing>) -> bool {
    exists|i: int| 0 <= i < s.len() && #[trigger] s[i].flex > 0
}

/// What a child with a preference takes of the budget to move towards it, within its room.
pub open spec fn pref_take(c: SplitSizing, growing: bool, budget: int) -> int {
    if budget <= 0 || c.preferred == u16::MAX {
        0
    } else {
        let toward = if growing {
            sat_sub(c.preferred as int, c.size as int)
        } else {
            sat_sub(c.size as int, c.preferred as int)
        };
        min_int(min_int(budget, toward), room(c, growing))
    }
}

/// The budget left after the first `k` children moved towards their preferences.
pub open spec fn budget_after_prefs(s: Seq<SplitSizing>, growing: bool, b0: int, k: int) -> int
    decreases k,
{
    if k <= 0 {
        b0
    } else {
        let b = budget_after_prefs(s, growing, b0, k - 1);
        b - pref_take(s[k - 1], growing, b)
    }
}

/// How far each child moved towards its preference, in order, out of a budget of `b0`.
pub open spec fn pref_mags(s: Seq<SplitSizing>, growing: bool, b0: int) -> Seq<int> {
    Seq::new(s.len(), |i: int| pref_take(s[i], growing, budget_after_prefs(s, growing, b0, i)))
}

/// A child's weight in a distribution round after it already moved by `already`: none when it
/// has no room left, its flex weight when growing, its size (at least one) when shrinking.
pub open spec fn round_weight(c: SplitSizing, growing: bool, already: int) -> int {
    if sat_sub(room(c, growing), already) == 0 {
        0
    } else if growing {
        c.flex as int
    } else if c.size == 0 {
        1
    } else {
        c.size as int
    }
}

/// The children's weights in a distribution round.
pub open spec fn round_weights(s: Seq<SplitSizing>, growing: bool, mag: Seq<int>) -> Seq<int> {
    Seq::new(s.len(), |i: int| round_weight(s[i], growing, mag[i]))
}

/// The room each child has left in a distribution round.
pub open spec fn round_rooms(s: Seq<SplitSizing>, growing: bool, mag: Seq<int>) -> Seq<int> {
    Seq::new(s.len(), |i: int| sat_sub(room(s[i], growing), mag[i]))
}

/// Each item's rounded-down share of `b` by weight, held within its room.
pub open spec fn spread_caps(w: Seq<int>, rooms: Seq<int>, b: int) -> Seq<int> {
    Seq::new(w.len(), |i: int| min_int(w[i] * b / int_sum(w, w.len() as int), rooms[i]))
}

/// The items that can take one more cell after rounding down: weighted, with their share
/// still below their room.
pub open spec fn spread_bumpable(w: Seq<int>, rooms: Seq<int>, b: int) -> Seq<bool> {
    Seq::new(w.len(), |i: int| w[i] > 0 && w[i] * b / int_sum(w, w.len() as int) < rooms[i])
}

/// The cells left after rounding down.
pub open spec fn spread_spare(w: Seq<int>, rooms: Seq<int>, b: int) -> int {
    b - int_sum(spread_caps(w, rooms, b), w.len() as int)
}

/// How many items take one more cell.
pub open spec fn spread_npick(w: Seq<int>, rooms: Seq<int>, b: int) -> int {
    min_int(
        spread_spare(w, rooms, b),
        count_true(spread_bumpable(w, rooms, b), w.len() as int),
    )
}

/// Which items take one more cell: those with the largest remainders.
pub open spec fn spread_picks(w: Seq<int>, rooms: Seq<int>, b: int) -> Seq<bool> {
    top_picks(
        remainders(w, b, int_sum(w, w.len() as int)),
        spread_bumpable(w, rooms, b),
        spread_npick(w, rooms, b),
    )
}

/// Each item's share after the extra cells.
pub open spec fn spread_after(w: Seq<int>, rooms: Seq<int>, b: int) -> Seq<int> {
    Seq::new(
        w.len(),
        |i: int|
            spread_caps(w, rooms, b)[i] + if spread_picks(w, rooms, b)[i] {
                1int
            } else {
                0int
            },
    )
}

/// The spare cells left after handing out to the first `k` items, in order, as much of the
/// spare as each has room for.
pub open spec fn greedy_left(after: Seq<int>, rooms: Seq<int>, spare: int, k: int) -> int
    decreases k,
{
    if k <= 0 {
        spare
    } else {
        let l = greedy_left(after, rooms, spare, k - 1);
        l - min_int(rooms[k - 1] - after[k - 1], l)
    }
}

/// How a budget `b` is spread over items with weights `w` and rooms `rooms`: each takes its
/// share by weight rounded down and held within its room, one more cell goes to the items with
/// the largest remainders while cells are spare, and then, in order, each takes whatever spare
/// is left up to its room.
pub open spec fn spread(w: Seq<int>, rooms: Seq<int>, b: int) -> Seq<int> {
    let after = spread_after(w, rooms, b);
    let left = spread_spare(w, rooms, b) - spread_npick(w, rooms, b);
    Seq::new(w.len(), |i: int| after[i] + min_int(rooms[i] - after[i], greedy_left(after, rooms, left, i)))
}

/// What each child takes in one distribution round of a budget `b`.
pub open spec fn round_shares(s: Seq<SplitSizing>, growing: bool, mag: Seq<int>, b: int) -> Seq<int> {
    spread(round_weights(s, growing, mag), round_rooms(s, growing, mag), b)
}

/// `a` and `b` added entry by entry.
pub open spec fn seq_add(a: Seq<int>, b: Seq<int>) -> Seq<int> {
    Seq::new(a.len(), |i: int| a[i] + b[i])
}

/// Distribution rounds repeated, at most `fuel` times, while budget is left, some child is
/// weighted and the last round placed something; the moves so far and the budget left.
pub open spec fn rounds(s: Seq<SplitSizing>, growing: bool, mag: Seq<int>, b: int, fuel: nat) -> (
    Seq<int>,
    int,
)
    decreases fuel,
{
    let n = s.len() as int;
    if fuel == 0 || b <= 0 || int_sum(round_weights(s, growing, mag), n) == 0 {
        (mag, b)
    } else {
        let sh = round_shares(s, growing, mag, b);
        let consumed = int_sum(sh, n);
        if consumed == 0 {
            (mag, b)
        } else {
            rounds(s, growing, seq_add(mag, sh), b - consumed, (fuel - 1) as nat)
        }
    }
}

/// The children's sizes as weights.
pub open spec fn size_weights(s: Seq<SplitSizing>) -> Seq<int> {
    Seq::new(s.len(), |i: int| s[i].size as int)
}

/// Every one of `n` items.
pub open spec fn everyone(n: nat) -> Seq<bool> {
    Seq::new(n, |i: int| true)
}

/// When shrinking leaves budget that no child has room for, every child gives it up in
/// proportion to its size, rounded down, and the cells still missing come one each from the
/// children with the largest remainders (the earlier one on a tie).
pub open spec fn final_shrink(s: Seq<SplitSizing>, mag: Seq<int>, b: int) -> Seq<int> {
    let n = s.len() as int;
    let w = size_weights(s);
    let total = int_sum(w, n);
    if b <= 0 || total <= 0 {
        mag
    } else {
        let spare = b - crate::apportion::floor_sum(w, b, total, n);
        let picks = top_picks(remainders(w, b, total), everyone(s.len()), spare);
        Seq::new(
            s.len(),
            |i: int|
                mag[i] + w[i] * b / total + if picks[i] {
                    1int
                } else {
                    0int
                },
        )
    }
}

/// The net change the children's sizes must make up: the room inside `parent_size` less the
/// gaps, minus what the children hold now.
pub open spec fn net_change(s: Seq<SplitSizing>, parent_size: u16, gap: u16) -> int {
    sat_sub(parent_size as int, total_gap_of(s, gap)) - seq_sum(sizes_of(s), s.len() as int)
}

/// How the children's sizes change when their container's size along its axis becomes
/// `parent_size`: nothing to do when the sizes already fit, or when there is room to fill and
/// no child flexes. Otherwise the change is spread in three steps: children with a preference
/// first move towards it, in order; the rest goes round by round by weight (flex weight when
/// growing, size when shrinking) within each child's room; and space still to be given up when
/// shrinking is taken from every child in proportion to its size.
pub open spec fn resize_deltas(s: Seq<SplitSizing>, parent_size: u16, gap: u16) -> Option<Seq<int>> {
    let n = s.len() as int;
    let net = net_change(s, parent_size, gap);
    if net == 0 || (net > 0 && !any_flex(s)) {
        None
    } else {
        let growing = net > 0;
        let b0 = if growing {
            net
        } else {
            -net
        };
        let b1 = budget_after_prefs(s, growing, b0, n);
        let m1 = pref_mags(s, growing, b0);
        let (m2, b2) = rounds(s, growing, m1, b1, b1 as nat);
        let m3 = if growing {
            m2
        } else {
            final_shrink(s, m2, b2)
        };
        Some(
            Seq::new(
                s.len(),
                |i: int|
                    if growing {
                        m3[i]
                    } else {
                        -m3[i]
                    },
            ),
        )
    }
}

/// The entries of `v` as integers.
pub open spec fn as_ints(v: Seq<u32>) -> Seq<int> {
    Seq::new(v.len(), |i: int| v[i] as int)
}

/// Moving towards the preferences spends exactly what the budget loses, and each child moves
/// within its room.
proof fn lemma_prefs_spent(s: Seq<SplitSizing>, growing: bool, b0: int, k: int)
    requires
        0 <= k <= s.len(),
        0 <= b0,
    ensures
        0 <= budget_after_prefs(s, growing, b0, k) <= b0,
        int_sum(pref_mags(s, growing, b0), k) + budget_after_prefs(s, growing, b0, k) == b0,
        forall|i: int|
            0 <= i < k ==> 0 <= #[trigger] pref_mags(s, growing, b0)[i] <= room(s[i], growing),
    decreases k,
{
    if k > 0 {
        lemma_prefs_spent(s, growing, b0, k - 1);
    }
}

fn room_of(c: &SplitSizing, growing: bool) -> (r: u16)
    ensures
        r == room(*c, growing),
{
    if growing {
        c.max.saturating_sub(c.size)
    } else {
        c.size.saturating_sub(c.min)
    }
}

/// Moves the children with a preference towards it, in order, out of a budget of `b0`;
/// returns how far each moved and the budget left.
fn prefs_phase(children: &[SplitSizing], growing: bool, b0: u32) -> (r: (Vec<u32>, u32))
    requires
        b0 <= 65535,
    ensures
        as_ints(r.0@) == pref_mags(children@, growing, b0 as int),
        r.1 == budget_after_prefs(children@, growing, b0 as int, children@.len() as int),
{
    let n = children.len();
    let mut mags: Vec<u32> = Vec::new();
    let mut budget: u32 = b0;
    let mut i: usize = 0;
    while i < n
        invariant
            n == children@.len(),
            0 <= i <= n,
            b0 <= 65535,
            mags@.len() == i,
            budget == budget_after_prefs(children@, growing, b0 as int, i as int),
            forall|j: int|
                0 <= j < i ==> #[trigger] mags@[j] as int == pref_mags(children@, growing, b0 as int)[j],
        decreases n - i,
    {
        proof {
            lemma_prefs_spent(children@, growing, b0 as int, i as int);
        }
        let c = children[i];
        let mut take: u32 = 0;
        if budget > 0 && c.preferred != u16::MAX {
            let toward = if growing {
                c.preferred.saturating_sub(c.size)
            } else {
                c.size.saturating_sub(c.preferred)
            };
            let rm = room_of(&c, growing);
            take = if budget < toward as u32 {
                budget
            } else {
                toward as u32
            };
            if (rm as u32) < take {
                take = rm as u32;
            }
        }
        mags.push(take);
        budget = budget - take;
        i += 1;
    }
    assert(as_ints(mags@) =~= pref_mags(children@, growing, b0 as int));
    (mags, budget)
}

proof fn lemma_sum_le(a: Seq<int>, b: Seq<int>, k: int)
    requires
        0 <= k <= a.len(),
        k <= b.len(),
        forall|i: int| 0 <= i < k ==> #[trigger] a[i] <= b[i],
    ensures
        int_sum(a, k) <= int_sum(b, k),
    decreases k,
{
    if k > 0 {
        lemma_sum_le(a, b, k - 1);
    }
}

proof fn lemma_sum_nonneg(a: Seq<int>, k: int)
    requires
        0 <= k <= a.len(),
        forall|i: int| 0 <= i < k ==> #[trigger] a[i] >= 0,
    ensures
        int_sum(a, k) >= 0,
    decreases k,
{
    if k > 0 {
        lemma_sum_nonneg(a, k - 1);
    }
}

proof fn lemma_caps_le_floors(w: Seq<int>, rooms: Seq<int>, b: int, k: int)
    requires
        0 <= k <= w.len(),
        rooms.len() == w.len(),
    ensures
        int_sum(spread_caps(w, rooms, b), k) <= crate::apportion::floor_sum(
            w,
            b,
            int_sum(w, w.len() as int),
            k,
        ),
    decreases k,
{
    if k > 0 {
        lemma_caps_le_floors(w, rooms, b, k - 1);
    }
}

proof fn lemma_after_sum(caps: Seq<int>, picks: Seq<bool>, after: Seq<int>, k: int)
    requires
        0 <= k <= caps.len(),
        caps.len() == picks.len(),
        caps.len() == after.len(),
        forall|i: int|
            0 <= i < caps.len() ==> #[trigger] after[i] == caps[i] + if picks[i] {
                1int
            } else {
                0int
            },
    ensures
        int_sum(after, k) == int_sum(caps, k) + count_true(picks, k),
    decreases k,
{
    if k > 0 {
        lemma_after_sum(caps, picks, after, k - 1);
    }
}

proof fn lemma_greedy(after: Seq<int>, rooms: Seq<int>, left: int, out: Seq<int>, k: int)
    requires
        0 <= k <= after.len(),
        after.len() == rooms.len(),
        after.len() == out.len(),
        0 <= left,
        forall|i: int| 0 <= i < after.len() ==> #[trigger] after[i] <= rooms[i],
        forall|i: int|
            0 <= i < after.len() ==> #[trigger] out[i] == after[i] + min_int(
                rooms[i] - after[i],
                greedy_left(after, rooms, left, i),
            ),
    ensures
        0 <= greedy_left(after, rooms, left, k) <= left,
        int_sum(out, k) == int_sum(after, k) + left - greedy_left(after, rooms, left, k),
        forall|i: int| 0 <= i < k ==> after[i] <= #[trigger] out[i] <= rooms[i],
    decreases k,
{
    if k > 0 {
        lemma_greedy(after, rooms, left, out, k - 1);
    }
}

/// A spread hands out at most the budget, within each item's room, and exactly the budget
/// less what the greedy pass could not place.
proof fn lemma_spread(w: Seq<int>, rooms: Seq<int>, b: int)
    requires
        rooms.len() == w.len(),
        forall|i: int| 0 <= i < w.len() ==> #[trigger] w[i] >= 0,
        forall|i: int| 0 <= i < w.len() ==> #[trigger] rooms[i] >= 0,
        int_sum(w, w.len() as int) > 0,
        b >= 0,
        is_top_pick(
            remainders(w, b, int_sum(w, w.len() as int)),
            spread_bumpable(w, rooms, b),
            spread_npick(w, rooms, b),
            spread_picks(w, rooms, b),
        ),
    ensures
        spread(w, rooms, b).len() == w.len(),
        forall|i: int| 0 <= i < w.len() ==> 0 <= #[trigger] spread(w, rooms, b)[i] <= rooms[i],
        0 <= spread_spare(w, rooms, b),
        0 <= spread_npick(w, rooms, b) <= spread_spare(w, rooms, b),
        ({
            let left = spread_spare(w, rooms, b) - spread_npick(w, rooms, b);
            let gl = greedy_left(spread_after(w, rooms, b), rooms, left, w.len() as int);
            &&& 0 <= gl <= left
            &&& int_sum(spread(w, rooms, b), w.len() as int) == b - gl
        }),
{
    let n = w.len() as int;
    let d = int_sum(w, n);
    let caps = spread_caps(w, rooms, b);
    let picks = spread_picks(w, rooms, b);
    let after = spread_after(w, rooms, b);
    let npick = spread_npick(w, rooms, b);
    let spare = spread_spare(w, rooms, b);
    crate::apportion::lemma_floor_sum_bounds(w, b, d);
    lemma_caps_le_floors(w, rooms, b, n);
    assert forall|i: int| 0 <= i < n implies 0 <= #[trigger] caps[i] <= rooms[i] by {
        assert(w[i] * b >= 0) by (nonlinear_arith)
            requires
                w[i] >= 0,
                b >= 0,
        ;
        vstd::arithmetic::div_mod::lemma_div_pos_is_pos(w[i] * b, d);
    }
    lemma_sum_nonneg(caps, n);
    crate::apportion::lemma_count_nonneg_pub(spread_bumpable(w, rooms, b), n);
    assert forall|i: int| 0 <= i < n implies #[trigger] after[i] <= rooms[i] by {
        if picks[i] {
            assert(spread_bumpable(w, rooms, b)[i]);
        }
    }
    lemma_after_sum(caps, picks, after, n);
    let left = spare - npick;
    let out = spread(w, rooms, b);
    lemma_greedy(after, rooms, left, out, n);
    assert forall|i: int| 0 <= i < n implies 0 <= #[trigger] out[i] <= rooms[i] by {
        assert(after[i] <= out[i] <= rooms[i]);
        assert(after[i] >= caps[i]);
    }
}

/// The entries of `v` as integers.
pub open spec fn wide_ints(v: Seq<u64>) -> Seq<int> {
    Seq::new(v.len(), |i: int| v[i] as int)
}

/// Spreads a budget `b` over items with weights `w` and rooms `rooms`.
fn spread_budget(w: &Vec<u64>, rooms: &Vec<u64>, d: u64, b: u64) -> (r: Vec<u64>)
    requires
        w@.len() == rooms@.len(),
        w@.len() <= 16_000_000,
        forall|i: int| 0 <= i < w@.len() ==> #[trigger] w@[i] <= 65535,
        forall|i: int| 0 <= i < w@.len() ==> #[trigger] rooms@[i] <= 65535,
        d as int == int_sum(wide_ints(w@), w@.len() as int),
        d > 0,
        b <= 65535,
    ensures
        wide_ints(r@) == spread(wide_ints(w@), wide_ints(rooms@), b as int),
        r@.len() == w@.len(),
        forall|i: int| 0 <= i < r@.len() ==> #[trigger] r@[i] <= rooms@[i],
        int_sum(wide_ints(r@), r@.len() as int) <= b,
{
    let n = w.len();
    let ghost wi = wide_ints(w@);
    let ghost ri = wide_ints(rooms@);
    let ghost bi = b as int;
    let mut caps: Vec<u64> = Vec::new();
    let mut rems: Vec<u64> = Vec::new();
    let mut bump: Vec<bool> = Vec::new();
    let mut placed: u64 = 0;
    let mut bump_count: u64 = 0;
    let mut i: usize = 0;
    while i < n
        invariant
            n == w@.len(),
            n == rooms@.len(),
            n <= 16_000_000,
            wi == wide_ints(w@),
            ri == wide_ints(rooms@),
            bi == b as int,
            b <= 65535,
            d > 0,
            d as int == int_sum(wi, n as int),
            forall|j: int| 0 <= j < n ==> #[trigger] w@[j] <= 65535,
            forall|j: int| 0 <= j < n ==> #[trigger] rooms@[j] <= 65535,
            0 <= i <= n,
            caps@.len() == i,
            rems@.len() == i,
            bump@.len() == i,
            forall|j: int| 0 <= j < i ==> #[trigger] caps@[j] as int == spread_caps(wi, ri, bi)[j],
            forall|j: int| 0 <= j < i ==> #[trigger] rems@[j] == remainders(wi, bi, d as int)[j],
            forall|j: int| 0 <= j < i ==> #[trigger] bump@[j] == spread_bumpable(wi, ri, bi)[j],
            placed as int == int_sum(spread_caps(wi, ri, bi), i as int),
            placed <= i * 65535,
            bump_count as int == count_true(spread_bumpable(wi, ri, bi), i as int),
            bump_count <= i,
        decreases n - i,
    {
        assert(w[i as int] * b <= 65535 * 65535) by (nonlinear_arith)
            requires
                w[i as int] <= 65535,
                b <= 65535,
        ;
        let num = w[i] * b;
        let fl = num / d;
        let cap = if fl < rooms[i] {
            fl
        } else {
            rooms[i]
        };
        caps.push(cap);
        rems.push(num % d);
        let can_bump = w[i] > 0 && fl < rooms[i];
        bump.push(can_bump);
        placed = placed + cap;
        if can_bump {
            bump_count = bump_count + 1;
        }
        i += 1;
    }
    proof {
        assert forall|j: int| 0 <= j < n implies #[trigger] wi[j] >= 0 by {}
        assert forall|j: int| 0 <= j < n implies #[trigger] ri[j] >= 0 by {}
        crate::apportion::lemma_floor_sum_bounds(wi, bi, d as int);
        lemma_caps_le_floors(wi, ri, bi, n as int);
        assert(rems@ =~= remainders(wi, bi, d as int));
        assert(bump@ =~= spread_bumpable(wi, ri, bi));
    }
    let spare = b - placed;
    let npick = if spare < bump_count {
        spare
    } else {
        bump_count
    };
    let picks = pick_largest_remainders(&rems, &bump, npick as usize);
    proof {
        assert(picks@ == spread_picks(wi, ri, bi));
        lemma_spread(wi, ri, bi);
    }
    let mut left: u64 = spare - npick;
    let ghost left0 = left as int;
    let ghost after = spread_after(wi, ri, bi);
    let mut out: Vec<u64> = Vec::new();
    i = 0;
    while i < n
        invariant
            n == w@.len(),
            n == rooms@.len(),
            n == caps@.len(),
            n == picks@.len(),
            wi == wide_ints(w@),
            ri == wide_ints(rooms@),
            bi == b as int,
            after == spread_after(wi, ri, bi),
            picks@ == spread_picks(wi, ri, bi),
            left0 == spread_spare(wi, ri, bi) - spread_npick(wi, ri, bi),
            forall|j: int| 0 <= j < n ==> #[trigger] caps@[j] as int == spread_caps(wi, ri, bi)[j],
            forall|j: int| 0 <= j < n ==> #[trigger] after[j] <= ri[j],
            forall|j: int| 0 <= j < n ==> #[trigger] rooms@[j] <= 65535,
            0 <= i <= n,
            out@.len() == i,
            left as int == greedy_left(after, ri, left0, i as int),
            forall|j: int| 0 <= j < i ==> #[trigger] out@[j] as int == spread(wi, ri, bi)[j],
        decreases n - i,
    {
        let a = caps[i] + if picks[i] {
            1u64
        } else {
            0u64
        };
        assert(a == after[i as int]);
        let gap_room = rooms[i] - a;
        let give = if gap_room < left {
            gap_room
        } else {
            left
        };
        out.push(a + give);
        left = left - give;
        i += 1;
    }
    proof {
        let sp = spread(wi, ri, bi);
        assert(wide_ints(out@) =~= sp);
        assert forall|j: int| 0 <= j < n implies #[trigger] out@[j] <= rooms@[j] by {
            assert(sp[j] <= ri[j]);
        }
    }
    out
}

/// Computes the children's weights and rooms for a distribution round, and the weights' sum.
fn round_inputs(children: &[SplitSizing], growing: bool, mags: &Vec<u32>) -> (r: (Vec<u64>, Vec<u64>, u64))
    requires
        mags@.len() == children@.len(),
        children@.len() <= 16_000_000,
        forall|i: int| 0 <= i < mags@.len() ==> #[trigger] mags@[i] <= room(children@[i], growing),
    ensures
        wide_ints(r.0@) == round_weights(children@, growing, as_ints(mags@)),
        wide_ints(r.1@) == round_rooms(children@, growing, as_ints(mags@)),
        r.2 as int == int_sum(round_weights(children@, growing, as_ints(mags@)), children@.len() as int),
        r.0@.len() == children@.len(),
        r.1@.len() == children@.len(),
        forall|i: int| 0 <= i < r.0@.len() ==> #[trigger] r.0@[i] <= 65535,
        forall|i: int| 0 <= i < r.1@.len() ==> #[trigger] r.1@[i] <= 65535,
{
    let n = children.len();
    let ghost m = as_ints(mags@);
    let mut w: Vec<u64> = Vec::new();
    let mut rooms: Vec<u64> = Vec::new();
    let mut d: u64 = 0;
    let mut i: usize = 0;
    while i < n
        invariant
            n == children@.len(),
            n == mags@.len(),
            n <= 16_000_000,
            m == as_ints(mags@),
            forall|j: int| 0 <= j < n ==> #[trigger] mags@[j] <= room(children@[j], growing),
            0 <= i <= n,
            w@.len() == i,
            rooms@.len() == i,
            forall|j: int| 0 <= j < i ==> #[trigger] w@[j] as int == round_weights(children@, growing, m)[j],
            forall|j: int| 0 <= j < i ==> #[trigger] rooms@[j] as int == round_rooms(children@, growing, m)[j],
            forall|j: int| 0 <= j < i ==> #[trigger] w@[j] <= 65535,
            forall|j: int| 0 <= j < i ==> #[trigger] rooms@[j] <= 65535,
            d as int == int_sum(round_weights(children@, growing, m), i as int),
            d <= i * 65535,
        decreases n - i,
    {
        let c = children[i];
        let rm = room_of(&c, growing);
        let left = rm as u32 - mags[i];
        let wt: u64 = if left == 0 {
            0
        } else if growing {
            c.flex as u64
        } else if c.size == 0 {
            1
        } else {
            c.size as u64
        };
        w.push(wt);
        rooms.push(left as u64);
        d = d + wt;
        i += 1;
    }
    assert(wide_ints(w@) =~= round_weights(children@, growing, m));
    assert(wide_ints(rooms@) =~= round_rooms(children@, growing, m));
    (w, rooms, d)
}

proof fn lemma_sum_add(a: Seq<int>, b: Seq<int>, k: int)
    requires
        0 <= k <= a.len(),
        a.len() == b.len(),
    ensures
        int_sum(seq_add(a, b), k) == int_sum(a, k) + int_sum(b, k),
    decreases k,
{
    if k > 0 {
        lemma_sum_add(a, b, k - 1);
    }
}

proof fn lemma_entry_le_sum(a: Seq<int>, k: int, i: int)
    requires
        0 <= i < k <= a.len(),
        forall|j: int| 0 <= j < k ==> #[trigger] a[j] >= 0,
    ensures
        a[i] <= int_sum(a, k),
    decreases k,
{
    if i < k - 1 {
        lemma_entry_le_sum(a, k - 1, i);
    } else {
        lemma_sum_nonneg(a, k - 1);
    }
}

proof fn lemma_everyone_count(n: nat, k: int)
    requires
        0 <= k <= n,
    ensures
        count_true(everyone(n), k) == k,
    decreases k,
{
    if k > 0 {
        lemma_everyone_count(n, k - 1);
    }
}

proof fn lemma_sizes_sum(s: Seq<SplitSizing>, k: int)
    requires
        0 <= k <= s.len(),
    ensures
        int_sum(size_weights(s), k) == seq_sum(sizes_of(s), k),
    decreases k,
{
    if k > 0 {
        lemma_sizes_sum(s, k - 1);
    }
}

/// Takes the budget `b` that no child had room for from every child in proportion to its size.
fn shrink_by_size(children: &[SplitSizing], mags: &mut Vec<u32>, b: u32)
    requires
        old(mags)@.len() == children@.len(),
        children@.len() <= 16_000_000,
        0 < b <= 65535,
        int_sum(as_ints(old(mags)@), children@.len() as int) + b <= 65535,
        seq_sum(sizes_of(children@), children@.len() as int) <= 65535,
    ensures
        final(mags)@.len() == old(mags)@.len(),
        as_ints(final(mags)@) == final_shrink(children@, as_ints(old(mags)@), b as int),
        int_sum(as_ints(final(mags)@), children@.len() as int) == int_sum(
            as_ints(old(mags)@),
            children@.len() as int,
        ) + if seq_sum(sizes_of(children@), children@.len() as int) > 0 {
            b as int
        } else {
            0
        },
{
    let n = children.len();
    let ghost s = children@;
    let ghost m0 = as_ints(mags@);
    let ghost w = size_weights(s);
    let ghost bi = b as int;
    let mut total: u64 = 0;
    let mut i: usize = 0;
    while i < n
        invariant
            n == s.len(),
            s == children@,
            w == size_weights(s),
            0 <= i <= n,
            total as int == int_sum(w, i as int),
            total <= i * 65535,
            n <= 16_000_000,
        decreases n - i,
    {
        total = total + children[i].size as u64;
        i += 1;
    }
    proof {
        lemma_sizes_sum(s, n as int);
    }
    if total == 0 {
        return;
    }
    let mut rems: Vec<u64> = Vec::new();
    let mut all: Vec<bool> = Vec::new();
    let mut floors: Vec<u64> = Vec::new();
    let mut placed: u64 = 0;
    i = 0;
    while i < n
        invariant
            n == s.len(),
            s == children@,
            w == size_weights(s),
            bi == b as int,
            b <= 65535,
            total > 0,
            total as int == int_sum(w, n as int),
            0 <= i <= n,
            rems@.len() == i,
            all@.len() == i,
            floors@.len() == i,
            forall|j: int| 0 <= j < i ==> #[trigger] rems@[j] == remainders(w, bi, total as int)[j],
            forall|j: int| 0 <= j < i ==> #[trigger] all@[j],
            forall|j: int| 0 <= j < i ==> #[trigger] floors@[j] as int == w[j] * bi / (total as int),
            forall|j: int| 0 <= j < i ==> #[trigger] floors@[j] <= 65535,
            n <= 16_000_000,
            placed as int == crate::apportion::floor_sum(w, bi, total as int, i as int),
            placed <= i * 65535,
        decreases n - i,
    {
        let sz = children[i].size as u64;
        proof {
            assert forall|j: int| 0 <= j < n implies #[trigger] w[j] >= 0 by {}
            lemma_entry_le_sum(w, n as int, i as int);
            assert(sz as int == w[i as int]);
        }
        assert(sz * b <= 65535 * 65535) by (nonlinear_arith)
            requires
                sz <= 65535,
                b <= 65535,
        ;
        let num = sz * b as u64;
        let fl = num / total;
        assert(fl <= 65535) by (nonlinear_arith)
            requires
                fl == num / total,
                num == sz * b,
                sz <= total,
                b <= 65535,
                total > 0,
        {
            vstd::arithmetic::div_mod::lemma_div_is_ordered(sz * b, total * b, total as int);
            vstd::arithmetic::div_mod::lemma_div_multiples_vanish(b as int, total as int);
        }
        rems.push(num % total);
        all.push(true);
        floors.push(fl);
        placed = placed + fl;
        i += 1;
    }
    proof {
        assert forall|j: int| 0 <= j < n implies #[trigger] w[j] >= 0 by {}
        crate::apportion::lemma_floor_sum_bounds(w, bi, total as int);
        crate::apportion::lemma_count_nonneg_pub(crate::apportion::positive(w), n as int);
        lemma_everyone_count(n as nat, n as int);
        assert(all@ =~= everyone(n as nat));
        assert(rems@ =~= remainders(w, bi, total as int));
    }
    let spare = b as u64 - placed;
    let picks = pick_largest_remainders(&rems, &all, spare as usize);
    let ghost out = final_shrink(s, m0, bi);
    proof {
        assert(picks@ == top_picks(remainders(w, bi, total as int), everyone(n as nat), spare as int));
    }
    i = 0;
    while i < n
        invariant
            n == s.len(),
            n == mags@.len(),
            n == floors@.len(),
            n == picks@.len(),
            s == children@,
            w == size_weights(s),
            bi == b as int,
            0 < b,
            total > 0,
            total as int == int_sum(w, n as int),
            out == final_shrink(s, m0, bi),
            picks@ == top_picks(remainders(w, bi, total as int), everyone(n as nat), spare as int),
            spare as int == bi - crate::apportion::floor_sum(w, bi, total as int, n as int),
            forall|j: int| 0 <= j < n ==> #[trigger] floors@[j] as int == w[j] * bi / (total as int),
            forall|j: int| 0 <= j < n ==> #[trigger] floors@[j] <= 65535,
            int_sum(m0, n as int) + b <= 65535,
            m0.len() == n,
            forall|j: int| 0 <= j < n ==> #[trigger] m0[j] >= 0,
            0 <= i <= n,
            forall|j: int| 0 <= j < i ==> #[trigger] mags@[j] as int == out[j],
            forall|j: int| i <= j < n ==> #[trigger] mags@[j] as int == m0[j],
        decreases n - i,
    {
        proof {
            lemma_entry_le_sum(m0, n as int, i as int);
        }
        let extra: u32 = if picks[i] {
            1
        } else {
            0
        };
        assert(out[i as int] == m0[i as int] + floors@[i as int] + extra);
        let v = mags[i] + floors[i] as u32 + extra;
        mags.set(i, v);
        i += 1;
    }
    proof {
        assert(as_ints(mags@) =~= out);
        lemma_shrink_sum(s, m0, bi, total as int, picks@, spare as int);
    }
}

proof fn lemma_shrink_sum(s: Seq<SplitSizing>, m0: Seq<int>, b: int, total: int, picks: Seq<bool>, spare: int)
    requires
        m0.len() == s.len(),
        picks.len() == s.len(),
        b > 0,
        total > 0,
        total == int_sum(size_weights(s), s.len() as int),
        spare == b - crate::apportion::floor_sum(size_weights(s), b, total, s.len() as int),
        picks == top_picks(remainders(size_weights(s), b, total), everyone(s.len()), spare),
        is_top_pick(remainders(size_weights(s), b, total), everyone(s.len()), spare, picks),
    ensures
        int_sum(final_shrink(s, m0, b), s.len() as int) == int_sum(m0, s.len() as int) + b,
{
    let n = s.len() as int;
    let w = size_weights(s);
    let out = final_shrink(s, m0, b);
    let fl = Seq::new(s.len(), |i: int| w[i] * b / total);
    let pk = Seq::new(
        s.len(),
        |i: int|
            if picks[i] {
                1int
            } else {
                0int
            },
    );
    lemma_sum3(out, m0, fl, pk, n);
    lemma_floor_sum_is(w, b, total, fl, n);
    lemma_pick_sum(picks, pk, n);
}

proof fn lemma_sum3(out: Seq<int>, a: Seq<int>, b: Seq<int>, c: Seq<int>, k: int)
    requires
        0 <= k <= out.len(),
        out.len() == a.len(),
        out.len() == b.len(),
        out.len() == c.len(),
        forall|i: int| 0 <= i < out.len() ==> #[trigger] out[i] == a[i] + b[i] + c[i],
    ensures
        int_sum(out, k) == int_sum(a, k) + int_sum(b, k) + int_sum(c, k),
    decreases k,
{
    if k > 0 {
        lemma_sum3(out, a, b, c, k - 1);
    }
}

proof fn lemma_floor_sum_is(w: Seq<int>, b: int, d: int, fl: Seq<int>, k: int)
    requires
        0 <= k <= w.len(),
        fl.len() == w.len(),
        forall|i: int| 0 <= i < w.len() ==> #[trigger] fl[i] == w[i] * b / d,
    ensures
        int_sum(fl, k) == crate::apportion::floor_sum(w, b, d, k),
    decreases k,
{
    if k > 0 {
        lemma_floor_sum_is(w, b, d, fl, k - 1);
    }
}

proof fn lemma_pick_sum(picks: Seq<bool>, pk: Seq<int>, k: int)
    requires
        0 <= k <= picks.len(),
        pk.len() == picks.len(),
        forall|i: int|
            0 <= i < picks.len() ==> #[trigger] pk[i] == if picks[i] {
                1int
            } else {
                0int
            },
    ensures
        int_sum(pk, k) == count_true(picks, k),
    decreases k,
{
    if k > 0 {
        lemma_pick_sum(picks, pk, k - 1);
    }
}

/// Sum of the first `k` entries of `v`.
pub open spec fn delta_sum(v: Seq<i32>, k: int) -> int
    decreases k,
{
    if k <= 0 {
        0
    } else {
        delta_sum(v, k - 1) + v[k - 1] as int
    }
}

proof fn lemma_sizes_prefix(s: Seq<SplitSizing>, i: int, k: int)
    requires
        0 <= i <= k <= s.len(),
    ensures
        seq_sum(sizes_of(s), i) <= seq_sum(sizes_of(s), k),
    decreases k - i,
{
    if i < k {
        lemma_sizes_prefix(s, i, k - 1);
    }
}

proof fn lemma_delta_sum(d: Seq<i32>, m: Seq<int>, growing: bool, k: int)
    requires
        0 <= k <= d.len(),
        d.len() == m.len(),
        forall|i: int|
            0 <= i < d.len() ==> #[trigger] d[i] as int == if growing {
                m[i]
            } else {
                -m[i]
            },
    ensures
        delta_sum(d, k) == if growing {
            int_sum(m, k)
        } else {
            -int_sum(m, k)
        },
    decreases k,
{
    if k > 0 {
        lemma_delta_sum(d, m, growing, k - 1);
    }
}

/// Returns how each child's size along the container's axis changes when the container's
/// size becomes `parent_size`, or `None` when nothing changes.
pub fn same_axis_deltas(children: &[SplitSizing], parent_size: u16, gap: u16) -> (r: Option<Vec<i32>>)
    requires
        children.len() <= 16_000_000,
        seq_sum(sizes_of(children@), children@.len() as int) <= 65535,
    ensures
        match r {
            None => resize_deltas(children@, parent_size, gap) is None,
            Some(v) => match resize_deltas(children@, parent_size, gap) {
                Some(d) => v@.len() == d.len() && d.len() == children@.len() && forall|i: int|
                    0 <= i < d.len() ==> #[trigger] v@[i] as int == d[i],
                None => false,
            },
        },
        match r {
            Some(v) => {
                let net = net_change(children@, parent_size, gap);
                let n = children@.len() as int;
                &&& net > 0 ==> delta_sum(v@, n) <= net && forall|i: int|
                    0 <= i < n ==> 0 <= #[trigger] v@[i] <= room(children@[i], true)
                &&& net < 0 ==> forall|i: int| 0 <= i < n ==> #[trigger] v@[i] <= 0
                &&& net < 0 && seq_sum(sizes_of(children@), n) > 0 ==> delta_sum(v@, n) == net
            },
            None => true,
        },
{
    let n = children.len();
    let ghost s = children@;
    let gap_space = total_gap(children, gap);
    let target: u16 = parent_size.saturating_sub(gap_space);
    let mut current: u32 = 0;
    let mut i: usize = 0;
    while i < n
        invariant
            n == s.len(),
            s == children@,
            0 <= i <= n,
            current as int == seq_sum(sizes_of(s), i as int),
            seq_sum(sizes_of(s), n as int) <= 65535,
        decreases n - i,
    {
        proof {
            lemma_sizes_prefix(s, i as int + 1, n as int);
        }
        current = current + children[i].size as u32;
        i += 1;
    }
    let net: i32 = target as i32 - current as i32;
    assert(net == net_change(s, parent_size, gap));
    if net == 0 {
        return None;
    }
    let growing = net > 0;
    let mut any = false;
    i = 0;
    while i < n
        invariant
            n == s.len(),
            s == children@,
            0 <= i <= n,
            any == exists|j: int| 0 <= j < i && #[trigger] s[j].flex > 0,
        decreases n - i,
    {
        if children[i].flex > 0 {
            any = true;
        }
        i += 1;
    }
    if growing && !any {
        return None;
    }
    let b0: u32 = if growing {
        net as u32
    } else {
        (0 - net) as u32
    };
    let (mut mags, mut budget) = prefs_phase(children, growing, b0);
    let ghost m1 = as_ints(mags@);
    let ghost b1 = budget as int;
    proof {
        lemma_prefs_spent(s, growing, b0 as int, n as int);
        assert forall|j: int| 0 <= j < n implies #[trigger] mags@[j] <= room(s[j], growing) by {
            assert(as_ints(mags@)[j] == mags@[j] as int);
        }
    }
    let ghost mut fuel: nat = budget as nat;
    let mut stop = false;
    while !stop && budget > 0
        invariant
            n == s.len(),
            s == children@,
            n <= 16_000_000,
            mags@.len() == n,
            budget as nat <= fuel,
            b0 <= 65535,
            rounds(s, growing, as_ints(mags@), budget as int, fuel) == rounds(
                s,
                growing,
                m1,
                b1,
                b1 as nat,
            ),
            stop ==> rounds(s, growing, as_ints(mags@), budget as int, fuel) == (
                as_ints(mags@),
                budget as int,
            ),
            forall|j: int| 0 <= j < n ==> #[trigger] mags@[j] <= room(s[j], growing),
            int_sum(as_ints(mags@), n as int) + budget == b0,
            budget <= b0,
        decreases budget as int + if stop {
            0int
        } else {
            1int
        },
    {
        let (w, rooms, d) = round_inputs(children, growing, &mags);
        if d == 0 {
            stop = true;
        } else {
            let sh = spread_budget(&w, &rooms, d, budget as u64);
            let ghost m = as_ints(mags@);
            let mut consumed: u64 = 0;
            assert forall|j: int| 0 <= j < n implies #[trigger] sh@[j] <= 65535 by {
                assert(sh@[j] <= rooms@[j]);
            }
            i = 0;
            while i < n
                invariant
                    n <= 16_000_000,
                    n == sh@.len(),
                    0 <= i <= n,
                    consumed as int == int_sum(wide_ints(sh@), i as int),
                    consumed <= i * 65535,
                    forall|j: int| 0 <= j < n ==> #[trigger] sh@[j] <= 65535,
                decreases n - i,
            {
                consumed = consumed + sh[i];
                i += 1;
            }
            if consumed == 0 {
                stop = true;
            } else {
                proof {
                    assert(wide_ints(sh@) == round_shares(s, growing, m, budget as int));
                }
                i = 0;
                while i < n
                    invariant
                        n == s.len(),
                        n == mags@.len(),
                        n == sh@.len(),
                        n == rooms@.len(),
                        0 <= i <= n,
                        m.len() == n,
                        forall|j: int| 0 <= j < n ==> #[trigger] m[j] <= room(s[j], growing),
                        forall|j: int| 0 <= j < n ==> #[trigger] sh@[j] <= rooms@[j],
                        wide_ints(rooms@) == round_rooms(s, growing, m),
                        forall|j: int| 0 <= j < i ==> #[trigger] mags@[j] as int == m[j] + sh@[j],
                        forall|j: int| i <= j < n ==> #[trigger] mags@[j] as int == m[j],
                        forall|j: int| 0 <= j < i ==> #[trigger] mags@[j] <= room(s[j], growing),
                        forall|j: int| i <= j < n ==> #[trigger] mags@[j] <= room(s[j], growing),
                    decreases n - i,
                {
                    assert(wide_ints(rooms@)[i as int] == rooms@[i as int] as int);
                    assert(round_rooms(s, growing, m)[i as int] == sat_sub(room(s[i as int], growing), m[i as int]));
                    let v = mags[i] + sh[i] as u32;
                    mags.set(i, v);
                    i += 1;
                }
                proof {
                    assert(as_ints(mags@) =~= seq_add(m, wide_ints(sh@)));
                    lemma_sum_add(m, wide_ints(sh@), n as int);
                }
                budget = budget - consumed as u32;
                proof {
                    fuel = (fuel - 1) as nat;
                    assert forall|j: int| 0 <= j < n implies #[trigger] as_ints(mags@)[j] >= 0 by {}
                    lemma_sum_nonneg(as_ints(mags@), n as int);
                }
            }
        }
    }
    let ghost m2 = as_ints(mags@);
    let ghost b2 = budget as int;
    assert((m2, b2) == rounds(s, growing, m1, b1, b1 as nat));
    proof {
        assert forall|j: int| 0 <= j < n implies #[trigger] m2[j] >= 0 by {}
    }
    if !growing && budget > 0 {
        shrink_by_size(children, &mut mags, budget);
    }
    let ghost m3 = as_ints(mags@);
    proof {
        assert forall|j: int| 0 <= j < n implies #[trigger] m3[j] >= 0 by {}
        assert(int_sum(m3, n as int) <= b0);
    }
    let mut out: Vec<i32> = Vec::new();
    i = 0;
    while i < n
        invariant
            n == mags@.len(),
            m3 == as_ints(mags@),
            int_sum(m3, n as int) <= b0,
            b0 <= 65535,
            forall|j: int| 0 <= j < n ==> #[trigger] m3[j] >= 0,
            0 <= i <= n,
            out@.len() == i,
            forall|j: int| 0 <= j < i ==> #[trigger] out@[j] as int == if growing {
                m3[j]
            } else {
                -m3[j]
            },
        decreases n - i,
    {
        proof {
            lemma_entry_le_sum(m3, n as int, i as int);
        }
        let v = mags[i] as i32;
        out.push(if growing {
            v
        } else {
            0 - v
        });
        i += 1;
    }
    proof {
        lemma_delta_sum(out@, m3, growing, n as int);
        lemma_sizes_sum(s, n as int);
    }
    Some(out)
}

/// How far a child is below its minimum.
pub open spec fn shortfall(c: SplitSizing) -> int {
    sat_sub(c.min as int, c.size as int)
}

/// What a child can give up without going below its minimum.
pub open spec fn spare(c: SplitSizing) -> int {
    sat_sub(c.size as int, c.min as int)
}

/// The first child from `i` on that is below its minimum, or `s.len()` when none is.
pub open spec fn needy_from(s: Seq<SplitSizing>, i: int) -> int
    decreases s.len() - i,
{
    if i >= s.len() || i < 0 {
        s.len() as int
    } else if shortfall(s[i]) > 0 {
        i
    } else {
        needy_from(s, i + 1)
    }
}

/// `c` with its size set to `size`.
pub open spec fn resized(c: SplitSizing, size: int) -> SplitSizing {
    SplitSizing { size: size as u16, ..c }
}

/// The children after the first `k` of them, in order, gave child `needy` what they can
/// spare of a shortfall `d`, and the shortfall still open.
pub open spec fn donate(s: Seq<SplitSizing>, needy: int, d: int, k: int) -> (Seq<SplitSizing>, int)
    decreases k,
{
    if k <= 0 {
        (s, d)
    } else {
        let (t, r) = donate(s, needy, d, k - 1);
        let j = k - 1;
        if j == needy || r <= 0 || spare(t[j]) <= 0 {
            (t, r)
        } else {
            let give = min_int(spare(t[j]), r);
            (
                t.update(j, resized(t[j], t[j].size - give)).update(
                    needy,
                    resized(t[needy], t[needy].size + give),
                ),
                r - give,
            )
        }
    }
}

/// Sum of the first `k` children's shortfalls.
pub open spec fn total_shortfall(s: Seq<SplitSizing>, k: int) -> int
    decreases k,
{
    if k <= 0 {
        0
    } else {
        total_shortfall(s, k - 1) + shortfall(s[k - 1])
    }
}

/// Rounds of donations, at most `fuel` of them: while some child is below its minimum, the
/// first such child takes, in order, what the others can spare, until a round gives nothing.
pub open spec fn reinforced(s: Seq<SplitSizing>, fuel: nat) -> Seq<SplitSizing>
    decreases fuel,
{
    let needy = needy_from(s, 0);
    if fuel == 0 || needy >= s.len() {
        s
    } else {
        let (t, r) = donate(s, needy, shortfall(s[needy]), s.len() as int);
        if r == shortfall(s[needy]) {
            s
        } else {
            reinforced(t, (fuel - 1) as nat)
        }
    }
}

pub(crate) proof fn lemma_needy_from(s: Seq<SplitSizing>, i: int)
    requires
        0 <= i <= s.len(),
    ensures
        i <= needy_from(s, i) <= s.len(),
        needy_from(s, i) < s.len() ==> shortfall(s[needy_from(s, i)]) > 0,
        forall|j: int| i <= j < needy_from(s, i) ==> shortfall(#[trigger] s[j]) == 0,
    decreases s.len() - i,
{
    if i < s.len() && shortfall(s[i]) <= 0 {
        lemma_needy_from(s, i + 1);
    }
}

pub(crate) proof fn lemma_shortfall_nonneg(s: Seq<SplitSizing>, k: int)
    requires
        0 <= k <= s.len(),
    ensures
        total_shortfall(s, k) >= 0,
    decreases k,
{
    if k > 0 {
        lemma_shortfall_nonneg(s, k - 1);
    }
}

proof fn lemma_shortfall_update(s: Seq<SplitSizing>, j: int, c: SplitSizing, k: int)
    requires
        0 <= j < s.len(),
        0 <= k <= s.len(),
    ensures
        total_shortfall(s.update(j, c), k) == total_shortfall(s, k) + if j < k {
            shortfall(c) - shortfall(s[j])
        } else {
            0
        },
    decreases k,
{
    if k > 0 {
        lemma_shortfall_update(s, j, c, k - 1);
    }
}

proof fn lemma_sizes_update(s: Seq<SplitSizing>, j: int, c: SplitSizing, k: int)
    requires
        0 <= j < s.len(),
        0 <= k <= s.len(),
    ensures
        seq_sum(sizes_of(s.update(j, c)), k) == seq_sum(sizes_of(s), k) + if j < k {
            c.size - s[j].size
        } else {
            0
        },
    decreases k,
{
    if k > 0 {
        lemma_sizes_update(s, j, c, k - 1);
    }
}

/// What a donation pass keeps: the sizes' total, everything but the sizes, the donors at or
/// above their minimum, the open shortfall between zero and the initial one, and the needy
/// child's size grown by what was covered.
pub(crate) proof fn lemma_donate(s: Seq<SplitSizing>, needy: int, d: int, k: int)
    requires
        0 <= needy < s.len(),
        0 <= k <= s.len(),
        d == shortfall(s[needy]),
        d > 0,
    ensures
        donate(s, needy, d, k).0.len() == s.len(),
        0 <= donate(s, needy, d, k).1 <= d,
        donate(s, needy, d, k).0[needy].size == s[needy].size + (d - donate(s, needy, d, k).1),
        seq_sum(sizes_of(donate(s, needy, d, k).0), s.len() as int) == seq_sum(
            sizes_of(s),
            s.len() as int,
        ),
        total_shortfall(donate(s, needy, d, k).0, s.len() as int) == total_shortfall(
            s,
            s.len() as int,
        ) - (d - donate(s, needy, d, k).1),
        forall|j: int|
            0 <= j < s.len() ==> {
                let c = #[trigger] donate(s, needy, d, k).0[j];
                c.min == s[j].min && c.max == s[j].max && c.preferred == s[j].preferred && c.flex
                    == s[j].flex && c.borderless == s[j].borderless
            },
        forall|j: int|
            0 <= j < s.len() && j != needy ==> {
                let c = #[trigger] donate(s, needy, d, k).0[j];
                s[j].size >= c.size && (c.size >= c.min || c.size == s[j].size)
            },
        forall|j: int| k <= j < s.len() && j != needy ==> #[trigger] donate(s, needy, d, k).0[j] == s[j],
    decreases k,
{
    if k > 0 {
        lemma_donate(s, needy, d, k - 1);
        let (t, r) = donate(s, needy, d, k - 1);
        let j = k - 1;
        if !(j == needy || r <= 0 || spare(t[j]) <= 0) {
            let give = min_int(spare(t[j]), r);
            let c1 = resized(t[j], t[j].size - give);
            let t1 = t.update(j, c1);
            let c2 = resized(t1[needy], t1[needy].size + give);
            let t2 = t1.update(needy, c2);
            assert(t[j] == s[j]);
            assert(shortfall(c1) == 0);
            assert(shortfall(t[j]) == 0);
            lemma_shortfall_update(t, j, c1, s.len() as int);
            lemma_shortfall_update(t1, needy, c2, s.len() as int);
            lemma_sizes_update(t, j, c1, s.len() as int);
            lemma_sizes_update(t1, needy, c2, s.len() as int);
            assert(t1[needy] == t[needy]);
            assert(shortfall(c2) == shortfall(t[needy]) - give);
        }
    }
}

pub(crate) proof fn lemma_no_gift(s: Seq<SplitSizing>, needy: int, d: int, k: int)
    requires
        0 <= needy < s.len(),
        0 <= k <= s.len(),
        d == shortfall(s[needy]),
        d > 0,
        donate(s, needy, d, k).1 == d,
    ensures
        donate(s, needy, d, k).0 == s,
        forall|j: int| 0 <= j < k && j != needy ==> spare(#[trigger] s[j]) == 0,
    decreases k,
{
    if k > 0 {
        lemma_donate(s, needy, d, k - 1);
        lemma_no_gift(s, needy, d, k - 1);
    }
}

pub(crate) proof fn lemma_shortfall_entry(s: Seq<SplitSizing>, k: int, i: int)
    requires
        0 <= i < k <= s.len(),
    ensures
        shortfall(s[i]) <= total_shortfall(s, k),
    decreases k,
{
    if i < k - 1 {
        lemma_shortfall_entry(s, k - 1, i);
    } else {
        lemma_shortfall_nonneg(s, k - 1);
    }
}

/// Lets the children below their minimum take, in order, what their siblings can spare
/// without going below their own minimum, round after round while anything moves.
pub fn reinforce_mins(children: &mut [SplitSizing])
    ensures
        final(children)@ == reinforced(
            old(children)@,
            total_shortfall(old(children)@, old(children)@.len() as int) as nat,
        ),
        final(children)@.len() == old(children)@.len(),
        seq_sum(sizes_of(final(children)@), final(children)@.len() as int) == seq_sum(
            sizes_of(old(children)@),
            old(children)@.len() as int,
        ),
        forall|j: int|
            0 <= j < old(children)@.len() ==> {
                let c = #[trigger] final(children)@[j];
                let o = old(children)@[j];
                &&& c.min == o.min && c.max == o.max && c.preferred == o.preferred
                &&& c.flex == o.flex && c.borderless == o.borderless
                &&& o.size >= o.min ==> c.size >= c.min
            },
        ({
            let f = final(children)@;
            let needy = needy_from(f, 0);
            needy < f.len() ==> forall|j: int|
                0 <= j < f.len() && j != needy ==> spare(#[trigger] f[j]) == 0
        }),
{
    let n = children.len();
    let ghost s0 = children@;
    let ghost t0 = total_shortfall(s0, n as int);
    proof {
        lemma_shortfall_nonneg(s0, n as int);
    }
    let ghost mut fuel: nat = t0 as nat;
    let mut done = false;
    while !done
        invariant
            n == children@.len(),
            n == s0.len(),
            reinforced(children@, fuel) == reinforced(s0, t0 as nat),
            total_shortfall(children@, n as int) <= fuel,
            seq_sum(sizes_of(children@), n as int) == seq_sum(sizes_of(s0), n as int),
            forall|j: int|
                0 <= j < n ==> {
                    let c = #[trigger] children@[j];
                    let o = s0[j];
                    &&& c.min == o.min && c.max == o.max && c.preferred == o.preferred
                    &&& c.flex == o.flex && c.borderless == o.borderless
                    &&& o.size >= o.min ==> c.size >= c.min
                },
            done ==> reinforced(children@, fuel) == children@,
            done ==> ({
                let needy = needy_from(children@, 0);
                needy < n ==> forall|j: int|
                    0 <= j < n && j != needy ==> spare(#[trigger] children@[j]) == 0
            }),
        decreases total_shortfall(children@, n as int) + if done {
            0int
        } else {
            1int
        },
    {
        let ghost cur = children@;
        proof {
            lemma_needy_from(cur, 0);
            lemma_shortfall_nonneg(cur, n as int);
        }
        let mut needy: usize = 0;
        while needy < n && children[needy].min <= children[needy].size
            invariant
                n == children@.len(),
                cur == children@,
                0 <= needy <= n,
                forall|j: int| 0 <= j < needy ==> shortfall(#[trigger] cur[j]) == 0,
                needy <= needy_from(cur, 0) <= n,
                needy_from(cur, 0) < n ==> shortfall(cur[needy_from(cur, 0)]) > 0,
            decreases n - needy,
        {
            needy += 1;
        }
        if needy == n {
            done = true;
        } else {
            assert(needy == needy_from(cur, 0));
            let d: u16 = children[needy].min - children[needy].size;
            let ghost dd = d as int;
            let mut r: u16 = d;
            let mut j: usize = 0;
            proof {
                lemma_shortfall_entry(cur, n as int, needy as int);
            }
            while j < n
                invariant
                    n == children@.len(),
                    n == cur.len(),
                    0 <= needy < n,
                    dd == shortfall(cur[needy as int]),
                    dd > 0,
                    0 <= j <= n,
                    (children@, r as int) == donate(cur, needy as int, dd, j as int),
                decreases n - j,
            {
                proof {
                    lemma_donate(cur, needy as int, dd, j as int);
                }
                if j != needy && r > 0 {
                    let c = children[j];
                    let sp = c.size.saturating_sub(c.min);
                    if sp > 0 {
                        let give = if sp < r {
                            sp
                        } else {
                            r
                        };
                        children[j] = SplitSizing { size: c.size - give, ..c };
                        let nd = children[needy];
                        proof {
                            lemma_donate(cur, needy as int, dd, j as int + 1);
                        }
                        children[needy] = SplitSizing { size: nd.size + give, ..nd };
                        r = r - give;
                    }
                }
                j += 1;
            }
            proof {
                lemma_donate(cur, needy as int, dd, n as int);
            }
            if r == d {
                proof {
                    lemma_no_gift(cur, needy as int, dd, n as int);
                }
                done = true;
            } else {
                proof {
                    fuel = (fuel - 1) as nat;
                }
            }
        }
    }
}

} // verus!
