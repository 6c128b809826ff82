//! Largest-remainder selection: which items receive the cells left over after a proportional
//! split was rounded down.

use vstd::prelude::*;

verus! {

/// Whether item `i` is served before item `j`: the larger remainder first, the earlier item on
/// a tie.
pub open spec fn ranks_before(rems: Seq<u64>, i: int, j: int) -> bool {
    rems[i] > rems[j] || (rems[i] == rems[j] && i < j)
}

/// Number of `true` entries among the first `k` of `s`.
pub open spec fn count_true(s: Seq<bool>, k: int) -> int
    decreases k,
{
    if k <= 0 {
        0
    } else {
        count_true(s, k - 1) + if s[k - 1] {
            1int
        } else {
            0int
        }
    }
}

/// Number of entries among the first `k` that are set in `a` and clear in `b`.
pub open spec fn count_left(a: Seq<bool>, b: Seq<bool>, k: int) -> int
    decreases k,
{
    if k <= 0 {
        0
    } else {
        count_left(a, b, k - 1) + if a[k - 1] && !b[k - 1] {
            1int
        } else {
            0int
        }
    }
}

/// `picks` marks exactly `count` of the eligible items, and every marked item is served before
/// every eligible item left unmarked.
pub open spec fn is_top_pick(rems: Seq<u64>, eligible: Seq<bool>, count: int, picks: Seq<bool>) -> bool {
    &&& picks.len() == rems.len()
    &&& eligible.len() == rems.len()
    &&& forall|i: int| 0 <= i < picks.len() && #[trigger] picks[i] ==> eligible[i]
    &&& count_true(picks, picks.len() as int) == count
    &&& forall|i: int, j: int|
        0 <= i < picks.len() && 0 <= j < picks.len() && #[trigger] picks[i] && #[trigger] eligible[j]
            && !picks[j] ==> ranks_before(rems, i, j)
}

/// The `count` eligible items with the largest remainders, the earlier item winning a tie.
pub open spec fn top_picks(rems: Seq<u64>, eligible: Seq<bool>, count: int) -> Seq<bool> {
    choose|p: Seq<bool>| is_top_pick(rems, eligible, count, p)
}

/// A count of marks is never negative.
pub proof fn lemma_count_nonneg_pub(s: Seq<bool>, k: int)
    requires
        0 <= k <= s.len(),
    ensures
        0 <= count_true(s, k) <= k,
{
    lemma_count_bounds(s, k);
}

proof fn lemma_count_bounds(s: Seq<bool>, k: int)
    requires
        0 <= k <= s.len(),
    ensures
        0 <= count_true(s, k) <= k,
    decreases k,
{
    if k > 0 {
        lemma_count_bounds(s, k - 1);
    }
}

proof fn lemma_count_none(s: Seq<bool>, k: int)
    requires
        0 <= k <= s.len(),
        forall|i: int| 0 <= i < k ==> !#[trigger] s[i],
    ensures
        count_true(s, k) == 0,
    decreases k,
{
    if k > 0 {
        lemma_count_none(s, k - 1);
    }
}

/// A pointwise smaller marking has fewer marks, strictly fewer when it misses one.
proof fn lemma_count_subset(q: Seq<bool>, p: Seq<bool>, k: int)
    requires
        0 <= k <= p.len(),
        k <= q.len(),
        forall|i: int| 0 <= i < k && #[trigger] q[i] ==> p[i],
    ensures
        count_true(q, k) <= count_true(p, k),
        (exists|i: int| 0 <= i < k && p[i] && !q[i]) ==> count_true(q, k) < count_true(p, k),
    decreases k,
{
    if k > 0 {
        lemma_count_subset(q, p, k - 1);
        if exists|i: int| 0 <= i < k && p[i] && !q[i] {
            let w = choose|i: int| 0 <= i < k && p[i] && !q[i];
            if w < k - 1 {
                assert(exists|i: int| 0 <= i < k - 1 && p[i] && !q[i]);
            }
        }
    }
}

/// The eligible items are the marked ones plus the eligible ones left unmarked.
proof fn lemma_count_split(eligible: Seq<bool>, picks: Seq<bool>, k: int)
    requires
        0 <= k <= picks.len(),
        k <= eligible.len(),
        forall|i: int| 0 <= i < k && #[trigger] picks[i] ==> eligible[i],
    ensures
        count_true(eligible, k) == count_true(picks, k) + count_left(eligible, picks, k),
    decreases k,
{
    if k > 0 {
        lemma_count_split(eligible, picks, k - 1);
    }
}

proof fn lemma_count_left_witness(a: Seq<bool>, b: Seq<bool>, k: int) -> (w: int)
    requires
        0 <= k <= a.len(),
        k <= b.len(),
        count_left(a, b, k) > 0,
    ensures
        0 <= w < k,
        a[w] && !b[w],
    decreases k,
{
    if a[k - 1] && !b[k - 1] {
        k - 1
    } else {
        lemma_count_left_witness(a, b, k - 1)
    }
}

proof fn lemma_count_update(s: Seq<bool>, w: int, k: int)
    requires
        0 <= w < s.len(),
        0 <= k <= s.len(),
        !s[w],
    ensures
        count_true(s.update(w, true), k) == count_true(s, k) + if w < k {
            1int
        } else {
            0int
        },
    decreases k,
{
    if k > 0 {
        lemma_count_update(s, w, k - 1);
    }
}

/// At most one marking picks the top `count` eligible items.
pub proof fn lemma_top_pick_unique(
    rems: Seq<u64>,
    eligible: Seq<bool>,
    count: int,
    p: Seq<bool>,
    q: Seq<bool>,
)
    requires
        is_top_pick(rems, eligible, count, p),
        is_top_pick(rems, eligible, count, q),
    ensures
        p == q,
{
    let n = p.len() as int;
    if exists|i: int| 0 <= i < n && p[i] && !q[i] {
        let i = choose|i: int| 0 <= i < n && p[i] && !q[i];
        if !exists|j: int| 0 <= j < n && q[j] && !p[j] {
            assert forall|j: int| 0 <= j < n && #[trigger] q[j] implies p[j] by {}
            lemma_count_subset(q, p, n);
        } else {
            let j = choose|j: int| 0 <= j < n && q[j] && !p[j];
            assert(eligible[j] && eligible[i]);
            assert(ranks_before(rems, i, j));
            assert(ranks_before(rems, j, i));
        }
    }
    if exists|i: int| 0 <= i < n && q[i] && !p[i] {
        let i = choose|i: int| 0 <= i < n && q[i] && !p[i];
        assert forall|j: int| 0 <= j < n && #[trigger] p[j] implies q[j] by {
            if !q[j] {
                assert(eligible[i] && eligible[j]);
                assert(ranks_before(rems, j, i));
                assert(ranks_before(rems, i, j));
            }
        }
        lemma_count_subset(p, q, n);
    }
    assert(p =~= q);
}

/// Sum of the first `k` entries of `s`.
pub open spec fn int_sum(s: Seq<int>, k: int) -> int
    decreases k,
{
    if k <= 0 {
        0
    } else {
        int_sum(s, k - 1) + s[k - 1]
    }
}

/// Sum of the rounded-down shares `w[i] * b / d` of the first `k` weights.
pub open spec fn floor_sum(w: Seq<int>, b: int, d: int, k: int) -> int
    decreases k,
{
    if k <= 0 {
        0
    } else {
        floor_sum(w, b, d, k - 1) + w[k - 1] * b / d
    }
}

/// Sum of the rounding remainders `w[i] * b % d` of the first `k` weights.
pub open spec fn rem_total(w: Seq<int>, b: int, d: int, k: int) -> int
    decreases k,
{
    if k <= 0 {
        0
    } else {
        rem_total(w, b, d, k - 1) + (w[k - 1] * b) % d
    }
}

/// Each weight's rounding remainder `w[i] * b % d`.
pub open spec fn remainders(w: Seq<int>, b: int, d: int) -> Seq<u64> {
    Seq::new(w.len(), |i: int| ((w[i] * b) % d) as u64)
}

/// Which weights are positive.
pub open spec fn positive(w: Seq<int>) -> Seq<bool> {
    Seq::new(w.len(), |i: int| w[i] > 0)
}

/// The rounded-down shares and the remainders add back up to `b` times the weights.
pub proof fn lemma_floors_and_rems(w: Seq<int>, b: int, d: int, k: int)
    requires
        0 <= k <= w.len(),
        0 < d,
        0 <= b,
        forall|i: int| 0 <= i < w.len() ==> #[trigger] w[i] >= 0,
    ensures
        d * floor_sum(w, b, d, k) + rem_total(w, b, d, k) == b * int_sum(w, k),
        0 <= rem_total(w, b, d, k) <= (d - 1) * count_true(positive(w), k),
        0 <= floor_sum(w, b, d, k),
        0 <= count_true(positive(w), k) <= k,
    decreases k,
{
    if k > 0 {
        lemma_floors_and_rems(w, b, d, k - 1);
        let wk = w[k - 1];
        let x = wk * b;
        let f0 = floor_sum(w, b, d, k - 1);
        let a = int_sum(w, k - 1);
        let c0 = count_true(positive(w), k - 1);
        assert(wk * b >= 0) by (nonlinear_arith)
            requires
                wk >= 0,
                b >= 0,
        ;
        vstd::arithmetic::div_mod::lemma_fundamental_div_mod(x, d);
        vstd::arithmetic::div_mod::lemma_mod_bound(x, d);
        vstd::arithmetic::div_mod::lemma_div_pos_is_pos(x, d);
        if wk == 0 {
            assert(x == 0) by (nonlinear_arith)
                requires
                    wk == 0,
                    x == wk * b,
            ;
            assert(0int % d == 0) by {
                vstd::arithmetic::div_mod::lemma_small_mod(0nat, d as nat);
            }
        }
        assert(d * (f0 + x / d) == d * f0 + d * (x / d)) by (nonlinear_arith);
        assert(b * (a + wk) == b * a + wk * b) by (nonlinear_arith);
        assert((d - 1) * (c0 + 1) == (d - 1) * c0 + (d - 1)) by (nonlinear_arith);
    }
}

/// When the weights add up to `d`, the rounded-down shares of `b` add up to at most `b`, and
/// the cells they leave over are fewer than the positive weights (none when there are none).
pub proof fn lemma_floor_sum_bounds(w: Seq<int>, b: int, d: int)
    requires
        0 < d,
        0 <= b,
        d == int_sum(w, w.len() as int),
        forall|i: int| 0 <= i < w.len() ==> #[trigger] w[i] >= 0,
    ensures
        0 <= floor_sum(w, b, d, w.len() as int) <= b,
        b - floor_sum(w, b, d, w.len() as int) <= count_true(positive(w), w.len() as int),
        d * (b - floor_sum(w, b, d, w.len() as int)) == rem_total(w, b, d, w.len() as int),
{
    let n = w.len() as int;
    lemma_floors_and_rems(w, b, d, n);
    let f = floor_sum(w, b, d, n);
    let r = rem_total(w, b, d, n);
    let c = count_true(positive(w), n);
    assert(d * (b - f) == r) by (nonlinear_arith)
        requires
            d * f + r == b * d,
    ;
    assert(f <= b) by (nonlinear_arith)
        requires
            d * (b - f) == r,
            r >= 0,
            d > 0,
    ;
    assert(b - f <= c) by (nonlinear_arith)
        requires
            d * (b - f) == r,
            r <= (d - 1) * c,
            d > 0,
            c >= 0,
    ;
}

/// The rounded-down shares of the first `i` weights add up to no more than those of the
/// first `j`.
pub proof fn lemma_floor_sum_monotone(w: Seq<int>, b: int, d: int, i: int, j: int)
    requires
        0 <= i <= j <= w.len(),
        0 < d,
        0 <= b,
        forall|k: int| 0 <= k < w.len() ==> #[trigger] w[k] >= 0,
    ensures
        floor_sum(w, b, d, i) <= floor_sum(w, b, d, j),
    decreases j - i,
{
    if i < j {
        lemma_floor_sum_monotone(w, b, d, i, j - 1);
        let wj = w[j - 1];
        assert(wj * b >= 0) by (nonlinear_arith)
            requires
                wj >= 0,
                b >= 0,
        ;
        vstd::arithmetic::div_mod::lemma_div_pos_is_pos(wj * b, d);
    }
}

/// Handing out all of `d` by the weights' shares of `d` hands each weight back whole.
pub proof fn lemma_floor_sum_whole(w: Seq<int>, d: int, k: int)
    requires
        0 <= k <= w.len(),
        0 < d,
    ensures
        floor_sum(w, d, d, k) == int_sum(w, k),
    decreases k,
{
    if k > 0 {
        lemma_floor_sum_whole(w, d, k - 1);
        vstd::arithmetic::div_mod::lemma_div_multiples_vanish(w[k - 1], d);
        assert(w[k - 1] * d == d * w[k - 1]) by (nonlinear_arith);
    }
}

/// A marking with a mark somewhere has at least one mark.
pub proof fn lemma_count_pos(s: Seq<bool>, k: int, i: int)
    requires
        0 <= i < k <= s.len(),
        s[i],
    ensures
        count_true(s, k) >= 1,
    decreases k,
{
    if i < k - 1 {
        lemma_count_pos(s, k - 1, i);
    }
    lemma_count_bounds(s, k - 1);
}

/// Marks the `count` eligible items with the largest remainders, the earlier item winning a
/// tie.
pub(crate) fn pick_largest_remainders(rems: &[u64], eligible: &[bool], count: usize) -> (picks: Vec<bool>)
    requires
        rems.len() == eligible.len(),
        count <= count_true(eligible@, eligible@.len() as int),
    ensures
        is_top_pick(rems@, eligible@, count as int, picks@),
        picks@ == top_picks(rems@, eligible@, count as int),
{
    let n = rems.len();
    let mut picks: Vec<bool> = Vec::new();
    let mut i: usize = 0;
    while i < n
        invariant
            0 <= i <= n,
            picks@.len() == i,
            forall|j: int| 0 <= j < i ==> !#[trigger] picks@[j],
        decreases n - i,
    {
        picks.push(false);
        i += 1;
    }
    proof {
        lemma_count_none(picks@, n as int);
    }
    let mut k: usize = 0;
    while k < count
        invariant
            n == rems.len(),
            n == eligible.len(),
            count <= count_true(eligible@, n as int),
            0 <= k <= count,
            is_top_pick(rems@, eligible@, k as int, picks@),
        decreases count - k,
    {
        proof {
            lemma_count_split(eligible@, picks@, n as int);
        }
        let mut best: usize = n;
        let mut j: usize = 0;
        while j < n
            invariant
                n == rems.len(),
                n == eligible.len(),
                n == picks@.len(),
                0 <= j <= n,
                best == n || (best < j && eligible@[best as int] && !picks@[best as int]),
                best == n ==> forall|m: int| 0 <= m < j ==> !(#[trigger] eligible@[m] && !picks@[m]),
                best < n ==> forall|m: int|
                    0 <= m < j && #[trigger] eligible@[m] && !picks@[m] && m != best
                        ==> ranks_before(rems@, best as int, m),
            decreases n - j,
        {
            if eligible[j] && !picks[j] {
                if best == n || rems[j] > rems[best] {
                    best = j;
                }
            }
            j += 1;
        }
        proof {
            if best == n {
                let w = lemma_count_left_witness(eligible@, picks@, n as int);
                assert(eligible@[w] && !picks@[w]);
            }
        }
        let ghost old_picks = picks@;
        picks.set(best, true);
        proof {
            lemma_count_update(old_picks, best as int, n as int);
            assert forall|a: int, b: int|
                0 <= a < n && 0 <= b < n && #[trigger] picks@[a] && #[trigger] eligible@[b]
                    && !picks@[b] implies ranks_before(rems@, a, b) by {
                if a != best {
                    assert(old_picks[a]);
                    assert(!old_picks[b]);
                }
            }
        }
        k += 1;
    }
    proof {
        let p = picks@;
        assert(is_top_pick(rems@, eligible@, count as int, p));
        let q = top_picks(rems@, eligible@, count as int);
        assert(is_top_pick(rems@, eligible@, count as int, q));
        lemma_top_pick_unique(rems@, eligible@, count as int, p, q);
    }
    picks
}

} // verus!
