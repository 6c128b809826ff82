//! What the flex solver guarantees of its result: every item ends locked, inside its bounds,
//! moved from its clamped basis only in the direction the items flex.

use vstd::prelude::*;
use crate::flex::{
    clamp_violation, delta, distributed_item, free_amount, grows, hypothetical,
    initial, initial_item, is_open, lemma_pass_decreases, lemma_running_total_bounds,
    lemma_sums_bounded, lemma_weight_sum_monotone, locked_item, locked_sum, open_basis_sum,
    open_count, pass, passes, resolved, rounded_share, shrink_load, spec_clamp, sum_hyp, unclamped,
    lemma_open_count_zero_pub, weight,
    weight_sum, FlexItem,
};

verus! {

/// The sum of `f(i)` over `0 <= i < k`.
pub open spec fn sum_of(f: spec_fn(int) -> int, k: int) -> int
    decreases k,
{
    if k <= 0 {
        0
    } else {
        sum_of(f, k - 1) + f(k - 1)
    }
}

proof fn lemma_sum_le(f: spec_fn(int) -> int, g: spec_fn(int) -> int, k: int)
    requires
        forall|i: int| 0 <= i < k ==> #[trigger] f(i) <= g(i),
    ensures
        sum_of(f, k) <= sum_of(g, k),
    decreases k,
{
    if k > 0 {
        lemma_sum_le(f, g, k - 1);
    }
}

proof fn lemma_sum_split(f: spec_fn(int) -> int, g: spec_fn(int) -> int, h: spec_fn(int) -> int, k: int)
    requires
        forall|i: int| 0 <= i < k ==> #[trigger] f(i) == g(i) + h(i),
    ensures
        sum_of(f, k) == sum_of(g, k) + sum_of(h, k),
    decreases k,
{
    if k > 0 {
        lemma_sum_split(f, g, h, k - 1);
    }
}

proof fn lemma_sum_tight(f: spec_fn(int) -> int, g: spec_fn(int) -> int, k: int)
    requires
        forall|i: int| 0 <= i < k ==> #[trigger] f(i) <= g(i),
        sum_of(g, k) <= sum_of(f, k),
    ensures
        forall|i: int| 0 <= i < k ==> #[trigger] f(i) == g(i),
    decreases k,
{
    if k > 0 {
        lemma_sum_le(f, g, k - 1);
        lemma_sum_tight(f, g, k - 1);
    }
}

proof fn lemma_sum_nonneg_zero(f: spec_fn(int) -> int, k: int)
    requires
        forall|i: int| 0 <= i < k ==> #[trigger] f(i) >= 0,
        sum_of(f, k) <= 0,
    ensures
        forall|i: int| 0 <= i < k ==> #[trigger] f(i) == 0,
    decreases k,
{
    if k > 0 {
        lemma_sum_le(|i: int| 0int, f, k - 1);
        lemma_sum_zero_const(k - 1);
        lemma_sum_nonneg_zero(f, k - 1);
    }
}

proof fn lemma_sum_zero_const(k: int)
    ensures
        sum_of(|i: int| 0int, k) == 0,
    decreases k,
{
    if k > 0 {
        lemma_sum_zero_const(k - 1);
    }
}

/// What an item takes from the container: its target once locked, its basis held in its
/// bounds while open.
pub open spec fn budget_of(it: FlexItem) -> int {
    if is_open(it) {
        hypothetical(it)
    } else {
        it.target as int
    }
}

/// What the items take from the container.
pub open spec fn budget(s: Seq<FlexItem>) -> int {
    sum_of(|i: int| budget_of(s[i]), s.len() as int)
}

/// The items' targets added up.
pub open spec fn target_sum(s: Seq<FlexItem>) -> int {
    sum_of(|i: int| s[i].target as int, s.len() as int)
}

/// The items' minimums added up.
pub open spec fn min_total(s: Seq<FlexItem>) -> int {
    sum_of(|i: int| s[i].min as int, s.len() as int)
}

/// What an item is sure to take from the container: its target once locked, its minimum while
/// open.
pub open spec fn floor_of(it: FlexItem) -> int {
    if is_open(it) {
        it.min as int
    } else {
        it.target as int
    }
}

/// What the items are sure to take from the container.
pub open spec fn floor_total(s: Seq<FlexItem>) -> int {
    sum_of(|i: int| floor_of(s[i]), s.len() as int)
}

/// The most an item can take from the container: its target once locked, its maximum while
/// open.
pub open spec fn ceiling_of(it: FlexItem) -> int {
    if is_open(it) {
        it.max as int
    } else {
        it.target as int
    }
}

/// The most the items can take from the container.
pub open spec fn ceiling_total(s: Seq<FlexItem>) -> int {
    sum_of(|i: int| ceiling_of(s[i]), s.len() as int)
}

/// The most items that grow can reach: the maximum of each flexible item, the clamped basis of
/// each item that does not flex.
pub open spec fn reach_total(s: Seq<FlexItem>) -> int {
    sum_of(
        |i: int|
            if s[i].grow > 0 {
                s[i].max as int
            } else {
                hypothetical(s[i])
            },
        s.len() as int,
    )
}

/// A state the solver can be in: bounds ordered, locked items inside their bounds and moved
/// from their clamped basis only in the solving direction, open items able to move in that
/// direction, and the items never taking more than the container when growing (less while any
/// item is open) and never less than it when shrinking.
pub open spec fn sound(s: Seq<FlexItem>, grow: bool, container: int, gap: int) -> bool {
    &&& forall|i: int| 0 <= i < s.len() ==> #[trigger] s[i].min <= s[i].max
    &&& forall|i: int|
        0 <= i < s.len() && !is_open(#[trigger] s[i]) ==> s[i].min <= s[i].target <= s[i].max
    &&& forall|i: int|
        0 <= i < s.len() && is_open(#[trigger] s[i]) ==> (grow ==> s[i].basis <= s[i].max
            && s[i].grow >= 1) && (!grow ==> s[i].basis >= s[i].min)
    &&& forall|i: int|
        0 <= i < s.len() && !is_open(#[trigger] s[i]) ==> (grow ==> s[i].target >= hypothetical(
            s[i],
        )) && (!grow ==> s[i].target <= hypothetical(s[i]))
    &&& grow ==> budget(s) + gap <= container
    &&& !grow ==> budget(s) + gap >= container
    &&& open_count(s, s.len() as int) > 0 ==> (grow ==> budget(s) + gap < container)
}

proof fn lemma_locked_sum_is(s: Seq<FlexItem>, k: int)
    requires
        0 <= k <= s.len(),
    ensures
        locked_sum(s, k) == sum_of(
            |i: int|
                if is_open(s[i]) {
                    0
                } else {
                    s[i].target as int
                },
            k,
        ),
    decreases k,
{
    if k > 0 {
        lemma_locked_sum_is(s, k - 1);
    }
}

proof fn lemma_open_basis_sum_is(s: Seq<FlexItem>, k: int)
    requires
        0 <= k <= s.len(),
    ensures
        open_basis_sum(s, k) == sum_of(
            |i: int|
                if is_open(s[i]) {
                    s[i].basis as int
                } else {
                    0
                },
            k,
        ),
    decreases k,
{
    if k > 0 {
        lemma_open_basis_sum_is(s, k - 1);
    }
}

proof fn lemma_violation_is(s: Seq<FlexItem>, k: int, grow: bool, a: int, tw: int)
    requires
        0 <= k <= s.len(),
    ensures
        clamp_violation(s, k, grow, a, tw) == sum_of(
            |i: int|
                if is_open(s[i]) {
                    delta(s, i, grow, a, tw)
                } else {
                    0
                },
            k,
        ),
    decreases k,
{
    if k > 0 {
        lemma_violation_is(s, k - 1, grow, a, tw);
    }
}

proof fn lemma_sum_hyp_is(s: Seq<FlexItem>, k: int)
    requires
        0 <= k <= s.len(),
    ensures
        sum_hyp(s, k) == sum_of(|i: int| hypothetical(s[i]), k),
    decreases k,
{
    if k > 0 {
        lemma_sum_hyp_is(s, k - 1);
    }
}

/// The budget is what the locked items hold plus what the open items would hold in bounds.
proof fn lemma_budget_split(s: Seq<FlexItem>)
    ensures
        budget(s) == locked_sum(s, s.len() as int) + sum_of(
            |i: int|
                if is_open(s[i]) {
                    hypothetical(s[i])
                } else {
                    0
                },
            s.len() as int,
        ),
{
    let n = s.len() as int;
    lemma_locked_sum_is(s, n);
    lemma_sum_split(
        |i: int| budget_of(s[i]),
        |i: int|
            if is_open(s[i]) {
                0
            } else {
                s[i].target as int
            },
        |i: int|
            if is_open(s[i]) {
                hypothetical(s[i])
            } else {
                0
            },
        n,
    );
}

/// The solver's first state is sound.
pub(crate) proof fn lemma_initial_sound(s: Seq<FlexItem>, container: int, gap: int)
    requires
        forall|i: int| 0 <= i < s.len() ==> #[trigger] s[i].min <= s[i].max,
    ensures
        sound(initial(s, grows(s, container, gap)), grows(s, container, gap), container, gap),
{
    let grow = grows(s, container, gap);
    let t = initial(s, grow);
    let n = s.len() as int;
    assert forall|i: int| 0 <= i < n implies #[trigger] budget_of(t[i]) == hypothetical(s[i]) by {
        assert(t[i] == initial_item(s[i], grow));
    }
    lemma_sum_split(|i: int| budget_of(t[i]), |i: int| hypothetical(s[i]), |i: int| 0int, n);
    lemma_sum_zero_const(n);
    lemma_sum_hyp_is(s, n);
    assert(budget(t) == sum_hyp(s, n));
    assert forall|i: int| 0 <= i < t.len() implies #[trigger] t[i].min <= t[i].max by {
        assert(t[i] == initial_item(s[i], grow));
    }
    assert forall|i: int| 0 <= i < t.len() && !is_open(#[trigger] t[i]) implies t[i].min
        <= t[i].target <= t[i].max by {
        assert(t[i] == initial_item(s[i], grow));
    }
    assert forall|i: int| 0 <= i < t.len() && is_open(#[trigger] t[i]) implies (grow
        ==> t[i].basis <= t[i].max && t[i].grow >= 1) && (!grow ==> t[i].basis >= t[i].min) by {
        assert(t[i] == initial_item(s[i], grow));
    }
    assert forall|i: int| 0 <= i < t.len() && !is_open(#[trigger] t[i]) implies (grow
        ==> t[i].target >= hypothetical(t[i])) && (!grow ==> t[i].target <= hypothetical(t[i])) by {
        assert(t[i] == initial_item(s[i], grow));
    }
}

/// The share of the free space that open item `i` gets in a distributing pass.
pub open spec fn share(t: Seq<FlexItem>, grow: bool, a: int, tw: int, i: int) -> int {
    rounded_share(a, weight_sum(t, i + 1, grow), tw) - rounded_share(a, weight_sum(t, i, grow), tw)
}

/// Where a distributing pass puts item `i`: clamped into its bounds when open, where it is
/// when locked.
pub open spec fn placed(t: Seq<FlexItem>, grow: bool, a: int, tw: int, i: int) -> int {
    if is_open(t[i]) {
        spec_clamp(unclamped(t, i, grow, a, tw), t[i].min as int, t[i].max as int)
    } else {
        t[i].target as int
    }
}

proof fn lemma_shares_telescope(t: Seq<FlexItem>, grow: bool, a: int, tw: int, k: int)
    requires
        0 <= k <= t.len(),
    ensures
        sum_of(|i: int| share(t, grow, a, tw, i), k) == rounded_share(
            a,
            weight_sum(t, k, grow),
            tw,
        ) - rounded_share(a, 0, tw),
    decreases k,
{
    if k > 0 {
        lemma_shares_telescope(t, grow, a, tw, k - 1);
    }
}

/// The open items' placements add up to their bases plus (growing) or minus (shrinking) the
/// free space, plus the total clamping move.
proof fn lemma_placed_sum(t: Seq<FlexItem>, grow: bool, a: int, tw: int)
    requires
        a > 0,
        tw > 0,
        tw == weight_sum(t, t.len() as int, grow),
    ensures
        sum_of(|i: int| placed(t, grow, a, tw, i), t.len() as int) == locked_sum(
            t,
            t.len() as int,
        ) + open_basis_sum(t, t.len() as int) + (if grow {
            a
        } else {
            -a
        }) + clamp_violation(t, t.len() as int, grow, a, tw),
{
    let n = t.len() as int;
    let dir: int = if grow {
        1
    } else {
        -1
    };
    let fl = |i: int|
        if is_open(t[i]) {
            0
        } else {
            t[i].target as int
        };
    let fb = |i: int|
        if is_open(t[i]) {
            t[i].basis as int
        } else {
            0
        };
    let fs = |i: int| dir * share(t, grow, a, tw, i);
    let fd = |i: int|
        if is_open(t[i]) {
            delta(t, i, grow, a, tw)
        } else {
            0
        };
    let f1 = |i: int| fl(i) + fb(i);
    let f2 = |i: int| fs(i) + fd(i);
    assert forall|i: int| 0 <= i < n implies #[trigger] placed(t, grow, a, tw, i) == f1(i) + f2(i) by {
        if !is_open(t[i]) {
            assert(weight_sum(t, i + 1, grow) == weight_sum(t, i, grow));
        }
    }
    lemma_sum_split(|i: int| placed(t, grow, a, tw, i), f1, f2, n);
    lemma_sum_split(f1, fl, fb, n);
    lemma_sum_split(f2, fs, fd, n);
    lemma_locked_sum_is(t, n);
    lemma_open_basis_sum_is(t, n);
    lemma_violation_is(t, n, grow, a, tw);
    lemma_shares_telescope(t, grow, a, tw, n);
    lemma_running_total_bounds(a, 0, tw, tw);
    lemma_sum_scale(fs, |i: int| share(t, grow, a, tw, i), dir, n);
}

proof fn lemma_sum_scale(g: spec_fn(int) -> int, f: spec_fn(int) -> int, c: int, k: int)
    requires
        forall|i: int| 0 <= i < k ==> #[trigger] g(i) == c * f(i),
    ensures
        sum_of(g, k) == c * sum_of(f, k),
    decreases k,
{
    if k > 0 {
        lemma_sum_scale(g, f, c, k - 1);
        assert(c * sum_of(f, k - 1) + c * f(k - 1) == c * (sum_of(f, k - 1) + f(k - 1)))
            by (nonlinear_arith);
    }
}

proof fn lemma_pass_item(t: Seq<FlexItem>, grow: bool, container: int, gap: int, i: int)
    requires
        sound(t, grow, container, gap),
        0 <= i < t.len(),
        free_amount(t, grow, container, gap) > 0,
        weight_sum(t, t.len() as int, grow) > 0,
    ensures
        ({
            let n = t.len() as int;
            let a = free_amount(t, grow, container, gap);
            let tw = weight_sum(t, n, grow);
            let v = clamp_violation(t, n, grow, a, tw);
            let t2 = pass(t, grow, container, gap);
            let e = placed(t, grow, a, tw, i);
            &&& t2.len() == t.len()
            &&& t2[i].basis == t[i].basis
            &&& t2[i].min == t[i].min
            &&& t2[i].max == t[i].max
            &&& t2[i].grow == t[i].grow
            &&& is_open(t2[i]) ==> is_open(t[i])
            &&& !is_open(t2[i]) ==> t2[i].min <= t2[i].target <= t2[i].max
            &&& !is_open(t2[i]) ==> (grow ==> t2[i].target >= hypothetical(t[i])) && (!grow
                ==> t2[i].target <= hypothetical(t[i]))
            &&& v == 0 ==> !is_open(t2[i]) && budget_of(t2[i]) == e
            &&& !is_open(t2[i]) ==> t2[i].target as int == e
            &&& is_open(t2[i]) ==> t[i].min <= e <= t[i].max
            &&& (v > 0 && is_open(t[i]) && !is_open(t2[i])) ==> t2[i].target == t2[i].min
            &&& (v < 0 && is_open(t[i]) && !is_open(t2[i])) ==> t2[i].target == t2[i].max
            &&& (grow && v < 0) ==> budget_of(t2[i]) <= e
            &&& (grow && v > 0) ==> budget_of(t2[i]) == budget_of(t[i])
            &&& (!grow && v > 0) ==> budget_of(t2[i]) >= e
            &&& (!grow && v < 0) ==> budget_of(t2[i]) == budget_of(t[i])
        }),
{
    let n = t.len() as int;
    let a = free_amount(t, grow, container, gap);
    let tw = weight_sum(t, n, grow);
    let v = clamp_violation(t, n, grow, a, tw);
    let t2 = pass(t, grow, container, gap);
    assert(t2[i] == locked_item(distributed_item(t, i, grow, a, tw), v));
    if is_open(t[i]) {
        lemma_weight_sum_monotone(t, i, i + 1, grow);
        lemma_weight_sum_monotone(t, i + 1, n, grow);
        lemma_weight_sum_monotone(t, 0, i, grow);
        lemma_sums_bounded(t, i, grow);
        lemma_running_total_bounds(a, weight_sum(t, i, grow), weight_sum(t, i + 1, grow), tw);
        assert(share(t, grow, a, tw, i) >= 0);
        assert(t[i].min <= t[i].max);
        let u = unclamped(t, i, grow, a, tw);
        if grow {
            assert(u >= t[i].basis);
        } else {
            assert(u <= t[i].basis);
        }
    }
}

pub(crate) proof fn lemma_open_weight_is_basis(t: Seq<FlexItem>, k: int)
    requires
        0 <= k <= t.len(),
    ensures
        weight_sum(t, k, false) == open_basis_sum(t, k),
    decreases k,
{
    if k > 0 {
        lemma_open_weight_is_basis(t, k - 1);
    }
}

proof fn lemma_weight_ge_count(t: Seq<FlexItem>, k: int)
    requires
        0 <= k <= t.len(),
        forall|i: int| 0 <= i < t.len() && is_open(#[trigger] t[i]) ==> t[i].grow >= 1,
    ensures
        weight_sum(t, k, true) >= open_count(t, k),
    decreases k,
{
    if k > 0 {
        lemma_weight_ge_count(t, k - 1);
    }
}

/// A pass of the solver keeps its state sound.
pub(crate) proof fn lemma_pass_sound(t: Seq<FlexItem>, grow: bool, container: int, gap: int)
    requires
        sound(t, grow, container, gap),
        open_count(t, t.len() as int) > 0,
    ensures
        sound(pass(t, grow, container, gap), grow, container, gap),
        pass(t, grow, container, gap).len() == t.len(),
{
    let n = t.len() as int;
    let a = free_amount(t, grow, container, gap);
    let tw = weight_sum(t, n, grow);
    let t2 = pass(t, grow, container, gap);
    lemma_pass_decreases(t, grow, container, gap);
    let hyp_open = |i: int|
        if is_open(t[i]) {
            hypothetical(t[i])
        } else {
            0
        };
    let basis_open = |i: int|
        if is_open(t[i]) {
            t[i].basis as int
        } else {
            0
        };
    lemma_budget_split(t);
    lemma_open_basis_sum_is(t, n);
    if tw <= 0 || a <= 0 {
        if grow {
            lemma_sum_le(basis_open, hyp_open, n);
            lemma_weight_ge_count(t, n);
            assert(false);
        } else {
            lemma_sum_le(hyp_open, basis_open, n);
            if tw <= 0 {
                lemma_open_weight_is_basis(t, n);
                assert(sum_of(basis_open, n) == open_basis_sum(t, n));
                lemma_sum_nonneg_zero(basis_open, n);
            } else {
                lemma_sum_tight(hyp_open, basis_open, n);
            }
            assert forall|i: int| 0 <= i < n && !is_open(#[trigger] t2[i]) implies t2[i].min
                <= t2[i].target <= t2[i].max && t2[i].target <= hypothetical(t2[i]) by {
                if is_open(t[i]) {
                    assert(basis_open(i) == hyp_open(i) || basis_open(i) == 0);
                }
            }
            assert forall|i: int| 0 <= i < n implies !is_open(#[trigger] t2[i]) by {}
            crate::flex::lemma_open_count_zero_pub(t2, n);
            let b2 = |i: int| budget_of(t2[i]);
            let b1 = |i: int| budget_of(t[i]);
            assert forall|i: int| 0 <= i < n implies #[trigger] b2(i) == b1(i) by {
                if is_open(t[i]) {
                    assert(basis_open(i) == hyp_open(i) || basis_open(i) == 0);
                }
            }
            lemma_sum_le(b2, b1, n);
            lemma_sum_le(b1, b2, n);
        }
    } else {
        let v = clamp_violation(t, n, grow, a, tw);
        assert forall|i: int| 0 <= i < n implies #[trigger] t2[i].min <= t2[i].max by {
            lemma_pass_item(t, grow, container, gap, i);
        }
        assert forall|i: int| 0 <= i < n && !is_open(#[trigger] t2[i]) implies t2[i].min
            <= t2[i].target <= t2[i].max by {
            lemma_pass_item(t, grow, container, gap, i);
        }
        assert forall|i: int| 0 <= i < n && is_open(#[trigger] t2[i]) implies (grow
            ==> t2[i].basis <= t2[i].max && t2[i].grow >= 1) && (!grow ==> t2[i].basis
            >= t2[i].min) by {
            lemma_pass_item(t, grow, container, gap, i);
        }
        assert forall|i: int| 0 <= i < n && !is_open(#[trigger] t2[i]) implies (grow
            ==> t2[i].target >= hypothetical(t2[i])) && (!grow ==> t2[i].target <= hypothetical(
            t2[i],
        )) by {
            lemma_pass_item(t, grow, container, gap, i);
        }
        let b2 = |i: int| budget_of(t2[i]);
        let b1 = |i: int| budget_of(t[i]);
        let e = |i: int| placed(t, grow, a, tw, i);
        lemma_placed_sum(t, grow, a, tw);
        lemma_locked_sum_is(t, n);
        if v == 0 {
            assert forall|i: int| 0 <= i < n implies !is_open(#[trigger] t2[i]) by {
                lemma_pass_item(t, grow, container, gap, i);
            }
            crate::flex::lemma_open_count_zero_pub(t2, n);
            assert forall|i: int| 0 <= i < n implies #[trigger] b2(i) == e(i) by {
                lemma_pass_item(t, grow, container, gap, i);
            }
            lemma_sum_le(b2, e, n);
            lemma_sum_le(e, b2, n);
        } else if grow && v < 0 {
            assert forall|i: int| 0 <= i < n implies #[trigger] b2(i) <= e(i) by {
                lemma_pass_item(t, grow, container, gap, i);
            }
            lemma_sum_le(b2, e, n);
        } else if !grow && v > 0 {
            assert forall|i: int| 0 <= i < n implies #[trigger] e(i) <= b2(i) by {
                lemma_pass_item(t, grow, container, gap, i);
            }
            lemma_sum_le(e, b2, n);
        } else {
            assert forall|i: int| 0 <= i < n implies #[trigger] b2(i) <= b1(i) by {
                lemma_pass_item(t, grow, container, gap, i);
            }
            assert forall|i: int| 0 <= i < n implies #[trigger] b1(i) <= b2(i) by {
                lemma_pass_item(t, grow, container, gap, i);
            }
            lemma_sum_le(b2, b1, n);
            lemma_sum_le(b1, b2, n);
        }
    }
}

/// A pass of a shrinking solver never makes the items sure to take more than the container
/// when they were not before.
proof fn lemma_pass_floor(t: Seq<FlexItem>, container: int, gap: int)
    requires
        sound(t, false, container, gap),
        open_count(t, t.len() as int) > 0,
        floor_total(t) + gap <= container,
    ensures
        floor_total(pass(t, false, container, gap)) + gap <= container,
{
    let n = t.len() as int;
    let grow = false;
    let a = free_amount(t, grow, container, gap);
    let tw = weight_sum(t, n, grow);
    let t2 = pass(t, grow, container, gap);
    lemma_pass_decreases(t, grow, container, gap);
    let f1 = |i: int| floor_of(t[i]);
    let f2 = |i: int| floor_of(t2[i]);
    let lk = |i: int|
        if is_open(t[i]) {
            0
        } else {
            t[i].target as int
        };
    let ob = |i: int|
        if is_open(t[i]) {
            t[i].basis as int
        } else {
            0
        };
    let om = |i: int|
        if is_open(t[i]) {
            t[i].min as int
        } else {
            0
        };
    lemma_locked_sum_is(t, n);
    lemma_open_basis_sum_is(t, n);
    if tw <= 0 || a <= 0 {
        if a <= 0 {
            assert forall|i: int| 0 <= i < n implies #[trigger] f2(i) == lk(i) + ob(i) by {}
            lemma_sum_split(f2, lk, ob, n);
        } else {
            lemma_open_weight_is_basis(t, n);
            assert(sum_of(ob, n) == open_basis_sum(t, n));
            lemma_sum_nonneg_zero(ob, n);
            assert forall|i: int| 0 <= i < n implies #[trigger] f1(i) == lk(i) + om(i) by {}
            lemma_sum_split(f1, lk, om, n);
            assert forall|i: int| 0 <= i < n implies #[trigger] om(i) == 0int by {
                if is_open(t[i]) {
                    assert(ob(i) == 0);
                }
            }
            lemma_sum_split(om, |i: int| 0int, |i: int| 0int, n);
            lemma_sum_zero_const(n);
            assert(false);
        }
    } else {
        let v = clamp_violation(t, n, grow, a, tw);
        let e = |i: int| placed(t, grow, a, tw, i);
        lemma_placed_sum(t, grow, a, tw);
        if v > 0 {
            assert forall|i: int| 0 <= i < n implies #[trigger] f2(i) <= f1(i) by {
                lemma_pass_item(t, grow, container, gap, i);
            }
            lemma_sum_le(f2, f1, n);
        } else {
            assert forall|i: int| 0 <= i < n implies #[trigger] f2(i) <= e(i) by {
                lemma_pass_item(t, grow, container, gap, i);
            }
            lemma_sum_le(f2, e, n);
        }
    }
}

/// Passes of a shrinking solver keep the items sure to take no more than the container.
proof fn lemma_passes_floor(t: Seq<FlexItem>, container: int, gap: int, fuel: nat)
    requires
        sound(t, false, container, gap),
        floor_total(t) + gap <= container,
    ensures
        floor_total(passes(t, false, container, gap, fuel)) + gap <= container,
    decreases fuel,
{
    lemma_sums_bounded(t, t.len() as int, false);
    if fuel > 0 && open_count(t, t.len() as int) > 0 {
        lemma_pass_sound(t, false, container, gap);
        lemma_pass_floor(t, container, gap);
        lemma_passes_floor(pass(t, false, container, gap), container, gap, (fuel - 1) as nat);
    }
}

/// A pass of a growing solver never leaves the items unable to reach the container when they
/// could before.
proof fn lemma_pass_ceiling(t: Seq<FlexItem>, container: int, gap: int)
    requires
        sound(t, true, container, gap),
        open_count(t, t.len() as int) > 0,
        ceiling_total(t) + gap >= container,
    ensures
        ceiling_total(pass(t, true, container, gap)) + gap >= container,
{
    let n = t.len() as int;
    let grow = true;
    let a = free_amount(t, grow, container, gap);
    let tw = weight_sum(t, n, grow);
    let t2 = pass(t, grow, container, gap);
    lemma_pass_sound(t, grow, container, gap);
    let c1 = |i: int| ceiling_of(t[i]);
    let c2 = |i: int| ceiling_of(t2[i]);
    if tw <= 0 || a <= 0 {
        let hyp_open = |i: int|
            if is_open(t[i]) {
                hypothetical(t[i])
            } else {
                0
            };
        let basis_open = |i: int|
            if is_open(t[i]) {
                t[i].basis as int
            } else {
                0
            };
        lemma_budget_split(t);
        lemma_open_basis_sum_is(t, n);
        lemma_sum_le(basis_open, hyp_open, n);
        lemma_weight_ge_count(t, n);
        assert(false);
    } else {
        let v = clamp_violation(t, n, grow, a, tw);
        let e = |i: int| placed(t, grow, a, tw, i);
        lemma_placed_sum(t, grow, a, tw);
        lemma_locked_sum_is(t, n);
        if v < 0 {
            assert forall|i: int| 0 <= i < n implies #[trigger] c1(i) <= c2(i) by {
                lemma_pass_item(t, grow, container, gap, i);
            }
            lemma_sum_le(c1, c2, n);
        } else {
            assert forall|i: int| 0 <= i < n implies #[trigger] e(i) <= c2(i) by {
                lemma_pass_item(t, grow, container, gap, i);
            }
            lemma_sum_le(e, c2, n);
        }
    }
}

/// Passes of a growing solver keep the items able to reach the container.
proof fn lemma_passes_ceiling(t: Seq<FlexItem>, container: int, gap: int, fuel: nat)
    requires
        sound(t, true, container, gap),
        ceiling_total(t) + gap >= container,
    ensures
        ceiling_total(passes(t, true, container, gap, fuel)) + gap >= container,
    decreases fuel,
{
    lemma_sums_bounded(t, t.len() as int, true);
    if fuel > 0 && open_count(t, t.len() as int) > 0 {
        lemma_pass_sound(t, true, container, gap);
        lemma_pass_ceiling(t, container, gap);
        lemma_passes_ceiling(pass(t, true, container, gap), container, gap, (fuel - 1) as nat);
    }
}

/// Two items agree on everything but their target and freeze state.
pub open spec fn same_shape(a: FlexItem, b: FlexItem) -> bool {
    a.basis == b.basis && a.min == b.min && a.max == b.max && a.grow == b.grow
}

/// A pass changes only the items' targets and freeze states.
pub(crate) proof fn lemma_pass_keeps_fields(t: Seq<FlexItem>, grow: bool, container: int, gap: int)
    ensures
        pass(t, grow, container, gap).len() == t.len(),
        forall|i: int|
            0 <= i < t.len() ==> #[trigger] same_shape(pass(t, grow, container, gap)[i], t[i]),
{
}

/// In a shrinking solver's state, the locked targets and the open bases add up to no more
/// than each item's basis or minimum, whichever is larger, added up.
pub(crate) proof fn lemma_load_bound(s: Seq<FlexItem>, container: int, gap: int, k: int)
    requires
        sound(s, false, container, gap),
        0 <= k <= s.len(),
    ensures
        locked_sum(s, k) + open_basis_sum(s, k) <= shrink_load(s, k),
    decreases k,
{
    if k > 0 {
        lemma_load_bound(s, container, gap, k - 1);
        let it = s[k - 1];
        assert(it.min <= it.max);
    }
}

/// Items with the same bases and minimums carry the same load.
pub(crate) proof fn lemma_load_same(s: Seq<FlexItem>, t: Seq<FlexItem>, k: int)
    requires
        s.len() == t.len(),
        0 <= k <= s.len(),
        forall|i: int| 0 <= i < s.len() ==> #[trigger] same_shape(s[i], t[i]),
    ensures
        shrink_load(s, k) == shrink_load(t, k),
    decreases k,
{
    if k > 0 {
        lemma_load_same(s, t, k - 1);
        assert(same_shape(s[k - 1], t[k - 1]));
    }
}

/// A pass leaves every locked item as it is.
proof fn lemma_pass_keeps_locked(t: Seq<FlexItem>, grow: bool, container: int, gap: int)
    ensures
        pass(t, grow, container, gap).len() == t.len(),
        forall|i: int| 0 <= i < t.len() && !is_open(t[i]) ==> #[trigger] pass(t, grow, container, gap)[i] == t[i],
{
    assert forall|i: int| 0 <= i < t.len() && !is_open(t[i]) implies #[trigger] pass(t, grow, container, gap)[i]
        == t[i] by {
        assert(t[i].flex == crate::flex::Flexibility(0));
    }
}

/// Passes leave every locked item as it is.
pub(crate) proof fn lemma_passes_keep_locked(t: Seq<FlexItem>, grow: bool, container: int, gap: int, fuel: nat)
    ensures
        passes(t, grow, container, gap, fuel).len() == t.len(),
        forall|i: int|
            0 <= i < t.len() && !is_open(t[i]) ==> #[trigger] passes(t, grow, container, gap, fuel)[i] == t[i],
    decreases fuel,
{
    lemma_sums_bounded(t, t.len() as int, grow);
    if fuel > 0 && open_count(t, t.len() as int) > 0 {
        let t2 = pass(t, grow, container, gap);
        lemma_pass_keeps_locked(t, grow, container, gap);
        lemma_passes_keep_locked(t2, grow, container, gap, (fuel - 1) as nat);
        assert(passes(t, grow, container, gap, fuel) == passes(t2, grow, container, gap, (fuel - 1) as nat));
        assert forall|i: int| 0 <= i < t.len() && !is_open(t[i]) implies #[trigger] passes(
            t,
            grow,
            container,
            gap,
            fuel,
        )[i] == t[i] by {
            assert(t2[i] == t[i]);
        }
    }
}

/// Passes repeated from a sound state, with at least one pass per open item, end in a sound
/// state with no item open.
proof fn lemma_passes_sound(t: Seq<FlexItem>, grow: bool, container: int, gap: int, fuel: nat)
    requires
        sound(t, grow, container, gap),
        open_count(t, t.len() as int) <= fuel,
    ensures
        passes(t, grow, container, gap, fuel).len() == t.len(),
        sound(passes(t, grow, container, gap, fuel), grow, container, gap),
        open_count(passes(t, grow, container, gap, fuel), t.len() as int) == 0,
        forall|i: int|
            0 <= i < t.len() ==> #[trigger] same_shape(passes(t, grow, container, gap, fuel)[i], t[i]),
    decreases fuel,
{
    lemma_sums_bounded(t, t.len() as int, grow);
    if fuel > 0 && open_count(t, t.len() as int) > 0 {
        let t2 = pass(t, grow, container, gap);
        lemma_pass_sound(t, grow, container, gap);
        lemma_pass_decreases(t, grow, container, gap);
        lemma_pass_keeps_fields(t, grow, container, gap);
        lemma_passes_sound(t2, grow, container, gap, (fuel - 1) as nat);
        let r = passes(t2, grow, container, gap, (fuel - 1) as nat);
        assert forall|i: int| 0 <= i < t.len() implies #[trigger] same_shape(r[i], t[i]) by {
            assert(same_shape(r[i], t2[i]));
            assert(same_shape(t2[i], t[i]));
        }
    }
}

/// No item is open when the open count is zero.
proof fn lemma_none_open(t: Seq<FlexItem>, k: int, i: int)
    requires
        0 <= i < k <= t.len(),
        open_count(t, k) == 0,
    ensures
        !is_open(t[i]),
    decreases k,
{
    lemma_sums_bounded(t, k - 1, true);
    if i < k - 1 {
        lemma_none_open(t, k - 1, i);
    }
}

/// Every item that the flex solver resolves ends locked, with its target inside its bounds,
/// whatever the container and the gaps; and when the items grow into free space no target
/// ends below its basis clamped into its bounds and together they never overflow the
/// container, filling it exactly whenever the flexible ones can reach it; when they shrink to
/// fit none ends above its clamped basis, and together they fill the container exactly
/// whenever their minimums fit in it.
pub proof fn lemma_resolved_within_bounds(s: Seq<FlexItem>, container: u16, gap: u32)
    requires
        forall|i: int| 0 <= i < s.len() ==> #[trigger] s[i].min <= s[i].max,
    ensures
        resolved(s, container as int, gap as int).len() == s.len(),
        forall|i: int|
            0 <= i < s.len() ==> {
                let r = #[trigger] resolved(s, container as int, gap as int)[i];
                &&& !is_open(r)
                &&& r.min <= r.target <= r.max
                &&& r.basis == s[i].basis
                &&& r.min == s[i].min
                &&& r.max == s[i].max
                &&& r.grow == s[i].grow
                &&& grows(s, container as int, gap as int) ==> r.target >= hypothetical(s[i])
                &&& !grows(s, container as int, gap as int) ==> r.target <= hypothetical(s[i])
            },
        grows(s, container as int, gap as int) ==> target_sum(resolved(s, container as int, gap as int))
            + gap <= container,
        !grows(s, container as int, gap as int) && min_total(s) + gap <= container ==> target_sum(
            resolved(s, container as int, gap as int),
        ) + gap == container,
        grows(s, container as int, gap as int) && reach_total(s) + gap >= container ==> target_sum(
            resolved(s, container as int, gap as int),
        ) + gap == container,
{
    let n = s.len() as int;
    if n > 0 {
        let c = container as int;
        let g = gap as int;
        let grow = grows(s, c, g);
        let t0 = initial(s, grow);
        lemma_initial_sound(s, c, g);
        lemma_sums_bounded(t0, n, grow);
        lemma_passes_sound(t0, grow, c, g, s.len());
        let r = resolved(s, c, g);
        assert(r == passes(t0, grow, c, g, s.len()));
        assert forall|i: int| 0 <= i < n implies #[trigger] same_shape(r[i], s[i]) by {
            assert(same_shape(r[i], t0[i]));
            assert(t0[i] == initial_item(s[i], grow));
        }
        assert forall|i: int| 0 <= i < n implies !is_open(#[trigger] r[i]) by {
            lemma_none_open(r, n, i);
        }
        assert forall|i: int| 0 <= i < n implies {
            let x = #[trigger] r[i];
            &&& !is_open(x)
            &&& x.min <= x.target <= x.max
            &&& x.basis == s[i].basis
            &&& x.min == s[i].min
            &&& x.max == s[i].max
            &&& x.grow == s[i].grow
            &&& grow ==> x.target >= hypothetical(s[i])
            &&& !grow ==> x.target <= hypothetical(s[i])
        } by {
            assert(!is_open(r[i]));
            assert(same_shape(r[i], s[i]));
        }
        assert forall|i: int| 0 <= i < n implies #[trigger] budget_of(r[i]) == r[i].target as int by {
            assert(!is_open(r[i]));
        }
        lemma_sum_split(|i: int| budget_of(r[i]), |i: int| r[i].target as int, |i: int| 0int, n);
        lemma_sum_zero_const(n);
        if !grow && min_total(s) + g <= c {
            assert forall|i: int| 0 <= i < n implies #[trigger] floor_of(t0[i]) == s[i].min as int by {
                assert(t0[i] == initial_item(s[i], grow));
            }
            lemma_sum_split(|i: int| floor_of(t0[i]), |i: int| s[i].min as int, |i: int| 0int, n);
            lemma_passes_floor(t0, c, g, s.len());
            assert forall|i: int| 0 <= i < n implies #[trigger] floor_of(r[i]) == r[i].target as int by {
                assert(!is_open(r[i]));
            }
            lemma_sum_split(|i: int| floor_of(r[i]), |i: int| r[i].target as int, |i: int| 0int, n);
        }
        if grow && reach_total(s) + g >= c {
            assert forall|i: int| 0 <= i < n implies #[trigger] ceiling_of(t0[i]) == (if s[i].grow > 0 {
                s[i].max as int
            } else {
                hypothetical(s[i])
            }) by {
                assert(t0[i] == initial_item(s[i], grow));
            }
            lemma_sum_split(
                |i: int| ceiling_of(t0[i]),
                |i: int|
                    if s[i].grow > 0 {
                        s[i].max as int
                    } else {
                        hypothetical(s[i])
                    },
                |i: int| 0int,
                n,
            );
            lemma_passes_ceiling(t0, c, g, s.len());
            assert forall|i: int| 0 <= i < n implies #[trigger] ceiling_of(r[i]) == r[i].target as int by {
                assert(!is_open(r[i]));
            }
            lemma_sum_split(|i: int| ceiling_of(r[i]), |i: int| r[i].target as int, |i: int| 0int, n);
        }
    }
}

/// The grow weights of the first `k` items, added up.
pub open spec fn grow_sum(s: Seq<FlexItem>, k: int) -> int
    decreases k,
{
    if k <= 0 {
        0
    } else {
        grow_sum(s, k - 1) + s[k - 1].grow as int
    }
}

/// The bases of the first `k` items, added up.
pub open spec fn basis_sum(s: Seq<FlexItem>, k: int) -> int
    decreases k,
{
    if k <= 0 {
        0
    } else {
        basis_sum(s, k - 1) + s[k - 1].basis as int
    }
}

/// What item `i` gets of `free` cells shared by grow weight: its rounded running share less
/// the rounded running share of the items before it.
pub open spec fn weighted_share(s: Seq<FlexItem>, free: int, i: int) -> int {
    let total = grow_sum(s, s.len() as int);
    (free * grow_sum(s, i + 1) + total / 2) / total - (free * grow_sum(s, i) + total / 2) / total
}

proof fn lemma_all_open_sums(s: Seq<FlexItem>, k: int)
    requires
        0 <= k <= s.len(),
        forall|i: int| 0 <= i < s.len() ==> #[trigger] s[i].min <= s[i].basis <= s[i].max && s[i].grow >= 1,
    ensures
        locked_sum(initial(s, true), k) == 0,
        open_basis_sum(initial(s, true), k) == basis_sum(s, k),
        weight_sum(initial(s, true), k, true) == grow_sum(s, k),
        open_count(initial(s, true), k) == k,
        grow_sum(s, k) >= k,
        basis_sum(s, k) == sum_hyp(s, k),
    decreases k,
{
    if k > 0 {
        lemma_all_open_sums(s, k - 1);
        let t = initial(s, true);
        assert(s[k - 1].min <= s[k - 1].basis <= s[k - 1].max && s[k - 1].grow >= 1);
        assert(t[k - 1] == initial_item(s[k - 1], true));
        assert(is_open(t[k - 1]));
        assert(weight(t[k - 1], true) == s[k - 1].grow);
    }
}

proof fn lemma_no_violation(t: Seq<FlexItem>, k: int, grow: bool, a: int, tw: int)
    requires
        0 <= k <= t.len(),
        forall|j: int| 0 <= j < k && is_open(t[j]) ==> #[trigger] delta(t, j, grow, a, tw) == 0,
    ensures
        clamp_violation(t, k, grow, a, tw) == 0,
    decreases k,
{
    if k > 0 {
        lemma_no_violation(t, k - 1, grow, a, tw);
    }
}

/// Free space is shared in proportion to grow weight: when the items grow into a container
/// with room to spare, every item has a grow weight and a basis within its bounds, and no
/// item's share of the free space would carry it past its maximum, each item ends at its basis
/// plus its rounded share of the free space by grow weight.
pub proof fn lemma_grow_shares_by_weight(s: Seq<FlexItem>, container: u16, gap: u32)
    requires
        s.len() > 0,
        forall|i: int| 0 <= i < s.len() ==> #[trigger] s[i].min <= s[i].basis <= s[i].max && s[i].grow >= 1,
        basis_sum(s, s.len() as int) + gap < container,
        forall|i: int|
            0 <= i < s.len() ==> s[i].basis + #[trigger] weighted_share(
                s,
                container - basis_sum(s, s.len() as int) - gap,
                i,
            ) <= s[i].max,
    ensures
        forall|i: int|
            0 <= i < s.len() ==> #[trigger] resolved(s, container as int, gap as int)[i].target == s[i].basis
                + weighted_share(s, container - basis_sum(s, s.len() as int) - gap, i),
{
    let n = s.len() as int;
    let c = container as int;
    let g = gap as int;
    let t = initial(s, true);
    lemma_all_open_sums(s, n);
    assert(grows(s, c, g));
    let free = c - basis_sum(s, n) - g;
    let a = free_amount(t, true, c, g);
    let tw = weight_sum(t, n, true);
    assert(a == free);
    assert(tw == grow_sum(s, n));
    assert(a > 0 && tw > 0);
    assert forall|j: int| 0 <= j < n && is_open(t[j]) implies #[trigger] delta(t, j, true, a, tw) == 0 by {
        assert(t[j] == initial_item(s[j], true));
        lemma_weight_sum_monotone(t, j, j + 1, true);
        lemma_weight_sum_monotone(t, j + 1, n, true);
        lemma_weight_sum_monotone(t, 0, j, true);
        lemma_sums_bounded(t, j, true);
        lemma_all_open_sums(s, j);
        lemma_all_open_sums(s, j + 1);
        lemma_running_total_bounds(a, weight_sum(t, j, true), weight_sum(t, j + 1, true), tw);
        assert(weighted_share(s, free, j) == rounded_share(a, weight_sum(t, j + 1, true), tw) - rounded_share(
            a,
            weight_sum(t, j, true),
            tw,
        ));
        assert(s[j].basis + weighted_share(s, free, j) <= s[j].max);
    }
    lemma_no_violation(t, n, true, a, tw);
    let t2 = pass(t, true, c, g);
    assert forall|j: int| 0 <= j < n implies !is_open(#[trigger] t2[j]) by {}
    lemma_open_count_zero_pub(t2, n);
    assert(passes(t2, true, c, g, (n - 1) as nat) == t2);
    assert(passes(t, true, c, g, n as nat) == passes(t2, true, c, g, (n - 1) as nat));
    assert forall|i: int| 0 <= i < n implies #[trigger] resolved(s, c, g)[i].target == s[i].basis
        + weighted_share(s, free, i) by {
        assert(t[i] == initial_item(s[i], true));
        lemma_all_open_sums(s, i);
        lemma_all_open_sums(s, i + 1);
        assert(delta(t, i, true, a, tw) == 0);
    }
}

/// What item `i` gives up of a deficit of `deficit` cells shared by basis: its rounded running
/// share less the rounded running share of the items before it.
pub open spec fn basis_share(s: Seq<FlexItem>, deficit: int, i: int) -> int {
    let total = basis_sum(s, s.len() as int);
    (deficit * basis_sum(s, i + 1) + total / 2) / total - (deficit * basis_sum(s, i) + total / 2) / total
}

proof fn lemma_all_open_shrink_sums(s: Seq<FlexItem>, k: int)
    requires
        0 <= k <= s.len(),
        forall|i: int| 0 <= i < s.len() ==> #[trigger] s[i].min <= s[i].basis <= s[i].max,
    ensures
        locked_sum(initial(s, false), k) == 0,
        open_basis_sum(initial(s, false), k) == basis_sum(s, k),
        weight_sum(initial(s, false), k, false) == basis_sum(s, k),
        open_count(initial(s, false), k) == k,
        basis_sum(s, k) == sum_hyp(s, k),
    decreases k,
{
    if k > 0 {
        lemma_all_open_shrink_sums(s, k - 1);
        let t = initial(s, false);
        assert(s[k - 1].min <= s[k - 1].basis <= s[k - 1].max);
        assert(t[k - 1] == initial_item(s[k - 1], false));
        assert(is_open(t[k - 1]));
        assert(weight(t[k - 1], false) == s[k - 1].basis);
    }
}

/// A deficit is shared in proportion to basis: when the items do not fit the container, every
/// item's basis lies within its bounds, and no item's share of the deficit would carry it below
/// its minimum, each item ends at its basis less its rounded share of the deficit by basis.
pub proof fn lemma_shrink_shares_by_basis(s: Seq<FlexItem>, container: u16, gap: u32)
    requires
        s.len() > 0,
        forall|i: int| 0 <= i < s.len() ==> #[trigger] s[i].min <= s[i].basis <= s[i].max,
        basis_sum(s, s.len() as int) > 0,
        basis_sum(s, s.len() as int) + gap > container,
        forall|i: int|
            0 <= i < s.len() ==> s[i].basis - #[trigger] basis_share(
                s,
                basis_sum(s, s.len() as int) + gap - container,
                i,
            ) >= s[i].min,
    ensures
        forall|i: int|
            0 <= i < s.len() ==> #[trigger] resolved(s, container as int, gap as int)[i].target == s[i].basis
                - basis_share(s, basis_sum(s, s.len() as int) + gap - container, i),
{
    let n = s.len() as int;
    let c = container as int;
    let g = gap as int;
    let t = initial(s, false);
    lemma_all_open_shrink_sums(s, n);
    assert(!grows(s, c, g));
    let deficit = basis_sum(s, n) + g - c;
    let a = free_amount(t, false, c, g);
    let tw = weight_sum(t, n, false);
    assert(a == deficit);
    assert(tw == basis_sum(s, n));
    assert forall|j: int| 0 <= j < n && is_open(t[j]) implies #[trigger] delta(t, j, false, a, tw) == 0 by {
        assert(t[j] == initial_item(s[j], false));
        lemma_weight_sum_monotone(t, j, j + 1, false);
        lemma_weight_sum_monotone(t, j + 1, n, false);
        lemma_weight_sum_monotone(t, 0, j, false);
        lemma_sums_bounded(t, j, false);
        lemma_all_open_shrink_sums(s, j);
        lemma_all_open_shrink_sums(s, j + 1);
        lemma_running_total_bounds(a, weight_sum(t, j, false), weight_sum(t, j + 1, false), tw);
        assert(basis_share(s, deficit, j) == rounded_share(a, weight_sum(t, j + 1, false), tw) - rounded_share(
            a,
            weight_sum(t, j, false),
            tw,
        ));
        assert(s[j].basis - basis_share(s, deficit, j) >= s[j].min);
    }
    lemma_no_violation(t, n, false, a, tw);
    let t2 = pass(t, false, c, g);
    assert forall|j: int| 0 <= j < n implies !is_open(#[trigger] t2[j]) by {}
    lemma_open_count_zero_pub(t2, n);
    assert(passes(t2, false, c, g, (n - 1) as nat) == t2);
    assert(passes(t, false, c, g, n as nat) == passes(t2, false, c, g, (n - 1) as nat));
    assert forall|i: int| 0 <= i < n implies #[trigger] resolved(s, c, g)[i].target == s[i].basis
        - basis_share(s, deficit, i) by {
        assert(t[i] == initial_item(s[i], false));
        lemma_all_open_shrink_sums(s, i);
        lemma_all_open_shrink_sums(s, i + 1);
        assert(delta(t, i, false, a, tw) == 0);
    }
}

} // verus!
