//! Main-axis flex grow/shrink solver.

use vstd::prelude::*;

verus! {

/// Freeze state of an item inside [`resolve`]: `0` is locked, `1` grew to its minimum,
/// `2` shrank to its maximum, `3` is open.
#[derive(Clone, Copy, PartialEq, Eq, Structural)]
pub struct Flexibility(pub u8);

impl Flexibility {
    /// Code of an item whose size is fixed.
    pub const RIGID: u8 = 0;
    /// Code of an item that was clamped up to its minimum in the last pass.
    pub const GROWABLE: u8 = 1;
    /// Code of an item that was clamped down to its maximum in the last pass.
    pub const SHRINKABLE: u8 = 2;
    /// Code of an item that can still take part in distribution.
    pub const FLEXIBLE: u8 = 3;

    /// Returns true when the item's size is fixed.
    pub fn is_locked(self) -> (r: bool)
        ensures
            r == (self.0 == 0),
    {
        self.0 == 0
    }
}

/// Per-item input and output for [`resolve`].
#[derive(Clone, Copy)]
pub struct FlexItem {
    /// Preferred size along the main axis before flex distribution.
    pub basis: u16,
    /// Minimum size along the main axis.
    pub min: u16,
    /// Maximum size along the main axis.
    pub max: u16,
    /// Relative weight used when distributing extra space.
    pub grow: u8,
    /// Resolved size along the main axis, written by [`resolve`].
    pub target: u16,
    /// Freeze state used while resolving.
    pub flex: Flexibility,
}

impl FlexItem {
    /// Weight factor applied to an item's basis when distributing a deficit.
    pub const FLEX_SHRINK: u32 = 1;

    /// An item as [`FlexItem::new`] creates it.
    pub open spec fn new_item(basis: u16, min: u16, max: u16, grow: u8) -> FlexItem {
        FlexItem { basis, min, max, grow, target: 0, flex: Flexibility(3) }
    }

    /// Creates an item ready for [`resolve`] with `target` initialized to zero.
    pub fn new(basis: u16, min: u16, max: u16, grow: u8) -> (r: FlexItem)
        ensures
            r.basis == basis,
            r.min == min,
            r.max == max,
            r.grow == grow,
            r.target == 0,
            r.flex == Flexibility(3),
            r == FlexItem::new_item(basis, min, max, grow),
    {
        FlexItem { basis, min, max, grow, target: 0, flex: Flexibility(Flexibility::FLEXIBLE) }
    }
}

/// Access to a [`FlexItem`] embedded in a wrapper type.
pub trait AsFlexItem {
    /// Returns a shared reference to the embedded [`FlexItem`].
    fn flex_item(&self) -> &FlexItem;

    /// Returns a mutable reference to the embedded [`FlexItem`].
    fn flex_item_mut(&mut self) -> &mut FlexItem;
}

impl AsFlexItem for FlexItem {
    fn flex_item(&self) -> (r: &FlexItem)
        ensures
            *r == *self,
    {
        self
    }

    fn flex_item_mut(&mut self) -> (r: &mut FlexItem)
        ensures
            *r == *old(self),
            *final(self) == *final(r),
    {
        self
    }
}

// ---------------------------------------------------------------------------------------------
// Specification of the solver.
// ---------------------------------------------------------------------------------------------

/// `v` clamped into `[lo, hi]`, checking the lower bound first.
pub open spec fn spec_clamp(v: int, lo: int, hi: int) -> int {
    if v < lo {
        lo
    } else if v > hi {
        hi
    } else {
        v
    }
}

/// The item's basis clamped into its bounds.
pub open spec fn hypothetical(it: FlexItem) -> int {
    spec_clamp(it.basis as int, it.min as int, it.max as int)
}

/// Whether the item still takes part in distribution.
pub open spec fn is_open(it: FlexItem) -> bool {
    it.flex.0 != 0
}

/// The weight of an item: its grow weight when growing, its basis when shrinking.
pub open spec fn weight(it: FlexItem, grow: bool) -> int {
    if grow {
        it.grow as int
    } else {
        it.basis as int
    }
}

/// Sum of the hypothetical sizes of the first `k` items.
pub open spec fn sum_hyp(s: Seq<FlexItem>, k: int) -> int
    decreases k,
{
    if k <= 0 {
        0
    } else {
        sum_hyp(s, k - 1) + hypothetical(s[k - 1])
    }
}

/// Sum of the targets of the locked items among the first `k`.
pub open spec fn locked_sum(s: Seq<FlexItem>, k: int) -> int
    decreases k,
{
    if k <= 0 {
        0
    } else {
        locked_sum(s, k - 1) + if is_open(s[k - 1]) {
            0
        } else {
            s[k - 1].target as int
        }
    }
}

/// Sum of the bases of the open items among the first `k`.
pub open spec fn open_basis_sum(s: Seq<FlexItem>, k: int) -> int
    decreases k,
{
    if k <= 0 {
        0
    } else {
        open_basis_sum(s, k - 1) + if is_open(s[k - 1]) {
            s[k - 1].basis as int
        } else {
            0
        }
    }
}

/// Sum of the weights of the open items among the first `k`.
pub open spec fn weight_sum(s: Seq<FlexItem>, k: int, grow: bool) -> int
    decreases k,
{
    if k <= 0 {
        0
    } else {
        weight_sum(s, k - 1, grow) + if is_open(s[k - 1]) {
            weight(s[k - 1], grow)
        } else {
            0
        }
    }
}

/// Number of open items among the first `k`.
pub open spec fn open_count(s: Seq<FlexItem>, k: int) -> int
    decreases k,
{
    if k <= 0 {
        0
    } else {
        open_count(s, k - 1) + if is_open(s[k - 1]) {
            1int
        } else {
            0int
        }
    }
}

/// Whether the items grow into extra space rather than shrink to fit.
pub open spec fn grows(s: Seq<FlexItem>, container: int, gap: int) -> bool {
    sum_hyp(s, s.len() as int) + gap < container
}

/// An item's state before the first distribution pass: items that cannot move in the
/// chosen direction are locked at their hypothetical size, the rest start open at their basis.
pub open spec fn initial_item(it: FlexItem, grow: bool) -> FlexItem {
    let freeze = if grow {
        it.grow == 0 || it.basis > hypothetical(it)
    } else {
        (it.basis as int) < hypothetical(it)
    };
    if freeze {
        FlexItem { target: hypothetical(it) as u16, flex: Flexibility(0), ..it }
    } else {
        FlexItem { target: it.basis, flex: Flexibility(3), ..it }
    }
}

/// The items' states before the first distribution pass.
pub open spec fn initial(s: Seq<FlexItem>, grow: bool) -> Seq<FlexItem> {
    Seq::new(s.len(), |i: int| initial_item(s[i], grow))
}

/// The free space to hand out in the pass's direction: positive when there is room to grow
/// (or a deficit to shrink away).
pub open spec fn free_amount(s: Seq<FlexItem>, grow: bool, container: int, gap: int) -> int {
    let n = s.len() as int;
    let free = container - locked_sum(s, n) - open_basis_sum(s, n) - gap;
    if grow {
        free
    } else {
        -free
    }
}

/// The rounded share of `a` owed to the open items whose weights add up to `cw` out of `tw`.
pub open spec fn rounded_share(a: int, cw: int, tw: int) -> int {
    (a * cw + tw / 2) / tw
}

/// The size an open item would take before clamping in this pass.
pub open spec fn unclamped(s: Seq<FlexItem>, i: int, grow: bool, a: int, tw: int) -> int {
    let share = rounded_share(a, weight_sum(s, i + 1, grow), tw) - rounded_share(
        a,
        weight_sum(s, i, grow),
        tw,
    );
    s[i].basis as int + if grow {
        share
    } else {
        -share
    }
}

/// How far clamping moved an open item in this pass.
pub open spec fn delta(s: Seq<FlexItem>, i: int, grow: bool, a: int, tw: int) -> int {
    let u = unclamped(s, i, grow, a, tw);
    spec_clamp(u, s[i].min as int, s[i].max as int) - u
}

/// Sum of the clamping moves of the open items among the first `k`.
pub open spec fn clamp_violation(s: Seq<FlexItem>, k: int, grow: bool, a: int, tw: int) -> int
    decreases k,
{
    if k <= 0 {
        0
    } else {
        clamp_violation(s, k - 1, grow, a, tw) + if is_open(s[k - 1]) {
            delta(s, k - 1, grow, a, tw)
        } else {
            0
        }
    }
}

/// An item after the distribution step of a pass.
pub open spec fn distributed_item(s: Seq<FlexItem>, i: int, grow: bool, a: int, tw: int) -> FlexItem {
    if !is_open(s[i]) {
        s[i]
    } else {
        let u = unclamped(s, i, grow, a, tw);
        let c = spec_clamp(u, s[i].min as int, s[i].max as int);
        let d = c - u;
        FlexItem {
            target: c as u16,
            flex: Flexibility(
                if d > 0 {
                    1
                } else if d < 0 {
                    2
                } else {
                    3
                },
            ),
            ..s[i]
        }
    }
}

/// An item after the locking step of a pass with total clamping move `v`: everything locks
/// when nothing was clamped, otherwise the items clamped in the dominant direction lock.
pub open spec fn locked_item(it: FlexItem, v: int) -> FlexItem {
    if v == 0 {
        FlexItem { flex: Flexibility(0), ..it }
    } else {
        let dominant: u8 = if v > 0 {
            1
        } else {
            2
        };
        if it.flex.0 == dominant {
            FlexItem { flex: Flexibility(0), ..it }
        } else {
            it
        }
    }
}

/// One pass of the solver.
pub open spec fn pass(s: Seq<FlexItem>, grow: bool, container: int, gap: int) -> Seq<FlexItem> {
    let n = s.len() as int;
    let a = free_amount(s, grow, container, gap);
    let tw = weight_sum(s, n, grow);
    if tw <= 0 || a <= 0 {
        Seq::new(
            s.len(),
            |i: int|
                if is_open(s[i]) {
                    FlexItem { target: s[i].basis, flex: Flexibility(0), ..s[i] }
                } else {
                    s[i]
                },
        )
    } else {
        let v = clamp_violation(s, n, grow, a, tw);
        Seq::new(s.len(), |i: int| locked_item(distributed_item(s, i, grow, a, tw), v))
    }
}

/// Passes repeated until no item is open, at most `fuel` times.
pub open spec fn passes(s: Seq<FlexItem>, grow: bool, container: int, gap: int, fuel: nat) -> Seq<
    FlexItem,
>
    decreases fuel,
{
    if fuel == 0 || open_count(s, s.len() as int) == 0 {
        s
    } else {
        passes(pass(s, grow, container, gap), grow, container, gap, (fuel - 1) as nat)
    }
}

/// The items as [`resolve`] leaves them.
pub open spec fn resolved(s: Seq<FlexItem>, container: int, gap: int) -> Seq<FlexItem> {
    if s.len() == 0 {
        s
    } else {
        let grow = grows(s, container, gap);
        passes(initial(s, grow), grow, container, gap, s.len())
    }
}

/// The items are admissible input: each item's bounds are ordered, and there are at most
/// 2^30 of them, which keeps the solver's 64-bit products in range.
pub open spec fn admissible(s: Seq<FlexItem>) -> bool {
    &&& forall|i: int| 0 <= i < s.len() ==> #[trigger] s[i].min <= s[i].max
    &&& s.len() <= 0x4000_0000
}

/// Each item's basis or minimum, whichever is larger, added up over the first `k` items: what
/// the items ask of the container in a shrinking solver's first pass.
pub open spec fn shrink_load(s: Seq<FlexItem>, k: int) -> int
    decreases k,
{
    if k <= 0 {
        0
    } else {
        shrink_load(s, k - 1) + if s[k - 1].basis >= s[k - 1].min {
            s[k - 1].basis as int
        } else {
            s[k - 1].min as int
        }
    }
}

/// The load of `k` items is at most `k` times the largest size.
pub proof fn lemma_load_le(s: Seq<FlexItem>, k: int)
    requires
        0 <= k <= s.len(),
    ensures
        0 <= shrink_load(s, k) <= k * 65535,
    decreases k,
{
    if k > 0 {
        lemma_load_le(s, k - 1);
    }
}

/// The load of a run of items is the difference of the loads of the prefixes around it, and
/// no more than the load of all of them.
pub proof fn lemma_load_range(s: Seq<FlexItem>, a: int, b: int)
    requires
        0 <= a <= b <= s.len(),
    ensures
        shrink_load(s.subrange(a, b), b - a) == shrink_load(s, b) - shrink_load(s, a),
        shrink_load(s, a) <= shrink_load(s, b),
    decreases b - a,
{
    if a < b {
        lemma_load_range(s, a, b - 1);
        let r = s.subrange(a, b);
        assert(r.subrange(0, b - 1 - a) =~= s.subrange(a, b - 1));
        lemma_load_prefix(r, s.subrange(a, b - 1), b - 1 - a);
        assert(r[b - 1 - a] == s[b - 1]);
    }
}

/// Sequences that agree on their first `k` items carry the same load over them.
pub proof fn lemma_load_prefix(s: Seq<FlexItem>, t: Seq<FlexItem>, k: int)
    requires
        0 <= k <= s.len(),
        k <= t.len(),
        forall|i: int| 0 <= i < k ==> s[i] == t[i],
    ensures
        shrink_load(s, k) == shrink_load(t, k),
    decreases k,
{
    if k > 0 {
        lemma_load_prefix(s, t, k - 1);
    }
}

/// Whether the solver's 32-bit arithmetic stays in range: always when the items grow, where
/// no share exceeds the container; when they shrink, the deficit of the first pass (the
/// largest of all passes) must leave room for an item's size.
pub open spec fn deficit_fits(s: Seq<FlexItem>, container: int, gap: int) -> bool {
    grows(s, container, gap) || shrink_load(s, s.len() as int) + gap - container <= i32::MAX - 65535
}

// ---------------------------------------------------------------------------------------------
// Lemmas about the specification.
// ---------------------------------------------------------------------------------------------

pub(crate) proof fn lemma_sums_bounded(s: Seq<FlexItem>, k: int, grow: bool)
    requires
        0 <= k <= s.len(),
    ensures
        0 <= sum_hyp(s, k) <= k * 65535,
        0 <= locked_sum(s, k),
        0 <= open_basis_sum(s, k),
        locked_sum(s, k) + open_basis_sum(s, k) <= k * 65535,
        0 <= weight_sum(s, k, grow) <= k * 65535,
        0 <= open_count(s, k) <= k,
    decreases k,
{
    if k > 0 {
        lemma_sums_bounded(s, k - 1, grow);
    }
}

proof fn lemma_mul_le(k: int, n: int, c: int)
    requires
        0 <= k <= n,
        0 <= c,
    ensures
        k * c <= n * c,
{
    assert(k * c <= n * c) by (nonlinear_arith)
        requires
            0 <= k <= n,
            0 <= c,
    ;
}

pub(crate) proof fn lemma_weight_sum_monotone(s: Seq<FlexItem>, i: int, j: int, grow: bool)
    requires
        0 <= i <= j <= s.len(),
    ensures
        weight_sum(s, i, grow) <= weight_sum(s, j, grow),
    decreases j - i,
{
    if i < j {
        lemma_weight_sum_monotone(s, i, j - 1, grow);
    }
}

pub(crate) proof fn lemma_running_total_bounds(a: int, c1: int, c2: int, tw: int)
    requires
        a > 0,
        tw > 0,
        0 <= c1 <= c2 <= tw,
    ensures
        0 <= rounded_share(a, c1, tw),
        rounded_share(a, c1, tw) <= rounded_share(a, c2, tw),
        rounded_share(a, c2, tw) <= a,
        rounded_share(a, 0, tw) == 0,
        rounded_share(a, tw, tw) == a,
{
    assert(0 <= a * c1 <= a * c2 <= a * tw) by (nonlinear_arith)
        requires
            a > 0,
            0 <= c1 <= c2 <= tw,
    ;
    vstd::arithmetic::div_mod::lemma_div_is_ordered(a * c1 + tw / 2, a * c2 + tw / 2, tw);
    vstd::arithmetic::div_mod::lemma_div_is_ordered(a * c2 + tw / 2, a * tw + tw / 2, tw);
    vstd::arithmetic::div_mod::lemma_div_pos_is_pos(a * c1 + tw / 2, tw);
    assert((a * tw + tw / 2) / tw == a) by {
        vstd::arithmetic::div_mod::lemma_fundamental_div_mod_converse(a * tw + tw / 2, tw, a, tw / 2);
    }
    assert((a * 0 + tw / 2) / tw == 0) by {
        vstd::arithmetic::div_mod::lemma_fundamental_div_mod_converse(a * 0 + tw / 2, tw, 0, tw / 2);
    }
}

/// Bounds on an open item's share and clamping move in a distributing pass.
proof fn lemma_unclamped_bounds(s: Seq<FlexItem>, i: int, grow: bool, a: int, tw: int)
    requires
        0 <= i < s.len(),
        a > 0,
        tw > 0,
        tw == weight_sum(s, s.len() as int, grow),
        is_open(s[i]),
        grow ==> a <= 65535,
        a <= i32::MAX - 65535,
        s[i].min <= s[i].max,
    ensures
        ({
            let lo = rounded_share(a, weight_sum(s, i, grow), tw);
            let hi = rounded_share(a, weight_sum(s, i + 1, grow), tw);
            0 <= lo <= hi <= a
        }),
        -(i32::MAX - 65535) <= unclamped(s, i, grow, a, tw) <= 131070,
        -131070 <= delta(s, i, grow, a, tw) <= i32::MAX,
        s[i].min <= spec_clamp(unclamped(s, i, grow, a, tw), s[i].min as int, s[i].max as int)
            <= s[i].max,
{
    lemma_weight_sum_monotone(s, i, i + 1, grow);
    lemma_weight_sum_monotone(s, i + 1, s.len() as int, grow);
    lemma_weight_sum_monotone(s, 0, i, grow);
    lemma_sums_bounded(s, i, grow);
    lemma_running_total_bounds(a, weight_sum(s, i, grow), weight_sum(s, i + 1, grow), tw);
    lemma_running_total_bounds(a, weight_sum(s, i + 1, grow), tw, tw);
}

proof fn lemma_violation_bounded(s: Seq<FlexItem>, k: int, grow: bool, a: int, tw: int)
    requires
        0 <= k <= s.len(),
        a > 0,
        tw > 0,
        tw == weight_sum(s, s.len() as int, grow),
        grow ==> a <= 65535,
        a <= i32::MAX - 65535,
        forall|i: int| 0 <= i < s.len() ==> #[trigger] s[i].min <= s[i].max,
    ensures
        -k * 131070 <= clamp_violation(s, k, grow, a, tw) <= k * (i32::MAX as int),
    decreases k,
{
    if k > 0 {
        lemma_violation_bounded(s, k - 1, grow, a, tw);
        if is_open(s[k - 1]) {
            lemma_unclamped_bounds(s, k - 1, grow, a, tw);
        }
    }
}

proof fn lemma_violation_witness(s: Seq<FlexItem>, k: int, grow: bool, a: int, tw: int)
    requires
        0 <= k <= s.len(),
        clamp_violation(s, k, grow, a, tw) != 0,
    ensures
        clamp_violation(s, k, grow, a, tw) > 0 ==> exists|j: int|
            0 <= j < k && is_open(s[j]) && #[trigger] delta(s, j, grow, a, tw) > 0,
        clamp_violation(s, k, grow, a, tw) < 0 ==> exists|j: int|
            0 <= j < k && is_open(s[j]) && #[trigger] delta(s, j, grow, a, tw) < 0,
    decreases k,
{
    if k > 0 {
        let v = clamp_violation(s, k, grow, a, tw);
        let prev = clamp_violation(s, k - 1, grow, a, tw);
        if is_open(s[k - 1]) {
            let d = delta(s, k - 1, grow, a, tw);
            if v > 0 && d <= 0 {
                lemma_violation_witness(s, k - 1, grow, a, tw);
            }
            if v < 0 && d >= 0 {
                lemma_violation_witness(s, k - 1, grow, a, tw);
            }
        } else {
            lemma_violation_witness(s, k - 1, grow, a, tw);
        }
    }
}

proof fn lemma_open_count_le(s: Seq<FlexItem>, t: Seq<FlexItem>, k: int)
    requires
        0 <= k <= s.len(),
        k <= t.len(),
        forall|j: int| 0 <= j < k && is_open(#[trigger] t[j]) ==> is_open(s[j]),
    ensures
        open_count(t, k) <= open_count(s, k),
    decreases k,
{
    if k > 0 {
        lemma_open_count_le(s, t, k - 1);
    }
}

proof fn lemma_open_count_lt(s: Seq<FlexItem>, t: Seq<FlexItem>, k: int, w: int)
    requires
        0 <= w < k <= s.len(),
        k <= t.len(),
        forall|j: int| 0 <= j < k && is_open(#[trigger] t[j]) ==> is_open(s[j]),
        is_open(s[w]),
        !is_open(t[w]),
    ensures
        open_count(t, k) < open_count(s, k),
    decreases k,
{
    if w == k - 1 {
        lemma_open_count_le(s, t, k - 1);
    } else {
        lemma_open_count_lt(s, t, k - 1, w);
    }
}

/// No item is open among the first `k` when none of them is.
pub(crate) proof fn lemma_open_count_zero_pub(t: Seq<FlexItem>, k: int)
    requires
        0 <= k <= t.len(),
        forall|j: int| 0 <= j < k ==> !is_open(#[trigger] t[j]),
    ensures
        open_count(t, k) == 0,
{
    lemma_open_count_zero(t, k);
}

proof fn lemma_open_count_zero(t: Seq<FlexItem>, k: int)
    requires
        0 <= k <= t.len(),
        forall|j: int| 0 <= j < k ==> !is_open(#[trigger] t[j]),
    ensures
        open_count(t, k) == 0,
    decreases k,
{
    if k > 0 {
        lemma_open_count_zero(t, k - 1);
    }
}

proof fn lemma_open_count_witness(s: Seq<FlexItem>, k: int) -> (w: int)
    requires
        0 <= k <= s.len(),
        open_count(s, k) > 0,
    ensures
        0 <= w < k,
        is_open(s[w]),
    decreases k,
{
    if is_open(s[k - 1]) {
        k - 1
    } else {
        lemma_open_count_witness(s, k - 1)
    }
}

/// Every pass of the solver locks at least one open item.
pub(crate) proof fn lemma_pass_decreases(s: Seq<FlexItem>, grow: bool, container: int, gap: int)
    requires
        open_count(s, s.len() as int) > 0,
    ensures
        pass(s, grow, container, gap).len() == s.len(),
        open_count(pass(s, grow, container, gap), s.len() as int) < open_count(s, s.len() as int),
{
    let n = s.len() as int;
    let t = pass(s, grow, container, gap);
    let a = free_amount(s, grow, container, gap);
    let tw = weight_sum(s, n, grow);
    let w0 = lemma_open_count_witness(s, n);
    if tw <= 0 || a <= 0 {
        lemma_open_count_zero(t, n);
    } else {
        let v = clamp_violation(s, n, grow, a, tw);
        if v == 0 {
            lemma_open_count_zero(t, n);
        } else {
            lemma_violation_witness(s, n, grow, a, tw);
            let w = if v > 0 {
                choose|j: int| 0 <= j < n && is_open(s[j]) && #[trigger] delta(s, j, grow, a, tw) > 0
            } else {
                choose|j: int| 0 <= j < n && is_open(s[j]) && #[trigger] delta(s, j, grow, a, tw) < 0
            };
            assert(!is_open(t[w]));
            lemma_open_count_lt(s, t, n, w);
        }
    }
}

// ---------------------------------------------------------------------------------------------
// The solver.
// ---------------------------------------------------------------------------------------------

fn clamp_u16(v: u16, lo: u16, hi: u16) -> (r: u16)
    requires
        lo <= hi,
    ensures
        r == spec_clamp(v as int, lo as int, hi as int),
{
    if v < lo {
        lo
    } else if v > hi {
        hi
    } else {
        v
    }
}

fn clamp_i32(v: i32, lo: i32, hi: i32) -> (r: i32)
    requires
        lo <= hi,
    ensures
        r == spec_clamp(v as int, lo as int, hi as int),
{
    if v < lo {
        lo
    } else if v > hi {
        hi
    } else {
        v
    }
}

/// Resolves main-axis sizes for a slice of flex items.
///
/// Items that cannot move in the chosen direction are locked at their basis clamped into
/// their bounds; the rest share the free space (or the deficit) in proportion to their grow
/// weight (or their basis), passes repeating until no item violates its bounds.
pub fn resolve(items: &mut [FlexItem], container_main: u16, gap_total: u32)
    requires
        admissible(old(items)@),
        deficit_fits(old(items)@, container_main as int, gap_total as int),
    ensures
        final(items)@ == resolved(old(items)@, container_main as int, gap_total as int),
        forall|i: int|
            0 <= i < final(items)@.len() ==> final(items)@[i].min <= #[trigger] final(items)@[i].target
                <= final(items)@[i].max,
        forall|i: int|
            0 <= i < final(items)@.len() ==> {
                let t = #[trigger] final(items)@[i].target;
                &&& grows(old(items)@, container_main as int, gap_total as int) ==> t
                    >= hypothetical(old(items)@[i])
                &&& !grows(old(items)@, container_main as int, gap_total as int) ==> t
                    <= hypothetical(old(items)@[i])
            },
        grows(old(items)@, container_main as int, gap_total as int) ==> crate::flex_laws::target_sum(
            final(items)@,
        ) + gap_total <= container_main,
        !grows(old(items)@, container_main as int, gap_total as int) && crate::flex_laws::min_total(
            old(items)@,
        ) + gap_total <= container_main ==> crate::flex_laws::target_sum(final(items)@) + gap_total
            == container_main,
        grows(old(items)@, container_main as int, gap_total as int) && crate::flex_laws::reach_total(
            old(items)@,
        ) + gap_total >= container_main ==> crate::flex_laws::target_sum(final(items)@) + gap_total
            == container_main,
        final(items)@.len() == old(items)@.len(),
        forall|i: int|
            0 <= i < old(items)@.len() ==> {
                let (a, b) = (old(items)@[i], #[trigger] final(items)@[i]);
                &&& b.basis == a.basis
                &&& b.min == a.min
                &&& b.max == a.max
                &&& b.grow == a.grow
            },
        forall|i: int|
            0 <= i < old(items)@.len() ==> {
                let (a, b) = (old(items)@[i], #[trigger] final(items)@[i]);
                &&& grows(old(items)@, container_main as int, gap_total as int) && (a.grow == 0 || a.basis > a.max)
                    ==> b.target == hypothetical(a)
                &&& !grows(old(items)@, container_main as int, gap_total as int) && a.basis < a.min ==> b.target
                    == a.min
            },
        ({
            let s = old(items)@;
            let free = container_main - crate::flex_laws::basis_sum(s, s.len() as int) - gap_total;
            s.len() > 0 && (forall|i: int|
                0 <= i < s.len() ==> #[trigger] s[i].min <= s[i].basis <= s[i].max && s[i].grow >= 1)
                && crate::flex_laws::basis_sum(s, s.len() as int) + gap_total < container_main && (forall|i: int|
                0 <= i < s.len() ==> s[i].basis + #[trigger] crate::flex_laws::weighted_share(s, free, i)
                    <= s[i].max) ==> forall|i: int|
                0 <= i < s.len() ==> #[trigger] final(items)@[i].target == s[i].basis
                    + crate::flex_laws::weighted_share(s, free, i)
        }),
        ({
            let s = old(items)@;
            let deficit = crate::flex_laws::basis_sum(s, s.len() as int) + gap_total - container_main;
            s.len() > 0 && (forall|i: int| 0 <= i < s.len() ==> #[trigger] s[i].min <= s[i].basis <= s[i].max)
                && crate::flex_laws::basis_sum(s, s.len() as int) > 0 && deficit > 0 && (forall|i: int|
                0 <= i < s.len() ==> s[i].basis - #[trigger] crate::flex_laws::basis_share(s, deficit, i)
                    >= s[i].min) ==> forall|i: int|
                0 <= i < s.len() ==> #[trigger] final(items)@[i].target == s[i].basis
                    - crate::flex_laws::basis_share(s, deficit, i)
        }),
{
    let n = items.len();
    if n == 0 {
        return;
    }
    let ghost s0 = items@;
    proof {
        let free = container_main - crate::flex_laws::basis_sum(s0, s0.len() as int) - gap_total;
        if (forall|i: int|
            0 <= i < s0.len() ==> #[trigger] s0[i].min <= s0[i].basis <= s0[i].max && s0[i].grow >= 1)
            && crate::flex_laws::basis_sum(s0, s0.len() as int) + gap_total < container_main && (forall|i: int|
            0 <= i < s0.len() ==> s0[i].basis + #[trigger] crate::flex_laws::weighted_share(s0, free, i)
                <= s0[i].max) {
            crate::flex_laws::lemma_grow_shares_by_weight(s0, container_main, gap_total);
        }
        let deficit = crate::flex_laws::basis_sum(s0, s0.len() as int) + gap_total - container_main;
        if (forall|i: int| 0 <= i < s0.len() ==> #[trigger] s0[i].min <= s0[i].basis <= s0[i].max)
            && crate::flex_laws::basis_sum(s0, s0.len() as int) > 0 && deficit > 0 && (forall|i: int|
            0 <= i < s0.len() ==> s0[i].basis - #[trigger] crate::flex_laws::basis_share(s0, deficit, i)
                >= s0[i].min) {
            crate::flex_laws::lemma_shrink_shares_by_basis(s0, container_main, gap_total);
        }
    }
    let ghost c = container_main as int;
    let ghost g = gap_total as int;

    let mut total_hyp: u32 = 0;
    let mut i: usize = 0;
    while i < n
        invariant
            n == items@.len(),
            items@ == s0,
            0 <= i <= n,
            total_hyp as int == if sum_hyp(s0, i as int) < u32::MAX {
                sum_hyp(s0, i as int)
            } else {
                u32::MAX as int
            },
            admissible(s0),
            g == gap_total as int,
        decreases n - i,
    {
        let it = items[i];
        proof {
            lemma_sums_bounded(s0, i as int + 1, true);
            lemma_mul_le(i as int + 1, n as int, 65535);
            assert(s0[i as int].min <= s0[i as int].max);
            assert(it == s0[i as int]);
            assert(sum_hyp(s0, i as int + 1) == sum_hyp(s0, i as int) + hypothetical(s0[i as int]));
        }
        total_hyp = total_hyp.saturating_add(clamp_u16(it.basis, it.min, it.max) as u32);
        i += 1;
    }
    let grow = total_hyp.saturating_add(gap_total) < container_main as u32;
    assert(grow == grows(s0, c, g));

    i = 0;
    while i < n
        invariant
            n == items@.len(),
            n == s0.len(),
            0 <= i <= n,
            admissible(s0),
            g == gap_total as int,
            forall|j: int| 0 <= j < i ==> items@[j] == #[trigger] initial_item(s0[j], grow),
            forall|j: int| i <= j < n ==> items@[j] == s0[j],
        decreases n - i,
    {
        let it = items[i];
        assert(s0[i as int].min <= s0[i as int].max);
        let hypothetical = clamp_u16(it.basis, it.min, it.max);
        let freeze_initial = if grow {
            it.grow == 0 || it.basis > hypothetical
        } else {
            it.basis < hypothetical
        };
        if freeze_initial {
            items[i] = FlexItem { target: hypothetical, flex: Flexibility(Flexibility::RIGID), ..it };
        } else {
            items[i] = FlexItem { target: it.basis, flex: Flexibility(Flexibility::FLEXIBLE), ..it };
        }
        i += 1;
    }
    assert(items@ =~= initial(s0, grow));

    let ghost mut fuel: nat = n as nat;
    proof {
        lemma_sums_bounded(items@, n as int, grow);
        crate::flex_laws::lemma_initial_sound(s0, c, g);
        assert forall|j: int| 0 <= j < n implies #[trigger] crate::flex_laws::same_shape(items@[j], s0[j]) by {
            assert(items@[j] == initial_item(s0[j], grow));
        }
    }
    loop
        invariant
            n == items@.len(),
            n == s0.len(),
            n > 0,
            grow == grows(s0, c, g),
            c == container_main as int,
            g == gap_total as int,
            admissible(items@),
            grow || shrink_load(s0, n as int) + g - c <= i32::MAX - 65535,
            crate::flex_laws::sound(items@, grow, c, g),
            forall|j: int| 0 <= j < n ==> #[trigger] crate::flex_laws::same_shape(items@[j], s0[j]),
            open_count(items@, n as int) <= fuel,
            passes(items@, grow, c, g, fuel) == resolved(s0, c, g),
        ensures
            items@ == resolved(s0, c, g),
        decreases open_count(items@, n as int),
    {
        let ghost s = items@;
        let mut locked_total: i64 = 0;
        let mut open_basis_total: i64 = 0;
        let mut total_weight: i64 = 0;
        let mut any_open = false;
        i = 0;
        while i < n
            invariant
                n == items@.len(),
                items@ == s,
                0 <= i <= n,
                admissible(s),
                g == gap_total as int,
                locked_total as int == locked_sum(s, i as int),
                open_basis_total as int == open_basis_sum(s, i as int),
                total_weight as int == weight_sum(s, i as int, grow),
                any_open == (open_count(s, i as int) > 0),
            decreases n - i,
        {
            let it = items[i];
            proof {
                lemma_sums_bounded(s, i as int + 1, grow);
                lemma_sums_bounded(s, i as int, grow);
                lemma_mul_le(i as int + 1, n as int, 65535);
                assert(FlexItem::FLEX_SHRINK == 1);
                assert(it == s[i as int]);
                assert(locked_sum(s, i as int + 1) <= n * 65535);
            }
            if it.flex.is_locked() {
                locked_total += it.target as i64;
            } else {
                any_open = true;
                open_basis_total += it.basis as i64;
                total_weight += if grow {
                    it.grow as i64
                } else {
                    assert(FlexItem::FLEX_SHRINK as i64 * it.basis as i64 == it.basis as i64)
                        by (nonlinear_arith)
                        requires
                            FlexItem::FLEX_SHRINK == 1,
                    ;
                    FlexItem::FLEX_SHRINK as i64 * it.basis as i64
                };
            }
            i += 1;
        }
        proof {
            lemma_sums_bounded(s, n as int, grow);
        }
        if !any_open {
            proof {
                assert(i == n);
                assert(open_count(s, s.len() as int) == 0);
                assert(passes(s, grow, c, g, fuel) == s);
            }
            break;
        }
        proof {
            lemma_sums_bounded(s, n as int, grow);
            if !grow {
                crate::flex_laws::lemma_load_bound(s, c, g, n as int);
                crate::flex_laws::lemma_load_same(s, s0, n as int);
                crate::flex_laws::lemma_open_weight_is_basis(s, n as int);
            }
        }

        let free = container_main as i64 - locked_total - open_basis_total - gap_total as i64;
        let dir: i64 = if grow {
            1
        } else {
            -1
        };
        let amount = free * dir;
        assert(amount == free_amount(s, grow, c, g)) by (nonlinear_arith)
            requires
                dir == (if grow { 1int } else { -1int }),
                amount == free * dir,
                free == c - locked_sum(s, n as int) - open_basis_sum(s, n as int) - g,
                free_amount(s, grow, c, g) == if grow {
                    c - locked_sum(s, n as int) - open_basis_sum(s, n as int) - g
                } else {
                    -(c - locked_sum(s, n as int) - open_basis_sum(s, n as int) - g)
                },
        ;

        if total_weight <= 0 || amount <= 0 {
            i = 0;
            while i < n
                invariant
                    n == items@.len(),
                    n == s.len(),
                    0 <= i <= n,
                    forall|j: int|
                        0 <= j < i ==> items@[j] == (if is_open(s[j]) {
                            FlexItem { target: s[j].basis, flex: Flexibility(0), ..s[j] }
                        } else {
                            s[j]
                        }),
                    forall|j: int| i <= j < n ==> items@[j] == s[j],
                decreases n - i,
            {
                let it = items[i];
                if !it.flex.is_locked() {
                    items[i] = FlexItem { target: it.basis, flex: Flexibility(Flexibility::RIGID), ..it };
                }
                i += 1;
            }
        } else {
            let ghost a = amount as int;
            let ghost tw = total_weight as int;
            let mut assigned: i64 = 0;
            let mut cum_w: i64 = 0;
            let mut violation: i64 = 0;
            proof {
                lemma_running_total_bounds(a, 0, 0, tw);
            }
            i = 0;
            while i < n
                invariant
                    n == items@.len(),
                    n == s.len(),
                    0 <= i <= n,
                    admissible(s),
                    g == gap_total as int,
                g == gap_total as int,
                    grow == grows(s0, c, g),
                    a == amount as int,
                    tw == total_weight as int,
                    a > 0,
                    tw > 0,
                    tw == weight_sum(s, n as int, grow),
                    grow ==> a <= 65535,
                    a <= i32::MAX - 65535,
                    grow || tw <= i32::MAX,
                    dir == (if grow { 1int } else { -1int }),
                    cum_w as int == weight_sum(s, i as int, grow),
                    assigned as int == rounded_share(a, cum_w as int, tw),
                    violation as int == clamp_violation(s, i as int, grow, a, tw),
                    forall|j: int|
                        0 <= j < i ==> items@[j] == #[trigger] distributed_item(s, j, grow, a, tw),
                    forall|j: int| i <= j < n ==> items@[j] == s[j],
                decreases n - i,
            {
                let it = items[i];
                proof {
                    lemma_violation_bounded(s, i as int, grow, a, tw);
                    lemma_violation_bounded(s, i as int + 1, grow, a, tw);
                    lemma_weight_sum_monotone(s, i as int, n as int, grow);
                    lemma_weight_sum_monotone(s, i as int + 1, n as int, grow);
                    lemma_sums_bounded(s, n as int, grow);
                    lemma_mul_le(i as int + 1, n as int, i32::MAX as int);
                    lemma_mul_le(i as int + 1, n as int, 131070);
                    lemma_mul_le(n as int, 0x4000_0000, i32::MAX as int);
                    assert(s[i as int].min <= s[i as int].max);
                }
                if !it.flex.is_locked() {
                    proof {
                        lemma_unclamped_bounds(s, i as int, grow, a, tw);
                    }
                    let w: i64 = if grow {
                        it.grow as i64
                    } else {
                        assert(FlexItem::FLEX_SHRINK as i64 * it.basis as i64 == it.basis as i64)
                            by (nonlinear_arith)
                            requires
                                FlexItem::FLEX_SHRINK == 1,
                        ;
                        FlexItem::FLEX_SHRINK as i64 * it.basis as i64
                    };
                    assert(FlexItem::FLEX_SHRINK == 1);
                    assert(w == weight(s[i as int], grow));
                    cum_w += w;
                    assert(cum_w == weight_sum(s, i as int + 1, grow));
                    proof {
                        lemma_sums_bounded(s, i as int + 1, grow);
                    }
                    proof {
                        lemma_mul_le(i as int + 1, 0x4000_0000, 65535);
                    }
                    assert(0 <= amount * cum_w <= (i32::MAX as int) * (i32::MAX as int))
                        by (nonlinear_arith)
                        requires
                            0 < amount <= i32::MAX,
                            0 <= cum_w,
                            (amount <= 65535 && cum_w <= 0x4000_0000 * 65535) || cum_w <= i32::MAX,
                            cum_w <= total_weight,
                    ;
                    let running_total = (amount * cum_w + total_weight / 2) / total_weight;
                    let share = running_total - assigned;
                    assigned = running_total;
                    assert(dir * share == if grow { share as int } else { -share }) by (nonlinear_arith)
                        requires
                            dir == (if grow { 1int } else { -1int }),
                    ;
                    let unclamped: i32 = it.basis as i32 + (dir * share) as i32;
                    let clamped = clamp_i32(unclamped, it.min as i32, it.max as i32);
                    let delta = (clamped - unclamped) as i64;
                    let code: u8 = if delta > 0 {
                        Flexibility::GROWABLE
                    } else if delta < 0 {
                        Flexibility::SHRINKABLE
                    } else {
                        Flexibility::FLEXIBLE
                    };
                    items[i] = FlexItem { target: clamped as u16, flex: Flexibility(code), ..it };
                    violation += delta;
                }
                i += 1;
            }
            assert(violation as int == clamp_violation(s, n as int, grow, a, tw));

            let ghost v = violation as int;
            let ghost d = items@;
            i = 0;
            if violation == 0 {
                while i < n
                    invariant
                        n == items@.len(),
                        n == d.len(),
                        0 <= i <= n,
                        v == 0,
                        forall|j: int| 0 <= j < i ==> items@[j] == #[trigger] locked_item(d[j], v),
                        forall|j: int| i <= j < n ==> items@[j] == d[j],
                    decreases n - i,
                {
                    let it = items[i];
                    items[i] = FlexItem { flex: Flexibility(Flexibility::RIGID), ..it };
                    i += 1;
                }
            } else {
                let dominant = if violation > 0 {
                    Flexibility(Flexibility::GROWABLE)
                } else {
                    Flexibility(Flexibility::SHRINKABLE)
                };
                while i < n
                    invariant
                        n == items@.len(),
                        n == d.len(),
                        0 <= i <= n,
                        v != 0,
                        dominant.0 == (if v > 0 { 1u8 } else { 2u8 }),
                        forall|j: int| 0 <= j < i ==> items@[j] == #[trigger] locked_item(d[j], v),
                        forall|j: int| i <= j < n ==> items@[j] == d[j],
                    decreases n - i,
                {
                    let it = items[i];
                    if it.flex == dominant {
                        items[i] = FlexItem { flex: Flexibility(Flexibility::RIGID), ..it };
                    }
                    i += 1;
                }
            }
        }
        assert(items@ =~= pass(s, grow, c, g));
        proof {
            lemma_pass_decreases(s, grow, c, g);
            lemma_sums_bounded(items@, n as int, grow);
            crate::flex_laws::lemma_pass_sound(s, grow, c, g);
            crate::flex_laws::lemma_pass_keeps_fields(s, grow, c, g);
            assert forall|j: int| 0 <= j < n implies #[trigger] crate::flex_laws::same_shape(items@[j], s0[j]) by {
                assert(crate::flex_laws::same_shape(items@[j], s[j]));
                assert(crate::flex_laws::same_shape(s[j], s0[j]));
            }
            fuel = (fuel - 1) as nat;
        }
    }
    proof {
        crate::flex_laws::lemma_resolved_within_bounds(s0, container_main, gap_total);
        let t0 = initial(s0, grow);
        crate::flex_laws::lemma_passes_keep_locked(t0, grow, c, g, n as nat);
        assert forall|i: int| 0 <= i < s0.len() implies {
            let (a, b) = (s0[i], #[trigger] items@[i]);
            &&& grow && (a.grow == 0 || a.basis > a.max) ==> b.target == hypothetical(a)
            &&& !grow && a.basis < a.min ==> b.target == a.min
        } by {
            assert(t0[i] == initial_item(s0[i], grow));
            assert(s0[i].min <= s0[i].max);
        }
    }
}

} // verus!
