//! Breaking a row of items into lines for a wrapping container: first-fit, or balanced so
//! that the squared slack summed over the lines is least.

use vstd::prelude::*;
use crate::arith::cap16;

verus! {

/// The cost that marks a prefix of items no balanced breaking can reach.
pub const UNREACHABLE: u64 = u64::MAX;

/// `v` capped at the largest `u64`.
pub open spec fn sat64(v: int) -> int {
    if v > u64::MAX {
        u64::MAX as int
    } else {
        v
    }
}

/// First-fit breaking from item `i` on, with `used` cells of the current line taken: an item
/// opens a new line when the current line is not empty and the item, with its gap, would
/// overflow it. Appends the new line starts to `acc`.
pub open spec fn greedy_from(
    h: Seq<u16>,
    gap: int,
    container: int,
    i: int,
    used: int,
    acc: Seq<int>,
) -> Seq<int>
    decreases h.len() - i,
{
    if i < 0 || i >= h.len() {
        acc
    } else {
        let hi = h[i] as int;
        let needed = if used == 0 {
            hi
        } else {
            cap16(hi + gap)
        };
        if used > 0 && cap16(used + needed) > container {
            greedy_from(h, gap, container, i + 1, hi, acc.push(i))
        } else {
            greedy_from(h, gap, container, i + 1, cap16(used + needed), acc)
        }
    }
}

/// The line starts of first-fit breaking.
pub open spec fn greedy_starts(h: Seq<u16>, gap: int, container: int) -> Seq<int> {
    greedy_from(h, gap, container, 0, 0, seq![0])
}

/// The width of a line holding items `j..i`, gaps included.
pub open spec fn width(h: Seq<u16>, gap: int, j: int, i: int) -> int
    decreases i - j,
{
    if i <= j + 1 {
        h[j] as int
    } else {
        h[j] + gap + width(h, gap, j + 1, i)
    }
}

/// The best way found to end a line at item `i`, scanning candidate line starts from `j`
/// downwards while the line fits: the cost and the start, keeping `cur` unless a candidate
/// is strictly cheaper.
pub open spec fn dp_scan(
    h: Seq<u16>,
    gap: int,
    container: int,
    best: Seq<u64>,
    i: int,
    j: int,
    cur: (u64, int),
) -> (u64, int)
    decreases j + 1,
{
    if j < 0 {
        cur
    } else {
        let w = width(h, gap, j, i);
        if w > container {
            cur
        } else if best[j] == UNREACHABLE {
            dp_scan(h, gap, container, best, i, j - 1, cur)
        } else {
            let slack = container - w;
            let total = sat64(best[j] + slack * slack);
            if total < cur.0 {
                dp_scan(h, gap, container, best, i, j - 1, (total as u64, j))
            } else {
                dp_scan(h, gap, container, best, i, j - 1, cur)
            }
        }
    }
}

/// The least cost of breaking the first `k` items, for each `k` up to `i`, and the start of
/// the last line in the breaking that reaches it.
pub open spec fn dp_tables(h: Seq<u16>, gap: int, container: int, i: int) -> (Seq<u64>, Seq<int>)
    decreases i,
{
    if i <= 0 {
        (seq![0u64], seq![0int])
    } else {
        let t = dp_tables(h, gap, container, i - 1);
        let r = dp_scan(h, gap, container, t.0, i, i - 1, (UNREACHABLE, 0));
        (t.0.push(r.0), t.1.push(r.1))
    }
}

/// The line starts of the breaking whose last line ends before item `k`, following `from`.
pub open spec fn chain(from: Seq<int>, k: int) -> Seq<int>
    decreases k,
{
    if k <= 0 || k >= from.len() {
        seq![]
    } else if 0 <= from[k] < k {
        chain(from, from[k]).push(from[k])
    } else {
        seq![]
    }
}

/// The line starts for items of main sizes `h` in a container of `container` cells with
/// `gap` cells between items: first-fit, or, when `balanced` and first-fit needs more than one
/// line, the breaking with the least squared slack if one exists where every line fits.
pub open spec fn wrap_starts(h: Seq<u16>, gap: int, container: int, balanced: bool) -> Seq<int> {
    let g = greedy_starts(h, gap, container);
    if balanced && g.len() > 1 {
        let t = dp_tables(h, gap, container, h.len() as int);
        if t.0[h.len() as int] != UNREACHABLE {
            chain(t.1, h.len() as int)
        } else {
            g
        }
    } else {
        g
    }
}

/// The sequence in reverse order.
pub open spec fn reversed(s: Seq<int>) -> Seq<int> {
    Seq::new(s.len(), |i: int| s[s.len() - 1 - i])
}

/// The indices as integers.
pub open spec fn widen_all(v: Seq<usize>) -> Seq<int> {
    Seq::new(v.len(), |k: int| v[k] as int)
}

proof fn lemma_dp_tables_len(h: Seq<u16>, gap: int, container: int, i: int)
    requires
        i >= 0,
    ensures
        dp_tables(h, gap, container, i).0.len() == i + 1,
        dp_tables(h, gap, container, i).1.len() == i + 1,
        dp_tables(h, gap, container, i).0[0] == 0,
        forall|k: int|
            0 < k <= i ==> #[trigger] dp_tables(h, gap, container, i).0[k] == dp_tables(
                h,
                gap,
                container,
                k,
            ).0[k],
        forall|k: int|
            0 < k <= i ==> #[trigger] dp_tables(h, gap, container, i).1[k] == dp_tables(
                h,
                gap,
                container,
                k,
            ).1[k],
    decreases i,
{
    if i > 0 {
        lemma_dp_tables_len(h, gap, container, i - 1);
    }
}

proof fn lemma_dp_scan_from(
    h: Seq<u16>,
    gap: int,
    container: int,
    best: Seq<u64>,
    i: int,
    j: int,
    cur: (u64, int),
)
    requires
        0 <= cur.1 < i,
        j < i,
    ensures
        0 <= dp_scan(h, gap, container, best, i, j, cur).1 < i,
    decreases j + 1,
{
    if j >= 0 {
        let w = width(h, gap, j, i);
        if w <= container && best[j] != UNREACHABLE {
            let slack = container - w;
            let total = sat64(best[j] + slack * slack);
            if total < cur.0 {
                lemma_dp_scan_from(h, gap, container, best, i, j - 1, (total as u64, j));
            } else {
                lemma_dp_scan_from(h, gap, container, best, i, j - 1, cur);
            }
        } else if w <= container {
            lemma_dp_scan_from(h, gap, container, best, i, j - 1, cur);
        }
    }
}

proof fn lemma_from_below(h: Seq<u16>, gap: int, container: int, n: int)
    requires
        n >= 0,
    ensures
        forall|q: int|
            0 < q <= n ==> 0 <= #[trigger] dp_tables(h, gap, container, n).1[q] < q,
{
    lemma_dp_tables_len(h, gap, container, n);
    assert forall|q: int| 0 < q <= n implies 0 <= #[trigger] dp_tables(
        h,
        gap,
        container,
        n,
    ).1[q] < q by {
        lemma_dp_tables_len(h, gap, container, q - 1);
        let t = dp_tables(h, gap, container, q - 1);
        lemma_dp_scan_from(h, gap, container, t.0, q, q - 1, (UNREACHABLE, 0));
    }
}

/// Whether every line of the breaking with line starts `s` fits `container` cells, the last
/// line ending before item `end`: each line starts before the next, and its width, gaps
/// included, is at most the container.
pub open spec fn lines_fit(s: Seq<int>, end: int, h: Seq<u16>, gap: int, container: int) -> bool {
    forall|k: int|
        #![trigger s[k]]
        0 <= k < s.len() ==> {
            let e = if k + 1 < s.len() {
                s[k + 1]
            } else {
                end
            };
            &&& 0 <= s[k] < e
            &&& width(h, gap, s[k], e) <= container
        }
}

proof fn lemma_dp_scan_found(
    h: Seq<u16>,
    gap: int,
    container: int,
    best: Seq<u64>,
    i: int,
    j: int,
    cur: (u64, int),
)
    ensures
        ({
            let r = dp_scan(h, gap, container, best, i, j, cur);
            r == cur || (0 <= r.1 <= j && width(h, gap, r.1, i) <= container && best[r.1]
                != UNREACHABLE && r.0 < UNREACHABLE)
        }),
    decreases j + 1,
{
    if j >= 0 {
        let w = width(h, gap, j, i);
        if w <= container && best[j] != UNREACHABLE {
            let slack = container - w;
            let total = sat64(best[j] + slack * slack);
            if total < cur.0 {
                lemma_dp_scan_found(h, gap, container, best, i, j - 1, (total as u64, j));
            } else {
                lemma_dp_scan_found(h, gap, container, best, i, j - 1, cur);
            }
        } else if w <= container {
            lemma_dp_scan_found(h, gap, container, best, i, j - 1, cur);
        }
    }
}

proof fn lemma_reachable_step(h: Seq<u16>, gap: int, container: int, n: int, i: int)
    requires
        0 < i <= n,
        dp_tables(h, gap, container, n).0[i] != UNREACHABLE,
    ensures
        ({
            let t = dp_tables(h, gap, container, n);
            let j = t.1[i];
            &&& 0 <= j < i
            &&& t.0[j] != UNREACHABLE
            &&& width(h, gap, j, i) <= container
        }),
{
    lemma_dp_tables_len(h, gap, container, n);
    lemma_dp_tables_len(h, gap, container, i - 1);
    lemma_dp_tables_len(h, gap, container, i);
    let b = dp_tables(h, gap, container, i - 1).0;
    lemma_dp_scan_found(h, gap, container, b, i, i - 1, (UNREACHABLE, 0));
    let j = dp_tables(h, gap, container, n).1[i];
    if j > 0 {
        assert(dp_tables(h, gap, container, n).0[j] == dp_tables(h, gap, container, j).0[j]);
        assert(b[j] == dp_tables(h, gap, container, j).0[j]);
    }
}

proof fn lemma_chain_fits(h: Seq<u16>, gap: int, container: int, n: int, k: int)
    requires
        0 < k <= n,
        dp_tables(h, gap, container, n).0[k] != UNREACHABLE,
    ensures
        ({
            let c = chain(dp_tables(h, gap, container, n).1, k);
            &&& c.len() > 0
            &&& c[0] == 0
            &&& lines_fit(c, k, h, gap, container)
        }),
    decreases k,
{
    lemma_dp_tables_len(h, gap, container, n);
    let f = dp_tables(h, gap, container, n).1;
    lemma_reachable_step(h, gap, container, n, k);
    let j = f[k];
    assert(chain(f, k) == chain(f, j).push(j));
    if j == 0 {
        assert(chain(f, 0) =~= Seq::<int>::empty());
        assert(chain(f, k) =~= seq![0int]);
    } else {
        lemma_chain_fits(h, gap, container, n, j);
        let c = chain(f, j);
        let d = c.push(j);
        assert forall|q: int| #![trigger d[q]] 0 <= q < d.len() implies {
            let e = if q + 1 < d.len() {
                d[q + 1]
            } else {
                k
            };
            &&& 0 <= d[q] < e
            &&& width(h, gap, d[q], e) <= container
        } by {
            if q < c.len() {
                assert(d[q] == c[q]);
                if q + 1 < c.len() {
                    assert(d[q + 1] == c[q + 1]);
                }
            }
        }
    }
}

/// The cost of the breaking with line starts `s` whose last line ends before item `end`: the
/// squared slack of each line, summed.
pub open spec fn breaking_cost(s: Seq<int>, end: int, h: Seq<u16>, gap: int, container: int) -> int
    decreases s.len(),
{
    if s.len() == 0 {
        0
    } else {
        let j = s.last();
        let slack = container - width(h, gap, j, end);
        breaking_cost(s.drop_last(), j, h, gap, container) + slack * slack
    }
}

proof fn lemma_width_monotone(h: Seq<u16>, gap: int, j: int, jj: int, i: int)
    requires
        0 <= j <= jj < i <= h.len(),
        gap >= 0,
    ensures
        width(h, gap, jj, i) <= width(h, gap, j, i),
    decreases jj - j,
{
    if j < jj {
        lemma_width_monotone(h, gap, j + 1, jj, i);
    }
}

proof fn lemma_cost_nonneg(s: Seq<int>, end: int, h: Seq<u16>, gap: int, container: int)
    ensures
        breaking_cost(s, end, h, gap, container) >= 0,
    decreases s.len(),
{
    if s.len() > 0 {
        lemma_cost_nonneg(s.drop_last(), s.last(), h, gap, container);
        let slack = container - width(h, gap, s.last(), end);
        assert(slack * slack >= 0) by (nonlinear_arith);
    }
}

/// A scan keeps any candidate start it reaches that is cheaper than what it holds: its result
/// costs no more than what it starts with, nor than any reachable start `j0` whose line, and
/// every shorter one, fits.
proof fn lemma_dp_scan_le(
    h: Seq<u16>,
    gap: int,
    container: int,
    best: Seq<u64>,
    i: int,
    j: int,
    cur: (u64, int),
    j0: int,
)
    requires
        gap >= 0,
        i <= h.len(),
        j < i,
        0 <= j0 <= j ==> width(h, gap, j0, i) <= container && best[j0] != UNREACHABLE,
    ensures
        dp_scan(h, gap, container, best, i, j, cur).0 <= cur.0,
        0 <= j0 <= j ==> dp_scan(h, gap, container, best, i, j, cur).0 <= sat64(
            best[j0] + (container - width(h, gap, j0, i)) * (container - width(h, gap, j0, i)),
        ),
    decreases j + 1,
{
    if j >= 0 {
        let w = width(h, gap, j, i);
        if 0 <= j0 <= j {
            lemma_width_monotone(h, gap, j0, j, i);
        }
        if w <= container && best[j] != UNREACHABLE {
            let slack = container - w;
            let total = sat64(best[j] + slack * slack);
            assert(slack * slack >= 0) by (nonlinear_arith);
            if total < cur.0 {
                lemma_dp_scan_le(h, gap, container, best, i, j - 1, (total as u64, j), j0);
            } else {
                lemma_dp_scan_le(h, gap, container, best, i, j - 1, cur, j0);
            }
        } else if w <= container {
            lemma_dp_scan_le(h, gap, container, best, i, j - 1, cur, j0);
        }
    }
}

/// What a scan finds is what it starts with, or a start whose line fits and whose cost is the
/// start's best plus the line's squared slack.
proof fn lemma_dp_scan_cost(
    h: Seq<u16>,
    gap: int,
    container: int,
    best: Seq<u64>,
    i: int,
    j: int,
    cur: (u64, int),
)
    ensures
        ({
            let r = dp_scan(h, gap, container, best, i, j, cur);
            r == cur || r.0 == sat64(
                best[r.1] + (container - width(h, gap, r.1, i)) * (container - width(h, gap, r.1, i)),
            )
        }),
    decreases j + 1,
{
    if j >= 0 {
        let w = width(h, gap, j, i);
        if w <= container && best[j] != UNREACHABLE {
            let slack = container - w;
            let total = sat64(best[j] + slack * slack);
            if total < cur.0 {
                lemma_dp_scan_cost(h, gap, container, best, i, j - 1, (total as u64, j));
            } else {
                lemma_dp_scan_cost(h, gap, container, best, i, j - 1, cur);
            }
        } else if w <= container {
            lemma_dp_scan_cost(h, gap, container, best, i, j - 1, cur);
        }
    }
}

/// Dropping the last line of a breaking whose lines fit leaves a breaking whose lines fit,
/// ending where the dropped line started, and empty only when that line started first.
proof fn lemma_prefix_fits(s: Seq<int>, k: int, h: Seq<u16>, gap: int, container: int)
    requires
        s.len() > 0,
        s[0] == 0,
        lines_fit(s, k, h, gap, container),
    ensures
        s.last() > 0 ==> s.drop_last().len() > 0 && s.drop_last()[0] == 0 && lines_fit(
            s.drop_last(),
            s.last(),
            h,
            gap,
            container,
        ),
        s.last() == 0 ==> s.drop_last().len() == 0,
{
    let sp = s.drop_last();
    let j = s.last();
    if sp.len() > 0 {
        let q = s.len() - 2;
        assert(0 <= s[q] < s[q + 1]);
        assert forall|p: int| #![trigger sp[p]] 0 <= p < sp.len() implies {
            let e = if p + 1 < sp.len() {
                sp[p + 1]
            } else {
                j
            };
            &&& 0 <= sp[p] < e
            &&& width(h, gap, sp[p], e) <= container
        } by {
            assert(sp[p] == s[p]);
            if p + 1 < sp.len() {
                assert(sp[p + 1] == s[p + 1]);
            }
        }
    }
}

/// Every breaking of the first `k` items whose lines fit and whose cost stays below the
/// largest `u64` makes the first `k` items reachable at no more than that cost.
proof fn lemma_best_le(h: Seq<u16>, gap: int, container: int, n: int, k: int, s: Seq<int>)
    requires
        gap >= 0,
        0 < k <= n <= h.len(),
        s.len() > 0,
        s[0] == 0,
        lines_fit(s, k, h, gap, container),
        breaking_cost(s, k, h, gap, container) < u64::MAX,
    ensures
        dp_tables(h, gap, container, n).0[k] <= breaking_cost(s, k, h, gap, container),
    decreases s.len(),
{
    lemma_dp_tables_len(h, gap, container, n);
    lemma_dp_tables_len(h, gap, container, k - 1);
    lemma_dp_tables_len(h, gap, container, k);
    let b = dp_tables(h, gap, container, k - 1).0;
    let j = s.last();
    let sp = s.drop_last();
    let slack = container - width(h, gap, j, k);
    assert(s[s.len() - 1] == j);
    assert(0 <= j < k && width(h, gap, j, k) <= container);
    assert(slack * slack >= 0) by (nonlinear_arith);
    lemma_cost_nonneg(sp, j, h, gap, container);
    if j > 0 {
        lemma_prefix_fits(s, k, h, gap, container);
        lemma_best_le(h, gap, container, j, j, sp);
        lemma_dp_tables_len(h, gap, container, j);
        assert(b[j] == dp_tables(h, gap, container, j).0[j]);
    } else {
        assert(b[0] == 0);
        lemma_prefix_fits(s, k, h, gap, container);
    }
    lemma_dp_scan_le(h, gap, container, b, k, k - 1, (UNREACHABLE, 0), j);
}

/// Following the starts the tables recorded from a reachable prefix costs exactly its best.
proof fn lemma_chain_cost(h: Seq<u16>, gap: int, container: int, n: int, k: int)
    requires
        0 < k <= n,
        dp_tables(h, gap, container, n).0[k] != UNREACHABLE,
    ensures
        breaking_cost(chain(dp_tables(h, gap, container, n).1, k), k, h, gap, container)
            == dp_tables(h, gap, container, n).0[k],
    decreases k,
{
    lemma_dp_tables_len(h, gap, container, n);
    lemma_dp_tables_len(h, gap, container, k - 1);
    lemma_dp_tables_len(h, gap, container, k);
    let t = dp_tables(h, gap, container, n);
    let f = t.1;
    lemma_reachable_step(h, gap, container, n, k);
    let j = f[k];
    let b = dp_tables(h, gap, container, k - 1).0;
    lemma_dp_scan_cost(h, gap, container, b, k, k - 1, (UNREACHABLE, 0));
    let r = dp_scan(h, gap, container, b, k, k - 1, (UNREACHABLE, 0));
    assert(dp_tables(h, gap, container, k).0 == b.push(r.0));
    assert(dp_tables(h, gap, container, k).1 == dp_tables(h, gap, container, k - 1).1.push(r.1));
    assert(t.0[k] == r.0);
    assert(f[k] == r.1);
    let slack = container - width(h, gap, j, k);
    assert(slack * slack >= 0) by (nonlinear_arith);
    assert(chain(f, k) == chain(f, j).push(j));
    assert(chain(f, j).push(j).drop_last() =~= chain(f, j));
    if j > 0 {
        lemma_dp_tables_len(h, gap, container, j);
        lemma_chain_cost(h, gap, container, n, j);
        assert(t.0[j] == dp_tables(h, gap, container, j).0[j]);
        assert(b[j] == dp_tables(h, gap, container, j).0[j]);
    } else {
        assert(chain(f, 0) =~= Seq::<int>::empty());
    }
    let c = chain(f, k);
    assert(c.last() == j);
    assert(c.drop_last() == chain(f, j));
    assert(breaking_cost(c, k, h, gap, container) == breaking_cost(chain(f, j), j, h, gap, container) + slack * slack);
    assert(r.0 != UNREACHABLE);
    assert(r.0 == sat64(b[j] + slack * slack));
    assert(breaking_cost(chain(f, j), j, h, gap, container) == b[j]);
}

/// The balanced breaking is the least costly of all: when first-fit needs more than one line
/// and some breaking starting at the first item has every line fit, with a cost below the
/// largest `u64`, the balanced breaking is taken, and its squared slack, summed over its
/// lines, is no more than that breaking's.
pub proof fn lemma_balanced_is_least(h: Seq<u16>, gap: u16, container: u16, s: Seq<int>)
    requires
        h.len() > 0,
        greedy_starts(h, gap as int, container as int).len() > 1,
        s.len() > 0,
        s[0] == 0,
        lines_fit(s, h.len() as int, h, gap as int, container as int),
        breaking_cost(s, h.len() as int, h, gap as int, container as int) < u64::MAX,
    ensures
        ({
            let b = wrap_starts(h, gap as int, container as int, true);
            &&& b[0] == 0
            &&& lines_fit(b, h.len() as int, h, gap as int, container as int)
            &&& breaking_cost(b, h.len() as int, h, gap as int, container as int) <= breaking_cost(
                s,
                h.len() as int,
                h,
                gap as int,
                container as int,
            )
        }),
{
    let n = h.len() as int;
    lemma_best_le(h, gap as int, container as int, n, n, s);
    lemma_chain_fits(h, gap as int, container as int, n, n);
    lemma_chain_cost(h, gap as int, container as int, n, n);
}

/// Whether `s` are the line starts of a breaking of `n` items that starts at the first item,
/// each line starting after the one before and before the end.
pub open spec fn starts_valid(s: Seq<int>, n: int) -> bool {
    &&& s.len() > 0
    &&& s[0] == 0
    &&& forall|a: int, b: int| 0 <= a < b < s.len() ==> s[a] < s[b]
    &&& forall|k: int| 0 <= k < s.len() ==> s[k] < n
}

/// Where line `k` of the breaking with line starts `s` of `n` items ends.
pub open spec fn line_end(s: Seq<int>, k: int, n: int) -> int {
    if k + 1 < s.len() {
        s[k + 1]
    } else {
        n
    }
}

proof fn lemma_width_extend(h: Seq<u16>, gap: int, j: int, i: int)
    requires
        0 <= j < i < h.len(),
    ensures
        width(h, gap, j, i + 1) == width(h, gap, j, i) + gap + h[i],
    decreases i - j,
{
    if j + 1 < i {
        lemma_width_extend(h, gap, j + 1, i);
    } else {
        assert(width(h, gap, j + 1, i + 1) == h[i]);
    }
}

/// First-fit breaking from item `i` on keeps its lines honest: every line of two or more
/// items fits, and every line ends only where its next item, with the gap before it, would not.
proof fn lemma_greedy_from(h: Seq<u16>, gap: int, container: int, i: int, used: int, acc: Seq<int>)
    requires
        0 <= gap <= 65535,
        0 <= container < 65535,
        forall|q: int| 0 <= q < h.len() ==> #[trigger] h[q] > 0,
        0 <= i <= h.len(),
        h.len() > 0,
        acc.len() > 0,
        acc[0] == 0,
        forall|a: int, b: int| 0 <= a < b < acc.len() ==> acc[a] < acc[b],
        acc.last() <= i,
        i > 0 ==> acc.last() < i,
        used == (if i == acc.last() {
            0
        } else {
            width(h, gap, acc.last(), i)
        }),
        i - acc.last() >= 2 ==> width(h, gap, acc.last(), i) <= container,
        i - acc.last() == 1 ==> width(h, gap, acc.last(), i) <= 65535,
        forall|k: int|
            0 <= k < acc.len() - 1 ==> (acc[k + 1] - acc[k] >= 2 ==> #[trigger] width(h, gap, acc[k], acc[k + 1])
                <= container),
        forall|k: int| 1 <= k < acc.len() ==> #[trigger] width(h, gap, acc[k - 1], acc[k] + 1) > container,
    ensures
        ({
            let s = greedy_from(h, gap, container, i, used, acc);
            let n = h.len() as int;
            &&& starts_valid(s, n)
            &&& forall|k: int|
                0 <= k < s.len() && line_end(s, k, n) - s[k] >= 2 ==> #[trigger] width(h, gap, s[k], line_end(s, k, n))
                    <= container
            &&& forall|k: int| 1 <= k < s.len() ==> #[trigger] width(h, gap, s[k - 1], s[k] + 1) > container
        }),
    decreases h.len() - i,
{
    let n = h.len() as int;
    let l = acc.last();
    if i >= n {
        assert forall|k: int| 0 <= k < acc.len() implies acc[k] < n by {
            if k < acc.len() - 1 {
                assert(acc[k] < acc[acc.len() - 1]);
            }
        }
        assert forall|k: int|
            0 <= k < acc.len() && line_end(acc, k, n) - acc[k] >= 2 implies #[trigger] width(
            h,
            gap,
            acc[k],
            line_end(acc, k, n),
        ) <= container by {
            if k < acc.len() - 1 {
            }
        }
    } else {
        let hi = h[i] as int;
        let needed = if used == 0 {
            hi
        } else {
            cap16(hi + gap)
        };
        if i == l {
            assert(used == 0);
            assert(width(h, gap, l, i + 1) == hi);
            lemma_greedy_from(h, gap, container, i + 1, cap16(used + needed), acc);
        } else {
            lemma_width_extend(h, gap, l, i);
            assert(width(h, gap, l, i) > 0) by {
                if i - l >= 2 {
                    lemma_width_pos(h, gap, l, i);
                } else {
                    assert(width(h, gap, l, i) == h[l]);
                }
            }
            assert(used > 0);
            if cap16(used + needed) > container {
                let acc2 = acc.push(i);
                assert(width(h, gap, acc2[acc2.len() - 2], acc2[acc2.len() - 1] + 1) > container);
                assert forall|k: int| 1 <= k < acc2.len() implies #[trigger] width(h, gap, acc2[k - 1], acc2[k] + 1)
                    > container by {
                    if k < acc.len() {
                        assert(acc2[k - 1] == acc[k - 1] && acc2[k] == acc[k]);
                    }
                }
                assert forall|k: int|
                    0 <= k < acc2.len() - 1 implies (acc2[k + 1] - acc2[k] >= 2 ==> #[trigger] width(
                    h,
                    gap,
                    acc2[k],
                    acc2[k + 1],
                ) <= container) by {
                    if k < acc.len() - 1 {
                        assert(acc2[k] == acc[k] && acc2[k + 1] == acc[k + 1]);
                    }
                }
                assert(width(h, gap, i, i + 1) == hi);
                lemma_greedy_from(h, gap, container, i + 1, hi, acc2);
            } else {
                lemma_greedy_from(h, gap, container, i + 1, cap16(used + needed), acc);
            }
        }
    }
}

proof fn lemma_width_pos(h: Seq<u16>, gap: int, j: int, i: int)
    requires
        0 <= j < i <= h.len(),
        gap >= 0,
        forall|q: int| 0 <= q < h.len() ==> #[trigger] h[q] > 0,
    ensures
        width(h, gap, j, i) > 0,
    decreases i - j,
{
    if i > j + 1 {
        lemma_width_pos(h, gap, j + 1, i);
    }
}

/// First-fit breaking never overflows and never breaks early: with items of positive size and
/// a container below the largest size, every line of two or more items, gaps included, fits
/// the container, and every line but the first starts with an item that, with the gap before
/// it, would not have fit at the end of the line before.
pub proof fn lemma_first_fit_lines(h: Seq<u16>, gap: u16, container: u16)
    requires
        h.len() > 0,
        container < 65535,
        forall|q: int| 0 <= q < h.len() ==> #[trigger] h[q] > 0,
    ensures
        ({
            let s = wrap_starts(h, gap as int, container as int, false);
            let n = h.len() as int;
            &&& starts_valid(s, n)
            &&& forall|k: int|
                0 <= k < s.len() && line_end(s, k, n) - s[k] >= 2 ==> #[trigger] width(
                    h,
                    gap as int,
                    s[k],
                    line_end(s, k, n),
                ) <= container
            &&& forall|k: int| 1 <= k < s.len() ==> #[trigger] width(h, gap as int, s[k - 1], s[k] + 1) > container
        }),
{
    lemma_greedy_from(h, gap as int, container as int, 0, 0, seq![0int]);
}

/// Every line of a balanced breaking fits the container: when the balanced breaking is
/// taken, the first line starts at the first item, each line starts before the next, and no
/// line, gaps included, is wider than the container.
pub proof fn lemma_balanced_lines_fit(h: Seq<u16>, gap: u16, container: u16)
    requires
        h.len() > 0,
        dp_tables(h, gap as int, container as int, h.len() as int).0[h.len() as int]
            != UNREACHABLE,
    ensures
        ({
            let s = wrap_starts(h, gap as int, container as int, true);
            greedy_starts(h, gap as int, container as int).len() > 1 ==> {
                &&& s[0] == 0
                &&& lines_fit(s, h.len() as int, h, gap as int, container as int)
            }
        }),
{
    lemma_chain_fits(h, gap as int, container as int, h.len() as int, h.len() as int);
}

/// Breaks items of main sizes `hyps` into lines for a container of `container` cells with
/// `gap` cells between items, and returns the index where each line starts.
pub fn wrap_lines(hyps: &[u16], gap: u16, container: u16, balanced: bool) -> (r: Vec<usize>)
    requires
        hyps@.len() < usize::MAX,
    ensures
        widen_all(r@) == wrap_starts(hyps@, gap as int, container as int, balanced),
        !balanced && hyps@.len() > 0 && container < 65535 && (forall|q: int|
            0 <= q < hyps@.len() ==> #[trigger] hyps@[q] > 0) ==> {
            let s = widen_all(r@);
            let n = hyps@.len() as int;
            &&& starts_valid(s, n)
            &&& forall|k: int|
                0 <= k < s.len() && line_end(s, k, n) - s[k] >= 2 ==> #[trigger] width(
                    hyps@,
                    gap as int,
                    s[k],
                    line_end(s, k, n),
                ) <= container
            &&& forall|k: int| 1 <= k < s.len() ==> #[trigger] width(hyps@, gap as int, s[k - 1], s[k] + 1) > container
        },
{
    proof {
        if hyps@.len() > 0 && container < 65535 && (forall|q: int| 0 <= q < hyps@.len() ==> #[trigger] hyps@[q] > 0) {
            lemma_first_fit_lines(hyps@, gap, container);
        }
    }
    let n = hyps.len();
    let mut starts: Vec<usize> = Vec::new();
    starts.push(0);
    let mut used: u16 = 0;
    let mut i: usize = 0;
    proof {
        assert(widen_all(starts@) =~= seq![0int]);
    }
    while i < n
        invariant
            n == hyps@.len(),
            i <= n,
            forall|k: int| 0 <= k < starts@.len() ==> #[trigger] starts@[k] < n || k == 0,
            greedy_from(
                hyps@,
                gap as int,
                container as int,
                i as int,
                used as int,
                widen_all(starts@),
            ) == greedy_starts(hyps@, gap as int, container as int),
        decreases n - i,
    {
        let h = hyps[i];
        let needed = if used == 0 {
            h
        } else {
            h.saturating_add(gap)
        };
        if used > 0 && used.saturating_add(needed) > container {
            proof {
                assert(widen_all(starts@).push(i as int) =~= widen_all(starts@.push(i)));
            }
            starts.push(i);
            used = h;
        } else {
            used = used.saturating_add(needed);
        }
        i = i + 1;
    }
    if balanced && starts.len() > 1 {
        let mut best: Vec<u64> = Vec::new();
        let mut from: Vec<usize> = Vec::new();
        best.push(0);
        from.push(0);
        let mut i: usize = 1;
        proof {
            lemma_dp_tables_len(hyps@, gap as int, container as int, 0);
            assert(best@ =~= dp_tables(hyps@, gap as int, container as int, 0).0);
            assert(widen_all(from@) =~= dp_tables(hyps@, gap as int, container as int, 0).1);
        }
        while i <= n
            invariant
                n == hyps@.len() < usize::MAX,
                1 <= i <= n + 1,
                best@ == dp_tables(hyps@, gap as int, container as int, i - 1).0,
                widen_all(from@) == dp_tables(hyps@, gap as int, container as int, i - 1).1,
            decreases n + 1 - i,
        {
            proof {
                lemma_dp_tables_len(hyps@, gap as int, container as int, i - 1);
            }
            let mut cur_best: u64 = UNREACHABLE;
            let mut cur_from: usize = 0;
            let mut line_width: u32 = 0;
            let mut j: usize = i;
            while j > 0
                invariant
                    n == hyps@.len(),
                    1 <= i <= n,
                    j <= i,
                    best@.len() == i,
                    0 < j < i ==> line_width == width(hyps@, gap as int, j as int, i as int),
                    0 < j < i ==> line_width <= container,
                    dp_scan(
                        hyps@,
                        gap as int,
                        container as int,
                        best@,
                        i as int,
                        j as int - 1,
                        (cur_best, cur_from as int),
                    ) == dp_scan(
                        hyps@,
                        gap as int,
                        container as int,
                        best@,
                        i as int,
                        i as int - 1,
                        (UNREACHABLE, 0),
                    ),
                decreases j,
            {
                let k = j - 1;
                let hk = hyps[k] as u32;
                if k + 1 == i {
                    line_width = hk;
                } else {
                    line_width = line_width + hk + gap as u32;
                }
                assert(line_width == width(hyps@, gap as int, k as int, i as int));
                if line_width > container as u32 {
                    j = 0;
                } else {
                    if best[k] != UNREACHABLE {
                        let slack = (container as u32 - line_width) as u64;
                        assert(slack * slack <= 65535 * 65535) by (nonlinear_arith)
                            requires
                                slack <= 65535,
                        ;
                        let cost = slack * slack;
                        let total = best[k].saturating_add(cost);
                        if total < cur_best {
                            cur_best = total;
                            cur_from = k;
                        }
                    }
                    j = k;
                }
            }
            proof {
                lemma_dp_tables_len(hyps@, gap as int, container as int, i as int);
                assert(widen_all(from@.push(cur_from)) =~= widen_all(from@).push(cur_from as int));
            }
            best.push(cur_best);
            from.push(cur_from);
            i = i + 1;
        }
        proof {
            lemma_dp_tables_len(hyps@, gap as int, container as int, n as int);
        }
        if best[n] != UNREACHABLE {
            let mut rev: Vec<usize> = Vec::new();
            let mut k = n;
            proof {
                lemma_dp_tables_len(hyps@, gap as int, container as int, n as int);
                lemma_from_below(hyps@, gap as int, container as int, n as int);
            }
            let ghost f = widen_all(from@);
            proof {
                assert(reversed(widen_all(rev@)) =~= Seq::<int>::empty());
                assert(chain(f, n as int) =~= chain(f, n as int) + reversed(widen_all(rev@)));
            }
            while k > 0
                invariant
                    from@.len() == n + 1,
                    f == widen_all(from@),
                    k <= n,
                    f == dp_tables(hyps@, gap as int, container as int, n as int).1,
                    forall|q: int| 0 < q <= n ==> 0 <= #[trigger] f[q] < q,
                    chain(f, n as int) == chain(f, k as int) + reversed(widen_all(rev@)),
                decreases k,
            {
                let prev = from[k];
                proof {
                    assert(chain(f, k as int) == chain(f, prev as int).push(prev as int));
                    assert(reversed(widen_all(rev@.push(prev))) =~= seq![prev as int] + reversed(widen_all(rev@)));
                    assert(chain(f, prev as int).push(prev as int) + reversed(widen_all(rev@))
                        =~= chain(f, prev as int) + reversed(widen_all(rev@.push(prev))));
                }
                rev.push(prev);
                k = prev;
            }
            let mut out: Vec<usize> = Vec::new();
            let mut q = rev.len();
            while q > 0
                invariant
                    q <= rev@.len(),
                    widen_all(out@) == reversed(widen_all(rev@)).subrange(
                        0,
                        rev@.len() - q,
                    ),
                decreases q,
            {
                q = q - 1;
                proof {
                    let ws = widen_all(rev@);
                    let tgt = reversed(ws).subrange(0, rev@.len() - q);
                    let cur = widen_all(out@.push(rev[q as int]));
                    assert(widen_all(out@).len() == out@.len());
                    assert(out@.len() == rev@.len() - (q + 1));
                    assert(tgt.len() == rev@.len() - q);
                    assert(cur.len() == out@.len() + 1);
                    assert(cur.len() == tgt.len());
                    assert forall|m: int| 0 <= m < cur.len() implies cur[m] == tgt[m] by {
                        if m < out@.len() {
                            assert(cur[m] == widen_all(out@)[m]);
                            assert(widen_all(out@)[m] == reversed(ws).subrange(
                                0,
                                rev@.len() - (q + 1),
                            )[m]);
                        }
                    }
                    assert(cur =~= tgt);
                }
                out.push(rev[q]);
            }
            proof {
                assert(reversed(widen_all(rev@)).subrange(0, rev@.len() as int) =~= reversed(widen_all(rev@)));
                assert(chain(f, 0) =~= Seq::<int>::empty());
                assert(chain(f, n as int) =~= reversed(widen_all(rev@)));
            }
            return out;
        }
    }
    starts
}

} // verus!
