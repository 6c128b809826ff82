//! Merging the border edges that two neighbouring panes draw along a shared line: the line is
//! cut at every end of an edge, and each piece between two cuts takes the first edge of each
//! side that covers it (the renderer layers their styles and picks their glyph sets).

use vstd::prelude::*;

verus! {

/// A piece of a merged line: the cells `start..end` along it, and the first edge of each side
/// that covers them, by index.
#[derive(Clone, Copy, Debug, PartialEq, Eq, Structural)]
pub struct EdgePiece {
    /// The first cell of the piece.
    pub start: i32,
    /// One past the last cell of the piece.
    pub end: i32,
    /// The first edge of the first side that covers the piece.
    pub a: Option<usize>,
    /// The first edge of the second side that covers the piece.
    pub b: Option<usize>,
}

/// Whether `x` is an end (its start or its end) of one of the first `k` edges `(start, end)`.
pub open spec fn ends_in(e: Seq<(i32, i32)>, k: int, x: i32) -> bool
    decreases k,
{
    if k <= 0 {
        false
    } else {
        ends_in(e, k - 1, x) || e[k - 1].0 == x || e[k - 1].1 == x
    }
}

/// Whether the edge `(start, end)` covers cell `x`.
pub open spec fn covers(e: (i32, i32), x: int) -> bool {
    e.0 <= x < e.1
}

/// The first of the edges `e` from `i` on that covers cell `x`.
pub open spec fn first_cover(e: Seq<(i32, i32)>, x: int, i: int) -> Option<usize>
    decreases e.len() - i,
{
    if i < 0 || i >= e.len() {
        None
    } else if covers(e[i], x) {
        Some(i as usize)
    } else {
        first_cover(e, x, i + 1)
    }
}

/// Whether the values run strictly upwards.
pub open spec fn strictly_increasing(c: Seq<i32>) -> bool {
    forall|i: int, j: int| 0 <= i < j < c.len() ==> c[i] < c[j]
}

/// The pieces of the line between the first `k + 1` cuts `c`, in order: one for each pair of
/// neighbouring cuts whose first cell an edge of either side covers.
pub open spec fn pieces(c: Seq<i32>, a: Seq<(i32, i32)>, b: Seq<(i32, i32)>, k: int) -> Seq<EdgePiece>
    decreases k,
{
    if k <= 0 || k >= c.len() {
        Seq::empty()
    } else {
        let prev = pieces(c, a, b, k - 1);
        let fa = first_cover(a, c[k - 1] as int, 0);
        let fb = first_cover(b, c[k - 1] as int, 0);
        if fa is None && fb is None {
            prev
        } else {
            prev.push(EdgePiece { start: c[k - 1], end: c[k], a: fa, b: fb })
        }
    }
}

/// Adds `x` to the strictly increasing `cuts` unless it is there already.
fn insert_cut(cuts: &mut Vec<i32>, x: i32)
    requires
        strictly_increasing(old(cuts)@),
    ensures
        strictly_increasing(final(cuts)@),
        forall|y: i32| final(cuts)@.contains(y) <==> (old(cuts)@.contains(y) || y == x),
{
    let n = cuts.len();
    let mut p: usize = 0;
    while p < n && cuts[p] < x
        invariant
            n == cuts@.len(),
            0 <= p <= n,
            cuts@ == old(cuts)@,
            forall|i: int| 0 <= i < p ==> cuts@[i] < x,
        decreases n - p,
    {
        p += 1;
    }
    if p < n && cuts[p] == x {
        return;
    }
    let ghost o = cuts@;
    cuts.insert(p, x);
    proof {
        let v = cuts@;
        assert(v =~= o.insert(p as int, x));
        assert forall|i: int, j: int| 0 <= i < j < v.len() implies v[i] < v[j] by {
            if j < p {
            } else if j == p {
                assert(v[i] == o[i]);
            } else if i < p {
                assert(v[j] == o[j - 1]);
                assert(o[i] < x);
                assert(x <= o[p as int]);
                if j - 1 > p {
                    assert(o[p as int] < o[j - 1]);
                }
            } else if i == p {
                assert(v[j] == o[j - 1]);
                assert(x <= o[p as int]);
                assert(x != o[p as int]);
                if j - 1 > p {
                    assert(o[p as int] < o[j - 1]);
                }
            } else {
                assert(v[i] == o[i - 1] && v[j] == o[j - 1]);
            }
        }
        assert forall|y: i32| v.contains(y) <==> (o.contains(y) || y == x) by {
            if o.contains(y) {
                let i = choose|i: int| 0 <= i < o.len() && o[i] == y;
                if i < p {
                    assert(v[i] == y);
                } else {
                    assert(v[i + 1] == y);
                }
            }
            if y == x {
                assert(v[p as int] == x);
            }
            if v.contains(y) {
                let i = choose|i: int| 0 <= i < v.len() && v[i] == y;
                if i < p {
                    assert(o[i] == y);
                } else if i > p {
                    assert(o[i - 1] == y);
                }
            }
        }
    }
}

/// Returns the first of `edges` that covers cell `x`.
fn find_cover(edges: &[(i32, i32)], x: i32) -> (r: Option<usize>)
    ensures
        r == first_cover(edges@, x as int, 0),
{
    let n = edges.len();
    let mut i: usize = 0;
    while i < n
        invariant
            n == edges@.len(),
            0 <= i <= n,
            first_cover(edges@, x as int, 0) == first_cover(edges@, x as int, i as int),
        decreases n - i,
    {
        if edges[i].0 <= x && x < edges[i].1 {
            return Some(i);
        }
        i += 1;
    }
    None
}

/// Merges the edges `a_edges` and `b_edges` that two sides draw along one line, each given as
/// the cells `start..end` it covers: the line is cut at every end of an edge, and each piece
/// between neighbouring cuts whose first cell an edge covers comes out, in order, with the
/// first edge of each side that covers it.
pub fn merge_cross_edges(a_edges: &[(i32, i32)], b_edges: &[(i32, i32)]) -> (r: Vec<EdgePiece>)
    ensures
        exists|c: Seq<i32>|
            {
                &&& strictly_increasing(c)
                &&& forall|x: i32|
                    #![trigger c.contains(x)]
                    c.contains(x) <==> (ends_in(a_edges@, a_edges@.len() as int, x) || ends_in(
                        b_edges@,
                        b_edges@.len() as int,
                        x,
                    ))
                &&& r@ == pieces(c, a_edges@, b_edges@, c.len() - 1)
            },
{
    let mut cuts: Vec<i32> = Vec::new();
    let na = a_edges.len();
    let mut i: usize = 0;
    while i < na
        invariant
            na == a_edges@.len(),
            0 <= i <= na,
            strictly_increasing(cuts@),
            forall|x: i32| cuts@.contains(x) <==> ends_in(a_edges@, i as int, x),
        decreases na - i,
    {
        insert_cut(&mut cuts, a_edges[i].0);
        insert_cut(&mut cuts, a_edges[i].1);
        i += 1;
    }
    let nb = b_edges.len();
    let mut j: usize = 0;
    while j < nb
        invariant
            nb == b_edges@.len(),
            na == a_edges@.len(),
            0 <= j <= nb,
            strictly_increasing(cuts@),
            forall|x: i32|
                cuts@.contains(x) <==> (ends_in(a_edges@, na as int, x) || ends_in(b_edges@, j as int, x)),
        decreases nb - j,
    {
        insert_cut(&mut cuts, b_edges[j].0);
        insert_cut(&mut cuts, b_edges[j].1);
        j += 1;
    }
    let ghost c = cuts@;
    let mut out: Vec<EdgePiece> = Vec::new();
    let m = cuts.len();
    let mut k: usize = 1;
    while k < m
        invariant
            m == c.len(),
            c == cuts@,
            1 <= k,
            k <= m || m == 0,
            out@ == pieces(c, a_edges@, b_edges@, k as int - 1),
        decreases m - k,
    {
        let s = cuts[k - 1];
        let e = cuts[k];
        let fa = find_cover(a_edges, s);
        let fb = find_cover(b_edges, s);
        if fa.is_some() || fb.is_some() {
            out.push(EdgePiece { start: s, end: e, a: fa, b: fb });
        }
        k += 1;
    }
    proof {
        if m == 0 {
            assert(pieces(c, a_edges@, b_edges@, -1) =~= Seq::<EdgePiece>::empty());
        }
        assert(out@ == pieces(c, a_edges@, b_edges@, c.len() - 1));
    }
    out
}

} // verus!
