//! Dragging the divider between two grid tracks: one track grows and its neighbours on the
//! other side give up space, nearest first, down to their minimums.

use vstd::prelude::*;

verus! {

/// The sum of the sizes.
pub open spec fn total(s: Seq<i32>) -> int
    decreases s.len(),
{
    if s.len() == 0 {
        0
    } else {
        total(s.drop_last()) + s.last()
    }
}

/// What a track of `size` gives up towards `remaining`: all it has above `min`, capped at
/// `remaining`.
pub open spec fn give(size: i32, min: i32, remaining: int) -> int {
    let avail = if size - min > 0 {
        size - min
    } else {
        0
    };
    if avail < remaining {
        avail
    } else {
        remaining
    }
}

/// Shrinks the tracks from `i` to the end in order until `remaining` is taken; returns the new
/// sizes and the amount taken.
pub open spec fn shrink_after(sizes: Seq<i32>, mins: Seq<i32>, i: int, remaining: int) -> (
    Seq<i32>,
    int,
)
    decreases sizes.len() - i,
{
    if i < 0 || i >= sizes.len() || remaining <= 0 {
        (sizes, 0)
    } else {
        let g = give(sizes[i], mins[i], remaining);
        let next = shrink_after(sizes.update(i, (sizes[i] - g) as i32), mins, i + 1, remaining - g);
        (next.0, g + next.1)
    }
}

/// Shrinks the tracks from `i` down to the first in order until `remaining` is taken; returns
/// the new sizes and the amount taken.
pub open spec fn shrink_before(sizes: Seq<i32>, mins: Seq<i32>, i: int, remaining: int) -> (
    Seq<i32>,
    int,
)
    decreases i + 1,
{
    if i < 0 || i >= sizes.len() || remaining <= 0 {
        (sizes, 0)
    } else {
        let g = give(sizes[i], mins[i], remaining);
        let next = shrink_before(sizes.update(i, (sizes[i] - g) as i32), mins, i - 1, remaining - g);
        (next.0, g + next.1)
    }
}

/// The track that grows when the divider before track `boundary` moves by `delta`.
pub open spec fn grow_index(boundary: int, delta: int) -> int {
    if delta > 0 {
        boundary - 1
    } else {
        boundary
    }
}

/// How far the growing track grows: `|delta|`, capped by the room below its maximum.
pub open spec fn drag_amount(sizes: Seq<i32>, maxes: Seq<Option<u16>>, boundary: int, delta: int) -> int {
    let g = grow_index(boundary, delta);
    let gmax: int = match maxes[g] {
        Some(m) => m as int,
        None => 65535,
    };
    let headroom = if gmax - sizes[g] > 0 {
        gmax - sizes[g]
    } else {
        0
    };
    let mag = if delta < 0 {
        -delta
    } else {
        delta
    };
    if mag < headroom {
        mag
    } else {
        headroom
    }
}

/// The sizes after the divider before track `boundary` moves by a non-zero `delta`: forwards,
/// the track before it grows and the tracks after it shrink; backwards, the track after it
/// grows and the tracks before it shrink, nearest first.
pub open spec fn dragged(
    sizes: Seq<i32>,
    mins: Seq<i32>,
    maxes: Seq<Option<u16>>,
    boundary: int,
    delta: int,
) -> Seq<i32> {
    let g = grow_index(boundary, delta);
    let amount = drag_amount(sizes, maxes, boundary, delta);
    let shrunk = if delta > 0 {
        shrink_after(sizes, mins, boundary, amount)
    } else {
        shrink_before(sizes, mins, boundary - 1, amount)
    };
    shrunk.0.update(g, (shrunk.0[g] + shrunk.1) as i32)
}

/// The sizes as signed integers.
pub open spec fn widen(v: Seq<u16>) -> Seq<i32> {
    Seq::new(v.len(), |i: int| v[i] as i32)
}

/// Whether every size lies between zero and the largest track size.
pub open spec fn in_track_range(s: Seq<i32>) -> bool {
    forall|k: int| 0 <= k < s.len() ==> 0 <= #[trigger] s[k] <= 65535
}

/// Changing one size changes the total by the difference.
pub proof fn lemma_total_update(s: Seq<i32>, i: int, v: i32)
    requires
        0 <= i < s.len(),
    ensures
        total(s.update(i, v)) == total(s) - s[i] + v,
    decreases s.len(),
{
    if i == s.len() - 1 {
        assert(s.update(i, v).drop_last() =~= s.drop_last());
    } else {
        lemma_total_update(s.drop_last(), i, v);
        assert(s.update(i, v).drop_last() =~= s.drop_last().update(i, v));
    }
}

proof fn lemma_shrink_after(sizes: Seq<i32>, mins: Seq<i32>, i: int, remaining: int)
    requires
        0 <= i,
        remaining >= 0,
        mins.len() == sizes.len(),
        in_track_range(sizes),
        in_track_range(mins),
    ensures
        ({
            let r = shrink_after(sizes, mins, i, remaining);
            &&& r.0.len() == sizes.len()
            &&& 0 <= r.1 <= remaining
            &&& total(r.0) + r.1 == total(sizes)
            &&& in_track_range(r.0)
            &&& forall|k: int| 0 <= k < sizes.len() && k < i ==> r.0[k] == sizes[k]
            &&& forall|k: int|
                0 <= k < sizes.len() ==> r.0[k] <= sizes[k] && (r.0[k] >= mins[k] || r.0[k]
                    == sizes[k])
        }),
    decreases sizes.len() - i,
{
    if i >= sizes.len() || remaining <= 0 {
    } else {
        let g = give(sizes[i], mins[i], remaining);
        let s2 = sizes.update(i, (sizes[i] - g) as i32);
        lemma_total_update(sizes, i, (sizes[i] - g) as i32);
        lemma_shrink_after(s2, mins, i + 1, remaining - g);
        let r = shrink_after(s2, mins, i + 1, remaining - g);
        assert(r.0[i] == s2[i]);
        assert forall|k: int| 0 <= k < sizes.len() && k < i implies r.0[k] == sizes[k] by {
            assert(r.0[k] == s2[k]);
        }
        assert forall|k: int|
            0 <= k < sizes.len() implies r.0[k] <= sizes[k] && (r.0[k] >= mins[k] || r.0[k]
                == sizes[k]) by {
            assert(r.0[k] <= s2[k] && (r.0[k] >= mins[k] || r.0[k] == s2[k]));
        }
    }
}

proof fn lemma_shrink_before(sizes: Seq<i32>, mins: Seq<i32>, i: int, remaining: int)
    requires
        i < sizes.len(),
        remaining >= 0,
        mins.len() == sizes.len(),
        in_track_range(sizes),
        in_track_range(mins),
    ensures
        ({
            let r = shrink_before(sizes, mins, i, remaining);
            &&& r.0.len() == sizes.len()
            &&& 0 <= r.1 <= remaining
            &&& total(r.0) + r.1 == total(sizes)
            &&& in_track_range(r.0)
            &&& forall|k: int| 0 <= k < sizes.len() && k > i ==> r.0[k] == sizes[k]
            &&& forall|k: int|
                0 <= k < sizes.len() ==> r.0[k] <= sizes[k] && (r.0[k] >= mins[k] || r.0[k]
                    == sizes[k])
        }),
    decreases i + 1,
{
    if i < 0 || remaining <= 0 {
    } else {
        let g = give(sizes[i], mins[i], remaining);
        let s2 = sizes.update(i, (sizes[i] - g) as i32);
        lemma_total_update(sizes, i, (sizes[i] - g) as i32);
        lemma_shrink_before(s2, mins, i - 1, remaining - g);
        let r = shrink_before(s2, mins, i - 1, remaining - g);
        assert(r.0[i] == s2[i]);
        assert forall|k: int| 0 <= k < sizes.len() && k > i implies r.0[k] == sizes[k] by {
            assert(r.0[k] == s2[k]);
        }
        assert forall|k: int|
            0 <= k < sizes.len() implies r.0[k] <= sizes[k] && (r.0[k] >= mins[k] || r.0[k]
                == sizes[k]) by {
            assert(r.0[k] <= s2[k] && (r.0[k] >= mins[k] || r.0[k] == s2[k]));
        }
    }
}

/// Dragging a divider keeps the total size of the tracks, keeps every track within the size
/// range, grows the track next to the divider by what the others gave up and by no more than
/// `|delta|`, and shrinks no track below its minimum unless it was already there.
pub proof fn lemma_drag_conserves_total(
    sizes: Seq<i32>,
    mins: Seq<i32>,
    maxes: Seq<Option<u16>>,
    boundary: int,
    delta: int,
)
    requires
        sizes.len() == mins.len() == maxes.len(),
        in_track_range(sizes),
        in_track_range(mins),
        delta != 0,
        1 <= boundary,
        delta > 0 ==> boundary <= sizes.len(),
        delta < 0 ==> boundary < sizes.len(),
    ensures
        ({
            let r = dragged(sizes, mins, maxes, boundary, delta);
            let g = grow_index(boundary, delta);
            &&& r.len() == sizes.len()
            &&& total(r) == total(sizes)
            &&& in_track_range(r)
            &&& sizes[g] <= r[g] <= sizes[g] + (if delta < 0 {
                -delta
            } else {
                delta
            })
            &&& r[g] > sizes[g] ==> r[g] <= (match maxes[g] {
                Some(m) => m as int,
                None => 65535,
            })
            &&& forall|k: int|
                0 <= k < sizes.len() && k != g ==> r[k] <= sizes[k] && (r[k] >= mins[k] || r[k]
                    == sizes[k])
        }),
{
    let g = grow_index(boundary, delta);
    let amount = drag_amount(sizes, maxes, boundary, delta);
    if delta > 0 {
        lemma_shrink_after(sizes, mins, boundary, amount);
        let s = shrink_after(sizes, mins, boundary, amount);
        lemma_total_update(s.0, g, (s.0[g] + s.1) as i32);
    } else {
        lemma_shrink_before(sizes, mins, boundary - 1, amount);
        let s = shrink_before(sizes, mins, boundary - 1, amount);
        lemma_total_update(s.0, g, (s.0[g] + s.1) as i32);
    }
}

/// Shrinks the tracks from `start` to the end in order until `remaining` is taken; returns the
/// amount taken.
fn cascade_shrink_after(sizes: &mut Vec<i32>, mins: &[i32], start: usize, remaining: i32) -> (r: i32)
    requires
        old(sizes)@.len() == mins@.len(),
        in_track_range(old(sizes)@),
        in_track_range(mins@),
        remaining >= 0,
    ensures
        final(sizes)@ == shrink_after(old(sizes)@, mins@, start as int, remaining as int).0,
        r == shrink_after(old(sizes)@, mins@, start as int, remaining as int).1,
{
    let ghost orig = sizes@;
    proof {
        lemma_shrink_after(orig, mins@, start as int, remaining as int);
    }
    let mut i = start;
    let mut rem = remaining;
    let mut taken: i32 = 0;
    while i < sizes.len() && rem > 0
        invariant
            sizes@.len() == mins@.len() == orig.len(),
            in_track_range(sizes@),
            in_track_range(mins@),
            0 <= rem <= remaining,
            taken + rem == remaining,
            start <= i,
            shrink_after(sizes@, mins@, i as int, rem as int).0 == shrink_after(
                orig,
                mins@,
                start as int,
                remaining as int,
            ).0,
            taken + shrink_after(sizes@, mins@, i as int, rem as int).1 == shrink_after(
                orig,
                mins@,
                start as int,
                remaining as int,
            ).1,
        decreases sizes@.len() - i,
    {
        let avail = if sizes[i] - mins[i] > 0 {
            sizes[i] - mins[i]
        } else {
            0
        };
        let g = if avail < rem {
            avail
        } else {
            rem
        };
        proof {
            lemma_shrink_after(sizes@, mins@, i as int, rem as int);
        }
        let v = sizes[i] - g;
        sizes.set(i, v);
        rem = rem - g;
        taken = taken + g;
        i = i + 1;
    }
    taken
}

/// Shrinks the tracks from `last` down to the first until `remaining` is taken; returns the
/// amount taken.
fn cascade_shrink_before(sizes: &mut Vec<i32>, mins: &[i32], last: usize, remaining: i32) -> (r: i32)
    requires
        old(sizes)@.len() == mins@.len(),
        last < old(sizes)@.len(),
        in_track_range(old(sizes)@),
        in_track_range(mins@),
        remaining >= 0,
    ensures
        final(sizes)@ == shrink_before(old(sizes)@, mins@, last as int, remaining as int).0,
        r == shrink_before(old(sizes)@, mins@, last as int, remaining as int).1,
{
    let ghost orig = sizes@;
    let len = sizes.len();
    assert(last < len);
    let mut i: usize = last + 1;
    let mut rem = remaining;
    let mut taken: i32 = 0;
    while i > 0 && rem > 0
        invariant
            sizes@.len() == mins@.len() == orig.len(),
            i <= last + 1,
            last < orig.len(),
            in_track_range(sizes@),
            in_track_range(mins@),
            0 <= rem <= remaining,
            taken + rem == remaining,
            shrink_before(sizes@, mins@, i - 1, rem as int).0 == shrink_before(
                orig,
                mins@,
                last as int,
                remaining as int,
            ).0,
            taken + shrink_before(sizes@, mins@, i - 1, rem as int).1 == shrink_before(
                orig,
                mins@,
                last as int,
                remaining as int,
            ).1,
        decreases i,
    {
        let k = i - 1;
        let avail = if sizes[k] - mins[k] > 0 {
            sizes[k] - mins[k]
        } else {
            0
        };
        let g = if avail < rem {
            avail
        } else {
            rem
        };
        proof {
            lemma_shrink_before(sizes@, mins@, k as int, rem as int);
        }
        let v = sizes[k] - g;
        sizes.set(k, v);
        rem = rem - g;
        taken = taken + g;
        i = k;
    }
    taken
}

/// The track sizes after the divider before track `boundary` is dragged by `delta` cells, or
/// `None` when `delta` is zero and nothing moves. `targets` are the current sizes, `mins` and
/// `maxes` each track's minimum and optional maximum.
pub fn apply_drag(
    targets: &[u16],
    mins: &[u16],
    maxes: &[Option<u16>],
    boundary: usize,
    delta: i32,
) -> (r: Option<Vec<u16>>)
    requires
        targets@.len() == mins@.len() == maxes@.len(),
        delta > i32::MIN,
        delta != 0 ==> 1 <= boundary,
        delta > 0 ==> boundary <= targets@.len(),
        delta < 0 ==> boundary < targets@.len(),
    ensures
        delta == 0 ==> r is None,
        delta != 0 ==> (r matches Some(v) && widen(v@) == dragged(
            widen(targets@),
            widen(mins@),
            maxes@,
            boundary as int,
            delta as int,
        )),
{
    if delta == 0 {
        return None;
    }
    let n = targets.len();
    let mut sizes: Vec<i32> = Vec::new();
    let mut lows: Vec<i32> = Vec::new();
    let mut k: usize = 0;
    while k < n
        invariant
            n == targets@.len() == mins@.len(),
            k <= n,
            sizes@.len() == k,
            lows@.len() == k,
            forall|j: int| 0 <= j < k ==> sizes@[j] == targets@[j] as i32,
            forall|j: int| 0 <= j < k ==> lows@[j] == mins@[j] as i32,
        decreases n - k,
    {
        sizes.push(targets[k] as i32);
        lows.push(mins[k] as i32);
        k = k + 1;
    }
    proof {
        assert(sizes@ =~= widen(targets@));
        assert(lows@ =~= widen(mins@));
    }
    let grow = if delta > 0 {
        boundary - 1
    } else {
        boundary
    };
    let grow_max: i32 = match maxes[grow] {
        Some(m) => m as i32,
        None => 65535,
    };
    let headroom = if grow_max - sizes[grow] > 0 {
        grow_max - sizes[grow]
    } else {
        0
    };
    let mag = if delta < 0 {
        -delta
    } else {
        delta
    };
    let amount = if mag < headroom {
        mag
    } else {
        headroom
    };
    let ghost before = sizes@;
    let taken = if delta > 0 {
        cascade_shrink_after(&mut sizes, lows.as_slice(), boundary, amount)
    } else {
        cascade_shrink_before(&mut sizes, lows.as_slice(), boundary - 1, amount)
    };
    proof {
        if delta > 0 {
            lemma_shrink_after(before, lows@, boundary as int, amount as int);
        } else {
            lemma_shrink_before(before, lows@, boundary - 1, amount as int);
        }
    }
    let grown = sizes[grow] + taken;
    sizes.set(grow, grown);
    proof {
        lemma_drag_conserves_total(before, lows@, maxes@, boundary as int, delta as int);
    }
    let mut out: Vec<u16> = Vec::new();
    let mut j: usize = 0;
    while j < n
        invariant
            n == sizes@.len(),
            in_track_range(sizes@),
            j <= n,
            out@.len() == j,
            forall|q: int| 0 <= q < j ==> out@[q] as i32 == sizes@[q],
        decreases n - j,
    {
        out.push(sizes[j] as u16);
        j = j + 1;
    }
    proof {
        assert(widen(out@) =~= sizes@);
    }
    Some(out)
}

} // verus!
