//! The grid container's model: cell placements and tracks, which edges carry a border, and
//! the minimum and preferred size of every track.

use vstd::prelude::*;
use crate::flex::FlexItem;
use crate::geometry::{Axis2D, Vec2};
use crate::grid::{distribute_min, distributed_mins, Track};
use crate::spacing::Spacing;

verus! {

/// What the grid reads of one placed child.
#[derive(Clone, Copy, Debug, PartialEq, Eq, Structural)]
pub struct CellPlacement {
    /// Origin row index.
    pub row: u16,
    /// Origin column index.
    pub col: u16,
    /// Row span; zero counts as one.
    pub row_span: u16,
    /// Column span; zero counts as one.
    pub col_span: u16,
    /// Whether the cell sets a border on its four edges.
    pub bordered: bool,
    /// Per-cell padding override.
    pub padding: Option<Spacing>,
    /// The child's minimum size.
    pub min_size: Vec2<u16>,
    /// The child's preferred size.
    pub preferred_size: Vec2<u16>,
}

/// The grid's cells and tracks, as far as sizing and edges go.
pub struct GridModel {
    /// The placed children.
    pub cells: Vec<CellPlacement>,
    /// The column tracks.
    pub columns: Vec<Track>,
    /// The row tracks.
    pub rows: Vec<Track>,
    /// Gap between columns.
    pub col_gap: u8,
    /// Gap between rows.
    pub row_gap: u8,
    /// Whether an outer border is set.
    pub bordered: bool,
    /// Whether a border is set between rows.
    pub row_borders: bool,
    /// Whether a border is set between columns.
    pub col_borders: bool,
    /// Default cell padding.
    pub padding: Spacing,
}

/// Where the border on an edge comes from, in order of precedence.
#[derive(Clone, Copy, Debug, PartialEq, Eq, Structural)]
pub enum EdgeSource {
    /// The border of the cell with this index.
    Cell(usize),
    /// The trailing-edge border of the track with this index.
    TrackEnd(usize),
    /// The leading-edge border of the track with this index.
    TrackStart(usize),
    /// The grid's border between tracks.
    Between,
    /// The grid's outer border.
    Outer,
}

/// A span of zero counts as one.
pub open spec fn span_of(s: u16) -> int {
    if s == 0 {
        1
    } else {
        s as int
    }
}

/// Whether the cell covers row `r` and column `c`.
pub open spec fn covers(cell: CellPlacement, r: int, c: int) -> bool {
    &&& cell.row <= r < cell.row + span_of(cell.row_span)
    &&& cell.col <= c < cell.col + span_of(cell.col_span)
}

/// The first cell from index `k` on that covers row `r` and column `c`.
pub open spec fn covering_from(cells: Seq<CellPlacement>, r: int, c: int, k: int) -> Option<int>
    decreases cells.len() - k,
{
    if k < 0 || k >= cells.len() {
        None
    } else if covers(cells[k], r, c) {
        Some(k)
    } else {
        covering_from(cells, r, c, k + 1)
    }
}

impl GridModel {
    /// The number of columns.
    pub open spec fn n_cols(self) -> int {
        self.columns@.len() as int
    }

    /// The number of rows.
    pub open spec fn n_rows(self) -> int {
        self.rows@.len() as int
    }

    /// The first cell that covers row `r` and column `c`.
    pub open spec fn covering(self, r: int, c: int) -> Option<int> {
        covering_from(self.cells@, r, c, 0)
    }

    /// The border on the horizontal edge above row `r` at column `c`: none inside a cell
    /// spanning both sides, else the cell above, the cell below, the track above, the track
    /// below, the grid's border between rows, or its outer border.
    pub open spec fn h_edge(self, r: int, c: int) -> Option<EdgeSource> {
        let n = self.n_rows();
        let above = if r > 0 {
            self.covering(r - 1, c)
        } else {
            None
        };
        let below = if r < n {
            self.covering(r, c)
        } else {
            None
        };
        if r > 0 && r < n && above is Some && below is Some && above == below {
            None
        } else if above is Some && self.cells@[above->0].bordered {
            Some(EdgeSource::Cell(above->0 as usize))
        } else if below is Some && self.cells@[below->0].bordered {
            Some(EdgeSource::Cell(below->0 as usize))
        } else if r > 0 && r <= n && self.rows@[r - 1].end {
            Some(EdgeSource::TrackEnd((r - 1) as usize))
        } else if 0 <= r < n && self.rows@[r].start {
            Some(EdgeSource::TrackStart(r as usize))
        } else if r > 0 && r < n && self.row_borders {
            Some(EdgeSource::Between)
        } else if (r == 0 || r == n) && n > 0 && self.bordered {
            Some(EdgeSource::Outer)
        } else {
            None
        }
    }

    /// The border on the vertical edge left of column `c` at row `r`: none inside a cell
    /// spanning both sides, else the cell to the left, the cell to the right, the track to the
    /// left, the track to the right, the grid's border between columns, or its outer border.
    pub open spec fn v_edge(self, r: int, c: int) -> Option<EdgeSource> {
        let n = self.n_cols();
        let left = if c > 0 {
            self.covering(r, c - 1)
        } else {
            None
        };
        let right = if c < n {
            self.covering(r, c)
        } else {
            None
        };
        if c > 0 && c < n && left is Some && right is Some && left == right {
            None
        } else if left is Some && self.cells@[left->0].bordered {
            Some(EdgeSource::Cell(left->0 as usize))
        } else if right is Some && self.cells@[right->0].bordered {
            Some(EdgeSource::Cell(right->0 as usize))
        } else if c > 0 && c <= n && self.columns@[c - 1].end {
            Some(EdgeSource::TrackEnd((c - 1) as usize))
        } else if 0 <= c < n && self.columns@[c].start {
            Some(EdgeSource::TrackStart(c as usize))
        } else if c > 0 && c < n && self.col_borders {
            Some(EdgeSource::Between)
        } else if (c == 0 || c == n) && n > 0 && self.bordered {
            Some(EdgeSource::Outer)
        } else {
            None
        }
    }

    /// Whether any column from `c` on, below `limit`, has a border on the edge above row `r`.
    pub open spec fn any_h_edge(self, r: int, c: int, limit: int) -> bool
        decreases limit - c,
    {
        if c < 0 || c >= limit {
            false
        } else {
            self.h_edge(r, c) is Some || self.any_h_edge(r, c + 1, limit)
        }
    }

    /// Whether any row from `r` on, below `limit`, has a border on the edge left of column `c`.
    pub open spec fn any_v_edge(self, c: int, r: int, limit: int) -> bool
        decreases limit - r,
    {
        if r < 0 || r >= limit {
            false
        } else {
            self.v_edge(r, c) is Some || self.any_v_edge(c, r + 1, limit)
        }
    }

    /// The separator width, one or zero, on the horizontal edge above row `r`.
    pub open spec fn h_line(self, r: int) -> int {
        if self.any_h_edge(r, 0, self.n_cols()) {
            1
        } else {
            0
        }
    }

    /// The separator width, one or zero, on the vertical edge left of column `c`.
    pub open spec fn v_line(self, c: int) -> int {
        if self.any_v_edge(c, 0, self.n_rows()) {
            1
        } else {
            0
        }
    }

    /// The separator widths between the columns `start..start + n`.
    pub open spec fn col_seps(self, start: int, n: int) -> int
        decreases n,
    {
        if n <= 1 {
            0
        } else {
            self.col_seps(start, n - 1) + self.v_line(start + n - 1)
        }
    }

    /// The separator widths between the rows `start..start + n`.
    pub open spec fn row_seps(self, start: int, n: int) -> int
        decreases n,
    {
        if n <= 1 {
            0
        } else {
            self.row_seps(start, n - 1) + self.h_line(start + n - 1)
        }
    }
}

/// What a cell asks of the tracks it covers.
#[derive(Clone, Copy, Debug, PartialEq, Eq, Structural)]
pub enum CellNeed {
    /// The child's minimum size.
    Min,
    /// The child's preferred size.
    Pref,
    /// The cell's padding on both edges.
    Pad,
}

/// The cell's coordinate on `axis`: its column on x, its row on y.
pub open spec fn origin(cell: CellPlacement, axis: Axis2D) -> int {
    match axis {
        Axis2D::X => cell.col as int,
        Axis2D::Y => cell.row as int,
    }
}

/// The cell's span on `axis`, zero counting as one.
pub open spec fn span(cell: CellPlacement, axis: Axis2D) -> int {
    match axis {
        Axis2D::X => span_of(cell.col_span),
        Axis2D::Y => span_of(cell.row_span),
    }
}

/// `v` capped at the largest track size.
pub open spec fn sat16(v: int) -> u16 {
    if v > 65535 {
        65535u16
    } else {
        v as u16
    }
}

/// The dragged size of track `i`, when one was set.
pub open spec fn drag_at(drag: Seq<Option<u16>>, i: int) -> Option<u16> {
    if 0 <= i < drag.len() {
        drag[i]
    } else {
        None
    }
}

/// The flex item of a track with minimum `min`, preferred size `pref` and dragged size
/// `dragged`: pinned at the dragged size held between the minimum and the track's maximum, or
/// free between them starting from the preference held the same way.
pub open spec fn track_item(t: Track, min: u16, pref: u16, dragged: Option<u16>) -> FlexItem {
    let tmax0: u16 = match t.max {
        Some(m) => m,
        None => 65535u16,
    };
    let tmax = if tmax0 < min {
        min
    } else {
        tmax0
    };
    match dragged {
        Some(p) => {
            let lo = if p < min {
                min
            } else {
                p
            };
            let pinned = if lo > tmax {
                tmax
            } else {
                lo
            };
            FlexItem::new_item(pinned, pinned, pinned, 0)
        },
        None => {
            let lo = if pref < min {
                min
            } else {
                pref
            };
            let start = if lo > tmax {
                tmax
            } else {
                lo
            };
            FlexItem::new_item(start, min, tmax, t.flex)
        },
    }
}

impl GridModel {
    /// The model fits the grid's arithmetic: fewer than 65536 tracks on each axis.
    pub open spec fn wf(self) -> bool {
        self.n_cols() < 65536 && self.n_rows() < 65536
    }

    /// The tracks along `axis`: the columns on x, the rows on y.
    pub open spec fn tracks(self, axis: Axis2D) -> Seq<Track> {
        match axis {
            Axis2D::X => self.columns@,
            Axis2D::Y => self.rows@,
        }
    }

    /// The number of tracks along `axis`.
    pub open spec fn n_tracks(self, axis: Axis2D) -> int {
        self.tracks(axis).len() as int
    }

    /// The gap between tracks along `axis`.
    pub open spec fn gap(self, axis: Axis2D) -> int {
        match axis {
            Axis2D::X => self.col_gap as int,
            Axis2D::Y => self.row_gap as int,
        }
    }

    /// The separator width before track `i` along `axis`.
    pub open spec fn line(self, axis: Axis2D, i: int) -> int {
        match axis {
            Axis2D::X => self.v_line(i),
            Axis2D::Y => self.h_line(i),
        }
    }

    /// The separator widths between the tracks `start..start + n` along `axis`.
    pub open spec fn seps(self, axis: Axis2D, start: int, n: int) -> int {
        match axis {
            Axis2D::X => self.col_seps(start, n),
            Axis2D::Y => self.row_seps(start, n),
        }
    }

    /// The padding that applies to a cell: its own, else the grid's.
    pub open spec fn cell_pad(self, cell: CellPlacement) -> Spacing {
        match cell.padding {
            Some(p) => p,
            None => self.padding,
        }
    }

    /// How many tracks along `axis` the cell covers: its span, capped at the last track, or
    /// none when it starts past the last track.
    pub open spec fn cover(self, cell: CellPlacement, axis: Axis2D) -> int {
        let n = self.n_tracks(axis);
        let o = origin(cell, axis);
        if o < n {
            if span(cell, axis) < n - o {
                span(cell, axis)
            } else {
                n - o
            }
        } else {
            0
        }
    }

    /// What the cell asks of its tracks along `axis`.
    pub open spec fn need(self, cell: CellPlacement, axis: Axis2D, what: CellNeed) -> int {
        match what {
            CellNeed::Min => cell.min_size.at(axis) as int,
            CellNeed::Pref => cell.preferred_size.at(axis) as int,
            CellNeed::Pad => self.cell_pad(cell).total(axis) as int,
        }
    }

    /// The track sizes along `axis` after the first `k` cells made room for what they need,
    /// starting from `base`; a cell needing no padding is skipped when distributing padding.
    pub open spec fn distribute_cells(self, axis: Axis2D, base: Seq<u16>, k: int, what: CellNeed) -> Seq<
        u16,
    >
        decreases k,
    {
        if k <= 0 {
            base
        } else {
            let acc = self.distribute_cells(axis, base, k - 1, what);
            let cell = self.cells@[k - 1];
            let o = origin(cell, axis);
            let amount = self.need(cell, axis, what);
            if o < self.n_tracks(axis) && (what != CellNeed::Pad || amount > 0) {
                let cs = self.cover(cell, axis);
                distributed_mins(acc, o, cs, amount, self.gap(axis), self.seps(axis, o, cs))
            } else {
                acc
            }
        }
    }

    /// The minimum of each track along `axis`: the track's own minimum raised to fit every
    /// cell's minimum, then held to the track's bounds, plus room for the cells' padding.
    pub open spec fn track_mins_spec(self, axis: Axis2D) -> Seq<u16> {
        let n = self.n_tracks(axis);
        let t = self.tracks(axis);
        let base = Seq::new(n as nat, |i: int| match t[i].min {
            Some(m) => m,
            None => 0u16,
        });
        let d = self.distribute_cells(axis, base, self.cells@.len() as int, CellNeed::Min);
        let pad = self.distribute_cells(
            axis,
            Seq::new(n as nat, |i: int| 0u16),
            self.cells@.len() as int,
            CellNeed::Pad,
        );
        Seq::new(
            n as nat,
            |i: int|
                {
                    let lo = match t[i].min {
                        Some(m) => if d[i] < m {
                            m
                        } else {
                            d[i]
                        },
                        None => d[i],
                    };
                    let held = match t[i].max {
                        Some(m) => if lo > m {
                            m
                        } else {
                            lo
                        },
                        None => lo,
                    };
                    sat16(held + pad[i])
                },
        )
    }

    /// The preferred size of each track along `axis`, given the track minimums `mins`: raised
    /// to fit every cell's preferred size, replaced by the track's own preference, and held
    /// between the minimum and the track's maximum.
    pub open spec fn track_prefs_spec(self, axis: Axis2D, mins: Seq<u16>) -> Seq<u16> {
        let n = self.n_tracks(axis);
        let t = self.tracks(axis);
        let d = self.distribute_cells(axis, mins, self.cells@.len() as int, CellNeed::Pref);
        Seq::new(
            n as nat,
            |i: int|
                {
                    let p = match t[i].pref {
                        Some(v) => v,
                        None => d[i],
                    };
                    let p2 = if p < mins[i] {
                        mins[i]
                    } else {
                        p
                    };
                    match t[i].max {
                        Some(m) => {
                            let p3 = if p2 > m {
                                m
                            } else {
                                p2
                            };
                            if p3 < mins[i] {
                                mins[i]
                            } else {
                                p3
                            }
                        },
                        None => p2,
                    }
                },
        )
    }

    /// The cells the separators, outer pads and gaps take along `axis`.
    pub open spec fn chrome_total_spec(self, axis: Axis2D) -> int {
        let n = self.n_tracks(axis);
        let gaps = if n > 0 {
            (n - 1) * self.gap(axis)
        } else {
            0
        };
        self.line(axis, 0) + self.line(axis, n) + gaps + self.seps(axis, 0, n)
    }
}

/// The index of the first cell that covers row `r` and column `c`, if any.
fn find_covering(cells: &[CellPlacement], r: usize, c: usize) -> (res: Option<usize>)
    ensures
        res matches Some(k) ==> covering_from(cells@, r as int, c as int, 0) == Some(k as int),
        res is None ==> covering_from(cells@, r as int, c as int, 0) is None,
{
    let mut k: usize = 0;
    while k < cells.len()
        invariant
            k <= cells@.len(),
            covering_from(cells@, r as int, c as int, k as int) == covering_from(
                cells@,
                r as int,
                c as int,
                0,
            ),
        decreases cells@.len() - k,
    {
        let cell = cells[k];
        let rs: usize = if cell.row_span == 0 {
            1
        } else {
            cell.row_span as usize
        };
        let cs: usize = if cell.col_span == 0 {
            1
        } else {
            cell.col_span as usize
        };
        let r0 = cell.row as usize;
        let c0 = cell.col as usize;
        if r >= r0 && r - r0 < rs && c >= c0 && c - c0 < cs {
            return Some(k);
        }
        k = k + 1;
    }
    None
}

proof fn lemma_covering_in_range(cells: Seq<CellPlacement>, r: int, c: int, k: int)
    requires
        0 <= k,
    ensures
        covering_from(cells, r, c, k) matches Some(j) ==> k <= j < cells.len() && covers(
            cells[j],
            r,
            c,
        ),
    decreases cells.len() - k,
{
    if k < cells.len() && !covers(cells[k], r, c) {
        lemma_covering_in_range(cells, r, c, k + 1);
    }
}

impl GridModel {
    proof fn lemma_distribute_cells_len(self, axis: Axis2D, base: Seq<u16>, k: int, what: CellNeed)
        ensures
            self.distribute_cells(axis, base, k, what).len() == base.len(),
        decreases k,
    {
        if k > 0 {
            self.lemma_distribute_cells_len(axis, base, k - 1, what);
        }
    }

    proof fn lemma_seps_bound(self, axis: Axis2D, start: int, n: int)
        ensures
            0 <= self.seps(axis, start, n),
            self.seps(axis, start, n) <= if n > 0 {
                n
            } else {
                0
            },
        decreases n,
    {
        if n > 1 {
            self.lemma_seps_bound(axis, start, n - 1);
        }
    }

    proof fn lemma_seps_step(self, axis: Axis2D, start: int, j: int)
        requires
            j >= 1,
        ensures
            self.seps(axis, start, j + 1) == self.seps(axis, start, j) + self.line(axis, start + j),
    {
        match axis {
            Axis2D::X => {
                assert(self.col_seps(start, j + 1) == self.col_seps(start, j) + self.v_line(start + j));
            },
            Axis2D::Y => {
                assert(self.row_seps(start, j + 1) == self.row_seps(start, j) + self.h_line(start + j));
            },
        }
    }

    /// The border on the horizontal edge above row `r` at column `c`, if any, and where it
    /// comes from.
    pub fn resolve_h_edge(&self, r: usize, c: usize) -> (res: Option<EdgeSource>)
        requires
            r <= self.n_rows(),
        ensures
            res == self.h_edge(r as int, c as int),
    {
        let n = self.rows.len();
        let cells = self.cells.as_slice();
        let above = if r > 0 {
            find_covering(cells, r - 1, c)
        } else {
            None
        };
        let below = if r < n {
            find_covering(cells, r, c)
        } else {
            None
        };
        proof {
            if r > 0 {
                lemma_covering_in_range(self.cells@, r - 1, c as int, 0);
            }
            lemma_covering_in_range(self.cells@, r as int, c as int, 0);
        }
        if r > 0 && r < n {
            if let (Some(a), Some(b)) = (above, below) {
                if a == b {
                    return None;
                }
            }
        }
        if let Some(k) = above {
            if self.cells[k].bordered {
                return Some(EdgeSource::Cell(k));
            }
        }
        if let Some(k) = below {
            if self.cells[k].bordered {
                return Some(EdgeSource::Cell(k));
            }
        }
        if r > 0 && self.rows[r - 1].end {
            return Some(EdgeSource::TrackEnd(r - 1));
        }
        if r < n && self.rows[r].start {
            return Some(EdgeSource::TrackStart(r));
        }
        if r > 0 && r < n && self.row_borders {
            return Some(EdgeSource::Between);
        }
        if (r == 0 || r == n) && n > 0 && self.bordered {
            return Some(EdgeSource::Outer);
        }
        None
    }

    /// The border on the vertical edge left of column `c` at row `r`, if any, and where it
    /// comes from.
    pub fn resolve_v_edge(&self, r: usize, c: usize) -> (res: Option<EdgeSource>)
        requires
            c <= self.n_cols(),
        ensures
            res == self.v_edge(r as int, c as int),
    {
        let n = self.columns.len();
        let cells = self.cells.as_slice();
        let left = if c > 0 {
            find_covering(cells, r, c - 1)
        } else {
            None
        };
        let right = if c < n {
            find_covering(cells, r, c)
        } else {
            None
        };
        proof {
            if c > 0 {
                lemma_covering_in_range(self.cells@, r as int, c - 1, 0);
            }
            lemma_covering_in_range(self.cells@, r as int, c as int, 0);
        }
        if c > 0 && c < n {
            if let (Some(a), Some(b)) = (left, right) {
                if a == b {
                    return None;
                }
            }
        }
        if let Some(k) = left {
            if self.cells[k].bordered {
                return Some(EdgeSource::Cell(k));
            }
        }
        if let Some(k) = right {
            if self.cells[k].bordered {
                return Some(EdgeSource::Cell(k));
            }
        }
        if c > 0 && self.columns[c - 1].end {
            return Some(EdgeSource::TrackEnd(c - 1));
        }
        if c < n && self.columns[c].start {
            return Some(EdgeSource::TrackStart(c));
        }
        if c > 0 && c < n && self.col_borders {
            return Some(EdgeSource::Between);
        }
        if (c == 0 || c == n) && n > 0 && self.bordered {
            return Some(EdgeSource::Outer);
        }
        None
    }

    /// The separator width, one or zero, before track `i` along `axis`: whether any edge there
    /// carries a border.
    pub fn line_at(&self, axis: Axis2D, i: usize) -> (res: u8)
        requires
            i <= self.n_tracks(axis),
        ensures
            res == self.line(axis, i as int),
    {
        match axis {
            Axis2D::X => {
                let limit = self.rows.len();
                let mut r: usize = 0;
                while r < limit
                    invariant
                        axis == Axis2D::X,
                        i <= self.n_cols(),
                        limit == self.n_rows(),
                        r <= limit,
                        self.any_v_edge(i as int, r as int, limit as int) == self.any_v_edge(
                            i as int,
                            0,
                            limit as int,
                        ),
                    decreases limit - r,
                {
                    if self.resolve_v_edge(r, i).is_some() {
                        return 1;
                    }
                    r = r + 1;
                }
                0
            },
            Axis2D::Y => {
                let limit = self.columns.len();
                let mut c: usize = 0;
                while c < limit
                    invariant
                        axis == Axis2D::Y,
                        i <= self.n_rows(),
                        limit == self.n_cols(),
                        c <= limit,
                        self.any_h_edge(i as int, c as int, limit as int) == self.any_h_edge(
                            i as int,
                            0,
                            limit as int,
                        ),
                    decreases limit - c,
                {
                    if self.resolve_h_edge(i, c).is_some() {
                        return 1;
                    }
                    c = c + 1;
                }
                0
            },
        }
    }

    /// The separator widths between the tracks `start..start + n` along `axis`.
    pub fn sep_total_in(&self, axis: Axis2D, start: usize, n: usize) -> (res: u32)
        requires
            self.wf(),
            start + n <= self.n_tracks(axis),
        ensures
            res == self.seps(axis, start as int, n as int),
    {
        let mut total: u32 = 0;
        let mut j: usize = 1;
        proof {
            match axis {
                Axis2D::X => assert(self.col_seps(start as int, 1) == 0),
                Axis2D::Y => assert(self.row_seps(start as int, 1) == 0),
            }
        }
        while j < n
            invariant
                self.wf(),
                start + n <= self.n_tracks(axis),
                1 <= j,
                j <= n || (n == 0 && j == 1),
                total <= j,
                total == self.seps(axis, start as int, j as int),
            decreases n - j,
        {
            let l = self.line_at(axis, start + j);
            proof {
                self.lemma_seps_step(axis, start as int, j as int);
            }
            total = total + l as u32;
            j = j + 1;
        }
        proof {
            if n == 0 {
                match axis {
                    Axis2D::X => assert(self.col_seps(start as int, 0) == 0),
                    Axis2D::Y => assert(self.row_seps(start as int, 0) == 0),
                }
                assert(total == 0);
            } else {
                assert(j == n);
                assert(total == self.seps(axis, start as int, j as int));
            }
        }
        total
    }

    /// The cells the separators, outer pads and gaps take along `axis`.
    pub fn chrome_total(&self, axis: Axis2D) -> (res: u32)
        requires
            self.wf(),
        ensures
            res == self.chrome_total_spec(axis),
    {
        let n = match axis {
            Axis2D::X => self.columns.len(),
            Axis2D::Y => self.rows.len(),
        };
        let gap: u32 = match axis {
            Axis2D::X => self.col_gap as u32,
            Axis2D::Y => self.row_gap as u32,
        };
        let pads = self.line_at(axis, 0) as u32 + self.line_at(axis, n) as u32;
        let gaps: u32 = if n > 0 {
            let m = (n - 1) as u32;
            assert(m * gap <= 65535 * 255) by (nonlinear_arith)
                requires
                    m < 65536,
                    gap <= 255,
            ;
            m * gap
        } else {
            0
        };
        let seps = self.sep_total_in(axis, 0, n);
        proof {
            self.lemma_seps_bound(axis, 0, n as int);
        }
        pads + gaps + seps
    }

    /// Makes room in `sizes` for what each cell needs along `axis`, cell by cell.
    fn distribute_all(&self, axis: Axis2D, sizes: &mut Vec<u16>, what: CellNeed)
        requires
            self.wf(),
            old(sizes)@.len() == self.n_tracks(axis),
        ensures
            final(sizes)@ == self.distribute_cells(axis, old(sizes)@, self.cells@.len() as int, what),
    {
        let ghost base = sizes@;
        let n = sizes.len();
        let gap = match axis {
            Axis2D::X => self.col_gap,
            Axis2D::Y => self.row_gap,
        };
        let mut k: usize = 0;
        while k < self.cells.len()
            invariant
                self.wf(),
                n == self.n_tracks(axis),
                base.len() == n,
                gap == self.gap(axis),
                k <= self.cells@.len(),
                sizes@ == self.distribute_cells(axis, base, k as int, what),
            decreases self.cells@.len() - k,
        {
            proof {
                self.lemma_distribute_cells_len(axis, base, k as int, what);
            }
            let cell = self.cells[k];
            let o: usize = match axis {
                Axis2D::X => cell.col as usize,
                Axis2D::Y => cell.row as usize,
            };
            let amount: u32 = match what {
                CellNeed::Min => cell.min_size.get(axis) as u32,
                CellNeed::Pref => cell.preferred_size.get(axis) as u32,
                CellNeed::Pad => {
                    let p = match cell.padding {
                        Some(p) => p,
                        None => self.padding,
                    };
                    p.get_total().get(axis) as u32
                },
            };
            let skip = match what {
                CellNeed::Pad => amount == 0,
                _ => false,
            };
            if o < n && !skip {
                let raw: u16 = match axis {
                    Axis2D::X => cell.col_span,
                    Axis2D::Y => cell.row_span,
                };
                let sp: usize = if raw == 0 {
                    1
                } else {
                    raw as usize
                };
                let cs = if sp < n - o {
                    sp
                } else {
                    n - o
                };
                let sep = self.sep_total_in(axis, o, cs);
                proof {
                    self.lemma_seps_bound(axis, o as int, cs as int);
                }
                distribute_min(sizes.as_mut_slice(), o, cs, amount, gap, sep);
            }
            k = k + 1;
        }
    }
}

impl GridModel {
    /// The tracks along `axis`.
    fn track_slice(&self, axis: Axis2D) -> (r: &[Track])
        ensures
            r@ == self.tracks(axis),
    {
        match axis {
            Axis2D::X => self.columns.as_slice(),
            Axis2D::Y => self.rows.as_slice(),
        }
    }

    /// The minimum of each track along `axis`: the track's own minimum raised to fit every
    /// cell's minimum, held to the track's bounds, plus room for the cells' padding.
    pub fn track_mins(&self, axis: Axis2D) -> (r: Vec<u16>)
        requires
            self.wf(),
        ensures
            r@ == self.track_mins_spec(axis),
    {
        let tracks = self.track_slice(axis);
        let n = tracks.len();
        let ghost t = self.tracks(axis);
        let ghost base = Seq::new(n as nat, |i: int| match t[i].min {
            Some(m) => m,
            None => 0u16,
        });
        let ghost zeros = Seq::new(n as nat, |i: int| 0u16);
        let mut mins: Vec<u16> = Vec::new();
        let mut pad: Vec<u16> = Vec::new();
        let mut i: usize = 0;
        while i < n
            invariant
                n == t.len(),
                tracks@ == t,
                i <= n,
                mins@.len() == i,
                pad@.len() == i,
                forall|j: int|
                    0 <= j < i ==> #[trigger] mins@[j] == match t[j].min {
                        Some(m) => m,
                        None => 0u16,
                    },
                forall|j: int| 0 <= j < i ==> #[trigger] pad@[j] == 0,
            decreases n - i,
        {
            let m = match tracks[i].min {
                Some(m) => m,
                None => 0,
            };
            mins.push(m);
            pad.push(0);
            i = i + 1;
        }
        proof {
            assert(mins@ =~= base);
            assert(pad@ =~= zeros);
        }
        self.distribute_all(axis, &mut mins, CellNeed::Min);
        self.distribute_all(axis, &mut pad, CellNeed::Pad);
        proof {
            self.lemma_distribute_cells_len(axis, base, self.cells@.len() as int, CellNeed::Min);
            self.lemma_distribute_cells_len(axis, zeros, self.cells@.len() as int, CellNeed::Pad);
        }
        let ghost spec = self.track_mins_spec(axis);
        let mut out: Vec<u16> = Vec::new();
        let mut i: usize = 0;
        while i < n
            invariant
                n == t.len(),
                tracks@ == t,
                mins@.len() == n,
                pad@.len() == n,
                mins@ == self.distribute_cells(axis, base, self.cells@.len() as int, CellNeed::Min),
                pad@ == self.distribute_cells(axis, zeros, self.cells@.len() as int, CellNeed::Pad),
                spec == self.track_mins_spec(axis),
                t == self.tracks(axis),
                base == Seq::new(n as nat, |i: int| match t[i].min {
                    Some(m) => m,
                    None => 0u16,
                }),
                zeros == Seq::new(n as nat, |i: int| 0u16),
                i <= n,
                out@.len() == i,
                forall|j: int| 0 <= j < i ==> #[trigger] out@[j] == spec[j],
            decreases n - i,
        {
            let d = mins[i];
            let tr = tracks[i];
            let lo = match tr.min {
                Some(m) => if d < m {
                    m
                } else {
                    d
                },
                None => d,
            };
            let held = match tr.max {
                Some(m) => if lo > m {
                    m
                } else {
                    lo
                },
                None => lo,
            };
            out.push(held.saturating_add(pad[i]));
            i = i + 1;
        }
        proof {
            assert(out@ =~= spec);
        }
        out
    }

    /// The preferred size of each track along `axis`, given the track minimums `mins`.
    pub fn track_prefs(&self, axis: Axis2D, mins: &[u16]) -> (r: Vec<u16>)
        requires
            self.wf(),
            mins@.len() == self.n_tracks(axis),
        ensures
            r@ == self.track_prefs_spec(axis, mins@),
    {
        let tracks = self.track_slice(axis);
        let n = tracks.len();
        let mut d: Vec<u16> = Vec::new();
        let mut i: usize = 0;
        while i < n
            invariant
                n == mins@.len(),
                i <= n,
                d@ == mins@.subrange(0, i as int),
            decreases n - i,
        {
            d.push(mins[i]);
            i = i + 1;
            proof {
                assert(d@ =~= mins@.subrange(0, i as int));
            }
        }
        proof {
            assert(d@ =~= mins@);
        }
        self.distribute_all(axis, &mut d, CellNeed::Pref);
        proof {
            self.lemma_distribute_cells_len(axis, mins@, self.cells@.len() as int, CellNeed::Pref);
        }
        let ghost spec = self.track_prefs_spec(axis, mins@);
        let mut out: Vec<u16> = Vec::new();
        let mut i: usize = 0;
        while i < n
            invariant
                n == mins@.len(),
                n == tracks@.len(),
                tracks@ == self.tracks(axis),
                d@.len() == n,
                d@ == self.distribute_cells(axis, mins@, self.cells@.len() as int, CellNeed::Pref),
                spec == self.track_prefs_spec(axis, mins@),
                i <= n,
                out@.len() == i,
                forall|j: int| 0 <= j < i ==> #[trigger] out@[j] == spec[j],
            decreases n - i,
        {
            let tr = tracks[i];
            let m = mins[i];
            let p = match tr.pref {
                Some(v) => v,
                None => d[i],
            };
            let p2 = if p < m {
                m
            } else {
                p
            };
            let v = match tr.max {
                Some(mx) => {
                    let p3 = if p2 > mx {
                        mx
                    } else {
                        p2
                    };
                    if p3 < m {
                        m
                    } else {
                        p3
                    }
                },
                None => p2,
            };
            out.push(v);
            i = i + 1;
        }
        proof {
            assert(out@ =~= spec);
        }
        out
    }

    /// The flex items that size the tracks along `axis`, from their minimums `mins`, their
    /// preferred sizes `prefs` (when `None`, each track's own preference, else its minimum)
    /// and the sizes a drag set.
    pub fn track_items(
        &self,
        axis: Axis2D,
        mins: &[u16],
        prefs: Option<&[u16]>,
        drag: &[Option<u16>],
    ) -> (r: Vec<FlexItem>)
        requires
            mins@.len() == self.n_tracks(axis),
            prefs matches Some(p) ==> p@.len() == self.n_tracks(axis),
        ensures
            r@.len() == self.n_tracks(axis),
            forall|i: int|
                0 <= i < self.n_tracks(axis) ==> #[trigger] r@[i] == track_item(
                    self.tracks(axis)[i],
                    mins@[i],
                    match prefs {
                        Some(p) => p@[i],
                        None => match self.tracks(axis)[i].pref {
                            Some(v) => v,
                            None => mins@[i],
                        },
                    },
                    drag_at(drag@, i),
                ),
    {
        let tracks = self.track_slice(axis);
        let n = tracks.len();
        let mut out: Vec<FlexItem> = Vec::new();
        let mut i: usize = 0;
        while i < n
            invariant
                n == mins@.len() == self.n_tracks(axis),
                tracks@ == self.tracks(axis),
                prefs matches Some(p) ==> p@.len() == n,
                i <= n,
                out@.len() == i,
                forall|j: int|
                    0 <= j < i ==> #[trigger] out@[j] == track_item(
                        self.tracks(axis)[j],
                        mins@[j],
                        match prefs {
                            Some(p) => p@[j],
                            None => match self.tracks(axis)[j].pref {
                                Some(v) => v,
                                None => mins@[j],
                            },
                        },
                        drag_at(drag@, j),
                    ),
            decreases n - i,
        {
            let tr = tracks[i];
            let m = mins[i];
            let pref = match prefs {
                Some(p) => p[i],
                None => match tr.pref {
                    Some(v) => v,
                    None => m,
                },
            };
            let dragged = if i < drag.len() {
                drag[i]
            } else {
                None
            };
            let tmax0 = match tr.max {
                Some(mx) => mx,
                None => 65535,
            };
            let tmax = if tmax0 < m {
                m
            } else {
                tmax0
            };
            let item = match dragged {
                Some(p) => {
                    let lo = if p < m {
                        m
                    } else {
                        p
                    };
                    let pinned = if lo > tmax {
                        tmax
                    } else {
                        lo
                    };
                    FlexItem::new(pinned, pinned, pinned, 0)
                },
                None => {
                    let lo = if pref < m {
                        m
                    } else {
                        pref
                    };
                    let start = if lo > tmax {
                        tmax
                    } else {
                        lo
                    };
                    FlexItem::new(start, m, tmax, tr.flex)
                },
            };
            out.push(item);
            i = i + 1;
        }
        out
    }

    /// The gap after each track but the last along `axis`: the grid's gap plus the separator.
    pub fn track_gaps(&self, axis: Axis2D) -> (r: Vec<u16>)
        ensures
            r@.len() == (if self.n_tracks(axis) > 0 {
                self.n_tracks(axis) - 1
            } else {
                0
            }),
            forall|i: int|
                0 <= i < r@.len() ==> #[trigger] r@[i] == self.gap(axis) + self.line(axis, i + 1),
    {
        let n = match axis {
            Axis2D::X => self.columns.len(),
            Axis2D::Y => self.rows.len(),
        };
        let gap: u16 = match axis {
            Axis2D::X => self.col_gap as u16,
            Axis2D::Y => self.row_gap as u16,
        };
        let mut out: Vec<u16> = Vec::new();
        let mut i: usize = 0;
        while i + 1 < n
            invariant
                n == self.n_tracks(axis),
                gap == self.gap(axis),
                out@.len() == i,
                i < n || n == 0 && i == 0,
                forall|j: int|
                    0 <= j < i ==> #[trigger] out@[j] == self.gap(axis) + self.line(axis, j + 1),
            decreases n - i,
        {
            let l = self.line_at(axis, i + 1);
            out.push(gap + l as u16);
            i = i + 1;
        }
        out
    }
}

} // verus!
