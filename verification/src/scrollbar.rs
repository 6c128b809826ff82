//! Scrollbar thumb geometry and corner handling shared by scrollable containers.

use vstd::prelude::*;
use crate::geometry::{Axis2D, Vec2};

verus! {

/// What the scrollbar reads of a border glyph set: whether it has half-cell stubs along each
/// axis.
#[derive(Clone, Copy, Debug, PartialEq, Eq, Structural)]
pub struct BorderStubs {
    /// Whether the set has half-cell stubs for a bar along each axis.
    pub stubs: Vec2<bool>,
}

/// Glyph style used to draw the scrollbar thumb.
#[derive(Clone, Copy, Debug, PartialEq, Eq, Structural)]
pub enum ScrollbarThumb {
    /// Solid block thumb that supports per-cell partial coverage.
    Block,
    /// Thumb drawn from a border glyph set.
    Border(BorderStubs),
}

/// The subpixels per cell of a thumb along `axis`.
pub open spec fn subpixels(thumb: ScrollbarThumb, axis: Axis2D) -> i32 {
    match thumb {
        ScrollbarThumb::Block => if axis == Axis2D::Y {
            8
        } else {
            1
        },
        ScrollbarThumb::Border(b) => if b.stubs.at(axis) {
            2
        } else {
            1
        },
    }
}

/// The glyph chosen for one cell of the thumb.
#[derive(Clone, Copy, Debug, PartialEq, Eq, Structural)]
pub enum ThumbGlyph {
    /// A literal character.
    Char(char),
    /// The border set's straight edge for a bar along the given axis.
    Edge(Axis2D),
    /// The border set's glyph with arms towards the given sides.
    Arms {
        /// Arm towards the left.
        left: bool,
        /// Arm towards the right.
        right: bool,
        /// Arm upwards.
        up: bool,
        /// Arm downwards.
        down: bool,
    },
}

/// The eighth-block characters from a full block down to the lower eighth.
pub open spec fn vertical_partial(i: int) -> char {
    if i == 0 {
        '\u{2588}'
    } else if i == 1 {
        '\u{2587}'
    } else if i == 2 {
        '\u{2586}'
    } else if i == 3 {
        '\u{2585}'
    } else if i == 4 {
        '\u{2584}'
    } else if i == 5 {
        '\u{2583}'
    } else if i == 6 {
        '\u{2582}'
    } else {
        '\u{2581}'
    }
}

fn vertical_partial_exec(i: i32) -> (r: char)
    requires
        0 <= i < 8,
    ensures
        r == vertical_partial(i as int),
{
    match i {
        0 => '\u{2588}',
        1 => '\u{2587}',
        2 => '\u{2586}',
        3 => '\u{2585}',
        4 => '\u{2584}',
        5 => '\u{2583}',
        6 => '\u{2582}',
        _ => '\u{2581}',
    }
}

/// The glyph of a thumb cell along `axis` whose `n_levels` subpixels are `covered` by the
/// thumb, and whether it is drawn reversed; `leading` says the thumb starts inside the cell.
pub open spec fn thumb_glyph(
    thumb: ScrollbarThumb,
    axis: Axis2D,
    covered: i32,
    n_levels: i32,
    leading: bool,
) -> (ThumbGlyph, bool) {
    let full = covered >= n_levels;
    let full_row = n_levels >= subpixels(thumb, axis);
    match thumb {
        ScrollbarThumb::Block => if axis == Axis2D::Y {
            if full {
                if full_row {
                    (ThumbGlyph::Char(' '), true)
                } else {
                    (ThumbGlyph::Char('\u{2584}'), true)
                }
            } else if leading {
                (ThumbGlyph::Char(vertical_partial(n_levels - covered)), false)
            } else {
                (ThumbGlyph::Char(vertical_partial(covered as int)), true)
            }
        } else {
            (ThumbGlyph::Char('\u{2584}'), false)
        },
        ScrollbarThumb::Border(_) => if full {
            if full_row {
                (ThumbGlyph::Edge(axis.spec_flip()), false)
            } else {
                match axis {
                    Axis2D::Y => (ThumbGlyph::Arms { left: false, right: false, up: true, down: false }, false),
                    Axis2D::X => (ThumbGlyph::Arms { left: true, right: false, up: false, down: false }, false),
                }
            }
        } else {
            match (axis, leading) {
                (Axis2D::Y, true) => (ThumbGlyph::Arms { left: false, right: false, up: false, down: true }, false),
                (Axis2D::Y, false) => (ThumbGlyph::Arms { left: false, right: false, up: true, down: false }, false),
                (Axis2D::X, true) => (ThumbGlyph::Arms { left: false, right: true, up: false, down: false }, false),
                (Axis2D::X, false) => (ThumbGlyph::Arms { left: true, right: false, up: false, down: false }, false),
            }
        },
    }
}

impl ScrollbarThumb {
    /// Solid block thumb that supports per-cell partial coverage.
    pub const BLOCK: ScrollbarThumb = ScrollbarThumb::Block;

    /// Returns the subpixels per cell along the scrollbar axis.
    pub fn get_subpixels(&self, axis: Axis2D) -> (r: i32)
        ensures
            r == subpixels(*self, axis),
            1 <= r <= 8,
    {
        match self {
            ScrollbarThumb::Block => match axis {
                Axis2D::Y => 8,
                Axis2D::X => 1,
            },
            ScrollbarThumb::Border(b) => if b.stubs.get(axis) {
                2
            } else {
                1
            },
        }
    }

    /// Returns true when this thumb can render a half-cell along `axis`.
    pub fn has_half_cell(&self, axis: Axis2D) -> (r: bool)
        ensures
            r == (subpixels(*self, axis) > 1),
    {
        self.get_subpixels(axis) > 1
    }

    /// Returns the glyph for a thumb cell along `axis` with `covered` of its `n_levels`
    /// subpixels under the thumb, and whether to draw it reversed.
    pub fn glyph(&self, axis: Axis2D, covered: i32, n_levels: i32, leading: bool) -> (r: (ThumbGlyph, bool))
        requires
            0 < covered,
            n_levels <= subpixels(*self, axis),
        ensures
            r == thumb_glyph(*self, axis, covered, n_levels, leading),
    {
        let full = covered >= n_levels;
        let full_row = n_levels >= self.get_subpixels(axis);
        match self {
            ScrollbarThumb::Block => match axis {
                Axis2D::Y => {
                    if full {
                        if full_row {
                            (ThumbGlyph::Char(' '), true)
                        } else {
                            (ThumbGlyph::Char('\u{2584}'), true)
                        }
                    } else if leading {
                        (ThumbGlyph::Char(vertical_partial_exec(n_levels - covered)), false)
                    } else {
                        (ThumbGlyph::Char(vertical_partial_exec(covered)), true)
                    }
                },
                Axis2D::X => (ThumbGlyph::Char('\u{2584}'), false),
            },
            ScrollbarThumb::Border(_) => {
                if full {
                    if full_row {
                        (ThumbGlyph::Edge(axis.flip()), false)
                    } else {
                        match axis {
                            Axis2D::Y => (ThumbGlyph::Arms { left: false, right: false, up: true, down: false }, false),
                            Axis2D::X => (ThumbGlyph::Arms { left: true, right: false, up: false, down: false }, false),
                        }
                    }
                } else {
                    match (axis, leading) {
                        (Axis2D::Y, true) => (ThumbGlyph::Arms { left: false, right: false, up: false, down: true }, false),
                        (Axis2D::Y, false) => (ThumbGlyph::Arms { left: false, right: false, up: true, down: false }, false),
                        (Axis2D::X, true) => (ThumbGlyph::Arms { left: false, right: true, up: false, down: false }, false),
                        (Axis2D::X, false) => (ThumbGlyph::Arms { left: true, right: false, up: false, down: false }, false),
                    }
                }
            },
        }
    }
}

/// Thumb and track glyph choice for a scrollbar (the style layers are kept with the renderer).
#[derive(Clone, Copy, Debug, PartialEq, Eq, Structural)]
pub struct ScrollbarConfig {
    /// Glyph style used to draw the thumb.
    pub thumb: ScrollbarThumb,
    /// Glyph used to draw the track.
    pub track: char,
}

/// Per-instance overrides layered atop a [`ScrollbarConfig`].
#[derive(Clone, Copy, Debug, PartialEq, Eq, Structural)]
pub struct ScrollbarStyle {
    /// Override for the thumb glyph style, or `None` to defer to the config.
    pub thumb: Option<ScrollbarThumb>,
    /// Override for the track glyph, or `None` to defer to the config.
    pub track: Option<char>,
}

impl ScrollbarStyle {
    /// Creates an empty override set that inherits every field from the config.
    pub fn new() -> (r: ScrollbarStyle)
        ensures
            r.thumb is None,
            r.track is None,
    {
        ScrollbarStyle { thumb: None, track: None }
    }

    /// Merges these overrides with `cfg` into a concrete [`ScrollbarConfig`]: each field set
    /// here wins, each unset field comes from `cfg`.
    pub fn get_resolved(&self, cfg: ScrollbarConfig) -> (r: ScrollbarConfig)
        ensures
            r.thumb == (match self.thumb {
                Some(t) => t,
                None => cfg.thumb,
            }),
            r.track == (match self.track {
                Some(c) => c,
                None => cfg.track,
            }),
    {
        ScrollbarConfig { thumb: self.get_resolved_thumb(cfg), track: self.track.unwrap_or(cfg.track) }
    }

    /// Returns the overriding [`ScrollbarThumb`], or the one of `cfg`.
    pub fn get_resolved_thumb(&self, cfg: ScrollbarConfig) -> (r: ScrollbarThumb)
        ensures
            r == (match self.thumb {
                Some(t) => t,
                None => cfg.thumb,
            }),
    {
        match self.thumb {
            Some(t) => t,
            None => cfg.thumb,
        }
    }
}

/// Per-axis visibility mode applied to a pane's scrollbar.
#[derive(Clone, Copy, Debug, PartialEq, Eq, Structural)]
pub enum Scrollbar {
    /// Scrolling is enabled, but the bar is never drawn.
    Hidden,
    /// Bar is drawn only when the content overflows the viewport.
    AutoHide,
    /// Bar is always drawn whenever scrolling is enabled.
    Visible,
}

impl Scrollbar {
    /// Returns the variant's name.
    pub fn label(&self) -> (r: &'static str)
        ensures
            r@ == (match *self {
                Scrollbar::Hidden => "Hidden"@,
                Scrollbar::AutoHide => "AutoHide"@,
                Scrollbar::Visible => "Visible"@,
            }),
    {
        match self {
            Scrollbar::Hidden => "Hidden",
            Scrollbar::AutoHide => "AutoHide",
            Scrollbar::Visible => "Visible",
        }
    }
}

/// Returns per-axis corner-extension flags and a terminal corner-sharing flag for a two-axis
/// scrollbar layout; `is_gui` says whether the program runs as a GUI.
pub fn corner_extension(thumb: ScrollbarThumb, both_visible: bool, is_gui: bool) -> (r: (
    Vec2<bool>,
    bool,
))
    ensures
        r.1 == (both_visible && subpixels(thumb, Axis2D::Y) > 1 && !is_gui),
        r.0.x == (r.1 || (both_visible && is_gui && (thumb is Border || subpixels(thumb, Axis2D::X)
            > 1))),
        r.0.y == (r.1 || (both_visible && is_gui && (thumb is Border || subpixels(thumb, Axis2D::Y)
            > 1))),
{
    let share_corner = both_visible && thumb.has_half_cell(Axis2D::Y) && !is_gui;
    let extend_into_corner_gui = both_visible && is_gui;
    let is_border = match thumb {
        ScrollbarThumb::Border(_) => true,
        ScrollbarThumb::Block => false,
    };
    let x = share_corner || (extend_into_corner_gui && (is_border || thumb.has_half_cell(Axis2D::X)));
    let y = share_corner || (extend_into_corner_gui && (is_border || thumb.has_half_cell(Axis2D::Y)));
    (Vec2 { x, y }, share_corner)
}

/// What one cell of a drawn scrollbar shows.
#[derive(Clone, Copy, Debug, PartialEq, Eq, Structural)]
pub enum ScrollbarCell {
    /// The track glyph in the track style.
    Track,
    /// A thumb glyph, and whether the thumb style is drawn reversed.
    Thumb(ThumbGlyph, bool),
}

/// The number of rows a bar of `full_rows` whole cells occupies: one more when the view ends
/// in a half cell and the thumb can draw half cells.
pub open spec fn bar_rows(n: int, full_rows: int, has_half_cell: bool) -> int {
    if has_half_cell && n / 2 > 0 {
        full_rows + 1
    } else {
        full_rows
    }
}

/// The cell drawn for row `r` of a bar whose thumb spans subpixels `top` to `bot`, with
/// `leading` rows drawn before row zero.
pub open spec fn scrollbar_cell(
    thumb: ScrollbarThumb,
    axis: Axis2D,
    full_rows: int,
    has_half_cell: bool,
    top: int,
    bot: int,
    leading: int,
    r: int,
) -> ScrollbarCell {
    let n = subpixels(thumb, axis) as int;
    let total = bar_rows(n, full_rows, has_half_cell);
    let in_pad = r < 0 || r >= total;
    let n_levels = if !in_pad && r == full_rows {
        n / 2
    } else {
        n
    };
    let row_top = (r + leading) * n;
    let row_bot = row_top + n_levels;
    let cover_top = if top > row_top {
        top
    } else {
        row_top
    };
    let cover_bot = if bot < row_bot {
        bot
    } else {
        row_bot
    };
    let covered = cover_bot - cover_top;
    if n_levels <= 0 || covered <= 0 {
        ScrollbarCell::Track
    } else {
        let (g, rev) = thumb_glyph(thumb, axis, covered as i32, n_levels as i32, top > row_top);
        ScrollbarCell::Thumb(g, rev)
    }
}

/// The subpixel where the thumb starts: from the anchor's whole cells (taken as an `i32`,
/// wrapping as a cast does) and leading rows when one is given, else `rounded_top`.
pub open spec fn thumb_start(n: int, rounded_top: int, leading_anchor: Option<(u32, i32)>) -> int {
    match leading_anchor {
        Some((whole, lead)) => (whole as i32 + lead) * n,
        None => rounded_top,
    }
}

/// The cells of a scrollbar along `axis`, one per row from the first leading row on.
///
/// `full_rows` is the whole cells of the view and `has_half_cell` whether it ends in a half
/// cell; `rounded_top` and `thumb_len` are the thumb's start and length in subpixels; an anchor
/// `(whole, lead)` places the thumb at `whole` cells and draws `lead` rows before the bar and
/// one after it.
pub fn scrollbar_cells(
    thumb: ScrollbarThumb,
    axis: Axis2D,
    full_rows: u16,
    has_half_cell: bool,
    rounded_top: i32,
    thumb_len: i32,
    leading_anchor: Option<(u32, i32)>,
) -> (r: Vec<ScrollbarCell>)
    requires
        leading_anchor matches Some((whole, lead)) ==> {
            &&& i32::MIN <= whole as i32 + lead <= i32::MAX
            &&& i32::MIN <= (whole as i32 + lead) * subpixels(thumb, axis) <= i32::MAX
            &&& lead > i32::MIN
            &&& (bar_rows(subpixels(thumb, axis) as int, full_rows as int, has_half_cell) + 1
                + lead) * subpixels(thumb, axis) <= i32::MAX
        },
        i32::MIN <= thumb_start(subpixels(thumb, axis) as int, rounded_top as int, leading_anchor)
            + thumb_len <= i32::MAX,
    ensures
        ({
            let n = subpixels(thumb, axis) as int;
            let leading = match leading_anchor {
                Some((_, l)) => l as int,
                None => 0,
            };
            let trailing = if leading_anchor is Some {
                1int
            } else {
                0
            };
            let count = bar_rows(n, full_rows as int, has_half_cell) + trailing + leading;
            let top = thumb_start(n, rounded_top as int, leading_anchor);
            &&& r@.len() == (if count > 0 {
                count
            } else {
                0
            })
            &&& forall|i: int|
                0 <= i < r@.len() ==> #[trigger] r@[i] == scrollbar_cell(
                    thumb,
                    axis,
                    full_rows as int,
                    has_half_cell,
                    top,
                    top + thumb_len,
                    leading,
                    i - leading,
                )
        }),
{
    let n = thumb.get_subpixels(axis);
    let half_n = n / 2;
    let total_rows: i64 = if has_half_cell && half_n > 0 {
        full_rows as i64 + 1
    } else {
        full_rows as i64
    };
    let (leading, trailing): (i64, i64) = match leading_anchor {
        Some((_, l)) => (l as i64, 1),
        None => (0, 0),
    };
    let top: i64 = match leading_anchor {
        Some((whole, lead)) => {
            let w: i32 = #[verifier::truncate] (whole as i32);
            (w as i64 + lead as i64) * n as i64
        },
        None => rounded_top as i64,
    };
    let bot: i64 = top + thumb_len as i64;
    let ghost count = total_rows + trailing + leading;
    let mut cells: Vec<ScrollbarCell> = Vec::new();
    let mut r: i64 = -leading;
    let r_end: i64 = total_rows + trailing;
    while r < r_end
        invariant
            1 <= n <= 8,
            n == subpixels(thumb, axis),
            half_n == n / 2,
            total_rows == bar_rows(n as int, full_rows as int, has_half_cell),
            0 <= total_rows <= 65537,
            0 <= trailing <= 1,
            i32::MIN < leading <= i32::MAX,
            r_end == total_rows + trailing,
            -leading <= r <= r_end || (r == -leading && r_end < -leading),
            i32::MIN <= top <= i32::MAX,
            i32::MIN <= bot <= i32::MAX,
            r_end > -leading ==> (r_end + leading) * n <= i32::MAX,
            cells@.len() == r + leading,
            forall|i: int|
                0 <= i < cells@.len() ==> #[trigger] cells@[i] == scrollbar_cell(
                    thumb,
                    axis,
                    full_rows as int,
                    has_half_cell,
                    top as int,
                    bot as int,
                    leading as int,
                    i - leading,
                ),
        decreases r_end - r,
    {
        let in_pad = r < 0 || r >= total_rows;
        let n_levels: i64 = if !in_pad && r == full_rows as i64 {
            half_n as i64
        } else {
            n as i64
        };
        proof {
            assert(0 <= r + leading < r_end + leading);
            assert((r + leading) * n <= (r_end + leading) * n) by (nonlinear_arith)
                requires
                    r + leading <= r_end + leading,
                    n >= 1,
            ;
            assert(0 <= (r + leading) * n) by (nonlinear_arith)
                requires
                    r + leading >= 0,
                    n >= 1,
            ;
            assert((r + leading + 1) * n == (r + leading) * n + n) by (nonlinear_arith);
            assert((r + leading + 1) * n <= (r_end + leading) * n) by (nonlinear_arith)
                requires
                    r + leading + 1 <= r_end + leading,
                    n >= 1,
            ;
        }
        let row_top: i64 = (r + leading) * n as i64;
        let row_bot: i64 = row_top + n_levels;
        let cover_top = if top > row_top {
            top
        } else {
            row_top
        };
        let cover_bot = if bot < row_bot {
            bot
        } else {
            row_bot
        };
        let covered: i64 = cover_bot - cover_top;
        let cell = if n_levels <= 0 || covered <= 0 {
            ScrollbarCell::Track
        } else {
            let (g, rev) = thumb.glyph(axis, covered as i32, n_levels as i32, top > row_top);
            ScrollbarCell::Thumb(g, rev)
        };
        cells.push(cell);
        r = r + 1;
    }
    proof {
        if count <= 0 {
            assert(cells@.len() == 0);
        }
    }
    cells
}

} // verus!
