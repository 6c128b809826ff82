//! Border, padding, and titles drawn around a widget's content area.

use vstd::prelude::*;
use crate::geometry::{Axis2D, Vec2, VerticalEdge};
use crate::align::Align;
use crate::spacing::Spacing;
use crate::scrollbar::BorderStubs;

verus! {

/// Title placed on a [`Chrome`] border at a given edge and alignment.
pub struct ChromeTitle {
    /// Title text drawn on the border.
    pub text: String,
    /// Border edge the title sits on.
    pub edge: VerticalEdge,
    /// Horizontal alignment of the title along its edge.
    pub align: Align,
}

/// Whether the title sits at `edge` with `align`.
pub open spec fn title_at(t: ChromeTitle, edge: VerticalEdge, align: Align) -> bool {
    t.edge == edge && t.align == align
}

/// The index of the first title at `edge` with `align` among the first `k`, or `k` when
/// there is none.
pub open spec fn first_title_at(v: Seq<ChromeTitle>, edge: VerticalEdge, align: Align, k: int) -> int
    decreases k,
{
    if k <= 0 {
        0
    } else if first_title_at(v, edge, align, k - 1) < k - 1 {
        first_title_at(v, edge, align, k - 1)
    } else if title_at(v[k - 1], edge, align) {
        k - 1
    } else {
        k
    }
}

/// The text of the title at `edge` with `align`, if any.
pub open spec fn title_text(v: Seq<ChromeTitle>, edge: VerticalEdge, align: Align) -> Option<
    Seq<char>,
> {
    let i = first_title_at(v, edge, align, v.len() as int);
    if i < v.len() {
        Some(v[i].text@)
    } else {
        None
    }
}

/// The placements and texts of a list of titles.
pub open spec fn placements(v: Seq<ChromeTitle>) -> Seq<(VerticalEdge, Align, Seq<char>)> {
    v.map_values(|t: ChromeTitle| (t.edge, t.align, t.text@))
}

/// The titles of the first `k` that are not at `edge` with `align`.
pub open spec fn others(
    v: Seq<ChromeTitle>,
    edge: VerticalEdge,
    align: Align,
    k: int,
) -> Seq<(VerticalEdge, Align, Seq<char>)>
    decreases k,
{
    if k <= 0 {
        Seq::empty()
    } else if title_at(v[k - 1], edge, align) {
        others(v, edge, align, k - 1)
    } else {
        others(v, edge, align, k - 1).push((v[k - 1].edge, v[k - 1].align, v[k - 1].text@))
    }
}

/// Border, padding, and titles drawn around a widget's content area.
pub struct Chrome {
    /// Whether a border is drawn around the content area.
    pub bordered: bool,
    /// The border glyph set, as far as the layout reads it, or `None` to use the default set.
    pub border: Option<BorderStubs>,
    /// Inner padding inserted between the border and the content area.
    pub padding: Spacing,
    /// Titles drawn on the border.
    pub titles: Vec<ChromeTitle>,
}

impl Chrome {
    /// Creates empty chrome with no border, no padding, and no titles.
    pub fn new() -> (r: Chrome)
        ensures
            !r.bordered,
            r.border is None,
            r.padding.edges(0, 0, 0, 0),
            r.titles@.len() == 0,
    {
        Chrome { bordered: false, border: None, padding: Spacing::new(), titles: Vec::new() }
    }

    /// Returns the border glyph set, or `default` (the configured default set) when none is
    /// set.
    pub fn get_resolved_border(&self, default: BorderStubs) -> (r: BorderStubs)
        ensures
            r == match self.border {
                Some(b) => b,
                None => default,
            },
    {
        match self.border {
            Some(b) => b,
            None => default,
        }
    }

    /// Returns the cell width consumed by the border on each side.
    pub fn get_border_size(&self) -> (r: u16)
        ensures
            r == if self.bordered {
                1u16
            } else {
                0u16
            },
    {
        if self.bordered {
            1
        } else {
            0
        }
    }

    /// Returns the top-left title text, if any.
    pub fn get_title(&self) -> (r: Option<&str>)
        ensures
            r matches Some(s) ==> title_text(self.titles@, VerticalEdge::Top, Align::Start)
                == Some(s@),
            r is None ==> title_text(self.titles@, VerticalEdge::Top, Align::Start) is None,
    {
        self.get_title_at(VerticalEdge::Top, Align::Start)
    }

    /// Returns the title text at `edge` and `align`, if any.
    pub fn get_title_at(&self, edge: VerticalEdge, align: Align) -> (r: Option<&str>)
        ensures
            r matches Some(s) ==> title_text(self.titles@, edge, align) == Some(s@),
            r is None ==> title_text(self.titles@, edge, align) is None,
    {
        let n = self.titles.len();
        let mut i: usize = 0;
        while i < n
            invariant
                n == self.titles@.len(),
                0 <= i <= n,
                first_title_at(self.titles@, edge, align, i as int) == i as int,
            decreases n - i,
        {
            let t = &self.titles[i];
            if t.edge == edge && t.align == align {
                proof {
                    lemma_first_title_at_stays(self.titles@, edge, align, i as int + 1, n as int);
                }
                return Some(t.text.as_str());
            }
            i += 1;
        }
        None
    }

    /// Sets or clears the title at `edge` and `align`: any title there is removed, and a new
    /// one with `text` is appended when `text` is given.
    pub fn set_title_at(&mut self, edge: VerticalEdge, align: Align, text: Option<String>)
        ensures
            placements(final(self).titles@) == match text {
                Some(t) => others(old(self).titles@, edge, align, old(self).titles@.len() as int).push(
                    (edge, align, t@),
                ),
                None => others(old(self).titles@, edge, align, old(self).titles@.len() as int),
            },
            final(self).bordered == old(self).bordered,
            final(self).padding == old(self).padding,
    {
        let ghost v = self.titles@;
        let n0 = self.titles.len();
        let mut i: usize = 0;
        let mut k: usize = 0;
        while i < self.titles.len()
            invariant
                0 <= k <= v.len(),
                v.len() == n0,
                0 <= i <= self.titles@.len(),
                self.titles@.len() == i + (v.len() - k),
                placements(self.titles@.take(i as int)) == others(v, edge, align, k as int),
                forall|j: int| i <= j < self.titles@.len() ==> #[trigger] self.titles@[j] == v[j - i + k],
                self.bordered == old(self).bordered,
                self.padding == old(self).padding,
                v == old(self).titles@,
            decreases self.titles@.len() - i,
        {
            let ghost before = self.titles@;
            assert(self.titles@[i as int] == v[k as int]);
            if self.titles[i].edge == edge && self.titles[i].align == align {
                let _removed = self.titles.remove(i);
                assert(self.titles@.take(i as int) =~= before.take(i as int));
                assert forall|j: int| i <= j < self.titles@.len() implies #[trigger] self.titles@[j]
                    == v[j - i + (k + 1)] by {
                    assert(self.titles@[j] == before[j + 1]);
                }
            } else {
                assert(self.titles@.take(i as int + 1) =~= self.titles@.take(i as int).push(
                    self.titles@[i as int],
                ));
                assert(placements(self.titles@.take(i as int + 1)) =~= placements(
                    self.titles@.take(i as int),
                ).push((v[k as int].edge, v[k as int].align, v[k as int].text@)));
                i += 1;
            }
            k += 1;
        }
        assert(self.titles@.take(i as int) =~= self.titles@);
        if let Some(text) = text {
            let ghost before = self.titles@;
            self.titles.push(ChromeTitle { text, edge, align });
            assert(placements(self.titles@) =~= placements(before).push((edge, align, text@)));
        }
    }
}

proof fn lemma_first_title_at_stays(
    v: Seq<ChromeTitle>,
    edge: VerticalEdge,
    align: Align,
    k: int,
    n: int,
)
    requires
        1 <= k <= n <= v.len(),
        first_title_at(v, edge, align, k) == k - 1,
    ensures
        first_title_at(v, edge, align, n) == k - 1,
    decreases n - k,
{
    if k < n {
        lemma_first_title_at_stays(v, edge, align, k, n - 1);
    }
}

/// Reading a title back gives what was set: after setting the text at a placement, the text
/// read there is that text; after clearing it, nothing is read there.
pub proof fn lemma_title_read_back(
    old_titles: Seq<ChromeTitle>,
    new_titles: Seq<ChromeTitle>,
    edge: VerticalEdge,
    align: Align,
    text: Option<Seq<char>>,
)
    requires
        placements(new_titles) == match text {
            Some(t) => others(old_titles, edge, align, old_titles.len() as int).push((edge, align, t)),
            None => others(old_titles, edge, align, old_titles.len() as int),
        },
    ensures
        title_text(new_titles, edge, align) == text,
{
    lemma_others_exclude(old_titles, edge, align, old_titles.len() as int);
    let o = others(old_titles, edge, align, old_titles.len() as int);
    let p = placements(new_titles);
    let n = new_titles.len() as int;
    assert(p.len() == n);
    assert forall|j: int| 0 <= j < o.len() implies !title_at(#[trigger] new_titles[j], edge, align) by {
        assert(p[j] == (new_titles[j].edge, new_titles[j].align, new_titles[j].text@));
        match text {
            Some(t) => {
                assert(p[j] == o.push((edge, align, t))[j]);
            },
            None => {},
        }
        assert(p[j] == o[j]);
    }
    lemma_first_title_at_none(new_titles, edge, align, o.len() as int);
    match text {
        Some(t) => {
            assert(n == o.len() + 1);
            assert(p[n - 1] == o.push((edge, align, t))[n - 1]);
            assert(p[n - 1] == (new_titles[n - 1].edge, new_titles[n - 1].align, new_titles[n - 1].text@));
            assert(title_at(new_titles[n - 1], edge, align));
            assert(first_title_at(new_titles, edge, align, n) == n - 1);
        },
        None => {
            assert(n == o.len());
        },
    }
}

/// Whether the titles `new` are `old` after the title at `edge` with `align` was set to
/// `text` (cleared for none), as [`Chrome::set_title_at`] leaves them.
pub open spec fn title_set(
    old: Seq<ChromeTitle>,
    new: Seq<ChromeTitle>,
    edge: VerticalEdge,
    align: Align,
    text: Option<Seq<char>>,
) -> bool {
    placements(new) == match text {
        Some(t) => others(old, edge, align, old.len() as int).push((edge, align, t)),
        None => others(old, edge, align, old.len() as int),
    }
}

/// The placements of `p` not at `edge` with `align`, in order.
pub open spec fn strip(
    p: Seq<(VerticalEdge, Align, Seq<char>)>,
    edge: VerticalEdge,
    align: Align,
) -> Seq<(VerticalEdge, Align, Seq<char>)>
    decreases p.len(),
{
    if p.len() == 0 {
        Seq::empty()
    } else {
        let r = strip(p.drop_last(), edge, align);
        if p.last().0 == edge && p.last().1 == align {
            r
        } else {
            r.push(p.last())
        }
    }
}

/// How many placements of `p` are at `edge` with `align`.
pub open spec fn count_at(p: Seq<(VerticalEdge, Align, Seq<char>)>, edge: VerticalEdge, align: Align) -> nat
    decreases p.len(),
{
    if p.len() == 0 {
        0
    } else {
        count_at(p.drop_last(), edge, align) + if p.last().0 == edge && p.last().1 == align {
            1nat
        } else {
            0nat
        }
    }
}

/// The text of the first placement of `p` at `edge` with `align`, if any.
pub open spec fn first_text(p: Seq<(VerticalEdge, Align, Seq<char>)>, edge: VerticalEdge, align: Align) -> Option<Seq<char>>
    decreases p.len(),
{
    if p.len() == 0 {
        None
    } else {
        let r = first_text(p.drop_last(), edge, align);
        if r is Some {
            r
        } else if p.last().0 == edge && p.last().1 == align {
            Some(p.last().2)
        } else {
            None
        }
    }
}

proof fn lemma_others_strip(v: Seq<ChromeTitle>, edge: VerticalEdge, align: Align, k: int)
    requires
        0 <= k <= v.len(),
    ensures
        others(v, edge, align, k) == strip(placements(v).take(k), edge, align),
    decreases k,
{
    if k > 0 {
        lemma_others_strip(v, edge, align, k - 1);
        assert(placements(v).take(k).drop_last() =~= placements(v).take(k - 1));
    } else {
        assert(placements(v).take(0) =~= Seq::<(VerticalEdge, Align, Seq<char>)>::empty());
    }
}

proof fn lemma_title_text_first(v: Seq<ChromeTitle>, edge: VerticalEdge, align: Align, k: int)
    requires
        0 <= k <= v.len(),
    ensures
        first_title_at(v, edge, align, k) <= k,
        first_title_at(v, edge, align, k) < k ==> first_title_at(v, edge, align, k) >= 0 && first_text(
            placements(v).take(k),
            edge,
            align,
        ) == Some(v[first_title_at(v, edge, align, k)].text@),
        first_title_at(v, edge, align, k) == k ==> first_text(placements(v).take(k), edge, align) is None,
    decreases k,
{
    if k > 0 {
        lemma_title_text_first(v, edge, align, k - 1);
        assert(placements(v).take(k).drop_last() =~= placements(v).take(k - 1));
    }
}

proof fn lemma_first_strip(p: Seq<(VerticalEdge, Align, Seq<char>)>, edge: VerticalEdge, align: Align, e: VerticalEdge, a: Align)
    requires
        !(e == edge && a == align),
    ensures
        first_text(strip(p, edge, align), e, a) == first_text(p, e, a),
    decreases p.len(),
{
    if p.len() > 0 {
        lemma_first_strip(p.drop_last(), edge, align, e, a);
        let r = strip(p.drop_last(), edge, align);
        if !(p.last().0 == edge && p.last().1 == align) {
            assert(r.push(p.last()).drop_last() =~= r);
        }
    }
}

proof fn lemma_count_strip(p: Seq<(VerticalEdge, Align, Seq<char>)>, edge: VerticalEdge, align: Align)
    ensures
        count_at(strip(p, edge, align), edge, align) == 0,
    decreases p.len(),
{
    if p.len() > 0 {
        lemma_count_strip(p.drop_last(), edge, align);
        let r = strip(p.drop_last(), edge, align);
        assert(r.push(p.last()).drop_last() =~= r);
    }
}

proof fn lemma_strip_strip(p: Seq<(VerticalEdge, Align, Seq<char>)>, edge: VerticalEdge, align: Align)
    ensures
        strip(strip(p, edge, align), edge, align) == strip(p, edge, align),
    decreases p.len(),
{
    if p.len() > 0 {
        lemma_strip_strip(p.drop_last(), edge, align);
        let r = strip(p.drop_last(), edge, align);
        assert(r.push(p.last()).drop_last() =~= r);
    }
}

/// Setting the title at one placement leaves the title read at every other placement as it
/// was.
pub proof fn lemma_set_title_keeps_others(
    old_titles: Seq<ChromeTitle>,
    new_titles: Seq<ChromeTitle>,
    edge: VerticalEdge,
    align: Align,
    text: Option<Seq<char>>,
    e: VerticalEdge,
    a: Align,
)
    requires
        title_set(old_titles, new_titles, edge, align, text),
        !(e == edge && a == align),
    ensures
        title_text(new_titles, e, a) == title_text(old_titles, e, a),
{
    let n = old_titles.len() as int;
    lemma_others_strip(old_titles, edge, align, n);
    assert(placements(old_titles).take(n) =~= placements(old_titles));
    let o = strip(placements(old_titles), edge, align);
    lemma_first_strip(placements(old_titles), edge, align, e, a);
    lemma_title_text_first(old_titles, e, a, n);
    lemma_title_text_first(new_titles, e, a, new_titles.len() as int);
    assert(placements(new_titles).take(new_titles.len() as int) =~= placements(new_titles));
    match text {
        Some(t) => {
            assert(o.push((edge, align, t)).drop_last() =~= o);
        },
        None => {},
    }
}

/// After setting the title at a placement, at most one title sits there.
pub proof fn lemma_set_title_single(
    old_titles: Seq<ChromeTitle>,
    new_titles: Seq<ChromeTitle>,
    edge: VerticalEdge,
    align: Align,
    text: Option<Seq<char>>,
)
    requires
        title_set(old_titles, new_titles, edge, align, text),
    ensures
        count_at(placements(new_titles), edge, align) <= 1,
{
    let n = old_titles.len() as int;
    lemma_others_strip(old_titles, edge, align, n);
    assert(placements(old_titles).take(n) =~= placements(old_titles));
    let o = strip(placements(old_titles), edge, align);
    lemma_count_strip(placements(old_titles), edge, align);
    match text {
        Some(t) => {
            assert(o.push((edge, align, t)).drop_last() =~= o);
        },
        None => {},
    }
}

/// Setting the same title at the same placement twice leaves the titles as the first setting
/// left them.
pub proof fn lemma_set_title_idempotent(
    v0: Seq<ChromeTitle>,
    v1: Seq<ChromeTitle>,
    v2: Seq<ChromeTitle>,
    edge: VerticalEdge,
    align: Align,
    text: Option<Seq<char>>,
)
    requires
        title_set(v0, v1, edge, align, text),
        title_set(v1, v2, edge, align, text),
    ensures
        placements(v2) == placements(v1),
{
    let n0 = v0.len() as int;
    let n1 = v1.len() as int;
    lemma_others_strip(v0, edge, align, n0);
    lemma_others_strip(v1, edge, align, n1);
    assert(placements(v0).take(n0) =~= placements(v0));
    assert(placements(v1).take(n1) =~= placements(v1));
    let o = strip(placements(v0), edge, align);
    lemma_strip_strip(placements(v0), edge, align);
    match text {
        Some(t) => {
            assert(o.push((edge, align, t)).drop_last() =~= o);
            assert(strip(placements(v1), edge, align) == strip(o, edge, align));
        },
        None => {},
    }
}

proof fn lemma_others_exclude(v: Seq<ChromeTitle>, edge: VerticalEdge, align: Align, k: int)
    requires
        0 <= k <= v.len(),
    ensures
        forall|j: int|
            0 <= j < others(v, edge, align, k).len() ==> !((#[trigger] others(v, edge, align, k)[j]).0
                == edge && others(v, edge, align, k)[j].1 == align),
    decreases k,
{
    if k > 0 {
        lemma_others_exclude(v, edge, align, k - 1);
    }
}

proof fn lemma_first_title_at_none(v: Seq<ChromeTitle>, edge: VerticalEdge, align: Align, k: int)
    requires
        0 <= k <= v.len(),
        forall|j: int| 0 <= j < k ==> !title_at(#[trigger] v[j], edge, align),
    ensures
        first_title_at(v, edge, align, k) == k,
    decreases k,
{
    if k > 0 {
        lemma_first_title_at_none(v, edge, align, k - 1);
    }
}

/// The cells a widget's optional chrome takes before its content on each axis: the border
/// plus the leading padding.
pub fn chrome_before(chrome: Option<&Chrome>) -> (r: Vec2<u16>)
    ensures
        chrome matches Some(c) ==> r.x == (if c.bordered { 1int } else { 0int }) + c.padding.before(
            Axis2D::X,
        ) && r.y == (if c.bordered { 1int } else { 0int }) + c.padding.before(Axis2D::Y),
        chrome is None ==> r.x == 0 && r.y == 0,
{
    match chrome {
        Some(c) => {
            let b = c.get_border_size();
            Vec2 {
                x: b + c.padding.get_before(Axis2D::X) as u16,
                y: b + c.padding.get_before(Axis2D::Y) as u16,
            }
        },
        None => Vec2 { x: 0, y: 0 },
    }
}

/// The cells a widget's optional chrome takes in total on each axis: both borders plus the
/// padding on both edges.
pub fn chrome_total(chrome: Option<&Chrome>) -> (r: Vec2<u16>)
    ensures
        chrome matches Some(c) ==> r.x == (if c.bordered { 2int } else { 0int }) + c.padding.total(
            Axis2D::X,
        ) && r.y == (if c.bordered { 2int } else { 0int }) + c.padding.total(Axis2D::Y),
        chrome is None ==> r.x == 0 && r.y == 0,
{
    match chrome {
        Some(c) => {
            let borders = c.get_border_size() * 2;
            let padding = c.padding.get_total();
            Vec2 { x: borders + padding.x, y: borders + padding.y }
        },
        None => Vec2 { x: 0, y: 0 },
    }
}

/// Where a title is drawn on a bordered box of `box_size`: the cell it starts at and the width
/// left for it up to the corner. `None` when it is not drawn: its text is empty, or the box has
/// fewer than three inner columns. `decorated_w` is the display width of the separator, a
/// space, the text and a space.
pub fn title_placement(
    box_size: Vec2<u16>,
    edge: VerticalEdge,
    align: Align,
    text_empty: bool,
    decorated_w: usize,
) -> (r: Option<(Vec2<i32>, u16)>)
    ensures
        ({
            let inner_w = if box_size.x >= 2 {
                box_size.x - 2
            } else {
                0
            };
            let slack = if inner_w >= decorated_w {
                inner_w - decorated_w
            } else {
                0
            };
            let x = 1 + match align {
                Align::Start => 0,
                Align::Middle => slack / 2,
                Align::End => slack,
            };
            let y = match edge {
                VerticalEdge::Top => 0,
                VerticalEdge::Bottom => box_size.y - 1,
            };
            &&& (text_empty || inner_w < 3) ==> r is None
            &&& !(text_empty || inner_w < 3) ==> r == Some((
                Vec2 { x: x as i32, y: y as i32 },
                (inner_w + 1 - x) as u16,
            ))
        }),
{
    let inner_w: usize = box_size.x.saturating_sub(2) as usize;
    if text_empty || inner_w < 3 {
        return None;
    }
    let slack: usize = inner_w.saturating_sub(decorated_w);
    let x: i32 = 1 + match align {
        Align::Start => 0,
        Align::Middle => (slack / 2) as i32,
        Align::End => slack as i32,
    };
    let y: i32 = match edge {
        VerticalEdge::Top => 0,
        VerticalEdge::Bottom => box_size.y as i32 - 1,
    };
    let region_w = (inner_w + 1).saturating_sub(x as usize) as u16;
    Some((Vec2 { x, y }, region_w))
}

} // verus!
