//! The pane tree of a split container: leaves holding a widget's sizing, containers stacking
//! panes along an axis, and what the tree reports of its panes' bounds and preferences.

use vstd::prelude::*;
use crate::geometry::{Axis2D, Sign, Vec2};
use crate::split::{
    container_max, container_max_of, container_min, container_min_of, container_preferred,
    container_preferred_of, distribute_main, leaf_max, leaf_min, leaf_min_of, leaf_preferred,
    child_offset, donation_target, gap_between, gap_fold, halve_with_gap, halves,
    lemma_offset_from_start, lemma_offsets_grow, main_sizes, pair_gap, removal_donation, SplitSizing,
};
use crate::arith::{cap16, sat_sub};
use crate::split::seq_sum;
use crate::split_resize::{
    delta_sum, donate, lemma_donate, lemma_needy_from, lemma_no_gift, lemma_shortfall_entry,
    lemma_shortfall_nonneg, needy_from, net_change, reinforced, resize_deltas, room,
    same_axis_deltas, shortfall, sizes_of, spare, total_shortfall,
};

verus! {

/// What a leaf pane reads of its widget: its identifier, its constraints, the axis it flows
/// along and the size its last flow reported, its flex weight, and how the pane is drawn.
#[derive(Clone, Copy)]
pub struct LeafPane {
    /// The widget's identifier.
    pub id: u64,
    /// The widget's minimum size.
    pub min: Vec2<u16>,
    /// The widget's maximum size.
    pub max: Vec2<u16>,
    /// The widget's preferred size, `u16::MAX` along an axis without a preference.
    pub preferred: Vec2<u16>,
    /// The axis the widget flows along.
    pub flow_axis: Axis2D,
    /// The size the widget's last flow reported.
    pub flow_size: Vec2<u16>,
    /// The widget's flex weight.
    pub flex: u8,
    /// Whether the pane draws a border.
    pub bordered: bool,
    /// Whether the pane's edges can be dragged.
    pub draggable: bool,
}

/// What a pane is: a leaf, or a container of panes along an axis.
pub enum PaneShape {
    /// A pane holding one widget.
    Leaf(LeafPane),
    /// Panes stacked along `orientation`.
    Container {
        /// The axis the children stack along.
        orientation: Axis2D,
        /// The child panes.
        children: Vec<PaneNode>,
        /// The container's flex weight.
        flex: u8,
    },
}

/// A pane with its current size and the sizes it was dragged to.
pub struct PaneNode {
    /// What the pane is.
    pub shape: PaneShape,
    /// The pane's current size.
    pub size: Vec2<u16>,
    /// The size the pane was dragged to along each axis, if any.
    pub dragged: Vec2<Option<u16>>,
}

/// Whether a pane and all its descendants are drawn without borders.
pub open spec fn borderless(n: PaneNode) -> bool
    decreases n, 0int,
{
    match n.shape {
        PaneShape::Leaf(l) => !l.bordered,
        PaneShape::Container { children, .. } => all_borderless(children@, children@.len() as int),
    }
}

/// Whether the first `k` panes are all borderless.
pub open spec fn all_borderless(c: Seq<PaneNode>, k: int) -> bool
    decreases c, k,
{
    if k <= 0 || k > c.len() {
        true
    } else {
        all_borderless(c, k - 1) && borderless(c[k - 1])
    }
}

/// Whether some leaf of a pane can be dragged.
pub open spec fn draggable(n: PaneNode) -> bool
    decreases n, 0int,
{
    match n.shape {
        PaneShape::Leaf(l) => l.draggable,
        PaneShape::Container { children, .. } => any_draggable(children@, children@.len() as int),
    }
}

/// Whether some of the first `k` panes has a draggable leaf.
pub open spec fn any_draggable(c: Seq<PaneNode>, k: int) -> bool
    decreases c, k,
{
    if k <= 0 || k > c.len() {
        false
    } else {
        any_draggable(c, k - 1) || draggable(c[k - 1])
    }
}

/// A pane's flex weight: its widget's for a leaf, its own for a container.
pub open spec fn pane_flex(n: PaneNode) -> u8 {
    match n.shape {
        PaneShape::Leaf(l) => l.flex,
        PaneShape::Container { flex, .. } => flex,
    }
}

/// The children's effective minimums and borders, as the split container reads them.
pub open spec fn min_view(c: Seq<PaneNode>, axis: Axis2D, gap: u16, padding: Vec2<u16>, k: int) -> Seq<SplitSizing>
    decreases c, k,
{
    if k <= 0 || k > c.len() {
        Seq::empty()
    } else {
        min_view(c, axis, gap, padding, k - 1).push(
            SplitSizing {
                size: 0,
                min: eff_min(c[k - 1], axis, gap, padding) as u16,
                max: 0,
                preferred: 0,
                flex: 0,
                borderless: borderless(c[k - 1]),
            },
        )
    }
}

/// A pane's effective minimum along `axis`, with `padding` around each leaf and `gap` between
/// neighbouring panes that are not both borderless.
pub open spec fn eff_min(n: PaneNode, axis: Axis2D, gap: u16, padding: Vec2<u16>) -> int
    decreases n, 0int,
{
    match n.shape {
        PaneShape::Leaf(l) => leaf_min_of(
            l.min.at(axis),
            if l.flow_axis == axis {
                Some(l.flow_size.at(axis))
            } else {
                None
            },
            padding.at(axis),
        ),
        PaneShape::Container { orientation, children, .. } => container_min_of(
            orientation == axis,
            min_view(children@, axis, gap, padding, children@.len() as int),
            gap,
        ),
    }
}

/// The children's effective maximums and borders, as the split container reads them.
pub open spec fn max_view(c: Seq<PaneNode>, axis: Axis2D, gap: u16, padding: Vec2<u16>, k: int) -> Seq<SplitSizing>
    decreases c, k,
{
    if k <= 0 || k > c.len() {
        Seq::empty()
    } else {
        max_view(c, axis, gap, padding, k - 1).push(
            SplitSizing {
                size: 0,
                min: 0,
                max: eff_max(c[k - 1], axis, gap, padding) as u16,
                preferred: 0,
                flex: 0,
                borderless: borderless(c[k - 1]),
            },
        )
    }
}

/// A pane's effective maximum along `axis`.
pub open spec fn eff_max(n: PaneNode, axis: Axis2D, gap: u16, padding: Vec2<u16>) -> int
    decreases n, 0int,
{
    match n.shape {
        PaneShape::Leaf(l) => cap16(l.max.at(axis) + padding.at(axis)),
        PaneShape::Container { orientation, children, .. } => container_max_of(
            orientation == axis,
            max_view(children@, axis, gap, padding, children@.len() as int),
            gap,
        ),
    }
}

/// The children's effective preferences, minimums and borders, as the split container reads
/// them.
pub open spec fn pref_view(c: Seq<PaneNode>, axis: Axis2D, gap: u16, padding: Vec2<u16>, k: int) -> Seq<SplitSizing>
    decreases c, k,
{
    if k <= 0 || k > c.len() {
        Seq::empty()
    } else {
        pref_view(c, axis, gap, padding, k - 1).push(
            SplitSizing {
                size: 0,
                min: eff_min(c[k - 1], axis, gap, padding) as u16,
                max: 0,
                preferred: eff_pref(c[k - 1], axis, gap, padding) as u16,
                flex: 0,
                borderless: borderless(c[k - 1]),
            },
        )
    }
}

/// A pane's effective preference along `axis`, `u16::MAX` for none: the size it was dragged
/// to, if any; otherwise its widget's preference plus padding, or its children's combined.
pub open spec fn eff_pref(n: PaneNode, axis: Axis2D, gap: u16, padding: Vec2<u16>) -> int
    decreases n, 0int,
{
    match n.shape {
        PaneShape::Leaf(l) => match n.dragged.at(axis) {
            Some(locked) => locked as int,
            None => if l.preferred.at(axis) == u16::MAX {
                u16::MAX as int
            } else {
                cap16(l.preferred.at(axis) + padding.at(axis))
            },
        },
        PaneShape::Container { orientation, children, .. } => container_preferred_of(
            orientation == axis,
            pref_view(children@, axis, gap, padding, children@.len() as int),
            gap,
            n.dragged.at(axis),
        ),
    }
}

impl PaneNode {
    /// Returns whether this pane and all its descendants are drawn without borders.
    pub fn all_borderless(&self) -> (r: bool)
        ensures
            r == borderless(*self),
        decreases *self, 0int,
    {
        match &self.shape {
            PaneShape::Leaf(l) => !l.bordered,
            PaneShape::Container { children, .. } => {
                proof {
                    assert(decreases_to!(*self => self.shape));
                    assert(decreases_to!(self.shape => *children));
                }
                let n = children.len();
                let mut all = true;
                let mut i: usize = 0;
                while i < n
                    invariant
                        n == children@.len(),
                        0 <= i <= n,
                        all == all_borderless(children@, i as int),
                        decreases_to!(*self => *children),
                    decreases n - i,
                {
                    proof {
                        assert(decreases_to!(*children => children@));
                        assert(decreases_to!(children@ => children@[i as int]));
                    }
                    let b = children[i].all_borderless();
                    all = all && b;
                    i += 1;
                }
                all
            },
        }
    }

    /// Returns whether some leaf of this pane can be dragged.
    pub fn any_draggable(&self) -> (r: bool)
        ensures
            r == draggable(*self),
        decreases *self, 0int,
    {
        match &self.shape {
            PaneShape::Leaf(l) => l.draggable,
            PaneShape::Container { children, .. } => {
                proof {
                    assert(decreases_to!(*self => self.shape));
                    assert(decreases_to!(self.shape => *children));
                }
                let n = children.len();
                let mut any = false;
                let mut i: usize = 0;
                while i < n
                    invariant
                        n == children@.len(),
                        0 <= i <= n,
                        any == any_draggable(children@, i as int),
                        decreases_to!(*self => *children),
                    decreases n - i,
                {
                    proof {
                        assert(decreases_to!(*children => children@));
                        assert(decreases_to!(children@ => children@[i as int]));
                    }
                    let d = children[i].any_draggable();
                    any = any || d;
                    i += 1;
                }
                any
            },
        }
    }

    /// Returns this pane's flex weight: its widget's for a leaf, its own for a container.
    pub fn effective_flex(&self) -> (r: u8)
        ensures
            r == pane_flex(*self),
    {
        match &self.shape {
            PaneShape::Leaf(l) => l.flex,
            PaneShape::Container { flex, .. } => *flex,
        }
    }

    /// Returns this pane's effective minimum along `axis`.
    pub fn effective_min(&self, axis: Axis2D, gap: u16, padding: Vec2<u16>) -> (r: u16)
        ensures
            r == eff_min(*self, axis, gap, padding),
        decreases *self, 0int,
    {
        match &self.shape {
            PaneShape::Leaf(l) => {
                let flow = if l.flow_axis == axis {
                    Some(l.flow_size.get(axis))
                } else {
                    None
                };
                leaf_min(l.min.get(axis), flow, padding.get(axis))
            },
            PaneShape::Container { orientation, children, .. } => {
                proof {
                    assert(decreases_to!(*self => self.shape));
                    assert(decreases_to!(self.shape => *children));
                }
                let n = children.len();
                let mut view: Vec<SplitSizing> = Vec::new();
                let mut i: usize = 0;
                while i < n
                    invariant
                        n == children@.len(),
                        0 <= i <= n,
                        view@ == min_view(children@, axis, gap, padding, i as int),
                        decreases_to!(*self => *children),
                    decreases n - i,
                {
                    proof {
                        assert(decreases_to!(*children => children@));
                        assert(decreases_to!(children@ => children@[i as int]));
                    }
                    let m = children[i].effective_min(axis, gap, padding);
                    let b = children[i].all_borderless();
                    view.push(SplitSizing { size: 0, min: m, max: 0, preferred: 0, flex: 0, borderless: b });
                    i += 1;
                }
                container_min(*orientation == axis, &view, gap)
            },
        }
    }

    /// Returns this pane's effective maximum along `axis`.
    pub fn effective_max(&self, axis: Axis2D, gap: u16, padding: Vec2<u16>) -> (r: u16)
        ensures
            r == eff_max(*self, axis, gap, padding),
        decreases *self, 0int,
    {
        match &self.shape {
            PaneShape::Leaf(l) => leaf_max(l.max.get(axis), padding.get(axis)),
            PaneShape::Container { orientation, children, .. } => {
                proof {
                    assert(decreases_to!(*self => self.shape));
                    assert(decreases_to!(self.shape => *children));
                }
                let n = children.len();
                let mut view: Vec<SplitSizing> = Vec::new();
                let mut i: usize = 0;
                while i < n
                    invariant
                        n == children@.len(),
                        0 <= i <= n,
                        view@ == max_view(children@, axis, gap, padding, i as int),
                        decreases_to!(*self => *children),
                    decreases n - i,
                {
                    proof {
                        assert(decreases_to!(*children => children@));
                        assert(decreases_to!(children@ => children@[i as int]));
                    }
                    let m = children[i].effective_max(axis, gap, padding);
                    let b = children[i].all_borderless();
                    view.push(SplitSizing { size: 0, min: 0, max: m, preferred: 0, flex: 0, borderless: b });
                    i += 1;
                }
                container_max(*orientation == axis, &view, gap)
            },
        }
    }

    /// Returns this pane's effective preference along `axis`, `u16::MAX` for none.
    pub fn effective_preferred(&self, axis: Axis2D, gap: u16, padding: Vec2<u16>) -> (r: u16)
        ensures
            r == eff_pref(*self, axis, gap, padding),
        decreases *self, 0int,
    {
        match &self.shape {
            PaneShape::Leaf(l) => leaf_preferred(l.preferred.get(axis), padding.get(axis), self.dragged.get(axis)),
            PaneShape::Container { orientation, children, .. } => {
                proof {
                    assert(decreases_to!(*self => self.shape));
                    assert(decreases_to!(self.shape => *children));
                }
                let n = children.len();
                let mut view: Vec<SplitSizing> = Vec::new();
                let mut i: usize = 0;
                while i < n
                    invariant
                        n == children@.len(),
                        0 <= i <= n,
                        view@ == pref_view(children@, axis, gap, padding, i as int),
                        decreases_to!(*self => *children),
                    decreases n - i,
                {
                    proof {
                        assert(decreases_to!(*children => children@));
                        assert(decreases_to!(children@ => children@[i as int]));
                    }
                    let p = children[i].effective_preferred(axis, gap, padding);
                    let m = children[i].effective_min(axis, gap, padding);
                    let b = children[i].all_borderless();
                    view.push(SplitSizing { size: 0, min: m, max: 0, preferred: p, flex: 0, borderless: b });
                    i += 1;
                }
                container_preferred(*orientation == axis, &view, gap, self.dragged.get(axis))
            },
        }
    }

    /// Returns how far this pane can shrink along `axis` before reaching its minimum.
    pub fn shrink_room(&self, axis: Axis2D, gap: u16, padding: Vec2<u16>) -> (r: u16)
        ensures
            r == sat_sub(self.size.at(axis) as int, eff_min(*self, axis, gap, padding)),
            r <= self.size.at(axis),
    {
        let min = self.effective_min(axis, gap, padding);
        self.size.get(axis).saturating_sub(min)
    }

    /// Returns how far this pane can grow along `axis` before reaching its maximum.
    pub fn grow_room(&self, axis: Axis2D, gap: u16, padding: Vec2<u16>) -> (r: u16)
        ensures
            r == sat_sub(eff_max(*self, axis, gap, padding), self.size.at(axis) as int),
            self.size.at(axis) + r <= u16::MAX,
    {
        let max = self.effective_max(axis, gap, padding);
        max.saturating_sub(self.size.get(axis))
    }

    /// Returns this pane's preference along `axis`, or its minimum when it has none or
    /// prefers less.
    pub fn preferred_or_min(&self, axis: Axis2D, gap: u16, padding: Vec2<u16>) -> (r: u16)
        ensures
            r == crate::split::preferred_or_min(pane_sizing(*self, axis, gap, padding)),
    {
        let preferred = self.effective_preferred(axis, gap, padding);
        let min = self.effective_min(axis, gap, padding);
        if preferred == u16::MAX {
            min
        } else if preferred >= min {
            preferred
        } else {
            min
        }
    }

    /// Returns whether some leaf of this pane has no size yet.
    pub fn needs_initial_layout(&self) -> (r: bool)
        ensures
            r == unsized_leaf(*self),
        decreases *self, 0int,
    {
        match &self.shape {
            PaneShape::Leaf(_) => self.size.x == 0 && self.size.y == 0,
            PaneShape::Container { children, .. } => {
                proof {
                    assert(decreases_to!(*self => self.shape));
                    assert(decreases_to!(self.shape => *children));
                }
                let n = children.len();
                let mut any = false;
                let mut i: usize = 0;
                while i < n
                    invariant
                        n == children@.len(),
                        0 <= i <= n,
                        any == any_unsized(children@, i as int),
                        decreases_to!(*self => *children),
                    decreases n - i,
                {
                    proof {
                        assert(decreases_to!(*children => children@));
                        assert(decreases_to!(children@ => children@[i as int]));
                    }
                    let u = children[i].needs_initial_layout();
                    any = any || u;
                    i += 1;
                }
                any
            },
        }
    }

    /// Gives this pane the size `top` and shares it out down the tree: each container's
    /// children take its cross size, and its main size less the gaps is flex-distributed among
    /// them from their preferences, minimums and maximums.
    fn distribute_at(&mut self, top: Vec2<u16>, gap: u16, padding: Vec2<u16>)
        requires
            fits(*old(self)),
        ensures
            distributed_at(*old(self), top, *final(self), gap, padding),
            same_tree(*old(self), *final(self)),
            fits(*final(self)),
        decreases *old(self),
    {
        proof {
            lemma_same_tree_refl(*old(self));
        }
        self.size = top;
        match &mut self.shape {
            PaneShape::Leaf(_) => {},
            PaneShape::Container { orientation, children, .. } => {
                let a = *orientation;
                let ca = a.flip();
                let cell_main = top.get(a);
                let cell_cross = top.get(ca);
                let ghost old_kids = children@;
                proof {
                    assert(decreases_to!(*old(self) => old(self).shape));
                    assert(decreases_to!(old(self).shape => old(self).shape->Container_children));
                    assert(decreases_to!(old(self).shape->Container_children => old_kids));
                }
                let view = child_sizings(children, a, gap, padding);
                let sizes = distribute_main(&view, cell_main, gap);
                proof {
                    lemma_gap_fold_nonneg(view@, gap, view@.len() - 1);
                }
                let n = children.len();
                let mut i: usize = 0;
                while i < n
                    invariant
                        n == children@.len(),
                        n == old_kids.len(),
                        n == sizes@.len(),
                        0 <= i <= n,
                        ca == a.spec_flip(),
                        sizes@ == main_sizes(child_views(old_kids, a, gap, padding), cell_main, gap),
                        decreases_to!(*old(self) => old_kids),
                        forall|j: int| 0 <= j < n ==> fits(#[trigger] old_kids[j]),
                        forall|j: int| i <= j < n ==> children@[j] == old_kids[j],
                        forall|j: int|
                            0 <= j < i ==> {
                                let c = #[trigger] children@[j];
                                &&& c.size.at(a) == sizes@[j]
                                &&& c.size.at(a.spec_flip()) == cell_cross
                                &&& distributed_at(old_kids[j], c.size, c, gap, padding)
                                &&& same_tree(old_kids[j], c)
                                &&& fits(c)
                            },
                        seq_sum(sizes@, n as int) <= 65535,
                    decreases n - i,
                {
                    proof {
                        assert(decreases_to!(old_kids => old_kids[i as int]));
                    }
                    let mut cell = Vec2 { x: 0u16, y: 0u16 };
                    cell.set(ca, cell_cross);
                    cell.set(a, sizes[i]);
                    assert(cell.at(a) == sizes@[i as int] && cell.at(a.spec_flip()) == cell_cross);
                    children[i].distribute_at(cell, gap, padding);
                    assert(children@[i as int].size == cell);
                    i += 1;
                }
                proof {
                    assert(sizes_along(children@, a) =~= sizes@);
                }
            },
        }
    }

    /// Changes this pane's size along `axis` by `change` (not below zero) and passes the change
    /// down: across a container's axis every child changes by the same amount; along it the
    /// children share the container's new size as [`same_axis_deltas`] spreads it.
    pub fn resize_adjust(&mut self, axis: Axis2D, change: i32, gap: u16, padding: Vec2<u16>)
        requires
            fits(*old(self)),
        ensures
            resized(*old(self), axis, change as int, *final(self), gap, padding),
            same_tree(*old(self), *final(self)),
            fits(*final(self)),
        decreases *old(self),
    {
        proof {
            lemma_same_tree_refl(*old(self));
        }
        let cur = self.size.get(axis);
        let sum: i64 = cur as i64 + change as i64;
        let new_size: u16 = if sum < 0 {
            0
        } else {
            #[verifier::truncate]
            (sum as u16)
        };
        self.size.set(axis, new_size);
        match &mut self.shape {
            PaneShape::Leaf(_) => {},
            PaneShape::Container { orientation, children, .. } => {
                let n = children.len();
                if n == 0 {
                    return;
                }
                let same = *orientation == axis;
                let ghost orient = *orientation;
                let ghost old_kids = children@;
                proof {
                    assert(decreases_to!(*old(self) => old(self).shape));
                    assert(decreases_to!(old(self).shape => old(self).shape->Container_children));
                    assert(decreases_to!(old(self).shape->Container_children => old_kids));
                }
                let ghost view = child_views(old_kids, axis, gap, padding);
                let ghost net = net_change(view, new_size, gap);
                let deltas: Vec<i32> = if same {
                    let sizings = child_sizings(children, axis, gap, padding);
                    proof {
                        assert(sizes_of(sizings@) =~= sizes_of(view));
                        assert(sizes_of(view) =~= sizes_along(old_kids, orient));
                    }
                    match same_axis_deltas(&sizings, new_size, gap) {
                        Some(d) => d,
                        None => {
                            return;
                        },
                    }
                } else {
                    let mut d: Vec<i32> = Vec::new();
                    let mut k: usize = 0;
                    while k < n
                        invariant
                            0 <= k <= n,
                            d@.len() == k,
                            forall|j: int| 0 <= j < k ==> #[trigger] d@[j] == change,
                        decreases n - k,
                    {
                        d.push(change);
                        k += 1;
                    }
                    d
                };
                let mut i: usize = 0;
                while i < n
                    invariant
                        n == children@.len(),
                        n == old_kids.len(),
                        n == deltas@.len(),
                        0 <= i <= n,
                        same == (orient == axis),
                        view == child_views(old_kids, axis, gap, padding),
                        forall|j: int|
                            0 <= j < n ==> #[trigger] deltas@[j] as int == child_delta(
                                same,
                                view,
                                new_size,
                                gap,
                                change as int,
                                j,
                            ),
                        same ==> net != 0,
                        net == net_change(view, new_size, gap),
                        seq_sum(sizes_along(old_kids, orient), n as int) <= 65535,
                        same && net > 0 ==> delta_sum(deltas@, n as int) <= net,
                        same && net > 0 ==> forall|j: int|
                            0 <= j < n ==> 0 <= #[trigger] deltas@[j] <= room(view[j], true),
                        same && net < 0 ==> forall|j: int| 0 <= j < n ==> #[trigger] deltas@[j] <= 0,
                        decreases_to!(*old(self) => old_kids),
                        forall|j: int| 0 <= j < n ==> fits(#[trigger] old_kids[j]),
                        forall|j: int| i <= j < n ==> children@[j] == old_kids[j],
                        forall|j: int|
                            0 <= j < i ==> {
                                let c = #[trigger] children@[j];
                                &&& child_resized(old_kids[j], axis, deltas@[j] as int, c, gap, padding)
                                &&& same_tree(old_kids[j], c)
                                &&& fits(c)
                                &&& c.size == old_kids[j].size.with(
                                    axis,
                                    adjusted(old_kids[j].size.at(axis), deltas@[j] as int),
                                )
                            },
                    decreases n - i,
                {
                    proof {
                        assert(decreases_to!(old_kids => old_kids[i as int]));
                    }
                    let delta = deltas[i];
                    if delta != 0 {
                        children[i].resize_adjust(axis, delta, gap, padding);
                    } else {
                        proof {
                            lemma_same_tree_refl(children@[i as int]);
                        }
                    }
                    i += 1;
                }
                proof {
                    let olds = sizes_along(old_kids, orient);
                    let news = sizes_along(children@, orient);
                    if orient != axis {
                        assert(news =~= olds);
                    } else {
                        assert(sizes_of(view) =~= olds);
                        if net > 0 {
                            lemma_gap_fold_nonneg(view, gap, n - 1);
                            assert forall|j: int| 0 <= j < n implies #[trigger] news[j] == olds[j] + deltas@[j] by {
                                assert(view[j].size == olds[j]);
                                assert(view[j].max <= 65535);
                            }
                            lemma_sum_shift(olds, news, deltas@, n as int);
                        } else {
                            assert forall|j: int| 0 <= j < n implies #[trigger] news[j] <= olds[j] by {
                                assert(deltas@[j] <= 0);
                            }
                            lemma_sum_le(olds, news, n as int);
                        }
                    }
                    assert(seq_sum(news, n as int) <= 65535);
                    assert(forall|j: int| 0 <= j < n ==> fits(#[trigger] children@[j]));
                }
            },
        }
    }

    /// Lets the children of each container below their minimum along its axis take, in order,
    /// what their siblings can spare, each transfer passed down as a resize, round after round
    /// while anything moves, after giving every child the container's size across its axis;
    /// then does the same inside each child.
    pub fn reinforce_mins(&mut self, gap: u16, padding: Vec2<u16>)
        requires
            fits(*old(self)),
        ensures
            reinforced_top(*old(self), *final(self), gap, padding),
            settled(*final(self), gap, padding),
            same_tree(*old(self), *final(self)),
            fits(*final(self)),
    {
        let ghost shape = *self;
        proof {
            lemma_same_tree_refl(shape);
        }
        self.settle(gap, padding, Ghost(shape));
    }

    /// [`PaneNode::reinforce_mins`] on a pane with the same tree as `shape`.
    #[verifier::spinoff_prover]
    #[verifier::rlimit(40)]
    fn settle(&mut self, gap: u16, padding: Vec2<u16>, Ghost(shape): Ghost<PaneNode>)
        requires
            fits(*old(self)),
            same_tree(shape, *old(self)),
        ensures
            reinforced_top(*old(self), *final(self), gap, padding),
            settled(*final(self), gap, padding),
            same_tree(*old(self), *final(self)),
            fits(*final(self)),
        decreases shape,
    {
        proof {
            lemma_same_tree_refl(*old(self));
        }
        let size = self.size;
        match &mut self.shape {
            PaneShape::Leaf(_) => {},
            PaneShape::Container { orientation, children, .. } => {
                let a = *orientation;
                let ca = a.flip();
                let cell_cross = size.get(ca);
                let n = children.len();
                let ghost old_kids = children@;
                let ghost s0 = child_views(old_kids, a, gap, padding);
                let mut k: usize = 0;
                while k < n
                    invariant
                        n == children@.len(),
                        n == old_kids.len(),
                        0 <= k <= n,
                        forall|j: int| k <= j < n ==> children@[j] == old_kids[j],
                        forall|j: int|
                            0 <= j < k ==> {
                                let c = #[trigger] children@[j];
                                &&& c.size == old_kids[j].size.with(ca, cell_cross)
                                &&& c.shape == old_kids[j].shape
                                &&& c.dragged == old_kids[j].dragged
                            },
                    decreases n - k,
                {
                    children[k].size.set(ca, cell_cross);
                    k += 1;
                }
                proof {
                    assert forall|j: int| 0 <= j < n implies {
                        let c = #[trigger] children@[j];
                        &&& same_tree(old_kids[j], c)
                        &&& fits(c)
                        &&& c.size.at(ca) == cell_cross
                        &&& c.size.at(a) == old_kids[j].size.at(a)
                    } by {
                        lemma_same_tree_refl(old_kids[j]);
                        assert(fits(old_kids[j]));
                    }
                    assert forall|j: int| 0 <= j < n implies #[trigger] child_views(children@, a, gap, padding)[j] == s0[j] by {
                        lemma_same_tree_sizing(old_kids[j], children@[j], a, gap, padding);
                    }
                    assert(child_views(children@, a, gap, padding) =~= s0);
                    assert(sizes_of(s0) =~= sizes_along(old_kids, a));
                }
                let ghost t0 = total_shortfall(s0, n as int);
                proof {
                    lemma_shortfall_nonneg(s0, n as int);
                }
                let ghost mut fuel: nat = t0 as nat;
                let mut done = false;
                while !done
                    invariant
                        n == children@.len(),
                        n == old_kids.len(),
                        n == s0.len(),
                        ca == a.spec_flip(),
                        s0 == child_views(old_kids, a, gap, padding),
                        reinforced(child_views(children@, a, gap, padding), fuel) == reinforced(s0, t0 as nat),
                        total_shortfall(child_views(children@, a, gap, padding), n as int) <= fuel,
                        seq_sum(sizes_of(child_views(children@, a, gap, padding)), n as int) == seq_sum(
                            sizes_of(s0),
                            n as int,
                        ),
                        forall|j: int|
                            0 <= j < n ==> {
                                let c = #[trigger] children@[j];
                                &&& same_tree(old_kids[j], c)
                                &&& fits(c)
                                &&& c.size.at(ca) == cell_cross
                            },
                        done ==> reinforced(child_views(children@, a, gap, padding), fuel) == child_views(
                            children@,
                            a,
                            gap,
                            padding,
                        ),
                        done ==> ({
                            let v = child_views(children@, a, gap, padding);
                            let needy = needy_from(v, 0);
                            needy < n ==> forall|j: int|
                                0 <= j < n && j != needy ==> spare(#[trigger] v[j]) == 0
                        }),
                    decreases total_shortfall(child_views(children@, a, gap, padding), n as int) + if done {
                        0int
                    } else {
                        1int
                    },
                {
                    let ghost cur = child_views(children@, a, gap, padding);
                    proof {
                        lemma_needy_from(cur, 0);
                        lemma_shortfall_nonneg(cur, n as int);
                    }
                    let mut needy: usize = 0;
                    let mut searching = true;
                    while searching
                        invariant
                            n == children@.len(),
                            cur == child_views(children@, a, gap, padding),
                            0 <= needy <= n,
                            forall|j: int| 0 <= j < needy ==> shortfall(#[trigger] cur[j]) == 0,
                            needy <= needy_from(cur, 0) <= n,
                            needy_from(cur, 0) < n ==> shortfall(cur[needy_from(cur, 0)]) > 0,
                            !searching ==> (needy == n || shortfall(cur[needy as int]) > 0),
                        decreases n - needy + if searching {
                            1int
                        } else {
                            0int
                        },
                    {
                        if needy == n {
                            searching = false;
                        } else {
                            let m = children[needy].effective_min(a, gap, padding);
                            if m > children[needy].size.get(a) {
                                searching = false;
                            } else {
                                needy += 1;
                            }
                        }
                    }
                    if needy == n {
                        done = true;
                    } else {
                        assert(needy == needy_from(cur, 0));
                        let m = children[needy].effective_min(a, gap, padding);
                        let d: u16 = m - children[needy].size.get(a);
                        let ghost dd = d as int;
                        let mut r: u16 = d;
                        let mut j: usize = 0;
                        proof {
                            lemma_shortfall_entry(cur, n as int, needy as int);
                        }
                        while j < n
                            invariant
                                n == children@.len(),
                                n == cur.len(),
                                n == old_kids.len(),
                                ca == a.spec_flip(),
                                0 <= needy < n,
                                dd == shortfall(cur[needy as int]),
                                dd > 0,
                                0 <= j <= n,
                                (child_views(children@, a, gap, padding), r as int) == donate(
                                    cur,
                                    needy as int,
                                    dd,
                                    j as int,
                                ),
                                forall|i: int|
                                    0 <= i < n ==> {
                                        let c = #[trigger] children@[i];
                                        &&& same_tree(old_kids[i], c)
                                        &&& fits(c)
                                        &&& c.size.at(ca) == cell_cross
                                    },
                            decreases n - j,
                        {
                            proof {
                                lemma_donate(cur, needy as int, dd, j as int);
                            }
                            if j != needy && r > 0 {
                                let mj = children[j].effective_min(a, gap, padding);
                                let sp = children[j].size.get(a).saturating_sub(mj);
                                if sp > 0 {
                                    let give = if sp < r {
                                        sp
                                    } else {
                                        r
                                    };
                                    let ghost before = children@;
                                    let ghost t = child_views(before, a, gap, padding);
                                    children[j].resize_adjust(a, -(give as i32), gap, padding);
                                    proof {
                                        assert(children@ =~= before.update(j as int, children@[j as int]));
                                        lemma_views_update(before, j as int, children@[j as int], a, gap, padding);
                                        lemma_same_tree_trans(old_kids[j as int], before[j as int], children@[j as int]);
                                    }
                                    let ghost mid = children@;
                                    children[needy].resize_adjust(a, give as i32, gap, padding);
                                    proof {
                                        assert(children@ =~= mid.update(needy as int, children@[needy as int]));
                                        lemma_views_update(mid, needy as int, children@[needy as int], a, gap, padding);
                                        lemma_same_tree_trans(old_kids[needy as int], mid[needy as int], children@[needy as int]);
                                        lemma_donate(cur, needy as int, dd, j as int + 1);
                                    }
                                    r = r - give;
                                }
                            }
                            j += 1;
                        }
                        proof {
                            lemma_donate(cur, needy as int, dd, n as int);
                        }
                        if r == d {
                            proof {
                                lemma_no_gift(cur, needy as int, dd, n as int);
                            }
                            done = true;
                        } else {
                            proof {
                                fuel = (fuel - 1) as nat;
                            }
                        }
                    }
                }
                let ghost mid = children@;
                let ghost shape_kids = shape.shape->Container_children@;
                proof {
                    assert(decreases_to!(shape => shape.shape));
                    assert(decreases_to!(shape.shape => shape.shape->Container_children));
                    assert(decreases_to!(shape.shape->Container_children => shape_kids));
                    assert forall|j: int| 0 <= j < n implies same_tree(#[trigger] shape_kids[j], mid[j]) by {
                        lemma_same_tree_trans(shape_kids[j], old_kids[j], mid[j]);
                    }
                }
                let mut k: usize = 0;
                while k < n
                    invariant
                        n == children@.len(),
                        n == mid.len(),
                        n == shape_kids.len(),
                        0 <= k <= n,
                        decreases_to!(shape => shape_kids),
                        forall|j: int| 0 <= j < n ==> same_tree(#[trigger] shape_kids[j], mid[j]),
                        forall|j: int| 0 <= j < n ==> fits(#[trigger] mid[j]),
                        forall|j: int| k <= j < n ==> children@[j] == mid[j],
                        forall|j: int|
                            0 <= j < k ==> {
                                let c = #[trigger] children@[j];
                                &&& reinforced_top(mid[j], c, gap, padding)
                                &&& settled(c, gap, padding)
                                &&& same_tree(mid[j], c)
                                &&& fits(c)
                            },
                    decreases n - k,
                {
                    proof {
                        assert(decreases_to!(shape_kids => shape_kids[k as int]));
                    }
                    children[k].settle(gap, padding, Ghost(shape_kids[k as int]));
                    k += 1;
                }
                proof {
                    assert forall|j: int| 0 <= j < n implies #[trigger] child_views(children@, a, gap, padding)[j] == child_views(mid, a, gap, padding)[j] by {
                        lemma_same_tree_sizing(mid[j], children@[j], a, gap, padding);
                    }
                    assert(child_views(children@, a, gap, padding) =~= child_views(mid, a, gap, padding));
                    assert(sizes_along(children@, a) =~= sizes_of(child_views(mid, a, gap, padding)));
                    assert forall|j: int| 0 <= j < n implies same_tree(old_kids[j], #[trigger] children@[j]) by {
                        lemma_same_tree_trans(old_kids[j], mid[j], children@[j]);
                    }
                }
            },
        }
    }

    /// Returns whether this pane holds the leaf with identifier `target`.
    pub fn contains(&self, target: u64) -> (r: bool)
        ensures
            r == holds(*self, target),
        decreases *self, 0int,
    {
        match &self.shape {
            PaneShape::Leaf(l) => l.id == target,
            PaneShape::Container { children, .. } => {
                proof {
                    assert(decreases_to!(*self => self.shape));
                    assert(decreases_to!(self.shape => *children));
                }
                let n = children.len();
                let mut found = false;
                let mut i: usize = 0;
                while i < n
                    invariant
                        n == children@.len(),
                        0 <= i <= n,
                        found == any_holds(children@, target, i as int),
                        decreases_to!(*self => *children),
                    decreases n - i,
                {
                    proof {
                        assert(decreases_to!(*children => children@));
                        assert(decreases_to!(children@ => children@[i as int]));
                    }
                    let h = children[i].contains(target);
                    found = found || h;
                    i += 1;
                }
                found
            },
        }
    }

    /// Returns whether this pane is a leaf, or a chain of containers that each hold only one
    /// pane down to a leaf.
    pub fn is_single_leaf(&self) -> (r: bool)
        ensures
            r == single_leaf(*self),
        decreases *self,
    {
        match &self.shape {
            PaneShape::Leaf(_) => true,
            PaneShape::Container { children, .. } => {
                if children.len() != 1 {
                    return false;
                }
                proof {
                    assert(decreases_to!(*self => self.shape));
                    assert(decreases_to!(self.shape => *children));
                    assert(decreases_to!(*children => children@));
                    assert(decreases_to!(children@ => children@[0]));
                }
                children[0].is_single_leaf()
            },
        }
    }

    /// Returns the first of this container's children that holds leaf `target`; `None` for a
    /// leaf or when no child holds it.
    pub fn child_holding(&self, target: u64) -> (r: Option<usize>)
        ensures
            match r {
                Some(i) => self.shape is Container && i as int == first_holding(
                    self.shape->Container_children@,
                    target,
                    0,
                ) && i < self.shape->Container_children@.len(),
                None => self.shape is Leaf || first_holding(self.shape->Container_children@, target, 0)
                    >= self.shape->Container_children@.len(),
            },
    {
        match &self.shape {
            PaneShape::Leaf(_) => None,
            PaneShape::Container { children, .. } => {
                let ghost kids = children@;
                proof {
                    lemma_first_holding_range(kids, target, 0);
                }
                let n = children.len();
                let mut i: usize = 0;
                while i < n
                    invariant
                        n == children@.len(),
                        kids == children@,
                        self.shape is Container,
                        self.shape->Container_children@ == kids,
                        0 <= i <= n,
                        first_holding(kids, target, 0) == first_holding(kids, target, i as int),
                    decreases n - i,
                {
                    if children[i].contains(target) {
                        proof {
                            lemma_first_holding(kids, target, i as int);
                        }
                        return Some(i);
                    }
                    proof {
                        lemma_first_holding_skip(kids, target, i as int);
                    }
                    i += 1;
                }
                None
            },
        }
    }

    /// Sets the flex weight of the container among this pane's children that holds leaf
    /// `target`; returns whether a weight changed. Nothing changes when this pane is a leaf,
    /// when no child holds `target`, when the first child that does is a leaf, or when its
    /// weight already is `flex`.
    pub fn set_container_flex_of(&mut self, target: u64, flex: u8) -> (r: bool)
        ensures
            r == flex_change_applies(*old(self), target, flex),
            r ==> child_flex_set(
                *old(self),
                *final(self),
                first_holding(old(self).shape->Container_children@, target, 0),
                flex,
            ),
            !r ==> *final(self) == *old(self),
    {
        let idx = match self.child_holding(target) {
            Some(i) => i,
            None => {
                return false;
            },
        };
        let applies = match &self.shape {
            PaneShape::Container { children, .. } => match &children[idx].shape {
                PaneShape::Container { flex: f, .. } => *f != flex,
                PaneShape::Leaf(_) => false,
            },
            PaneShape::Leaf(_) => false,
        };
        if !applies {
            return false;
        }
        match &mut self.shape {
            PaneShape::Container { children, .. } => {
                match &mut children[idx].shape {
                    PaneShape::Container { flex: child_flex, .. } => {
                        *child_flex = flex;
                    },
                    PaneShape::Leaf(_) => {},
                }
            },
            PaneShape::Leaf(_) => {},
        }
        true
    }

    /// Replaces a container that holds exactly one pane by that pane's contents, keeping this
    /// pane's own size and dragged sizes.
    pub fn collapse_singleton(&mut self)
        ensures
            *final(self) == collapsed(*old(self)),
    {
        let is_single = match &self.shape {
            PaneShape::Container { children, .. } => children.len() == 1,
            PaneShape::Leaf(_) => false,
        };
        if !is_single {
            return;
        }
        let mut shape = PaneShape::Container {
            orientation: Axis2D::X,
            children: Vec::new(),
            flex: 0,
        };
        std::mem::swap(&mut self.shape, &mut shape);
        match shape {
            PaneShape::Container { mut children, .. } => {
                let only = children.remove(0);
                self.shape = only.shape;
            },
            PaneShape::Leaf(l) => {
                self.shape = PaneShape::Leaf(l);
            },
        }
    }

    /// Forgets the sizes this pane and all its descendants were dragged to.
    pub fn clear_dragged(&mut self)
        ensures
            undragged(*old(self), *final(self)),
        decreases *old(self),
    {
        self.dragged = Vec2 { x: None, y: None };
        match &mut self.shape {
            PaneShape::Leaf(_) => {},
            PaneShape::Container { children, .. } => {
                let ghost old_kids = children@;
                proof {
                    assert(decreases_to!(*old(self) => old(self).shape));
                    assert(decreases_to!(old(self).shape => old(self).shape->Container_children));
                    assert(decreases_to!(old(self).shape->Container_children => old_kids));
                }
                let n = children.len();
                let mut i: usize = 0;
                while i < n
                    invariant
                        n == children@.len(),
                        n == old_kids.len(),
                        0 <= i <= n,
                        decreases_to!(*old(self) => old_kids),
                        forall|j: int| i <= j < n ==> children@[j] == old_kids[j],
                        forall|j: int| 0 <= j < i ==> undragged(old_kids[j], #[trigger] children@[j]),
                    decreases n - i,
                {
                    proof {
                        assert(decreases_to!(old_kids => old_kids[i as int]));
                    }
                    children[i].clear_dragged();
                    i += 1;
                }
            },
        }
    }

    /// Splits the leaf `target` in two along `split_axis`, the new leaf `leaf` going after it
    /// for a positive `direction` and before it otherwise; returns whether `target` was found.
    /// When this pane is that leaf it becomes a container of the two; otherwise the split is
    /// made where a container holds the leaf (see [`split_below`]).
    pub fn split(&mut self, target: u64, leaf: LeafPane, split_axis: Axis2D, direction: Sign, gap: u16) -> (r: bool)
        requires
            gap < u16::MAX,
        ensures
            r == holds(*old(self), target),
            split_pane(*old(self), *final(self), target, leaf, split_axis, direction, gap),
    {
        let is_target = match &self.shape {
            PaneShape::Leaf(l) => l.id == target,
            PaneShape::Container { .. } => false,
        };
        if is_target {
            let parent = self.size;
            let (existing_size, new_size) = halve_with_gap(parent.get(split_axis), gap);
            let mut shape = PaneShape::Container { orientation: split_axis, children: Vec::new(), flex: 1 };
            std::mem::swap(&mut self.shape, &mut shape);
            let mut kept_size = parent;
            kept_size.set(split_axis, existing_size);
            let mut fresh_size = parent;
            fresh_size.set(split_axis, new_size);
            let existing = PaneNode { shape, size: kept_size, dragged: Vec2 { x: None, y: None } };
            let fresh = PaneNode {
                shape: PaneShape::Leaf(leaf),
                size: fresh_size,
                dragged: Vec2 { x: None, y: None },
            };
            let mut kids: Vec<PaneNode> = Vec::new();
            match direction {
                Sign::Positive => {
                    kids.push(existing);
                    kids.push(fresh);
                },
                Sign::Negative => {
                    kids.push(fresh);
                    kids.push(existing);
                },
            }
            proof {
                assert(kids@ =~= ordered(existing, fresh, direction));
            }
            self.shape = PaneShape::Container { orientation: split_axis, children: kids, flex: 1 };
            return true;
        }
        let r = self.split_below(target, leaf, split_axis, direction, gap);
        proof {
            if old(self).shape is Leaf {
                assert(!holds(*old(self), target));
            }
        }
        r
    }

    /// Splits the leaf `target` where a container holds it among its children (see
    /// [`split_below`]); returns whether this pane is a container holding `target`.
    fn split_below(&mut self, target: u64, leaf: LeafPane, split_axis: Axis2D, direction: Sign, gap: u16) -> (r: bool)
        requires
            gap < u16::MAX,
        ensures
            r == (old(self).shape is Container && holds(*old(self), target)),
            split_below(*old(self), *final(self), target, leaf, split_axis, direction, gap),
        decreases *old(self),
    {
        match &mut self.shape {
            PaneShape::Leaf(_) => false,
            PaneShape::Container { orientation, children, .. } => {
                let ghost old_kids = children@;
                proof {
                    lemma_first_leaf_range(old_kids, target, 0);
                    lemma_first_holding_range(old_kids, target, 0);
                    lemma_any_holds(old_kids, target, old_kids.len() as int);
                    assert(decreases_to!(*old(self) => old(self).shape));
                    assert(decreases_to!(old(self).shape => old(self).shape->Container_children));
                    assert(decreases_to!(old(self).shape->Container_children => old_kids));
                }
                let n = children.len();
                let mut li: usize = 0;
                let mut searching = true;
                while searching
                    invariant
                        n == children@.len(),
                        old_kids == children@,
                        0 <= li <= n,
                        first_leaf_with(old_kids, target, 0) == first_leaf_with(old_kids, target, li as int),
                        !searching ==> li == first_leaf_with(old_kids, target, 0),
                    decreases n - li + if searching {
                        1int
                    } else {
                        0int
                    },
                {
                    if li == n {
                        searching = false;
                    } else {
                        let hit = match &children[li].shape {
                            PaneShape::Leaf(l) => l.id == target,
                            PaneShape::Container { .. } => false,
                        };
                        if hit {
                            searching = false;
                        } else {
                            li += 1;
                        }
                    }
                }
                if li < n {
                    proof {
                        assert(holds(old_kids[li as int], target));
                    }
                    let target_size = children[li].size;
                    let (existing_size, new_size) = halve_with_gap(target_size.get(split_axis), gap);
                    let mut fresh_size = target_size;
                    fresh_size.set(split_axis, new_size);
                    let fresh = PaneNode {
                        shape: PaneShape::Leaf(leaf),
                        size: fresh_size,
                        dragged: Vec2 { x: None, y: None },
                    };
                    if *orientation == split_axis {
                        children[li].size.set(split_axis, existing_size);
                        children[li].dragged.set(split_axis, None);
                        let at = match direction {
                            Sign::Positive => li + 1,
                            Sign::Negative => li,
                        };
                        children.insert(at, fresh);
                        proof {
                            let t = old_kids[li as int];
                            let kept = PaneNode {
                                size: t.size.with(split_axis, existing_size),
                                dragged: t.dragged.with(split_axis, None),
                                ..t
                            };
                            assert(children@ == old_kids.update(li as int, kept).insert(at as int, fresh));
                        }
                    } else {
                        let old_child = children.remove(li);
                        let mut kept_size = target_size;
                        kept_size.set(split_axis, existing_size);
                        let existing = PaneNode {
                            shape: old_child.shape,
                            size: kept_size,
                            dragged: Vec2 { x: None, y: None },
                        };
                        let mut inner: Vec<PaneNode> = Vec::new();
                        match direction {
                            Sign::Positive => {
                                inner.push(existing);
                                inner.push(fresh);
                            },
                            Sign::Negative => {
                                inner.push(fresh);
                                inner.push(existing);
                            },
                        }
                        proof {
                            assert(inner@ =~= ordered(existing, fresh, direction));
                        }
                        let wrapper = PaneNode {
                            shape: PaneShape::Container { orientation: split_axis, children: inner, flex: 1 },
                            size: target_size,
                            dragged: Vec2 { x: None, y: None },
                        };
                        children.insert(li, wrapper);
                        proof {
                            assert(children@ =~= old_kids.update(li as int, children@[li as int]));
                            assert(children@[li as int] == wrapper);
                            assert(wrapper.shape->Container_children@ == ordered(
                                fresh_pane(old_kids[li as int].shape, target_size.with(split_axis, existing_size)),
                                fresh,
                                direction,
                            ));
                        }
                    }
                    return true;
                }
                let mut hi: usize = 0;
                let mut searching = true;
                while searching
                    invariant
                        n == children@.len(),
                        old_kids == children@,
                        0 <= hi <= n,
                        first_holding(old_kids, target, 0) == first_holding(old_kids, target, hi as int),
                        !searching ==> hi == first_holding(old_kids, target, 0),
                    decreases n - hi + if searching {
                        1int
                    } else {
                        0int
                    },
                {
                    if hi == n {
                        searching = false;
                    } else if children[hi].contains(target) {
                        proof {
                            lemma_first_holding(old_kids, target, hi as int);
                        }
                        searching = false;
                    } else {
                        proof {
                            lemma_first_holding_skip(old_kids, target, hi as int);
                        }
                        hi += 1;
                    }
                }
                if hi < n {
                    proof {
                        assert(decreases_to!(old_kids => old_kids[hi as int]));
                        assert(!(old_kids[hi as int].shape is Leaf));
                    }
                    let r = children[hi].split_below(target, leaf, split_axis, direction, gap);
                    proof {
                        assert(children@ =~= old_kids.update(hi as int, children@[hi as int]));
                    }
                    return r;
                }
                false
            },
        }
    }

    /// Adds `new_shape` as a pane at the outer edge of this pane along `axis`: the last
    /// (positive `direction`) or first child of a container along `axis` gives it the part
    /// that `halves` splits off its size; any other pane becomes the first part of a new
    /// container along `axis` of itself and the new pane, halving its size.
    pub fn push_to_root(&mut self, new_shape: PaneShape, axis: Axis2D, direction: Sign, gap: u16)
        requires
            gap < u16::MAX,
            old(self).shape is Container && old(self).shape->Container_orientation == axis
                ==> old(self).shape->Container_children@.len() > 0,
        ensures
            pushed(*old(self), *final(self), new_shape, axis, direction, gap),
    {
        let total = self.size;
        let same_orientation = match &self.shape {
            PaneShape::Container { orientation, .. } => *orientation == axis,
            PaneShape::Leaf(_) => false,
        };
        if same_orientation {
            match &mut self.shape {
                PaneShape::Container { children, .. } => {
                    let ghost oc = children@;
                    let sibling = match direction {
                        Sign::Positive => children.len() - 1,
                        Sign::Negative => 0,
                    };
                    let (sibling_size, new_size) = halve_with_gap(children[sibling].size.get(axis), gap);
                    children[sibling].size.set(axis, sibling_size);
                    let mut fresh_size = total;
                    fresh_size.set(axis, new_size);
                    let fresh = PaneNode { shape: new_shape, size: fresh_size, dragged: Vec2 { x: None, y: None } };
                    match direction {
                        Sign::Positive => {
                            children.push(fresh);
                        },
                        Sign::Negative => {
                            children.insert(0, fresh);
                        },
                    }
                },
                PaneShape::Leaf(_) => {},
            }
        } else {
            let (old_size, new_size) = halve_with_gap(total.get(axis), gap);
            let mut shape = PaneShape::Container { orientation: axis, children: Vec::new(), flex: 1 };
            std::mem::swap(&mut self.shape, &mut shape);
            let mut kept_size = total;
            kept_size.set(axis, old_size);
            let mut fresh_size = total;
            fresh_size.set(axis, new_size);
            let existing = PaneNode { shape, size: kept_size, dragged: Vec2 { x: None, y: None } };
            let fresh = PaneNode { shape: new_shape, size: fresh_size, dragged: Vec2 { x: None, y: None } };
            let mut kids: Vec<PaneNode> = Vec::new();
            match direction {
                Sign::Positive => {
                    kids.push(existing);
                    kids.push(fresh);
                },
                Sign::Negative => {
                    kids.push(fresh);
                    kids.push(existing);
                },
            }
            proof {
                assert(kids@ =~= ordered(existing, fresh, direction));
            }
            self.shape = PaneShape::Container { orientation: axis, children: kids, flex: 1 };
        }
    }

    /// Returns where, along `axis`, the divider after child `divider_idx` of the container at
    /// `path` sits: `inner_offset` plus, at each container on the way that stacks along `axis`,
    /// the extent of the children before the one the path goes into, plus the extent of the
    /// last container's children up to the end of that child. `None` when the path meets a
    /// leaf.
    pub fn divider_abs_pos(
        &self,
        path: &[usize],
        divider_idx: usize,
        axis: Axis2D,
        inner_offset: Vec2<i32>,
        gap: u16,
    ) -> (r: Option<i32>)
        requires
            divider_path_ok(*self, path@, divider_idx as int, axis),
            inner_offset.at(axis) + path_extent(*self, path@, divider_idx as int, axis, gap) <= i32::MAX,
        ensures
            r == match divider_at(*self, path@, divider_idx as int, axis, gap) {
                Some(v) => Some((inner_offset.at(axis) + v) as i32),
                None => None,
            },
    {
        proof {
            assert(path@.skip(0) =~= path@);
            lemma_extent_nonneg(*self, path@, divider_idx as int, axis, gap);
        }
        match self.divider_below(path, 0, divider_idx, axis, gap) {
            Some(v) => Some((inner_offset.get(axis) as i64 + v) as i32),
            None => None,
        }
    }

    /// Where the divider sits relative to this pane's start, following `path` from its `k`th
    /// step.
    fn divider_below(&self, path: &[usize], k: usize, divider_idx: usize, axis: Axis2D, gap: u16) -> (r: Option<i64>)
        requires
            k <= path@.len(),
            divider_path_ok(*self, path@.skip(k as int), divider_idx as int, axis),
            path_extent(*self, path@.skip(k as int), divider_idx as int, axis, gap) <= u32::MAX,
        ensures
            r == match divider_at(*self, path@.skip(k as int), divider_idx as int, axis, gap) {
                Some(v) => Some(v as i64),
                None => None,
            },
        decreases path@.len() - k,
    {
        match &self.shape {
            PaneShape::Leaf(_) => None,
            PaneShape::Container { orientation, children, .. } => {
                let view = edge_sizings(children, axis);
                if k == path.len() {
                    proof {
                        lemma_offsets_grow(view@, gap, 0, divider_idx as int, view@.len() as int);
                    }
                    let before = offset_before(&view, gap, divider_idx);
                    Some(before + view[divider_idx].size as i64)
                } else {
                    let idx = path[k];
                    let ghost rest = path@.skip(k as int);
                    proof {
                        assert(rest.drop_first() =~= path@.skip(k as int + 1));
                        assert(rest[0] == path@[k as int]);
                        lemma_extent_nonneg(children@[idx as int], rest.drop_first(), divider_idx as int, axis, gap);
                        lemma_extent_nonneg(*self, rest, divider_idx as int, axis, gap);
                        lemma_offset_from_start(view@, gap, 0, idx as int);
                    }
                    let here: i64 = if *orientation == axis {
                        offset_before(&view, gap, idx)
                    } else {
                        0
                    };
                    match children[idx].divider_below(path, k + 1, divider_idx, axis, gap) {
                        Some(v) => Some(here + v),
                        None => None,
                    }
                }
            },
        }
    }

    /// Returns the first of this container's children that is the leaf `target`, or the
    /// number of children when none is (zero for a leaf).
    fn leaf_child_index(&self, target: u64) -> (r: usize)
        ensures
            self.shape is Container ==> r == first_leaf_with(self.shape->Container_children@, target, 0),
    {
        match &self.shape {
            PaneShape::Leaf(_) => 0,
            PaneShape::Container { children, .. } => {
                let ghost kids = children@;
                proof {
                    lemma_first_leaf_range(kids, target, 0);
                }
                let n = children.len();
                let mut i: usize = 0;
                while i < n
                    invariant
                        n == children@.len(),
                        kids == children@,
                        self.shape is Container,
                        self.shape->Container_children@ == kids,
                        0 <= i <= n,
                        first_leaf_with(kids, target, 0) == first_leaf_with(kids, target, i as int),
                    decreases n - i,
                {
                    let hit = match &children[i].shape {
                        PaneShape::Leaf(l) => l.id == target,
                        PaneShape::Container { .. } => false,
                    };
                    if hit {
                        return i;
                    }
                    i += 1;
                }
                n
            },
        }
    }

    /// Removes the leaf `target` and returns it: where a container holds it among its children,
    /// its space goes to a neighbour (see [`donated_away`]) and a container left with one
    /// child takes over that child's contents; the container above takes over the contents of
    /// a single remaining child too. `None` when this pane does not hold `target` below it.
    pub fn close_inner(&mut self, target: u64, gap: u16, padding: Vec2<u16>) -> (r: Option<LeafPane>)
        requires
            fits(*old(self)),
        ensures
            closed(*old(self), *final(self), r, target, gap, padding),
        decreases *old(self),
    {
        let li = self.leaf_child_index(target);
        let (n, a) = match &self.shape {
            PaneShape::Leaf(_) => {
                return None;
            },
            PaneShape::Container { orientation, children, .. } => (children.len(), *orientation),
        };
        if li < n {
            let ghost oc = self.shape->Container_children@;
            proof {
                lemma_first_leaf_range(oc, target, 0);
            }
            let mut r: Option<LeafPane> = None;
            match &mut self.shape {
                PaneShape::Container { children, .. } => {
                    let view = child_sizings(children, a, gap, padding);
                    match removal_donation(&view, li, gap) {
                        Some((rcv, amount)) => {
                            proof {
                                assert(fits(oc[rcv as int]));
                                assert(amount as int == donated(child_views(oc, a, gap, padding), li as int, rcv as int, gap));
                            }
                            children[rcv].resize_adjust(a, amount as i32, gap, padding);
                            let ghost y = children@[rcv as int];
                            children[rcv].dragged.set(a, None);
                            proof {
                                let x = children@[rcv as int];
                                assert(children@ =~= oc.update(rcv as int, x));
                                assert(PaneNode { dragged: oc[rcv as int].dragged, ..x } == y);
                            }
                        },
                        None => {},
                    }
                    let ghost pre = children@;
                    let removed = children.remove(li);
                    r = match removed.shape {
                        PaneShape::Leaf(l) => Some(l),
                        PaneShape::Container { .. } => None,
                    };
                    proof {
                        assert(children@ == pre.remove(li as int));
                    }
                },
                PaneShape::Leaf(_) => {},
            }
            let ghost m = *self;
            proof {
                assert(donated_away(oc, m.shape->Container_children@, li as int, a, gap, padding));
            }
            self.collapse_singleton();
            return r;
        }
        match self.child_holding(target) {
            None => None,
            Some(h) => {
                let mut r: Option<LeafPane> = None;
                match &mut self.shape {
                    PaneShape::Container { children, .. } => {
                        let ghost old_kids = children@;
                        proof {
                            assert(decreases_to!(*old(self) => old(self).shape));
                            assert(decreases_to!(old(self).shape => old(self).shape->Container_children));
                            assert(decreases_to!(old(self).shape->Container_children => old_kids));
                            assert(decreases_to!(old_kids => old_kids[h as int]));
                        }
                        r = children[h].close_inner(target, gap, padding);
                        let ghost m = children@[h as int];
                        children[h].collapse_singleton();
                        proof {
                            assert(children@ =~= old_kids.update(h as int, children@[h as int]));
                            assert(closed(old_kids[h as int], m, r, target, gap, padding));
                        }
                    },
                    PaneShape::Leaf(_) => {},
                }
                r
            },
        }
    }

    /// Removes the leaf `target` and returns it (see [`PaneNode::close_inner`]); `None`, with
    /// nothing changed, when the tree is a single leaf.
    pub fn remove(&mut self, target: u64, gap: u16, padding: Vec2<u16>) -> (r: Option<LeafPane>)
        requires
            fits(*old(self)),
        ensures
            single_leaf(*old(self)) ==> r is None && *final(self) == *old(self),
            !single_leaf(*old(self)) ==> closed(*old(self), *final(self), r, target, gap, padding),
            r is Some <==> !single_leaf(*old(self)) && holds(*old(self), target),
            r matches Some(l) ==> l.id == target,
    {
        if self.is_single_leaf() {
            return None;
        }
        let r = self.close_inner(target, gap, padding);
        proof {
            lemma_closed_returns_target(*old(self), *final(self), r, target, gap, padding);
        }
        r
    }

    /// Resets the tree's sizes from the flex weights: forgets every dragged size, shares the
    /// size out down the tree, then reinforces the minimums.
    pub fn redistribute(&mut self, gap: u16, padding: Vec2<u16>)
        requires
            fits(*old(self)),
        ensures
            no_drags(*final(self)),
            settled(*final(self), gap, padding),
            fits(*final(self)),
            final(self).size == old(self).size,
            exists|cleared: PaneNode, shared: PaneNode|
                {
                    &&& #[trigger] undragged(*old(self), cleared)
                    &&& distributed_at(cleared, cleared.size, shared, gap, padding)
                    &&& #[trigger] reinforced_top(shared, *final(self), gap, padding)
                },
    {
        self.clear_dragged();
        let ghost cleared = *self;
        proof {
            lemma_undragged_keeps(*old(self), cleared);
        }
        self.flex_distribute(gap, padding);
        let ghost shared = *self;
        proof {
            lemma_same_tree_no_drags(cleared, shared);
        }
        self.reinforce_mins(gap, padding);
        proof {
            lemma_same_tree_no_drags(shared, *self);
            assert(reinforced_top(shared, *self, gap, padding));
        }
    }

    /// Shrinks this pane along `axis` by as much of `needed` as it can spare above its
    /// minimum, passing the change down; returns how much it gave, or `None` when it can spare
    /// nothing or, unless `allow_cross_growth`, when it is already below its minimum across
    /// `axis` (then the shrink is undone by growing it back by the same amount).
    #[verifier::rlimit(40)]
    pub fn try_shrink(
        &mut self,
        axis: Axis2D,
        needed: u16,
        gap: u16,
        padding: Vec2<u16>,
        allow_cross_growth: bool,
    ) -> (r: Option<u16>)
        requires
            fits(*old(self)),
        ensures
            fits(*final(self)),
            same_tree(*old(self), *final(self)),
            final(self).size.at(axis.spec_flip()) == old(self).size.at(axis.spec_flip()),
            r matches Some(t) ==> {
                &&& shrink_room_of(*old(self), axis, gap, padding) > 0
                &&& !cross_rejected(*old(self), axis, allow_cross_growth, gap, padding)
                &&& t == shrink_take(*old(self), axis, needed, gap, padding)
                &&& final(self).size.at(axis) == old(self).size.at(axis) - t
                &&& resized(*old(self), axis, -shrink_take(*old(self), axis, needed, gap, padding), *final(self), gap, padding)
            },
            r is None && shrink_room_of(*old(self), axis, gap, padding) == 0 ==> *final(self) == *old(self),
            r is None && shrink_room_of(*old(self), axis, gap, padding) > 0 ==> {
                &&& cross_rejected(*old(self), axis, allow_cross_growth, gap, padding)
                &&& final(self).size == old(self).size
                &&& exists|m: PaneNode|
                    resized(*old(self), axis, -shrink_take(*old(self), axis, needed, gap, padding), m, gap, padding)
                        && #[trigger] resized(
                        m,
                        axis,
                        shrink_take(*old(self), axis, needed, gap, padding),
                        *final(self),
                        gap,
                        padding,
                    )
            },
    {
        proof {
            lemma_same_tree_refl(*self);
        }
        let room = self.shrink_room(axis, gap, padding);
        if room == 0 {
            return None;
        }
        let take = if room < needed {
            room
        } else {
            needed
        };
        let ghost before = *self;
        self.resize_adjust(axis, -(take as i32), gap, padding);
        proof {
            lemma_same_tree_sizing(before, *self, axis.spec_flip(), gap, padding);
        }
        if !allow_cross_growth {
            let cross = axis.flip();
            if self.effective_min(cross, gap, padding) > self.size.get(cross) {
                let ghost m = *self;
                self.resize_adjust(axis, take as i32, gap, padding);
                proof {
                    lemma_same_tree_trans(before, m, *self);
                    assert(take as int == shrink_take(before, axis, needed, gap, padding));
                    assert(resized(before, axis, -take, m, gap, padding));
                    assert(m.size.at(axis) == before.size.at(axis) - take);
                    assert(self.size.at(axis) == before.size.at(axis));
                    assert(self.size == before.size) by {
                        match axis {
                            Axis2D::X => {},
                            Axis2D::Y => {},
                        }
                    }
                    assert(cross_rejected(before, axis, allow_cross_growth, gap, padding));
                }
                return None;
            }
        }
        Some(take)
    }

    /// Grows the nearest pane at or before divider `divider_idx` that has room to grow along
    /// `axis` by what the first pane after the divider that can shrink gives of `needed`
    /// (capped by that room); returns the amount moved, zero when nothing could move.
    pub fn grow_at_divider(
        children: &mut Vec<PaneNode>,
        divider_idx: usize,
        axis: Axis2D,
        needed: u16,
        gap: u16,
        padding: Vec2<u16>,
        allow_cross_growth: bool,
    ) -> (taken: u16)
        requires
            divider_idx < old(children)@.len(),
            forall|i: int| 0 <= i < old(children)@.len() ==> fits(#[trigger] old(children)@[i]),
        ensures
            taken <= needed,
            moved_within(old(children)@, final(children)@, axis, gap, padding),
            taken == 0 && needed > 0 ==> grow_stuck(final(children)@, divider_idx as int, axis, allow_cross_growth, gap, padding),
            divider_offset(final(children)@, divider_idx as int, axis) == divider_offset(old(children)@, divider_idx as int, axis)
                + taken,
            taken == 0 ==> sizes_along(final(children)@, axis) == sizes_along(old(children)@, axis),
    {
        let ghost o = children@;
        proof {
            lemma_moved_refl(o, axis, gap, padding);
        }
        let n = children.len();
        let mut i: usize = divider_idx + 1;
        let mut grow_idx: usize = 0;
        let mut grow_room: u16 = 0;
        while i > 0 && grow_room == 0
            invariant
                0 <= i <= divider_idx + 1,
                divider_idx < o.len(),
                children@ == o,
                grow_room > 0 ==> {
                    &&& grow_idx <= divider_idx
                    &&& grow_room as int == grow_room_of(o[grow_idx as int], axis, gap, padding)
                    &&& o[grow_idx as int].size.at(axis) + grow_room <= u16::MAX
                },
                grow_room == 0 ==> forall|j: int| i <= j <= divider_idx ==> grow_room_of(#[trigger] o[j], axis, gap, padding) == 0,
            decreases i,
        {
            i -= 1;
            let room = children[i].grow_room(axis, gap, padding);
            if room > 0 {
                grow_idx = i;
                grow_room = room;
            }
        }
        if grow_room == 0 {
            return 0;
        }
        let needed_capped = if needed < grow_room {
            needed
        } else {
            grow_room
        };
        if needed_capped == 0 {
            return 0;
        }
        let mut idx: usize = divider_idx + 1;
        while idx < n
            invariant
                n == children@.len(),
                n == o.len(),
                divider_idx < idx <= n,
                grow_idx <= divider_idx,
                o == old(children)@,
                moved_within(o, children@, axis, gap, padding),
                sizes_along(children@, axis) == sizes_along(o, axis),
                forall|j: int| divider_idx < j < idx ==> blocked(#[trigger] children@[j], axis, allow_cross_growth, gap, padding),
                forall|j: int| idx <= j < n ==> children@[j] == o[j],
                children@[grow_idx as int] == o[grow_idx as int],
                grow_room as int == grow_room_of(o[grow_idx as int], axis, gap, padding),
                o[grow_idx as int].size.at(axis) + grow_room <= u16::MAX,
                needed_capped <= grow_room,
                needed_capped <= needed,
                needed_capped > 0,
            decreases n - idx,
        {
            let ghost before = children@;
            proof {
                assert(fits(before[idx as int]));
            }
            let r = children[idx].try_shrink(axis, needed_capped, gap, padding, allow_cross_growth);
            proof {
                assert(children@ =~= before.update(idx as int, children@[idx as int]));
            }
            match r {
                Some(take) => {
                    assert(take > 0);
                    let ghost mid = children@;
                    proof {
                        assert(fits(mid[grow_idx as int]));
                    }
                    children[grow_idx].resize_adjust(axis, take as i32, gap, padding);
                    proof {
                        let t = take as int;
                        let cb = children@[grow_idx as int];
                        assert(mid[grow_idx as int] == before[grow_idx as int]);
                        assert(t <= shrink_room_of(before[idx as int], axis, gap, padding));
                        assert(t <= grow_room_of(before[grow_idx as int], axis, gap, padding));
                        assert(mid[idx as int].size.at(axis) == before[idx as int].size.at(axis) - t);
                        assert(cb.size.at(axis) == before[grow_idx as int].size.at(axis) + t);
                        assert(cb.size.at(axis.spec_flip()) == before[grow_idx as int].size.at(axis.spec_flip()));
                        assert(children@ =~= before.update(idx as int, mid[idx as int]).update(
                            grow_idx as int,
                            children@[grow_idx as int],
                        ));
                        lemma_moved_transfer(
                            before,
                            idx as int,
                            mid[idx as int],
                            grow_idx as int,
                            children@[grow_idx as int],
                            take as int,
                            axis,
                            gap,
                            padding,
                        );
                        lemma_moved_trans(o, before, children@, axis, gap, padding);
                        lemma_prefix_transfer(before, idx as int, mid[idx as int], grow_idx as int, cb, t, divider_idx as int, axis);
                    }
                    return take;
                },
                None => {
                    proof {
                        assert(sizes_along(children@, axis) =~= sizes_along(before, axis));
                        lemma_moved_same_size(before, idx as int, children@[idx as int], axis, gap, padding);
                        lemma_moved_trans(o, before, children@, axis, gap, padding);
                        lemma_same_tree_sizing(before[idx as int], children@[idx as int], axis, gap, padding);
                        lemma_same_tree_sizing(before[idx as int], children@[idx as int], axis.spec_flip(), gap, padding);
                    }
                },
            }
            idx += 1;
        }
        0
    }

    /// Grows the nearest pane after divider `divider_idx` that has room to grow along `axis` by
    /// what the first pane at or before the divider, going back, that can shrink gives of
    /// `needed` (capped by that room); returns the amount moved, zero when nothing could move.
    pub fn shrink_at_divider(
        children: &mut Vec<PaneNode>,
        divider_idx: usize,
        axis: Axis2D,
        needed: u16,
        gap: u16,
        padding: Vec2<u16>,
        allow_cross_growth: bool,
    ) -> (taken: u16)
        requires
            divider_idx < old(children)@.len(),
            forall|i: int| 0 <= i < old(children)@.len() ==> fits(#[trigger] old(children)@[i]),
        ensures
            taken <= needed,
            moved_within(old(children)@, final(children)@, axis, gap, padding),
            taken == 0 && needed > 0 ==> shrink_stuck(final(children)@, divider_idx as int, axis, allow_cross_growth, gap, padding),
            divider_offset(final(children)@, divider_idx as int, axis) + taken == divider_offset(
                old(children)@,
                divider_idx as int,
                axis,
            ),
            taken == 0 ==> sizes_along(final(children)@, axis) == sizes_along(old(children)@, axis),
    {
        let ghost o = children@;
        proof {
            lemma_moved_refl(o, axis, gap, padding);
        }
        let n = children.len();
        let mut i: usize = divider_idx + 1;
        let mut add_idx: usize = 0;
        let mut grow_room: u16 = 0;
        while i < n && grow_room == 0
            invariant
                n == o.len(),
                divider_idx + 1 <= i <= n,
                divider_idx < o.len(),
                children@ == o,
                grow_room > 0 ==> {
                    &&& divider_idx < add_idx < n
                    &&& grow_room as int == grow_room_of(o[add_idx as int], axis, gap, padding)
                    &&& o[add_idx as int].size.at(axis) + grow_room <= u16::MAX
                },
                grow_room == 0 ==> forall|j: int| divider_idx < j < i ==> grow_room_of(#[trigger] o[j], axis, gap, padding) == 0,
            decreases n - i,
        {
            let room = children[i].grow_room(axis, gap, padding);
            if room > 0 {
                add_idx = i;
                grow_room = room;
            }
            i += 1;
        }
        if grow_room == 0 {
            return 0;
        }
        let needed_capped = if needed < grow_room {
            needed
        } else {
            grow_room
        };
        if needed_capped == 0 {
            return 0;
        }
        let mut idx: usize = divider_idx + 1;
        while idx > 0
            invariant
                n == children@.len(),
                n == o.len(),
                0 <= idx <= divider_idx + 1,
                divider_idx < add_idx < n,
                o == old(children)@,
                moved_within(o, children@, axis, gap, padding),
                sizes_along(children@, axis) == sizes_along(o, axis),
                forall|j: int| idx <= j <= divider_idx ==> blocked(#[trigger] children@[j], axis, allow_cross_growth, gap, padding),
                forall|j: int| 0 <= j < idx ==> children@[j] == o[j],
                children@[add_idx as int] == o[add_idx as int],
                grow_room as int == grow_room_of(o[add_idx as int], axis, gap, padding),
                o[add_idx as int].size.at(axis) + grow_room <= u16::MAX,
                needed_capped <= grow_room,
                needed_capped <= needed,
                needed_capped > 0,
            decreases idx,
        {
            idx -= 1;
            let ghost before = children@;
            proof {
                assert(fits(before[idx as int]));
            }
            let r = children[idx].try_shrink(axis, needed_capped, gap, padding, allow_cross_growth);
            proof {
                assert(children@ =~= before.update(idx as int, children@[idx as int]));
            }
            match r {
                Some(take) => {
                    assert(take > 0);
                    let ghost mid = children@;
                    proof {
                        assert(fits(mid[add_idx as int]));
                    }
                    children[add_idx].resize_adjust(axis, take as i32, gap, padding);
                    proof {
                        let t = take as int;
                        let cb = children@[add_idx as int];
                        assert(mid[add_idx as int] == before[add_idx as int]);
                        assert(t <= shrink_room_of(before[idx as int], axis, gap, padding));
                        assert(t <= grow_room_of(before[add_idx as int], axis, gap, padding));
                        assert(mid[idx as int].size.at(axis) == before[idx as int].size.at(axis) - t);
                        assert(cb.size.at(axis) == before[add_idx as int].size.at(axis) + t);
                        assert(cb.size.at(axis.spec_flip()) == before[add_idx as int].size.at(axis.spec_flip()));
                        assert(children@ =~= before.update(idx as int, mid[idx as int]).update(
                            add_idx as int,
                            children@[add_idx as int],
                        ));
                        lemma_moved_transfer(
                            before,
                            idx as int,
                            mid[idx as int],
                            add_idx as int,
                            children@[add_idx as int],
                            take as int,
                            axis,
                            gap,
                            padding,
                        );
                        lemma_moved_trans(o, before, children@, axis, gap, padding);
                        lemma_prefix_transfer(before, idx as int, mid[idx as int], add_idx as int, cb, t, divider_idx as int, axis);
                    }
                    return take;
                },
                None => {
                    proof {
                        assert(sizes_along(children@, axis) =~= sizes_along(before, axis));
                        lemma_moved_same_size(before, idx as int, children@[idx as int], axis, gap, padding);
                        lemma_moved_trans(o, before, children@, axis, gap, padding);
                        lemma_same_tree_sizing(before[idx as int], children@[idx as int], axis, gap, padding);
                        lemma_same_tree_sizing(before[idx as int], children@[idx as int], axis.spec_flip(), gap, padding);
                    }
                },
            }
        }
        0
    }

    /// Moves divider `divider_idx` of a container's `children` by `change` along `axis` (the
    /// magnitude cut to a `u16` as a cast does): round after round the panes
    /// on the side it moves towards give way to the other side (see
    /// [`PaneNode::grow_at_divider`] and [`PaneNode::shrink_at_divider`]) until all of it moved
    /// or a round moves nothing; returns how much moved.
    pub fn move_divider(
        children: &mut Vec<PaneNode>,
        divider_idx: usize,
        axis: Axis2D,
        change: i32,
        gap: u16,
        padding: Vec2<u16>,
        allow_cross_growth: bool,
    ) -> (moved: u16)
        requires
            divider_idx < old(children)@.len(),
            forall|i: int| 0 <= i < old(children)@.len() ==> fits(#[trigger] old(children)@[i]),
        ensures
            moved <= change_magnitude(change as int),
            moved_within(old(children)@, final(children)@, axis, gap, padding),
            moved < change_magnitude(change as int) && change > 0 ==> grow_stuck(
                final(children)@,
                divider_idx as int,
                axis,
                allow_cross_growth,
                gap,
                padding,
            ),
            moved < change_magnitude(change as int) && change <= 0 ==> shrink_stuck(
                final(children)@,
                divider_idx as int,
                axis,
                allow_cross_growth,
                gap,
                padding,
            ),
            divider_offset(final(children)@, divider_idx as int, axis) == divider_offset(
                old(children)@,
                divider_idx as int,
                axis,
            ) + signed_move(change as int, moved as int),
            moved == 0 ==> sizes_along(final(children)@, axis) == sizes_along(old(children)@, axis),
            moved == 0 && change_magnitude(change as int) > 0 ==> divider_stuck(
                old(children)@,
                divider_idx as int,
                axis,
                change > 0,
                allow_cross_growth,
                gap,
                padding,
            ),
    {
        let ghost o = children@;
        proof {
            lemma_moved_refl(o, axis, gap, padding);
        }
        let mag: i64 = if change < 0 {
            -(change as i64)
        } else {
            change as i64
        };
        let total: u16 = #[verifier::truncate] (mag as u16);
        let mut remaining: u16 = total;
        let mut stuck = false;
        while remaining > 0 && !stuck
            invariant
                divider_idx < children@.len(),
                o.len() == children@.len(),
                total as int == change_magnitude(change as int),
                o == old(children)@,
                remaining <= total,
                moved_within(o, children@, axis, gap, padding),
                stuck && change > 0 ==> grow_stuck(children@, divider_idx as int, axis, allow_cross_growth, gap, padding),
                stuck && change <= 0 ==> shrink_stuck(children@, divider_idx as int, axis, allow_cross_growth, gap, padding),
                divider_offset(children@, divider_idx as int, axis) == divider_offset(o, divider_idx as int, axis) + signed_move(
                    change as int,
                    total - remaining,
                ),
                remaining == total ==> sizes_along(children@, axis) == sizes_along(o, axis),
            decreases remaining + if stuck {
                0int
            } else {
                1int
            },
        {
            let ghost before = children@;
            let taken = if change > 0 {
                PaneNode::grow_at_divider(children, divider_idx, axis, remaining, gap, padding, allow_cross_growth)
            } else {
                PaneNode::shrink_at_divider(children, divider_idx, axis, remaining, gap, padding, allow_cross_growth)
            };
            proof {
                lemma_moved_trans(o, before, children@, axis, gap, padding);
            }
            remaining = remaining - taken;
            if taken == 0 {
                stuck = true;
            }
        }
        proof {
            if remaining == total && total > 0 {
                let c = children@;
                assert forall|i: int| 0 <= i < o.len() implies {
                    &&& same_tree(o[i], #[trigger] c[i])
                    &&& c[i].size.at(axis) == o[i].size.at(axis)
                    &&& c[i].size.at(axis.spec_flip()) == o[i].size.at(axis.spec_flip())
                } by {
                    assert(sizes_along(c, axis)[i] == sizes_along(o, axis)[i]);
                }
                lemma_stuck_alike(o, c, divider_idx as int, axis, allow_cross_growth, gap, padding);
            }
        }
        total - remaining
    }

    /// Records each child's current size along `axis` as the size it was dragged to.
    pub fn commit_dragged_along(children: &mut Vec<PaneNode>, axis: Axis2D)
        ensures
            final(children)@.len() == old(children)@.len(),
            forall|i: int|
                0 <= i < old(children)@.len() ==> #[trigger] final(children)@[i] == (PaneNode {
                    dragged: old(children)@[i].dragged.with(axis, Some(old(children)@[i].size.at(axis))),
                    ..old(children)@[i]
                }),
    {
        let n = children.len();
        let mut i: usize = 0;
        while i < n
            invariant
                n == children@.len(),
                n == old(children)@.len(),
                0 <= i <= n,
                forall|j: int| i <= j < n ==> children@[j] == old(children)@[j],
                forall|j: int|
                    0 <= j < i ==> #[trigger] children@[j] == (PaneNode {
                        dragged: old(children)@[j].dragged.with(axis, Some(old(children)@[j].size.at(axis))),
                        ..old(children)@[j]
                    }),
            decreases n - i,
        {
            let size = children[i].size.get(axis);
            children[i].dragged.set(axis, Some(size));
            i += 1;
        }
    }

    /// Moves divider `divider_idx` of the container at `path[k..]` below this pane (see
    /// [`PaneNode::move_divider`]) and records its children's sizes along `axis` as dragged;
    /// returns how much it moved, `None` when the path meets a leaf.
    fn move_at(
        &mut self,
        path: &[usize],
        k: usize,
        divider_idx: usize,
        axis: Axis2D,
        change: i32,
        gap: u16,
        padding: Vec2<u16>,
        allow_cross_growth: bool,
    ) -> (r: Option<u16>)
        requires
            k <= path@.len(),
            fits(*old(self)),
            container_path_ok(*old(self), path@.skip(k as int), divider_idx as int),
        ensures
            fits(*final(self)),
            final(self).size == old(self).size,
            r is Some <==> !path_meets_leaf(*old(self), path@.skip(k as int)),
            r matches Some(m) ==> m <= change_magnitude(change as int),
            r matches Some(m) ==> first_move(
                *old(self),
                *final(self),
                path@.skip(k as int),
                divider_idx as int,
                axis,
                change as int,
                m as int,
                gap,
                padding,
                allow_cross_growth,
            ),
            r matches Some(m) ==> (m == 0 && change_magnitude(change as int) > 0 ==> divider_stuck(
                kids_at(*old(self), path@.skip(k as int)),
                divider_idx as int,
                axis,
                change > 0,
                allow_cross_growth,
                gap,
                padding,
            )),
            container_path_ok(*final(self), path@.skip(k as int), divider_idx as int),
            path_meets_leaf(*final(self), path@.skip(k as int)) == path_meets_leaf(*old(self), path@.skip(k as int)),
            same_shape(*old(self), *final(self)),
        decreases path@.len() - k,
    {
        proof {
            if k < path@.len() {
                assert(path@.skip(k as int).drop_first() =~= path@.skip(k as int + 1));
            }
            lemma_same_tree_refl(*old(self));
            lemma_same_tree_shape(*old(self), *old(self));
        }
        match &mut self.shape {
            PaneShape::Leaf(_) => None,
            PaneShape::Container { orientation, children, .. } => {
                let ghost o = children@;
                let ghost orient = *orientation;
                if k == path.len() {
                    let m = PaneNode::move_divider(children, divider_idx, axis, change, gap, padding, allow_cross_growth);
                    let ghost moved = children@;
                    PaneNode::commit_dragged_along(children, axis);
                    proof {
                        assert(sizes_along(children@, orient) =~= sizes_along(moved, orient));
                        if orient != axis {
                            assert(orient == axis.spec_flip()) by {
                                match axis {
                                    Axis2D::X => {},
                                    Axis2D::Y => {},
                                }
                                match orient {
                                    Axis2D::X => {},
                                    Axis2D::Y => {},
                                }
                            }
                            assert(sizes_along(moved, orient) =~= sizes_along(o, orient));
                        }
                        assert forall|j: int| 0 <= j < children@.len() implies fits(#[trigger] children@[j]) by {
                            assert(fits(moved[j]));
                        }
                        assert forall|j: int| 0 <= j < children@.len() implies same_shape(o[j], #[trigger] children@[j]) by {
                            lemma_same_tree_shape(o[j], moved[j]);
                        }
                        assert(sizes_along(children@, axis) =~= sizes_along(moved, axis));
                        assert(sizes_along(children@, axis.spec_flip()) =~= sizes_along(moved, axis.spec_flip()));
                        assert(sizes_along(moved, axis.spec_flip()) =~= sizes_along(o, axis.spec_flip())) by {
                            assert forall|j: int| 0 <= j < o.len() implies #[trigger] moved[j].size.at(axis.spec_flip())
                                == o[j].size.at(axis.spec_flip()) by {
                                assert(same_tree(o[j], moved[j]));
                            }
                        }
                        lemma_stuck_committed(moved, children@, divider_idx as int, axis, allow_cross_growth, gap, padding);
                        assert forall|j: int| 0 <= j < o.len() implies {
                            let a = o[j];
                            let b = #[trigger] children@[j];
                            &&& a.size.at(axis) >= eff_min(a, axis, gap, padding) ==> b.size.at(axis) >= eff_min(a, axis, gap, padding)
                            &&& b.size.at(axis) <= a.size.at(axis) || b.size.at(axis) <= eff_max(a, axis, gap, padding)
                        } by {
                            assert(same_tree(o[j], moved[j]));
                            assert(children@[j].size == moved[j].size);
                        }
                        let p = path@.skip(k as int);
                        assert(p.len() == 0);
                        assert(node_at(*old(self), p) == *old(self));
                        assert(kids_at(*old(self), p) == o);
                    }
                    Some(m)
                } else {
                    let idx = path[k];
                    proof {
                        assert(path@.skip(k as int)[0] == path@[k as int]);
                    }
                    let r = children[idx].move_at(path, k + 1, divider_idx, axis, change, gap, padding, allow_cross_growth);
                    proof {
                        assert(children@ =~= o.update(idx as int, children@[idx as int]));
                        let p = path@.skip(k as int);
                        assert(p.drop_first() =~= path@.skip(k as int + 1));
                        assert(kids_at(*old(self), p) == kids_at(o[idx as int], path@.skip(k as int + 1)));
                        assert(sizes_along(children@, orient) =~= sizes_along(o, orient));
                        assert(same_shape(old(self).shape->Container_children@[idx as int], children@[idx as int]));
                    }
                    r
                }
            },
        }
    }

    /// Whether the container at `path[k..level]` below this pane can give way to its child
    /// `path[level]` along `axis` (see [`gives_way`]).
    fn can_give_way(
        &self,
        path: &[usize],
        k: usize,
        level: usize,
        axis: Axis2D,
        forward: bool,
        gap: u16,
        padding: Vec2<u16>,
        Ghost(divider_idx): Ghost<int>,
    ) -> (r: bool)
        requires
            k <= level < path@.len(),
            container_path_ok(*self, path@.skip(k as int), divider_idx),
        ensures
            r == gives_way(*self, path@.skip(k as int), level - k, axis, forward, gap, padding),
        decreases level - k,
    {
        let ghost p = path@.skip(k as int);
        proof {
            assert(p.drop_first() =~= path@.skip(k as int + 1));
            assert(p[0] == path@[k as int]);
        }
        match &self.shape {
            PaneShape::Leaf(_) => {
                proof {
                    if level > k {
                        assert(p.take(level - k).len() > 0);
                    }
                    assert(node_at(*self, p.take(level - k)) == *self);
                }
                false
            },
            PaneShape::Container { orientation, children, .. } => {
                if k < level {
                    let idx = path[k];
                    proof {
                        let q = path@.skip(k as int + 1);
                        assert(p.take(level - k).drop_first() =~= q.take(level - k - 1));
                        assert(p.take(level - k)[0] == p[0]);
                        assert(q[level - k - 1] == p[level - k]);
                    }
                    children[idx].can_give_way(path, k + 1, level, axis, forward, gap, padding, Ghost(divider_idx))
                } else {
                    proof {
                        assert(p.take(0) =~= Seq::<usize>::empty());
                    }
                    if *orientation != axis {
                        return false;
                    }
                    let ci = path[level];
                    let n = children.len();
                    let ghost kids = children@;
                    if forward {
                        let mut j: usize = ci + 1;
                        while j < n
                            invariant
                                n == kids.len(),
                                ci < n,
                                ci + 1 <= j <= n,
                                kids == children@,
                                forward,
                                level == k,
                                p == path@.skip(k as int),
                                p.len() >= 1,
                                p[0] == ci,
                                node_at(*self, p.take(0)) == *self,
                                self.shape is Container,
                                self.shape->Container_orientation == axis,
                                self.shape->Container_children@ == kids,
                                forall|i: int| ci < i < j ==> shrink_room_of(#[trigger] kids[i], axis, gap, padding) <= 0,
                            decreases n - j,
                        {
                            if children[j].shrink_room(axis, gap, padding) > 0 {
                                proof {
                                    assert(shrink_room_of(kids[j as int], axis, gap, padding) > 0);
                                }
                                return true;
                            }
                            j += 1;
                        }
                        false
                    } else {
                        let mut j: usize = ci;
                        while j > 0
                            invariant
                                n == kids.len(),
                                ci < n,
                                j <= ci,
                                kids == children@,
                                !forward,
                                level == k,
                                p == path@.skip(k as int),
                                p.len() >= 1,
                                p[0] == ci,
                                node_at(*self, p.take(0)) == *self,
                                self.shape is Container,
                                self.shape->Container_orientation == axis,
                                self.shape->Container_children@ == kids,
                                forall|i: int| j <= i < ci ==> shrink_room_of(#[trigger] kids[i], axis, gap, padding) <= 0,
                            decreases j,
                        {
                            if children[j - 1].shrink_room(axis, gap, padding) > 0 {
                                proof {
                                    assert(shrink_room_of(kids[j - 1], axis, gap, padding) > 0);
                                }
                                return true;
                            }
                            j -= 1;
                        }
                        false
                    }
                }
            },
        }
    }

    /// At the container at `path[k..level]` below this pane, when it stacks along `axis`, moves
    /// up to `remaining` to its child `path[level]` from the children after it (`positive`) or
    /// before it (nearest first), each giving what it can spare, and records the children's
    /// sizes along `axis` as dragged when anything moved; returns how much moved, `None` when
    /// there is no such container.
    #[verifier::rlimit(60)]
    fn shift_at(
        &mut self,
        path: &[usize],
        k: usize,
        level: usize,
        axis: Axis2D,
        positive: bool,
        remaining: u16,
        gap: u16,
        padding: Vec2<u16>,
        Ghost(divider_idx): Ghost<int>,
    ) -> (r: Option<u16>)
        requires
            k <= level < path@.len(),
            fits(*old(self)),
            container_path_ok(*old(self), path@.skip(k as int), divider_idx),
        ensures
            fits(*final(self)),
            final(self).size == old(self).size,
            r matches Some(t) ==> t <= remaining,
            remaining > 0 && gives_way(*old(self), path@.skip(k as int), level - k, axis, positive, gap, padding) ==> {
                &&& r matches Some(t) && t > 0
                &&& drags_recorded(*final(self), path@.skip(k as int), level - k, axis)
                &&& r matches Some(t) && gave_way(
                    *old(self),
                    *final(self),
                    path@.skip(k as int),
                    level - k,
                    axis,
                    positive,
                    remaining as int,
                    t as int,
                    gap,
                    padding,
                )
            },
            container_path_ok(*final(self), path@.skip(k as int), divider_idx),
            path_meets_leaf(*final(self), path@.skip(k as int)) == path_meets_leaf(*old(self), path@.skip(k as int)),
            same_shape(*old(self), *final(self)),
        decreases level - k,
    {
        proof {
            assert(path@.skip(k as int).drop_first() =~= path@.skip(k as int + 1));
            assert(path@.skip(k as int)[0] == path@[k as int]);
            lemma_same_tree_refl(*old(self));
            lemma_same_tree_shape(*old(self), *old(self));
        }
        match &mut self.shape {
            PaneShape::Leaf(_) => None,
            PaneShape::Container { orientation, children, .. } => {
                let ghost o = children@;
                let ghost orient = *orientation;
                if k < level {
                    let idx = path[k];
                    let r = children[idx].shift_at(path, k + 1, level, axis, positive, remaining, gap, padding, Ghost(divider_idx));
                    proof {
                        let p = path@.skip(k as int);
                        let q = path@.skip(k as int + 1);
                        assert(p.take(level - k).drop_first() =~= q.take(level - k - 1));
                        assert(p.take(level - k)[0] == p[0]);
                        assert(q[level - k - 1] == p[level - k]);
                        assert(children@ =~= o.update(idx as int, children@[idx as int]));
                        assert(sizes_along(children@, orient) =~= sizes_along(o, orient));
                        assert(same_shape(old(self).shape->Container_children@[idx as int], children@[idx as int]));
                        assert(kids_at(*old(self), p.take(level - k)) == kids_at(o[idx as int], q.take(level - k - 1)));
                    }
                    return r;
                }
                if *orientation != axis {
                    return None;
                }
                let ci = path[level];
                let n = children.len();
                proof {
                    lemma_moved_refl(o, axis, gap, padding);
                }
                let mut total: u16 = 0;
                let mut idx: usize = if positive {
                    ci + 1
                } else {
                    ci
                };
                let mut done = false;
                while !done
                    invariant
                        n == children@.len(),
                        n == o.len(),
                        ci < n,
                        orient == axis,
                        positive ==> ci + 1 <= idx <= n,
                        !positive ==> 0 <= idx <= ci,
                        total <= remaining,
                        shifted_within(o, children@, axis, gap, padding),
                        seq_sum(sizes_along(o, axis), n as int) <= 65535,
                        remaining > 0 && total == 0 ==> children@ == o,
                        remaining > 0 && total == 0 && positive ==> forall|i: int|
                            ci < i < idx ==> shrink_room_of(#[trigger] o[i], axis, gap, padding) == 0,
                        remaining > 0 && total == 0 && !positive ==> forall|i: int|
                            idx <= i < ci ==> shrink_room_of(#[trigger] o[i], axis, gap, padding) == 0,
                        done && total < remaining ==> (positive ==> idx == n) && (!positive ==> idx == 0),
                        positive ==> forall|i: int| idx <= i < n ==> #[trigger] children@[i] == o[i],
                        !positive ==> forall|i: int| 0 <= i < idx ==> #[trigger] children@[i] == o[i],
                        total as int == (if scanned(o, ci as int, idx as int, positive, axis, gap, padding) < remaining {
                            scanned(o, ci as int, idx as int, positive, axis, gap, padding)
                        } else {
                            remaining as int
                        }),
                        !done ==> total < remaining || remaining == 0,
                        children@[ci as int].size.at(axis) == o[ci as int].size.at(axis) + total,
                        scanned(o, ci as int, idx as int, positive, axis, gap, padding) >= 0,
                    decreases (if positive {
                        n - idx
                    } else {
                        idx as int
                    }) + if done {
                        0int
                    } else {
                        1int
                    },
                {
                    let in_range = if positive {
                        idx < n
                    } else {
                        idx > 0
                    };
                    if !in_range {
                        done = true;
                    } else {
                        let j = if positive {
                            idx
                        } else {
                            idx - 1
                        };
                        let ghost before = children@;
                        proof {
                            assert(fits(before[j as int]));
                        }
                        let room = children[j].shrink_room(axis, gap, padding);
                        proof {
                            assert(before[j as int] == o[j as int]);
                            if positive {
                                assert(scanned(o, ci as int, idx as int + 1, positive, axis, gap, padding) == scanned(
                                    o,
                                    ci as int,
                                    idx as int,
                                    positive,
                                    axis,
                                    gap,
                                    padding,
                                ) + room);
                            } else {
                                lemma_rooms_split(o, idx as int - 1, idx as int, ci as int, axis, gap, padding);
                                lemma_rooms_split(o, idx as int - 1, idx as int - 1, idx as int, axis, gap, padding);
                                assert(scanned(o, ci as int, idx as int - 1, positive, axis, gap, padding) == scanned(
                                    o,
                                    ci as int,
                                    idx as int,
                                    positive,
                                    axis,
                                    gap,
                                    padding,
                                ) + room);
                            }
                        }
                        if room > 0 {
                            let left = remaining - total;
                            let take = if room < left {
                                room
                            } else {
                                left
                            };
                            children[j].resize_adjust(axis, -(take as i32), gap, padding);
                            let ghost mid = children@;
                            proof {
                                assert(mid =~= before.update(j as int, mid[j as int]));
                                assert(fits(mid[ci as int]));
                                assert(mid[ci as int] == before[ci as int]);
                                assert(sizes_along(before, axis)[j as int] == before[j as int].size.at(axis));
                                assert(sizes_along(before, axis)[ci as int] == before[ci as int].size.at(axis));
                                lemma_sum_two(sizes_along(before, axis), j as int, ci as int, n as int);
                            }
                            children[ci].resize_adjust(axis, take as i32, gap, padding);
                            proof {
                                let cb = children@[ci as int];
                                assert(cb.size.at(axis) == before[ci as int].size.at(axis) + take);
                                assert(cb.size.at(axis.spec_flip()) == before[ci as int].size.at(axis.spec_flip()));
                                assert(mid[j as int].size.at(axis) == before[j as int].size.at(axis) - take);
                                assert(mid[j as int].size.at(axis.spec_flip()) == before[j as int].size.at(axis.spec_flip()));
                                assert(children@ =~= before.update(j as int, mid[j as int]).update(ci as int, cb));
                                assert(forall|i: int| 0 <= i < n && i != j && i != ci ==> #[trigger] children@[i] == before[i]);
                                lemma_shifted_transfer(before, j as int, mid[j as int], ci as int, cb, take as int, axis, gap, padding);
                                lemma_shifted_trans(o, before, children@, axis, gap, padding);
                            }
                            total = total + take;
                            if total >= remaining {
                                done = true;
                            }
                        }
                        if positive {
                            idx = idx + 1;
                        } else {
                            idx = idx - 1;
                        }
                    }
                }
                let ghost shifted = children@;
                if total > 0 {
                    PaneNode::commit_dragged_along(children, axis);
                }
                proof {
                    let p = path@.skip(k as int);
                    assert(p.take(0) =~= Seq::<usize>::empty());
                    if remaining > 0 && gives_way(*old(self), p, level - k, axis, positive, gap, padding) {
                        let j = choose|j: int|
                            0 <= j < o.len() && (if positive {
                                j > p[0]
                            } else {
                                j < p[0]
                            }) && shrink_room_of(#[trigger] o[j], axis, gap, padding) > 0;
                        assert(total > 0);
                        assert forall|i: int| 0 <= i < children@.len() implies (#[trigger] children@[i]).dragged.at(axis) is Some by {
                            match axis {
                                Axis2D::X => {},
                                Axis2D::Y => {},
                            }
                        }
                        assert(kids_at(*old(self), p.take(0)) == o);
                        if positive {
                            lemma_rooms_split(o, ci as int + 1, idx as int, n as int, axis, gap, padding);
                        } else {
                            lemma_rooms_split(o, 0, idx as int, ci as int, axis, gap, padding);
                            lemma_rooms_split(o, 0, 0, idx as int, axis, gap, padding);
                        }
                        assert(children@[ci as int].size.at(axis) == shifted[ci as int].size.at(axis));
                        let q = p.take(level - k);
                        assert(q =~= Seq::<usize>::empty());
                        assert(kids_at(*old(self), q) == o);
                        assert(kids_at(*self, q) == children@);
                        assert(p[level - k] == ci);
                        assert(done);
                        if total < remaining {
                            assert(scanned(o, ci as int, idx as int, positive, axis, gap, padding) == room_toward(
                                o,
                                ci as int,
                                positive,
                                axis,
                                gap,
                                padding,
                            ));
                        } else {
                            assert(scanned(o, ci as int, idx as int, positive, axis, gap, padding) >= remaining);
                            assert(room_toward(o, ci as int, positive, axis, gap, padding) >= scanned(
                                o,
                                ci as int,
                                idx as int,
                                positive,
                                axis,
                                gap,
                                padding,
                            ));
                        }
                        assert(total as int == (if room_toward(o, ci as int, positive, axis, gap, padding) < remaining {
                            room_toward(o, ci as int, positive, axis, gap, padding)
                        } else {
                            remaining as int
                        }));
                        assert(changed_only_at(*old(self), *self, q));
                        assert(drags_recorded(*self, p, level - k, axis));
                    }
                    let rest = path@.skip(k as int).drop_first();
                    lemma_paths_same_tree(o[ci as int], shifted[ci as int], rest, divider_idx);
                    assert(container_path_ok(children@[ci as int], rest, divider_idx) == container_path_ok(shifted[ci as int], rest, divider_idx));
                    assert(path_meets_leaf(children@[ci as int], rest) == path_meets_leaf(shifted[ci as int], rest));
                    assert forall|j: int| 0 <= j < children@.len() implies same_shape(o[j], #[trigger] children@[j]) by {
                        lemma_same_tree_shape(o[j], shifted[j]);
                    }
                    assert(sizes_along(children@, axis) =~= sizes_along(shifted, axis));
                    assert forall|j: int| 0 <= j < children@.len() implies fits(#[trigger] children@[j]) by {
                        assert(fits(shifted[j]));
                    }
                }
                Some(total)
            },
        }
    }

    /// Moves divider `divider_idx` of the container at `path` by `delta` along `axis` (see
    /// [`PaneNode::move_divider`]). What it cannot move there is sought from the nearest
    /// container on the path up: at each one that stacks along `axis`, the siblings beyond the
    /// path's child in the direction of the move give way to that child (see
    /// [`PaneNode::shift_at`]), recording their sizes along `axis` as dragged, and the divider is
    /// moved again by what is left (see [`propagation`]). When no container can give way the
    /// tree stays as the first move left it. Returns how much the divider moved in all.
    pub fn move_divider_propagate(
        &mut self,
        path: &[usize],
        divider_idx: usize,
        axis: Axis2D,
        delta: i32,
        gap: u16,
        padding: Vec2<u16>,
        allow_cross_growth: bool,
    ) -> (moved: u16)
        requires
            fits(*old(self)),
            container_path_ok(*old(self), path@, divider_idx as int),
        ensures
            fits(*final(self)),
            same_shape(*old(self), *final(self)),
            final(self).size == old(self).size,
            moved <= change_magnitude(delta as int),
            delta == 0 || path_meets_leaf(*old(self), path@) ==> moved == 0,
            delta != 0 && !path_meets_leaf(*old(self), path@) ==> exists|mid: PaneNode, first: int|
                {
                    &&& #[trigger] first_move(
                        *old(self),
                        mid,
                        path@,
                        divider_idx as int,
                        axis,
                        delta as int,
                        first,
                        gap,
                        padding,
                        allow_cross_growth,
                    )
                    &&& first <= moved
                    &&& first == change_magnitude(delta as int) || !ancestors_give_way(
                        mid,
                        path@,
                        axis,
                        delta > 0,
                        gap,
                        padding,
                    ) ==> *final(self) == mid && moved == first
                    &&& first < change_magnitude(delta as int) && ancestors_give_way(mid, path@, axis, delta > 0, gap, padding)
                        ==> exists|level: int| #[trigger] drags_recorded(*final(self), path@, level, axis)
                    &&& propagation(
                        mid,
                        *final(self),
                        path@,
                        divider_idx as int,
                        axis,
                        delta > 0,
                        path@.len() as int,
                        change_magnitude(delta as int) - first,
                        moved - first,
                        gap,
                        padding,
                        allow_cross_growth,
                    )
                },
            moved == 0 && change_magnitude(delta as int) > 0 && !path_meets_leaf(*old(self), path@) ==> divider_stuck(
                kids_at(*old(self), path@),
                divider_idx as int,
                axis,
                delta > 0,
                allow_cross_growth,
                gap,
                padding,
            ),
    {
        proof {
            lemma_same_tree_refl(*old(self));
            lemma_same_tree_shape(*old(self), *old(self));
        }
        if delta == 0 {
            return 0;
        }
        proof {
            assert(path@.skip(0) =~= path@);
        }
        let first = match self.move_at(path, 0, divider_idx, axis, delta, gap, padding, allow_cross_growth) {
            Some(m) => m,
            None => {
                return 0;
            },
        };
        let mag: i64 = if delta < 0 {
            -(delta as i64)
        } else {
            delta as i64
        };
        let total: u16 = #[verifier::truncate] (mag as u16);
        let ghost s_first = *self;
        proof {
            assert(first_move(
                *old(self),
                s_first,
                path@,
                divider_idx as int,
                axis,
                delta as int,
                first as int,
                gap,
                padding,
                allow_cross_growth,
            ));
        }
        let mut remaining: u16 = total - first;
        let mut level: usize = path.len();
        let ghost mut shifted = false;
        let ghost fwd = delta > 0;
        while level > 0 && remaining > 0
            invariant
                0 <= level <= path@.len(),
                remaining <= total,
                first <= total,
                remaining <= total - first,
                first == total ==> *self == s_first,
                total as int == change_magnitude(delta as int),
                fits(*self),
                same_shape(*old(self), *self),
                self.size == old(self).size,
                path@.skip(0) == path@,
                container_path_ok(*self, path@.skip(0), divider_idx as int),
                !path_meets_leaf(*self, path@.skip(0)),
                !shifted ==> *self == s_first && remaining == total - first,
                !shifted ==> forall|l: int|
                    level <= l < path@.len() ==> !#[trigger] gives_way(s_first, path@, l, axis, fwd, gap, padding),
                shifted ==> ancestors_give_way(s_first, path@, axis, fwd, gap, padding),
                fwd == (delta > 0),
                shifted ==> exists|l: int| #[trigger] drags_recorded(*self, path@, l, axis),
                forall|f: PaneNode, m: int|
                    #[trigger] propagation(
                        *self,
                        f,
                        path@,
                        divider_idx as int,
                        axis,
                        fwd,
                        level as int,
                        remaining as int,
                        m,
                        gap,
                        padding,
                        allow_cross_growth,
                    ) ==> propagation(
                        s_first,
                        f,
                        path@,
                        divider_idx as int,
                        axis,
                        fwd,
                        path@.len() as int,
                        total - first,
                        m + (total - first - remaining),
                        gap,
                        padding,
                        allow_cross_growth,
                    ),
            decreases level,
        {
            let ghost lv = level as int;
            let ghost rem = remaining as int;
            let ghost sa = *self;
            level -= 1;
            let gives = self.can_give_way(path, 0, level, axis, delta > 0, gap, padding, Ghost(divider_idx as int));
            if !gives {
                proof {
                    assert forall|f: PaneNode, m: int|
                        #[trigger] propagation(
                            *self,
                            f,
                            path@,
                            divider_idx as int,
                            axis,
                            fwd,
                            level as int,
                            remaining as int,
                            m,
                            gap,
                            padding,
                            allow_cross_growth,
                        ) implies propagation(
                        sa,
                        f,
                        path@,
                        divider_idx as int,
                        axis,
                        fwd,
                        lv,
                        rem,
                        m,
                        gap,
                        padding,
                        allow_cross_growth,
                    ) by {}
                }
            }
            if gives {
                let ghost s0 = *self;
                proof {
                    if !shifted {
                        assert(gives_way(s_first, path@, level as int, axis, fwd, gap, padding));
                    }
                }
                let taken = match self.shift_at(path, 0, level, axis, delta > 0, remaining, gap, padding, Ghost(divider_idx as int)) {
                    Some(t) => t,
                    None => 0,
                };
                proof {
                    lemma_same_shape_trans(*old(self), s0, *self);
                    shifted = true;
                }
                let ghost s1 = *self;
                if taken > 0 {
                    let back = if delta > 0 {
                        remaining as i32
                    } else {
                        -(remaining as i32)
                    };
                    let r = self.move_at(path, 0, divider_idx, axis, back, gap, padding, allow_cross_growth);
                    proof {
                        lemma_same_shape_trans(*old(self), s1, *self);
                        if r is Some {
                            lemma_recorded_kept(s1, *self, path@, level as int, axis);
                        }
                        assert(drags_recorded(*self, path@, level as int, axis));
                        assert(back as int == back_change(fwd, rem));
                    }
                    match r {
                        Some(placed) => {
                            remaining = if placed < remaining {
                                remaining - placed
                            } else {
                                0
                            };
                            proof {
                                let s2 = *self;
                                assert(gave_way(sa, s1, path@, lv - 1, axis, fwd, rem, taken as int, gap, padding));
                                assert(first_move(
                                    s1,
                                    s2,
                                    path@,
                                    divider_idx as int,
                                    axis,
                                    back_change(fwd, rem),
                                    placed as int,
                                    gap,
                                    padding,
                                    allow_cross_growth,
                                ));
                                assert forall|f: PaneNode, m: int|
                                    #[trigger] propagation(
                                        s2,
                                        f,
                                        path@,
                                        divider_idx as int,
                                        axis,
                                        fwd,
                                        level as int,
                                        remaining as int,
                                        m,
                                        gap,
                                        padding,
                                        allow_cross_growth,
                                    ) implies propagation(
                                    sa,
                                    f,
                                    path@,
                                    divider_idx as int,
                                    axis,
                                    fwd,
                                    lv,
                                    rem,
                                    m + (rem - remaining),
                                    gap,
                                    padding,
                                    allow_cross_growth,
                                ) by {
                                    assert(gave_way(sa, s1, path@, lv - 1, axis, fwd, rem, taken as int, gap, padding));
                                }
                            }
                        },
                        None => {
                            level = 0;
                        },
                    }
                }
            }
        }
        proof {
            if first < total && ancestors_give_way(s_first, path@, axis, fwd, gap, padding) {
                let l = choose|l: int| #[trigger] gives_way(s_first, path@, l, axis, fwd, gap, padding);
                assert(shifted);
            }
            assert(propagation(
                *self,
                *self,
                path@,
                divider_idx as int,
                axis,
                fwd,
                level as int,
                remaining as int,
                0,
                gap,
                padding,
                allow_cross_growth,
            ));
        }
        total - remaining
    }

    /// Appends to `out` the dividers along `axis` under the pointer at `mouse` in this tree,
    /// which starts at `offset` and is reached by `path` (see [`hits`]); `path` is left as it
    /// was.
    pub fn find_all_dividers_at_pos(
        &self,
        offset: Vec2<i32>,
        axis: Axis2D,
        mouse: Vec2<i32>,
        gap: u16,
        path: &mut Vec<usize>,
        out: &mut Vec<DragDivider>,
    )
        requires
            walk_fits(*self, ints(offset), mouse, gap),
        ensures
            final(path)@ == old(path)@,
            drags_view(final(out)@) == drags_view(old(out)@) + hits(*self, ints(offset), axis, mouse, gap, old(path)@),
        decreases *self, 0int,
    {
        match &self.shape {
            PaneShape::Leaf(_) => {
                proof {
                    assert(drags_view(out@) + Seq::empty() =~= drags_view(out@));
                }
            },
            PaneShape::Container { orientation, children, .. } => {
                let a = *orientation;
                let ca = a.flip();
                let n = children.len();
                let ghost c = children@;
                let ghost p0 = path@;
                let ghost base = drags_view(out@);
                proof {
                    assert(decreases_to!(*self => self.shape));
                    assert(decreases_to!(self.shape => *children));
                    assert(decreases_to!(*children => c));
                }
                let mut child_offset = offset;
                let mut i: usize = 0;
                while i < n
                    invariant
                        n == c.len(),
                        c == children@,
                        ca == a.spec_flip(),
                        0 <= i <= n,
                        path@ == p0,
                        decreases_to!(*self => c),
                        walk_fits_among(c, a, ints(child_offset), mouse, gap, i as int),
                        drags_view(out@) + hits_among(c, a, ints(child_offset), axis, mouse, gap, p0, i as int)
                            == base + hits_among(c, a, ints(offset), axis, mouse, gap, p0, 0),
                    decreases n - i,
                {
                    let child = &children[i];
                    let size_a = child.size.get(a);
                    let pair: u16 = if i + 1 < n {
                        let l = child.all_borderless();
                        let r = children[i + 1].all_borderless();
                        if l && r {
                            0
                        } else {
                            gap
                        }
                    } else {
                        0
                    };
                    let boundary: i32 = child_offset.get(a) + size_a as i32;
                    let ghost before_out = drags_view(out@);
                    let ghost here: Seq<(Seq<usize>, int, Axis2D, int)> = if a == axis && i + 1 < n && hits_divider(
                        c,
                        i as int,
                        a,
                        ints(child_offset),
                        mouse,
                        gap,
                    ) {
                        seq![(p0, i as int, axis, mouse.at(a) - boundary)]
                    } else {
                        Seq::empty()
                    };
                    if a == axis && i + 1 < n {
                        let cross_start = child_offset.get(ca);
                        let cross_end: i32 = cross_start + child.size.get(ca) as i32;
                        let left = child.any_draggable();
                        let right = children[i + 1].any_draggable();
                        let hit = crate::split::hits_boundary(
                            boundary,
                            cross_start,
                            cross_end,
                            pair,
                            left,
                            right,
                            mouse.get(a),
                            mouse.get(ca),
                        );
                        if hit {
                            let grab = mouse.get(a) - boundary;
                            let cp = copy_path(path);
                            out.push(DragDivider { container_path: cp, divider_idx: i, axis, grab_offset: grab });
                            proof {
                                assert(drags_view(out@) =~= before_out.push((p0, i as int, axis, mouse.at(a) - boundary)));
                            }
                        }
                    }
                    proof {
                        assert(drags_view(out@) =~= before_out + here);
                        assert(decreases_to!(c => c[i as int]));
                    }
                    path.push(i);
                    let ghost after_here = drags_view(out@);
                    child.find_all_dividers_at_pos(child_offset, axis, mouse, gap, path, out);
                    let _ = path.pop();
                    proof {
                        assert(path@ =~= p0);
                    }
                    let ghost off_i = ints(child_offset);
                    let ghost next_off = off_i.with(a, boundary + gap_after(c, i as int, gap));
                    child_offset.set(a, boundary + pair as i32);
                    proof {
                        assert(ints(child_offset) =~= next_off) by {
                            match a {
                                Axis2D::X => {},
                                Axis2D::Y => {},
                            }
                        }
                        let h = hits(c[i as int], off_i, axis, mouse, gap, p0.push(i));
                        assert(drags_view(out@) == after_here + h);
                        assert(hits_among(c, a, off_i, axis, mouse, gap, p0, i as int) == here + h + hits_among(
                            c,
                            a,
                            next_off,
                            axis,
                            mouse,
                            gap,
                            p0,
                            i as int + 1,
                        ));
                        assert(drags_view(out@) + hits_among(c, a, next_off, axis, mouse, gap, p0, i as int + 1)
                            =~= before_out + hits_among(c, a, off_i, axis, mouse, gap, p0, i as int));
                    }
                    i += 1;
                }
                proof {
                    assert(drags_view(out@) + Seq::empty() =~= drags_view(out@));
                }
            },
        }
    }

    /// Appends to `out` the sizes and dragged sizes of this tree in preorder (see [`snap`]).
    pub fn snapshot_sizes(&self, out: &mut Vec<(Vec2<u16>, Vec2<Option<u16>>)>)
        ensures
            final(out)@ == old(out)@ + snap(*self),
        decreases *self, 0int,
    {
        out.push((self.size, self.dragged));
        match &self.shape {
            PaneShape::Leaf(_) => {},
            PaneShape::Container { children, .. } => {
                let ghost base = old(out)@;
                proof {
                    assert(decreases_to!(*self => self.shape));
                    assert(decreases_to!(self.shape => *children));
                    assert(decreases_to!(*children => children@));
                }
                let n = children.len();
                let mut i: usize = 0;
                while i < n
                    invariant
                        n == children@.len(),
                        0 <= i <= n,
                        decreases_to!(*self => children@),
                        out@ == base + seq![(self.size, self.dragged)] + snap_kids(children@, i as int),
                    decreases n - i,
                {
                    proof {
                        assert(decreases_to!(children@ => children@[i as int]));
                    }
                    children[i].snapshot_sizes(out);
                    proof {
                        assert(out@ =~= base + seq![(self.size, self.dragged)] + snap_kids(children@, i as int + 1));
                    }
                    i += 1;
                }
            },
        }
        proof {
            if self.shape is Leaf {
                assert(out@ =~= old(out)@ + snap(*self));
            }
        }
    }

    /// Sets the sizes and dragged sizes of this tree, in preorder, from `saved` starting at
    /// `*idx`, and moves `*idx` past them: restoring a [`PaneNode::snapshot_sizes`] of the same
    /// tree gives back what it recorded.
    pub fn restore_sizes(&mut self, saved: &[(Vec2<u16>, Vec2<Option<u16>>)], idx: &mut usize)
        requires
            *old(idx) + snap(*old(self)).len() <= saved@.len(),
        ensures
            same_shape(*old(self), *final(self)),
            *final(idx) == *old(idx) + snap(*old(self)).len(),
            snap(*final(self)) == saved@.subrange(*old(idx) as int, *final(idx) as int),
        decreases *old(self), 0int,
    {
        proof {
            lemma_snap_nonempty(*old(self));
        }
        let start = *idx;
        self.size = saved[start].0;
        self.dragged = saved[start].1;
        *idx = start + 1;
        match &mut self.shape {
            PaneShape::Leaf(_) => {
                proof {
                    assert(saved@.subrange(start as int, start as int + 1) =~= seq![saved@[start as int]]);
                }
            },
            PaneShape::Container { children, .. } => {
                let ghost old_kids = children@;
                proof {
                    assert(decreases_to!(*old(self) => old(self).shape));
                    assert(decreases_to!(old(self).shape => old(self).shape->Container_children));
                    assert(decreases_to!(old(self).shape->Container_children => old_kids));
                    lemma_snap_kids_bound(old_kids, old_kids.len() as int);
                }
                let n = children.len();
                let mut i: usize = 0;
                while i < n
                    invariant
                        n == children@.len(),
                        n == old_kids.len(),
                        0 <= i <= n,
                        decreases_to!(*old(self) => old_kids),
                        start + 1 + snap_kids(old_kids, n as int).len() <= saved@.len(),
                        *idx == start + 1 + snap_kids(old_kids, i as int).len(),
                        snap_kids(children@, i as int) == saved@.subrange(start as int + 1, *idx as int),
                        forall|j: int| i <= j < n ==> children@[j] == old_kids[j],
                        forall|j: int| 0 <= j < i ==> same_shape(old_kids[j], #[trigger] children@[j]),
                    decreases n - i,
                {
                    proof {
                        assert(decreases_to!(old_kids => old_kids[i as int]));
                        lemma_snap_kids_bound(old_kids, i as int + 1);
                        lemma_snap_kids_mono(old_kids, i as int + 1, n as int);
                    }
                    let ghost before = children@;
                    let ghost at = *idx;
                    children[i].restore_sizes(saved, idx);
                    proof {
                        lemma_snap_kids_prefix(children@, before, i as int);
                        assert(snap_kids(children@, i as int + 1) == snap_kids(children@, i as int) + snap(children@[i as int]));
                        assert(saved@.subrange(start as int + 1, *idx as int) =~= saved@.subrange(start as int + 1, at as int)
                            + saved@.subrange(at as int, *idx as int));
                    }
                    i += 1;
                }
                proof {
                    assert(saved@.subrange(start as int, *idx as int) =~= seq![saved@[start as int]] + saved@.subrange(
                        start as int + 1,
                        *idx as int,
                    ));
                }
            },
        }
    }

    /// Shares this pane's current size out down the tree (see [`PaneNode::distribute_at`]).
    pub fn flex_distribute(&mut self, gap: u16, padding: Vec2<u16>)
        requires
            fits(*old(self)),
        ensures
            distributed_at(*old(self), old(self).size, *final(self), gap, padding),
            same_tree(*old(self), *final(self)),
            fits(*final(self)),
    {
        let top = self.size;
        self.distribute_at(top, gap, padding);
    }
}

/// What the split container reads of a pane along `axis`: its size there, its effective
/// bounds and preference, its flex weight and whether it is borderless.
pub open spec fn pane_sizing(n: PaneNode, axis: Axis2D, gap: u16, padding: Vec2<u16>) -> SplitSizing {
    SplitSizing {
        size: n.size.at(axis),
        min: eff_min(n, axis, gap, padding) as u16,
        max: eff_max(n, axis, gap, padding) as u16,
        preferred: eff_pref(n, axis, gap, padding) as u16,
        flex: pane_flex(n),
        borderless: borderless(n),
    }
}

/// What the split container reads of each of `c` along `axis`.
pub open spec fn child_views(c: Seq<PaneNode>, axis: Axis2D, gap: u16, padding: Vec2<u16>) -> Seq<SplitSizing> {
    Seq::new(c.len(), |i: int| pane_sizing(c[i], axis, gap, padding))
}

/// Returns what the split container reads of each child along `axis`.
pub fn child_sizings(children: &Vec<PaneNode>, axis: Axis2D, gap: u16, padding: Vec2<u16>) -> (r: Vec<SplitSizing>)
    ensures
        r@ == child_views(children@, axis, gap, padding),
{
    let n = children.len();
    let mut view: Vec<SplitSizing> = Vec::new();
    let mut i: usize = 0;
    while i < n
        invariant
            n == children@.len(),
            0 <= i <= n,
            view@.len() == i,
            forall|j: int| 0 <= j < i ==> #[trigger] view@[j] == pane_sizing(children@[j], axis, gap, padding),
        decreases n - i,
    {
        let c = &children[i];
        let s = SplitSizing {
            size: c.size.get(axis),
            min: c.effective_min(axis, gap, padding),
            max: c.effective_max(axis, gap, padding),
            preferred: c.effective_preferred(axis, gap, padding),
            flex: c.effective_flex(),
            borderless: c.all_borderless(),
        };
        view.push(s);
        i += 1;
    }
    assert(view@ =~= child_views(children@, axis, gap, padding));
    view
}

/// Whether some leaf of a pane has no size yet.
pub open spec fn unsized_leaf(n: PaneNode) -> bool
    decreases n, 0int,
{
    match n.shape {
        PaneShape::Leaf(_) => n.size.x == 0 && n.size.y == 0,
        PaneShape::Container { children, .. } => any_unsized(children@, children@.len() as int),
    }
}

/// Whether some of the first `k` panes has a leaf with no size yet.
pub open spec fn any_unsized(c: Seq<PaneNode>, k: int) -> bool
    decreases c, k,
{
    if k <= 0 || k > c.len() {
        false
    } else {
        any_unsized(c, k - 1) || unsized_leaf(c[k - 1])
    }
}

/// The sizes of panes along `axis`.
pub open spec fn sizes_along(c: Seq<PaneNode>, axis: Axis2D) -> Seq<u16> {
    Seq::new(c.len(), |i: int| c[i].size.at(axis))
}

/// Whether a pane tree is well formed: no container holds more than 32000 children, and the
/// sizes of each container's children along its axis add up to at most `u16::MAX`.
pub open spec fn fits(n: PaneNode) -> bool
    decreases n,
{
    match n.shape {
        PaneShape::Leaf(_) => true,
        PaneShape::Container { orientation, children, .. } => {
            &&& children@.len() <= 32000
            &&& seq_sum(sizes_along(children@, orientation), children@.len() as int) <= 65535
            &&& forall|i: int| 0 <= i < children@.len() ==> fits(#[trigger] children@[i])
        },
    }
}

/// Whether a pane holds the leaf with identifier `target`.
pub open spec fn holds(n: PaneNode, target: u64) -> bool
    decreases n, 0int,
{
    match n.shape {
        PaneShape::Leaf(l) => l.id == target,
        PaneShape::Container { children, .. } => any_holds(children@, target, children@.len() as int),
    }
}

/// Whether one of the first `k` panes holds the leaf with identifier `target`.
pub open spec fn any_holds(c: Seq<PaneNode>, target: u64, k: int) -> bool
    decreases c, k,
{
    if k <= 0 || k > c.len() {
        false
    } else {
        any_holds(c, target, k - 1) || holds(c[k - 1], target)
    }
}

/// The first of the panes from `i` on that holds leaf `target`, or `c.len()` when none does.
pub open spec fn first_holding(c: Seq<PaneNode>, target: u64, i: int) -> int
    decreases c.len() - i,
{
    if i >= c.len() || i < 0 {
        c.len() as int
    } else if holds(c[i], target) {
        i
    } else {
        first_holding(c, target, i + 1)
    }
}

proof fn lemma_first_holding(c: Seq<PaneNode>, target: u64, i: int)
    requires
        0 <= i < c.len(),
        holds(c[i], target),
    ensures
        first_holding(c, target, i) == i,
{
}

proof fn lemma_first_holding_range(c: Seq<PaneNode>, target: u64, i: int)
    requires
        0 <= i <= c.len(),
    ensures
        i <= first_holding(c, target, i) <= c.len(),
        first_holding(c, target, i) < c.len() ==> holds(c[first_holding(c, target, i)], target),
        forall|j: int| i <= j < first_holding(c, target, i) ==> !holds(#[trigger] c[j], target),
    decreases c.len() - i,
{
    if i < c.len() && !holds(c[i], target) {
        lemma_first_holding_range(c, target, i + 1);
    }
}

proof fn lemma_first_holding_skip(c: Seq<PaneNode>, target: u64, i: int)
    requires
        0 <= i < c.len(),
        !holds(c[i], target),
    ensures
        first_holding(c, target, i) == first_holding(c, target, i + 1),
{
}

/// The first of the panes from `i` on that is the leaf `target`, or `c.len()` when none is.
pub open spec fn first_leaf_with(c: Seq<PaneNode>, target: u64, i: int) -> int
    decreases c.len() - i,
{
    if i >= c.len() || i < 0 {
        c.len() as int
    } else if c[i].shape is Leaf && c[i].shape->Leaf_0.id == target {
        i
    } else {
        first_leaf_with(c, target, i + 1)
    }
}

proof fn lemma_first_leaf_range(c: Seq<PaneNode>, target: u64, i: int)
    requires
        0 <= i <= c.len(),
    ensures
        i <= first_leaf_with(c, target, i) <= c.len(),
        first_leaf_with(c, target, i) < c.len() ==> {
            let l = c[first_leaf_with(c, target, i)];
            l.shape is Leaf && l.shape->Leaf_0.id == target
        },
        forall|j: int|
            i <= j < first_leaf_with(c, target, i) ==> !(#[trigger] c[j].shape is Leaf && c[j].shape->Leaf_0.id
                == target),
    decreases c.len() - i,
{
    if i < c.len() && !(c[i].shape is Leaf && c[i].shape->Leaf_0.id == target) {
        lemma_first_leaf_range(c, target, i + 1);
    }
}

/// `any_holds` is whether one of the first `k` panes holds `target`.
proof fn lemma_any_holds(c: Seq<PaneNode>, target: u64, k: int)
    requires
        0 <= k <= c.len(),
    ensures
        any_holds(c, target, k) <==> exists|i: int| 0 <= i < k && holds(#[trigger] c[i], target),
    decreases k,
{
    if k > 0 {
        lemma_any_holds(c, target, k - 1);
        if holds(c[k - 1], target) {
            assert(exists|i: int| 0 <= i < k && holds(#[trigger] c[i], target));
        }
    }
}

/// A pane nobody dragged.
pub open spec fn fresh_pane(shape: PaneShape, size: Vec2<u16>) -> PaneNode {
    PaneNode { shape, size, dragged: Vec2 { x: None, y: None } }
}

/// An existing pane and a new one side by side: the new one second for a positive direction.
pub open spec fn ordered(existing: PaneNode, new: PaneNode, direction: Sign) -> Seq<PaneNode> {
    match direction {
        Sign::Positive => seq![existing, new],
        Sign::Negative => seq![new, existing],
    }
}

/// Whether `n` is `o` with leaf `target` split below it: in the container holding `target`
/// as a child, the leaf keeps `halves` of its size along `axis` and the new leaf takes the
/// rest; along the container's own axis the new leaf is inserted beside it (and the leaf's
/// dragged size along `axis` forgotten), across it the leaf is replaced by a new container
/// of the two with the leaf's size. The split is made in the first container, searching first
/// a pane's direct children and then down its first child holding `target`.
pub open spec fn split_below(
    o: PaneNode,
    n: PaneNode,
    target: u64,
    leaf: LeafPane,
    axis: Axis2D,
    direction: Sign,
    gap: u16,
) -> bool
    decreases o,
{
    &&& n.size == o.size
    &&& n.dragged == o.dragged
    &&& match (o.shape, n.shape) {
        (PaneShape::Leaf(a), PaneShape::Leaf(b)) => a == b,
        (
            PaneShape::Container { orientation: oa, children: oc, flex: of },
            PaneShape::Container { orientation: na, children: nc, flex: nf },
        ) => {
            let li = first_leaf_with(oc@, target, 0);
            let hi = first_holding(oc@, target, 0);
            &&& na == oa
            &&& nf == of
            &&& if 0 <= li < oc@.len() {
                let t = oc@[li];
                let (e, s) = halves(t.size.at(axis), gap);
                let fresh = fresh_pane(PaneShape::Leaf(leaf), t.size.with(axis, s));
                if oa == axis {
                    let kept = PaneNode { size: t.size.with(axis, e), dragged: t.dragged.with(axis, None), ..t };
                    let at = match direction {
                        Sign::Positive => li + 1,
                        Sign::Negative => li,
                    };
                    nc@ == oc@.update(li, kept).insert(at, fresh)
                } else {
                    let w = nc@[li];
                    &&& nc@.len() == oc@.len()
                    &&& nc@ == oc@.update(li, w)
                    &&& w.size == t.size
                    &&& w.dragged == Vec2::<Option<u16>> { x: None, y: None }
                    &&& w.shape is Container
                    &&& w.shape->Container_orientation == axis
                    &&& w.shape->Container_flex == 1
                    &&& w.shape->Container_children@ == ordered(
                        fresh_pane(t.shape, t.size.with(axis, e)),
                        fresh,
                        direction,
                    )
                }
            } else if 0 <= hi < oc@.len() {
                &&& nc@.len() == oc@.len()
                &&& nc@ == oc@.update(hi, nc@[hi])
                &&& split_below(oc@[hi], nc@[hi], target, leaf, axis, direction, gap)
            } else {
                nc@ == oc@
            }
        },
        _ => false,
    }
}

/// Whether `n` is `o` with leaf `target` split: when `o` is that leaf it becomes a container
/// along `axis` of the leaf and the new one, each taking `halves` of its size and neither
/// dragged; otherwise the split is made below it.
pub open spec fn split_pane(
    o: PaneNode,
    n: PaneNode,
    target: u64,
    leaf: LeafPane,
    axis: Axis2D,
    direction: Sign,
    gap: u16,
) -> bool {
    if o.shape is Leaf && o.shape->Leaf_0.id == target {
        let (e, s) = halves(o.size.at(axis), gap);
        &&& n.size == o.size
        &&& n.dragged == o.dragged
        &&& n.shape is Container
        &&& n.shape->Container_orientation == axis
        &&& n.shape->Container_flex == 1
        &&& n.shape->Container_children@ == ordered(
            fresh_pane(o.shape, o.size.with(axis, e)),
            fresh_pane(PaneShape::Leaf(leaf), o.size.with(axis, s)),
            direction,
        )
    } else {
        split_below(o, n, target, leaf, axis, direction, gap)
    }
}

/// Whether `n` is `o` with a pane of `new_shape` added at its outer edge along `axis` (see
/// [`PaneNode::push_to_root`]); the new pane is not dragged and takes `o`'s size across `axis`.
pub open spec fn pushed(o: PaneNode, n: PaneNode, new_shape: PaneShape, axis: Axis2D, direction: Sign, gap: u16) -> bool {
    &&& n.size == o.size
    &&& n.dragged == o.dragged
    &&& if o.shape is Container && o.shape->Container_orientation == axis {
        let oc = o.shape->Container_children@;
        let sib = match direction {
            Sign::Positive => oc.len() - 1,
            Sign::Negative => 0,
        };
        let (kept, s) = halves(oc[sib].size.at(axis), gap);
        let t = oc.update(sib, PaneNode { size: oc[sib].size.with(axis, kept), ..oc[sib] });
        let fresh = fresh_pane(new_shape, o.size.with(axis, s));
        &&& n.shape is Container
        &&& n.shape->Container_orientation == axis
        &&& n.shape->Container_flex == o.shape->Container_flex
        &&& n.shape->Container_children@ == match direction {
            Sign::Positive => t.push(fresh),
            Sign::Negative => t.insert(0, fresh),
        }
    } else {
        let (kept, s) = halves(o.size.at(axis), gap);
        &&& n.shape is Container
        &&& n.shape->Container_orientation == axis
        &&& n.shape->Container_flex == 1
        &&& n.shape->Container_children@ == ordered(
            fresh_pane(o.shape, o.size.with(axis, kept)),
            fresh_pane(new_shape, o.size.with(axis, s)),
            direction,
        )
    }
}

/// What the offsets along `axis` read of panes: their sizes there and their borders.
pub open spec fn edge_views(c: Seq<PaneNode>, axis: Axis2D) -> Seq<SplitSizing> {
    Seq::new(
        c.len(),
        |i: int|
            SplitSizing {
                size: c[i].size.at(axis),
                min: 0,
                max: 0,
                preferred: 0,
                flex: 0,
                borderless: borderless(c[i]),
            },
    )
}

/// Returns the sizes along `axis` and borders of the children.
pub fn edge_sizings(children: &Vec<PaneNode>, axis: Axis2D) -> (r: Vec<SplitSizing>)
    ensures
        r@ == edge_views(children@, axis),
{
    let n = children.len();
    let mut view: Vec<SplitSizing> = Vec::new();
    let mut i: usize = 0;
    while i < n
        invariant
            n == children@.len(),
            0 <= i <= n,
            view@.len() == i,
            forall|j: int| 0 <= j < i ==> #[trigger] view@[j] == edge_views(children@, axis)[j],
        decreases n - i,
    {
        let s = SplitSizing {
            size: children[i].size.get(axis),
            min: 0,
            max: 0,
            preferred: 0,
            flex: 0,
            borderless: children[i].all_borderless(),
        };
        view.push(s);
        i += 1;
    }
    assert(view@ =~= edge_views(children@, axis));
    view
}

/// Returns where child `i` starts when the first starts at zero.
fn offset_before(view: &Vec<SplitSizing>, gap: u16, i: usize) -> (r: i64)
    requires
        i <= view@.len(),
        child_offset(view@, gap, 0, i as int) <= u32::MAX,
    ensures
        r == child_offset(view@, gap, 0, i as int),
{
    let mut offset: i64 = 0;
    let mut j: usize = 0;
    while j < i
        invariant
            i <= view@.len(),
            0 <= j <= i,
            offset == child_offset(view@, gap, 0, j as int),
            child_offset(view@, gap, 0, i as int) <= u32::MAX,
        decreases i - j,
    {
        proof {
            lemma_offsets_grow(view@, gap, 0, j as int + 1, i as int);
        }
        let pair: u16 = if j + 1 < view.len() {
            gap_between(&view[j], &view[j + 1], gap)
        } else {
            0
        };
        offset = offset + view[j].size as i64 + pair as i64;
        j += 1;
    }
    offset
}

/// Whether `path` can be followed from `n` without indexing past a container's children, and
/// ends, if it reaches one, at a container along `axis` with a child `divider_idx`.
pub open spec fn divider_path_ok(n: PaneNode, path: Seq<usize>, divider_idx: int, axis: Axis2D) -> bool
    decreases path.len(),
{
    match n.shape {
        PaneShape::Leaf(_) => true,
        PaneShape::Container { orientation, children, .. } => if path.len() == 0 {
            orientation == axis && 0 <= divider_idx < children@.len()
        } else {
            path[0] < children@.len() && divider_path_ok(
                children@[path[0] as int],
                path.drop_first(),
                divider_idx,
                axis,
            )
        },
    }
}

/// Whether following `path` from `n` meets a leaf.
pub open spec fn path_meets_leaf(n: PaneNode, path: Seq<usize>) -> bool
    decreases path.len(),
{
    match n.shape {
        PaneShape::Leaf(_) => true,
        PaneShape::Container { children, .. } => if path.len() == 0 {
            false
        } else {
            path_meets_leaf(children@[path[0] as int], path.drop_first())
        },
    }
}

/// How far along `axis` following `path` from `n` gets: at each container on the way that
/// stacks along `axis`, the extent of the children before the one the path goes into, and at
/// the container where the path ends, the extent of its children up to the end of child
/// `divider_idx`.
pub open spec fn path_extent(n: PaneNode, path: Seq<usize>, divider_idx: int, axis: Axis2D, gap: u16) -> int
    decreases path.len(),
{
    match n.shape {
        PaneShape::Leaf(_) => 0,
        PaneShape::Container { orientation, children, .. } => {
            let view = edge_views(children@, axis);
            if path.len() == 0 {
                child_offset(view, gap, 0, divider_idx) + view[divider_idx].size
            } else {
                let idx = path[0] as int;
                let here = if orientation == axis {
                    child_offset(view, gap, 0, idx)
                } else {
                    0
                };
                here + path_extent(children@[idx], path.drop_first(), divider_idx, axis, gap)
            }
        },
    }
}

/// Where the divider after child `divider_idx` of the container at `path` sits along `axis`,
/// relative to the start of `n`; none when the path meets a leaf.
pub open spec fn divider_at(n: PaneNode, path: Seq<usize>, divider_idx: int, axis: Axis2D, gap: u16) -> Option<int> {
    if path_meets_leaf(n, path) {
        None
    } else {
        Some(path_extent(n, path, divider_idx, axis, gap))
    }
}

proof fn lemma_extent_nonneg(n: PaneNode, path: Seq<usize>, divider_idx: int, axis: Axis2D, gap: u16)
    requires
        divider_path_ok(n, path, divider_idx, axis),
    ensures
        path_extent(n, path, divider_idx, axis, gap) >= 0,
        path.len() > 0 && n.shape is Container && n.shape->Container_orientation == axis
            ==> child_offset(edge_views(n.shape->Container_children@, axis), gap, 0, path[0] as int)
            <= path_extent(n, path, divider_idx, axis, gap),
    decreases path.len(),
{
    if let PaneShape::Container { orientation, children, .. } = n.shape {
        let view = edge_views(children@, axis);
        if path.len() == 0 {
            lemma_offset_from_start(view, gap, 0, divider_idx);
        } else {
            lemma_offset_from_start(view, gap, 0, path[0] as int);
            lemma_extent_nonneg(children@[path[0] as int], path.drop_first(), divider_idx, axis, gap);
        }
    }
}

/// Whether no pane in a tree has a dragged size.
pub open spec fn no_drags(n: PaneNode) -> bool
    decreases n,
{
    &&& n.dragged == Vec2::<Option<u16>> { x: None, y: None }
    &&& match n.shape {
        PaneShape::Leaf(_) => true,
        PaneShape::Container { children, .. } => forall|i: int|
            0 <= i < children@.len() ==> no_drags(#[trigger] children@[i]),
    }
}

/// Forgetting the dragged sizes leaves a tree with none, and keeps it well formed.
pub proof fn lemma_undragged_keeps(o: PaneNode, n: PaneNode)
    requires
        undragged(o, n),
    ensures
        no_drags(n),
        fits(o) ==> fits(n),
    decreases o,
{
    if let PaneShape::Container { children: oc, .. } = o.shape {
        let nc = n.shape->Container_children;
        assert forall|i: int| 0 <= i < oc@.len() implies no_drags(#[trigger] nc@[i]) && (fits(oc@[i]) ==> fits(nc@[i])) by {
            assert(decreases_to!(o => o.shape));
            assert(decreases_to!(o.shape => oc));
            assert(decreases_to!(oc => oc@));
            assert(decreases_to!(oc@ => oc@[i]));
            assert(undragged(oc@[i], nc@[i]));
            lemma_undragged_keeps(oc@[i], nc@[i]);
        }
        assert(sizes_along(oc@, o.shape->Container_orientation) =~= sizes_along(nc@, o.shape->Container_orientation)) by {
            assert forall|i: int| 0 <= i < oc@.len() implies nc@[i].size == oc@[i].size by {
                assert(undragged(oc@[i], nc@[i]));
            }
        }
    }
}

/// Panes with the same tree have dragged sizes in the same places.
pub proof fn lemma_same_tree_no_drags(o: PaneNode, n: PaneNode)
    requires
        same_tree(o, n),
        no_drags(o),
    ensures
        no_drags(n),
    decreases o,
{
    if let PaneShape::Container { children: oc, .. } = o.shape {
        let nc = n.shape->Container_children;
        assert forall|i: int| 0 <= i < oc@.len() implies no_drags(#[trigger] nc@[i]) by {
            assert(decreases_to!(o => o.shape));
            assert(decreases_to!(o.shape => oc));
            assert(decreases_to!(oc => oc@));
            assert(decreases_to!(oc@ => oc@[i]));
            assert(same_tree(oc@[i], nc@[i]));
            assert(no_drags(oc@[i]));
            lemma_same_tree_no_drags(oc@[i], nc@[i]);
        }
    }
}

/// Closing a leaf returns it exactly when a container holds it: the leaf returned is always
/// the one asked for.
pub proof fn lemma_closed_returns_target(
    o: PaneNode,
    n: PaneNode,
    r: Option<LeafPane>,
    target: u64,
    gap: u16,
    padding: Vec2<u16>,
)
    requires
        closed(o, n, r, target, gap, padding),
    ensures
        r is Some <==> o.shape is Container && holds(o, target),
        r matches Some(l) ==> l.id == target,
    decreases o,
{
    if let PaneShape::Container { children: oc, .. } = o.shape {
        let li = first_leaf_with(oc@, target, 0);
        let hi = first_holding(oc@, target, 0);
        lemma_first_leaf_range(oc@, target, 0);
        lemma_first_holding_range(oc@, target, 0);
        lemma_any_holds(oc@, target, oc@.len() as int);
        if 0 <= li < oc@.len() {
            assert(holds(oc@[li], target));
        } else if 0 <= hi < oc@.len() {
            let m = choose|m: PaneNode| closed(oc@[hi], m, r, target, gap, padding) && n.shape->Container_children@[hi] == #[trigger] collapsed(m);
            assert(decreases_to!(o => o.shape));
            assert(decreases_to!(o.shape => oc));
            assert(decreases_to!(oc => oc@));
            assert(decreases_to!(oc@ => oc@[hi]));
            lemma_closed_returns_target(oc@[hi], m, r, target, gap, padding);
            assert(!(oc@[hi].shape is Leaf));
        }
    }
}

/// A pane with the contents of its only child when it is a container of exactly one.
pub open spec fn collapsed(n: PaneNode) -> PaneNode {
    match n.shape {
        PaneShape::Container { children, .. } => if children@.len() == 1 {
            PaneNode { shape: children@[0].shape, ..n }
        } else {
            n
        },
        PaneShape::Leaf(_) => n,
    }
}

/// What a removed child gives the neighbour `rcv` that takes over its space: its size along
/// the axis and the gap that separated them.
pub open spec fn donated(view: Seq<SplitSizing>, idx: int, rcv: int, gap: u16) -> int {
    view[idx].size + if idx < rcv {
        pair_gap(view[idx], view[rcv], gap)
    } else {
        pair_gap(view[rcv], view[idx], gap)
    }
}

/// Whether `m` are the children `oc` of a container along `axis` after child `idx` was
/// removed: the neighbour that [`donation_target`] names is resized along `axis` by what
/// [`donated`] gives it and forgets its dragged size along `axis`.
pub open spec fn donated_away(
    oc: Seq<PaneNode>,
    m: Seq<PaneNode>,
    idx: int,
    axis: Axis2D,
    gap: u16,
    padding: Vec2<u16>,
) -> bool {
    match donation_target(idx, oc.len() as int) {
        None => m == oc.remove(idx),
        Some(rcv) => {
            let ri = if rcv < idx {
                rcv
            } else {
                rcv - 1
            };
            let x = m[ri];
            &&& m.len() == oc.len() - 1
            &&& m == oc.update(rcv, x).remove(idx)
            &&& x.dragged == oc[rcv].dragged.with(axis, None)
            &&& resized(
                oc[rcv],
                axis,
                donated(child_views(oc, axis, gap, padding), idx, rcv, gap),
                PaneNode { dragged: oc[rcv].dragged, ..x },
                gap,
                padding,
            )
        },
    }
}

/// Whether `n` is `o` after leaf `target` was closed, returning `r`: in the first container
/// holding the leaf as a child (searching first a pane's direct children, then down its first
/// child holding `target`) the leaf is removed and its space donated (see [`donated_away`]),
/// that container then [`collapsed`], and on the way back up each child the search went
/// through is collapsed too. A leaf, and a pane not holding `target` below it, stay as they
/// are, with `r` none.
pub open spec fn closed(
    o: PaneNode,
    n: PaneNode,
    r: Option<LeafPane>,
    target: u64,
    gap: u16,
    padding: Vec2<u16>,
) -> bool
    decreases o,
{
    match o.shape {
        PaneShape::Leaf(_) => r is None && n == o,
        PaneShape::Container { orientation: a, children: oc, flex: f } => {
            let li = first_leaf_with(oc@, target, 0);
            let hi = first_holding(oc@, target, 0);
            if 0 <= li < oc@.len() {
                &&& r == Some(oc@[li].shape->Leaf_0)
                &&& exists|m: PaneNode|
                    {
                        &&& m.size == o.size
                        &&& m.dragged == o.dragged
                        &&& m.shape is Container
                        &&& m.shape->Container_orientation == a
                        &&& m.shape->Container_flex == f
                        &&& donated_away(oc@, m.shape->Container_children@, li, a, gap, padding)
                        &&& n == #[trigger] collapsed(m)
                    }
            } else if 0 <= hi < oc@.len() {
                let nc = n.shape->Container_children@;
                &&& n.size == o.size
                &&& n.dragged == o.dragged
                &&& n.shape is Container
                &&& n.shape->Container_orientation == a
                &&& n.shape->Container_flex == f
                &&& nc.len() == oc@.len()
                &&& nc == oc@.update(hi, nc[hi])
                &&& exists|m: PaneNode| closed(oc@[hi], m, r, target, gap, padding) && nc[hi] == #[trigger] collapsed(m)
            } else {
                r is None && n == o
            }
        },
    }
}

/// Whether a pane is a leaf, or a chain of single-child containers down to one.
pub open spec fn single_leaf(n: PaneNode) -> bool
    decreases n,
{
    match n.shape {
        PaneShape::Leaf(_) => true,
        PaneShape::Container { children, .. } => children@.len() == 1 && single_leaf(children@[0]),
    }
}

/// Whether setting the flex weight of the container holding `target` changes anything: this
/// pane is a container, its first child holding `target` is a container, and its weight is
/// not `flex` yet.
pub open spec fn flex_change_applies(n: PaneNode, target: u64, flex: u8) -> bool {
    match n.shape {
        PaneShape::Leaf(_) => false,
        PaneShape::Container { children, .. } => {
            let i = first_holding(children@, target, 0);
            &&& i < children@.len()
            &&& match children@[i].shape {
                PaneShape::Container { flex: f, .. } => f != flex,
                PaneShape::Leaf(_) => false,
            }
        },
    }
}

/// A pane with its flex weight set to `flex` when it is a container.
pub open spec fn with_flex(c: PaneNode, flex: u8) -> PaneNode {
    match c.shape {
        PaneShape::Container { orientation, children, .. } => PaneNode {
            shape: PaneShape::Container { orientation, children, flex },
            ..c
        },
        PaneShape::Leaf(_) => c,
    }
}

/// Whether `n` is the container `o` with its child `i` given the flex weight `flex`.
pub open spec fn child_flex_set(o: PaneNode, n: PaneNode, i: int, flex: u8) -> bool {
    &&& n.size == o.size
    &&& n.dragged == o.dragged
    &&& match (o.shape, n.shape) {
        (
            PaneShape::Container { orientation: oa, children: oc, flex: of },
            PaneShape::Container { orientation: na, children: nc, flex: nf },
        ) => na == oa && nf == of && nc@ == oc@.update(i, with_flex(oc@[i], flex)),
        _ => false,
    }
}

/// Whether `n` is `o` with no pane dragged anywhere in the tree.
pub open spec fn undragged(o: PaneNode, n: PaneNode) -> bool
    decreases o,
{
    &&& n.size == o.size
    &&& n.dragged == Vec2::<Option<u16>> { x: None, y: None }
    &&& match (o.shape, n.shape) {
        (PaneShape::Leaf(a), PaneShape::Leaf(b)) => a == b,
        (
            PaneShape::Container { orientation: oa, children: oc, flex: of },
            PaneShape::Container { orientation: na, children: nc, flex: nf },
        ) => {
            &&& na == oa
            &&& nf == of
            &&& nc@.len() == oc@.len()
            &&& forall|i: int| 0 <= i < oc@.len() ==> undragged(oc@[i], #[trigger] nc@[i])
        },
        _ => false,
    }
}

/// How far a pane can shrink along `axis` before reaching its minimum.
pub open spec fn shrink_room_of(n: PaneNode, axis: Axis2D, gap: u16, padding: Vec2<u16>) -> int {
    sat_sub(n.size.at(axis) as int, eff_min(n, axis, gap, padding))
}

/// How far a pane can grow along `axis` before reaching its maximum.
pub open spec fn grow_room_of(n: PaneNode, axis: Axis2D, gap: u16, padding: Vec2<u16>) -> int {
    sat_sub(eff_max(n, axis, gap, padding), n.size.at(axis) as int)
}

/// What a pane gives of `needed` when asked to shrink along `axis`: no more than its room.
pub open spec fn shrink_take(n: PaneNode, axis: Axis2D, needed: u16, gap: u16, padding: Vec2<u16>) -> int {
    let room = shrink_room_of(n, axis, gap, padding);
    if room < needed {
        room
    } else {
        needed as int
    }
}

/// Whether a shrink along `axis` is turned down because the pane is below its minimum across
/// `axis`, which only counts when growth across it is not allowed.
pub open spec fn cross_rejected(n: PaneNode, axis: Axis2D, allow_cross_growth: bool, gap: u16, padding: Vec2<u16>) -> bool {
    !allow_cross_growth && eff_min(n, axis.spec_flip(), gap, padding) > n.size.at(axis.spec_flip())
}

/// Whether `path` can be followed from `n` without indexing past a container's children, and
/// ends, if it reaches one, at a container with a child `divider_idx`.
pub open spec fn container_path_ok(n: PaneNode, path: Seq<usize>, divider_idx: int) -> bool
    decreases path.len(),
{
    match n.shape {
        PaneShape::Leaf(_) => true,
        PaneShape::Container { children, .. } => if path.len() == 0 {
            0 <= divider_idx < children@.len()
        } else {
            path[0] < children@.len() && container_path_ok(children@[path[0] as int], path.drop_first(), divider_idx)
        },
    }
}

/// Panes with the same tree can follow the same paths.
pub proof fn lemma_paths_same_tree(a: PaneNode, b: PaneNode, path: Seq<usize>, divider_idx: int)
    requires
        same_tree(a, b),
    ensures
        container_path_ok(a, path, divider_idx) == container_path_ok(b, path, divider_idx),
        container_path_ok(a, path, divider_idx) ==> path_meets_leaf(a, path) == path_meets_leaf(b, path),
    decreases path.len(),
{
    if let PaneShape::Container { children: ac, .. } = a.shape {
        if path.len() > 0 && path[0] < ac@.len() {
            let bc = b.shape->Container_children;
            assert(same_tree(ac@[path[0] as int], bc@[path[0] as int]));
            lemma_paths_same_tree(ac@[path[0] as int], bc@[path[0] as int], path.drop_first(), divider_idx);
        }
    }
}

/// Whether a pane can give nothing when asked to shrink along `axis`: it has no room above
/// its minimum, or the shrink is turned down across `axis`.
pub open spec fn blocked(c: PaneNode, axis: Axis2D, allow_cross_growth: bool, gap: u16, padding: Vec2<u16>) -> bool {
    shrink_room_of(c, axis, gap, padding) == 0 || cross_rejected(c, axis, allow_cross_growth, gap, padding)
}

/// Whether divider `d` cannot move forward: no pane at or before it can grow, or every pane
/// after it is [`blocked`].
pub open spec fn grow_stuck(c: Seq<PaneNode>, d: int, axis: Axis2D, allow_cross_growth: bool, gap: u16, padding: Vec2<u16>) -> bool {
    ||| forall|i: int| 0 <= i <= d ==> grow_room_of(#[trigger] c[i], axis, gap, padding) == 0
    ||| forall|i: int| d < i < c.len() ==> blocked(#[trigger] c[i], axis, allow_cross_growth, gap, padding)
}

/// Whether divider `d` cannot move back: no pane after it can grow, or every pane at or
/// before it is [`blocked`].
pub open spec fn shrink_stuck(c: Seq<PaneNode>, d: int, axis: Axis2D, allow_cross_growth: bool, gap: u16, padding: Vec2<u16>) -> bool {
    ||| forall|i: int| d < i < c.len() ==> grow_room_of(#[trigger] c[i], axis, gap, padding) == 0
    ||| forall|i: int| 0 <= i <= d ==> blocked(#[trigger] c[i], axis, allow_cross_growth, gap, padding)
}

/// Whether a drag made the panes' needs worse, so that it is to be undone: along some axis
/// the size they prefer (or need at least) is now larger than the `inner` size there and
/// larger than it was `before` the drag.
pub fn drag_worsens(before: Vec2<u16>, after: Vec2<u16>, inner: Vec2<u16>) -> (r: bool)
    ensures
        r == ((after.x > inner.x && after.x > before.x) || (after.y > inner.y && after.y > before.y)),
{
    (after.x > inner.x && after.x > before.x) || (after.y > inner.y && after.y > before.y)
}

/// A divider a pointer grabbed: the path to its container, its index there, the axis it
/// moves along, and where the pointer sits relative to it.
pub struct DragDivider {
    /// The child indices from the root to the divider's container.
    pub container_path: Vec<usize>,
    /// The divider's index in its container.
    pub divider_idx: usize,
    /// The axis the divider moves along.
    pub axis: Axis2D,
    /// The pointer's position along `axis` less the divider's.
    pub grab_offset: i32,
}

/// What a list of grabbed dividers holds: each one's path, index, axis and grab offset.
pub open spec fn drags_view(d: Seq<DragDivider>) -> Seq<(Seq<usize>, int, Axis2D, int)> {
    d.map_values(|x: DragDivider| (x.container_path@, x.divider_idx as int, x.axis, x.grab_offset as int))
}

/// The gap drawn after child `i` of `c`: none after the last, none between two borderless
/// panes, `gap` otherwise.
pub open spec fn gap_after(c: Seq<PaneNode>, i: int, gap: u16) -> int {
    if i + 1 < c.len() && !(borderless(c[i]) && borderless(c[i + 1])) {
        gap as int
    } else {
        0
    }
}

/// Whether the pointer at `mouse` hits the divider after child `i` of `c`, which starts at
/// `offset`, in a container along `a`.
pub open spec fn hits_divider(c: Seq<PaneNode>, i: int, a: Axis2D, offset: Vec2<int>, mouse: Vec2<i32>, gap: u16) -> bool {
    let ca = a.spec_flip();
    crate::split::hits_boundary_of(
        offset.at(a) + c[i].size.at(a),
        offset.at(ca),
        offset.at(ca) + c[i].size.at(ca),
        gap_after(c, i, gap) as u16,
        draggable(c[i]),
        draggable(c[i + 1]),
        mouse.at(a) as int,
        mouse.at(ca) as int,
    )
}

/// The dividers along `axis` under the pointer at `mouse` in the tree `n`, which starts at
/// `offset` and is reached by `path`: in each container, for each child in order, the divider
/// after it (when the container stacks along `axis`), then those inside the child.
pub open spec fn hits(n: PaneNode, offset: Vec2<int>, axis: Axis2D, mouse: Vec2<i32>, gap: u16, path: Seq<usize>) -> Seq<
    (Seq<usize>, int, Axis2D, int),
>
    decreases n, 0int,
{
    match n.shape {
        PaneShape::Leaf(_) => Seq::empty(),
        PaneShape::Container { orientation, children, .. } => hits_among(
            children@,
            orientation,
            offset,
            axis,
            mouse,
            gap,
            path,
            0,
        ),
    }
}

/// The dividers under the pointer among the children `c` from `i` on, child `i` starting at
/// `offset`.
pub open spec fn hits_among(
    c: Seq<PaneNode>,
    a: Axis2D,
    offset: Vec2<int>,
    axis: Axis2D,
    mouse: Vec2<i32>,
    gap: u16,
    path: Seq<usize>,
    i: int,
) -> Seq<(Seq<usize>, int, Axis2D, int)>
    decreases c, c.len() - i,
{
    if i < 0 || i >= c.len() {
        Seq::empty()
    } else {
        let boundary = offset.at(a) + c[i].size.at(a);
        let here: Seq<(Seq<usize>, int, Axis2D, int)> = if a == axis && i + 1 < c.len() && hits_divider(
            c,
            i,
            a,
            offset,
            mouse,
            gap,
        ) {
            seq![(path, i, axis, mouse.at(a) - boundary)]
        } else {
            Seq::empty()
        };
        let next = offset.with(a, boundary + gap_after(c, i, gap));
        here + hits(c[i], offset, axis, mouse, gap, path.push(i as usize)) + hits_among(
            c,
            a,
            next,
            axis,
            mouse,
            gap,
            path,
            i + 1,
        )
    }
}

/// Whether every position the search for dividers under the pointer computes in `n`,
/// starting at `offset`, fits in an `i32`.
pub open spec fn walk_fits(n: PaneNode, offset: Vec2<int>, mouse: Vec2<i32>, gap: u16) -> bool
    decreases n, 0int,
{
    match n.shape {
        PaneShape::Leaf(_) => true,
        PaneShape::Container { orientation, children, .. } => walk_fits_among(children@, orientation, offset, mouse, gap, 0),
    }
}

/// Whether every position the search computes among the children `c` from `i` on fits in an
/// `i32`.
pub open spec fn walk_fits_among(c: Seq<PaneNode>, a: Axis2D, offset: Vec2<int>, mouse: Vec2<i32>, gap: u16, i: int) -> bool
    decreases c, c.len() - i,
{
    if i < 0 || i >= c.len() {
        true
    } else {
        let ca = a.spec_flip();
        let boundary = offset.at(a) + c[i].size.at(a);
        &&& i32::MIN < offset.at(a)
        &&& i32::MIN < offset.at(ca)
        &&& boundary + gap_after(c, i, gap) <= i32::MAX
        &&& offset.at(ca) + c[i].size.at(ca) <= i32::MAX
        &&& i32::MIN <= mouse.at(a) - boundary <= i32::MAX
        &&& walk_fits(c[i], offset, mouse, gap)
        &&& walk_fits_among(c, a, offset.with(a, boundary + gap_after(c, i, gap)), mouse, gap, i + 1)
    }
}

/// A vector of `i32`s as integers.
pub open spec fn ints(v: Vec2<i32>) -> Vec2<int> {
    Vec2 { x: v.x as int, y: v.y as int }
}

/// Returns a copy of `path`.
fn copy_path(path: &Vec<usize>) -> (r: Vec<usize>)
    ensures
        r@ == path@,
{
    let mut out: Vec<usize> = Vec::new();
    let mut i: usize = 0;
    while i < path.len()
        invariant
            0 <= i <= path@.len(),
            out@ == path@.take(i as int),
        decreases path@.len() - i,
    {
        out.push(path[i]);
        i += 1;
        proof {
            assert(out@ =~= path@.take(i as int));
        }
    }
    proof {
        assert(path@.take(path@.len() as int) =~= path@);
    }
    out
}

/// The sizes and dragged sizes of a pane tree in preorder: a pane before its children, the
/// children in order.
pub open spec fn snap(n: PaneNode) -> Seq<(Vec2<u16>, Vec2<Option<u16>>)>
    decreases n, 0int,
{
    match n.shape {
        PaneShape::Leaf(_) => seq![(n.size, n.dragged)],
        PaneShape::Container { children, .. } => seq![(n.size, n.dragged)] + snap_kids(children@, children@.len() as int),
    }
}

/// The sizes and dragged sizes of the first `k` panes' trees, one after the other.
pub open spec fn snap_kids(c: Seq<PaneNode>, k: int) -> Seq<(Vec2<u16>, Vec2<Option<u16>>)>
    decreases c, k,
{
    if k <= 0 || k > c.len() {
        Seq::empty()
    } else {
        snap_kids(c, k - 1) + snap(c[k - 1])
    }
}

/// Whether two panes have the same tree of leaves and containers, whatever their sizes and
/// dragged sizes.
pub open spec fn same_shape(o: PaneNode, n: PaneNode) -> bool
    decreases o,
{
    match (o.shape, n.shape) {
        (PaneShape::Leaf(a), PaneShape::Leaf(b)) => a == b,
        (
            PaneShape::Container { orientation: oa, children: oc, flex: of },
            PaneShape::Container { orientation: na, children: nc, flex: nf },
        ) => {
            &&& na == oa
            &&& nf == of
            &&& nc@.len() == oc@.len()
            &&& forall|i: int| 0 <= i < oc@.len() ==> same_shape(oc@[i], #[trigger] nc@[i])
        },
        _ => false,
    }
}

/// Panes with the same shape record snapshots of the same length.
pub proof fn lemma_same_shape_snap_len(o: PaneNode, n: PaneNode)
    requires
        same_shape(o, n),
    ensures
        snap(o).len() == snap(n).len(),
    decreases o, 0int,
{
    if let PaneShape::Container { children: oc, .. } = o.shape {
        let nc = n.shape->Container_children;
        assert(decreases_to!(o => o.shape));
        assert(decreases_to!(o.shape => oc));
        assert(decreases_to!(oc => oc@));
        lemma_same_shape_kids_len(oc@, nc@, oc@.len() as int);
    }
}

proof fn lemma_same_shape_kids_len(oc: Seq<PaneNode>, nc: Seq<PaneNode>, k: int)
    requires
        oc.len() == nc.len(),
        forall|i: int| 0 <= i < oc.len() ==> same_shape(oc[i], #[trigger] nc[i]),
    ensures
        snap_kids(oc, k).len() == snap_kids(nc, k).len(),
    decreases oc, k,
{
    if 0 < k <= oc.len() {
        assert(same_shape(oc[k - 1], nc[k - 1]));
        assert(decreases_to!(oc => oc[k - 1]));
        lemma_same_shape_snap_len(oc[k - 1], nc[k - 1]);
        lemma_same_shape_kids_len(oc, nc, k - 1);
    }
}

/// Panes with the same tree have the same shape.
pub proof fn lemma_same_tree_shape(a: PaneNode, b: PaneNode)
    requires
        same_tree(a, b),
    ensures
        same_shape(a, b),
    decreases a,
{
    if let PaneShape::Container { children: ac, .. } = a.shape {
        let bc = b.shape->Container_children;
        assert forall|i: int| 0 <= i < ac@.len() implies same_shape(ac@[i], #[trigger] bc@[i]) by {
            assert(decreases_to!(a => a.shape));
            assert(decreases_to!(a.shape => ac));
            assert(decreases_to!(ac => ac@));
            assert(decreases_to!(ac@ => ac@[i]));
            assert(same_tree(ac@[i], bc@[i]));
            lemma_same_tree_shape(ac@[i], bc@[i]);
        }
    }
}

/// Having the same shape carries over from one pane to a third.
pub proof fn lemma_same_shape_trans(a: PaneNode, b: PaneNode, c: PaneNode)
    requires
        same_shape(a, b),
        same_shape(b, c),
    ensures
        same_shape(a, c),
    decreases a,
{
    if let PaneShape::Container { children: ac, .. } = a.shape {
        let bc = b.shape->Container_children;
        let cc = c.shape->Container_children;
        assert forall|i: int| 0 <= i < ac@.len() implies same_shape(ac@[i], #[trigger] cc@[i]) by {
            assert(decreases_to!(a => a.shape));
            assert(decreases_to!(a.shape => ac));
            assert(decreases_to!(ac => ac@));
            assert(decreases_to!(ac@ => ac@[i]));
            assert(same_shape(ac@[i], bc@[i]));
            assert(same_shape(bc@[i], cc@[i]));
            lemma_same_shape_trans(ac@[i], bc@[i], cc@[i]);
        }
    }
}

proof fn lemma_snap_kids_prefix(c1: Seq<PaneNode>, c2: Seq<PaneNode>, k: int)
    requires
        0 <= k <= c1.len(),
        k <= c2.len(),
        forall|j: int| 0 <= j < k ==> c1[j] == c2[j],
    ensures
        snap_kids(c1, k) == snap_kids(c2, k),
    decreases k,
{
    if k > 0 {
        lemma_snap_kids_prefix(c1, c2, k - 1);
    }
}

proof fn lemma_snap_nonempty(n: PaneNode)
    ensures
        snap(n).len() >= 1,
{
}

proof fn lemma_snap_kids_bound(c: Seq<PaneNode>, k: int)
    requires
        0 <= k <= c.len(),
    ensures
        snap_kids(c, k).len() >= k,
    decreases k,
{
    if k > 0 {
        lemma_snap_kids_bound(c, k - 1);
        lemma_snap_nonempty(c[k - 1]);
    }
}

proof fn lemma_snap_kids_mono(c: Seq<PaneNode>, k: int, m: int)
    requires
        0 <= k <= m <= c.len(),
    ensures
        snap_kids(c, k).len() <= snap_kids(c, m).len(),
    decreases m - k,
{
    if k < m {
        lemma_snap_kids_mono(c, k, m - 1);
    }
}

/// How far a divider is asked to move for a change of `change`: its magnitude, as a `u16`
/// keeps it.
pub open spec fn change_magnitude(change: int) -> int {
    (if change < 0 {
        -change
    } else {
        change
    }) as u16 as int
}

/// Where divider `d` of panes `c` sits along `axis`, less the gaps before it: the extent of
/// the panes up to and including pane `d`.
pub open spec fn divider_offset(c: Seq<PaneNode>, d: int, axis: Axis2D) -> int {
    seq_sum(sizes_along(c, axis), d + 1)
}

/// A move of `m` in the direction of `change`: forward when `change` is positive, else back.
pub open spec fn signed_move(change: int, m: int) -> int {
    if change > 0 {
        m
    } else {
        -m
    }
}

/// Whether divider `d` of panes `c` cannot move forward (`forward`) or back along `axis`.
pub open spec fn divider_stuck(
    c: Seq<PaneNode>,
    d: int,
    axis: Axis2D,
    forward: bool,
    allow_cross_growth: bool,
    gap: u16,
    padding: Vec2<u16>,
) -> bool {
    if forward {
        grow_stuck(c, d, axis, allow_cross_growth, gap, padding)
    } else {
        shrink_stuck(c, d, axis, allow_cross_growth, gap, padding)
    }
}

/// The pane that following `path` from `n` reaches, or the leaf it meets on the way.
pub open spec fn node_at(n: PaneNode, path: Seq<usize>) -> PaneNode
    decreases path.len(),
{
    match n.shape {
        PaneShape::Leaf(_) => n,
        PaneShape::Container { children, .. } => if path.len() == 0 {
            n
        } else {
            node_at(children@[path[0] as int], path.drop_first())
        },
    }
}

/// The children of the container that following `path` from `n` reaches.
pub open spec fn kids_at(n: PaneNode, path: Seq<usize>) -> Seq<PaneNode> {
    node_at(n, path).shape->Container_children@
}

/// Whether `n` is `o` with nothing changed but the children of the container at the end of
/// `path`: every pane off the path is the same, and the panes on it keep their sizes, dragged
/// sizes, orientations and flex weights.
pub open spec fn changed_only_at(o: PaneNode, n: PaneNode, path: Seq<usize>) -> bool
    decreases path.len(),
{
    match (o.shape, n.shape) {
        (
            PaneShape::Container { orientation: oa, children: oc, flex: of },
            PaneShape::Container { orientation: na, children: nc, flex: nf },
        ) => {
            &&& n.size == o.size
            &&& n.dragged == o.dragged
            &&& na == oa
            &&& nf == of
            &&& nc@.len() == oc@.len()
            &&& path.len() > 0 ==> {
                &&& forall|i: int| 0 <= i < oc@.len() && i != path[0] ==> #[trigger] nc@[i] == oc@[i]
                &&& changed_only_at(oc@[path[0] as int], nc@[path[0] as int], path.drop_first())
            }
        },
        _ => n == o,
    }
}

/// What moving divider `d` of the container at `path` by `change` along `axis` within that
/// container did when it moved it by `m`: only that container's children changed; the
/// divider sits `m` further in the direction of the change; the children keep their total
/// along `axis` and their sizes across it, none that was at or above its minimum went below
/// it and none grew past the larger of its old size and its maximum; and when `m` falls short
/// of the change, the divider cannot move further that way.
pub open spec fn first_move(
    o: PaneNode,
    mid: PaneNode,
    path: Seq<usize>,
    d: int,
    axis: Axis2D,
    change: int,
    m: int,
    gap: u16,
    padding: Vec2<u16>,
    allow_cross_growth: bool,
) -> bool {
    let oc = kids_at(o, path);
    let mc = kids_at(mid, path);
    &&& fits(mid)
    &&& same_shape(o, mid)
    &&& changed_only_at(o, mid, path)
    &&& 0 <= m <= change_magnitude(change)
    &&& divider_offset(mc, d, axis) == divider_offset(oc, d, axis) + signed_move(change, m)
    &&& seq_sum(sizes_along(mc, axis), mc.len() as int) == seq_sum(sizes_along(oc, axis), oc.len() as int)
    &&& sizes_along(mc, axis.spec_flip()) == sizes_along(oc, axis.spec_flip())
    &&& mc.len() == oc.len()
    &&& forall|i: int|
        0 <= i < oc.len() ==> {
            let a = oc[i];
            let b = #[trigger] mc[i];
            &&& same_shape(a, b)
            &&& a.size.at(axis) >= eff_min(a, axis, gap, padding) ==> b.size.at(axis) >= eff_min(a, axis, gap, padding)
            &&& b.size.at(axis) <= a.size.at(axis) || b.size.at(axis) <= eff_max(a, axis, gap, padding)
        }
    &&& m < change_magnitude(change) ==> divider_stuck(mc, d, axis, change > 0, allow_cross_growth, gap, padding)
}

/// Whether the container that `path[..level]` reaches from `n` stacks along `axis` and has a
/// child beyond the path's child `path[level]` in the direction of a move (after it when
/// `forward`, before it otherwise) with room to shrink along `axis`: whether that container
/// can give way to the path's child.
pub open spec fn gives_way(
    n: PaneNode,
    path: Seq<usize>,
    level: int,
    axis: Axis2D,
    forward: bool,
    gap: u16,
    padding: Vec2<u16>,
) -> bool {
    let c = node_at(n, path.take(level));
    let kids = c.shape->Container_children@;
    &&& 0 <= level < path.len()
    &&& c.shape is Container
    &&& c.shape->Container_orientation == axis
    &&& exists|j: int|
        0 <= j < kids.len() && (if forward {
            j > path[level]
        } else {
            j < path[level]
        }) && shrink_room_of(#[trigger] kids[j], axis, gap, padding) > 0
}

/// The room to shrink along `axis` of panes `from..to` of `c`, added up.
pub open spec fn rooms(c: Seq<PaneNode>, from: int, to: int, axis: Axis2D, gap: u16, padding: Vec2<u16>) -> int
    decreases to - from,
{
    if to <= from {
        0
    } else {
        rooms(c, from, to - 1, axis, gap, padding) + shrink_room_of(c[to - 1], axis, gap, padding)
    }
}

/// The room to shrink along `axis` of the panes of `c` beyond pane `ci` in the direction of a
/// move: after it when `forward`, before it otherwise.
pub open spec fn room_toward(c: Seq<PaneNode>, ci: int, forward: bool, axis: Axis2D, gap: u16, padding: Vec2<u16>) -> int {
    if forward {
        rooms(c, ci + 1, c.len() as int, axis, gap, padding)
    } else {
        rooms(c, 0, ci, axis, gap, padding)
    }
}

/// Whether `n` is `s` after the container that `path[..level]` reaches gave way to its child
/// `path[level]` along `axis`, by `t` out of `remaining` asked for: only that container's
/// children changed; the child grew by `t`, which is as much of `remaining` as the children
/// beyond it in the direction of the move had room to give; and the container recorded its
/// children's sizes along `axis` as dragged.
pub open spec fn gave_way(
    s: PaneNode,
    n: PaneNode,
    path: Seq<usize>,
    level: int,
    axis: Axis2D,
    forward: bool,
    remaining: int,
    t: int,
    gap: u16,
    padding: Vec2<u16>,
) -> bool {
    let q = path.take(level);
    let kids = kids_at(s, q);
    let ci = path[level] as int;
    let room = room_toward(kids, ci, forward, axis, gap, padding);
    &&& fits(n)
    &&& same_shape(s, n)
    &&& n.size == s.size
    &&& changed_only_at(s, n, q)
    &&& 0 < t
    &&& t == (if room < remaining {
        room
    } else {
        remaining
    })
    &&& kids_at(n, q)[ci].size.at(axis) == kids[ci].size.at(axis) + t
    &&& drags_recorded(n, path, level, axis)
}

/// The room to shrink along `axis` of the panes of `c` a scan beyond pane `ci` has passed
/// when it stands at `idx`: `ci + 1..idx` going forward, `idx..ci` going back.
pub open spec fn scanned(c: Seq<PaneNode>, ci: int, idx: int, forward: bool, axis: Axis2D, gap: u16, padding: Vec2<u16>) -> int {
    if forward {
        rooms(c, ci + 1, idx, axis, gap, padding)
    } else {
        rooms(c, idx, ci, axis, gap, padding)
    }
}

/// The change that moves a divider `remaining` further forward (`forward`) or back.
pub open spec fn back_change(forward: bool, remaining: int) -> int {
    if forward {
        remaining
    } else {
        -remaining
    }
}

/// Whether `f` is `s` after the rounds that place what is left of a move of divider `d` of the
/// container at `path` along `axis`, forward (`forward`) or back, at the containers
/// `path[..level]`, deepest first, while `remaining` is left to place, the rounds placing
/// `moved` in all. At a container that cannot give way (see [`gives_way`]) nothing happens;
/// at one that can, it gives way to its child on the path (see [`gave_way`]), the divider is
/// moved again by what is left within its own container (see [`first_move`]), and what that
/// move placed, up to what was left, is placed.
pub open spec fn propagation(
    s: PaneNode,
    f: PaneNode,
    path: Seq<usize>,
    d: int,
    axis: Axis2D,
    forward: bool,
    level: int,
    remaining: int,
    moved: int,
    gap: u16,
    padding: Vec2<u16>,
    allow_cross_growth: bool,
) -> bool
    decreases level,
{
    if level <= 0 || remaining <= 0 {
        f == s && moved == 0
    } else if !gives_way(s, path, level - 1, axis, forward, gap, padding) {
        propagation(s, f, path, d, axis, forward, level - 1, remaining, moved, gap, padding, allow_cross_growth)
    } else {
        exists|s1: PaneNode, t: int, s2: PaneNode, p: int|
            #![trigger gave_way(s, s1, path, level - 1, axis, forward, remaining, t, gap, padding), first_move(s1, s2, path, d, axis, back_change(forward, remaining), p, gap, padding, allow_cross_growth)]
            {
                let placed = if p < remaining {
                    p
                } else {
                    remaining
                };
                &&& gave_way(s, s1, path, level - 1, axis, forward, remaining, t, gap, padding)
                &&& first_move(s1, s2, path, d, axis, back_change(forward, remaining), p, gap, padding, allow_cross_growth)
                &&& propagation(
                    s2,
                    f,
                    path,
                    d,
                    axis,
                    forward,
                    level - 1,
                    remaining - placed,
                    moved - placed,
                    gap,
                    padding,
                    allow_cross_growth,
                )
            }
    }
}

proof fn lemma_rooms_split(c: Seq<PaneNode>, a: int, b: int, e: int, axis: Axis2D, gap: u16, padding: Vec2<u16>)
    requires
        a <= b <= e,
    ensures
        rooms(c, a, e, axis, gap, padding) == rooms(c, a, b, axis, gap, padding) + rooms(c, b, e, axis, gap, padding),
        rooms(c, b, e, axis, gap, padding) >= 0,
    decreases e - b,
{
    if b < e {
        lemma_rooms_split(c, a, b, e - 1, axis, gap, padding);
    }
}

/// Whether some container on `path` from `n` can give way to the path's child (see
/// [`gives_way`]).
pub open spec fn ancestors_give_way(
    n: PaneNode,
    path: Seq<usize>,
    axis: Axis2D,
    forward: bool,
    gap: u16,
    padding: Vec2<u16>,
) -> bool {
    exists|level: int| #[trigger] gives_way(n, path, level, axis, forward, gap, padding)
}

/// Whether the container that `path[..level]` reaches from `n` stacks along `axis` and each of
/// its children has a dragged size along `axis` recorded.
pub open spec fn drags_recorded(n: PaneNode, path: Seq<usize>, level: int, axis: Axis2D) -> bool {
    let c = node_at(n, path.take(level));
    &&& 0 <= level < path.len()
    &&& c.shape is Container
    &&& c.shape->Container_orientation == axis
    &&& forall|j: int|
        0 <= j < c.shape->Container_children@.len() ==> (#[trigger] c.shape->Container_children@[j]).dragged.at(
            axis,
        ) is Some
}

/// Changing only the children of the container at the end of `path` keeps what containers
/// higher on the path recorded of their children's dragged sizes.
proof fn lemma_recorded_kept(o: PaneNode, n: PaneNode, path: Seq<usize>, level: int, axis: Axis2D)
    requires
        changed_only_at(o, n, path),
        drags_recorded(o, path, level, axis),
    ensures
        drags_recorded(n, path, level, axis),
    decreases level,
{
    let oc = o.shape->Container_children@;
    let nc = n.shape->Container_children@;
    if level == 0 {
        assert(path.take(0) =~= Seq::<usize>::empty());
        assert forall|j: int| 0 <= j < nc.len() implies (#[trigger] nc[j]).dragged.at(axis) is Some by {
            assert(oc[j].dragged.at(axis) is Some);
            if j != path[0] {
                assert(nc[j] == oc[j]);
            } else {
                assert(changed_only_at(oc[j], nc[j], path.drop_first()));
            }
        }
    } else {
        let rest = path.drop_first();
        assert(path.take(level).drop_first() =~= rest.take(level - 1));
        assert(path.take(level)[0] == path[0]);
        assert(rest[level - 1] == path[level]);
        assert(node_at(o, path.take(level)) == node_at(oc[path[0] as int], rest.take(level - 1)));
        assert(node_at(n, path.take(level)) == node_at(nc[path[0] as int], rest.take(level - 1)));
        lemma_recorded_kept(oc[path[0] as int], nc[path[0] as int], rest, level - 1, axis);
    }
}

proof fn lemma_prefix_transfer(s: Seq<PaneNode>, a: int, ca: PaneNode, b: int, cb: PaneNode, t: int, d: int, axis: Axis2D)
    requires
        0 <= a < s.len(),
        0 <= b < s.len(),
        a != b,
        0 <= d < s.len(),
        ca.size.at(axis) == s[a].size.at(axis) - t,
        cb.size.at(axis) == s[b].size.at(axis) + t,
    ensures
        divider_offset(s.update(a, ca).update(b, cb), d, axis) == divider_offset(s, d, axis) + (if b <= d {
            t
        } else {
            0
        }) - (if a <= d {
            t
        } else {
            0
        }),
{
    let sa = sizes_along(s, axis);
    assert(sizes_along(s.update(a, ca), axis) =~= sa.update(a, ca.size.at(axis)));
    assert(sizes_along(s.update(a, ca).update(b, cb), axis) =~= sa.update(a, ca.size.at(axis)).update(
        b,
        cb.size.at(axis),
    ));
    lemma_sum_update(sa, a, ca.size.at(axis), d + 1);
    lemma_sum_update(sa.update(a, ca.size.at(axis)), b, cb.size.at(axis), d + 1);
}

/// Panes with the same trees and the same sizes along and across `axis` are stuck alike.
proof fn lemma_stuck_alike(
    a: Seq<PaneNode>,
    b: Seq<PaneNode>,
    d: int,
    axis: Axis2D,
    allow_cross_growth: bool,
    gap: u16,
    padding: Vec2<u16>,
)
    requires
        a.len() == b.len(),
        forall|i: int|
            0 <= i < a.len() ==> {
                &&& same_tree(a[i], #[trigger] b[i])
                &&& b[i].size.at(axis) == a[i].size.at(axis)
                &&& b[i].size.at(axis.spec_flip()) == a[i].size.at(axis.spec_flip())
            },
    ensures
        grow_stuck(a, d, axis, allow_cross_growth, gap, padding) == grow_stuck(b, d, axis, allow_cross_growth, gap, padding),
        shrink_stuck(a, d, axis, allow_cross_growth, gap, padding) == shrink_stuck(b, d, axis, allow_cross_growth, gap, padding),
{
    assert forall|i: int| 0 <= i < a.len() implies {
        &&& grow_room_of(#[trigger] a[i], axis, gap, padding) == grow_room_of(b[i], axis, gap, padding)
        &&& blocked(a[i], axis, allow_cross_growth, gap, padding) == blocked(b[i], axis, allow_cross_growth, gap, padding)
    } by {
        assert(same_tree(a[i], b[i]));
        lemma_same_tree_sizing(a[i], b[i], axis, gap, padding);
        lemma_same_tree_sizing(a[i], b[i], axis.spec_flip(), gap, padding);
    }
    assert(forall|i: int| 0 <= i < b.len() ==> grow_room_of(#[trigger] b[i], axis, gap, padding) == grow_room_of(a[i], axis, gap, padding));
    assert(forall|i: int| 0 <= i < b.len() ==> blocked(#[trigger] b[i], axis, allow_cross_growth, gap, padding) == blocked(a[i], axis, allow_cross_growth, gap, padding));
}

/// Recording dragged sizes leaves panes stuck alike.
proof fn lemma_stuck_committed(
    a: Seq<PaneNode>,
    b: Seq<PaneNode>,
    d: int,
    axis: Axis2D,
    allow_cross_growth: bool,
    gap: u16,
    padding: Vec2<u16>,
)
    requires
        a.len() == b.len(),
        forall|i: int| 0 <= i < a.len() ==> (#[trigger] b[i]).shape == a[i].shape && b[i].size == a[i].size,
    ensures
        grow_stuck(a, d, axis, allow_cross_growth, gap, padding) == grow_stuck(b, d, axis, allow_cross_growth, gap, padding),
        shrink_stuck(a, d, axis, allow_cross_growth, gap, padding) == shrink_stuck(b, d, axis, allow_cross_growth, gap, padding),
{
    assert forall|i: int| 0 <= i < a.len() implies {
        &&& grow_room_of(#[trigger] a[i], axis, gap, padding) == grow_room_of(b[i], axis, gap, padding)
        &&& blocked(a[i], axis, allow_cross_growth, gap, padding) == blocked(b[i], axis, allow_cross_growth, gap, padding)
    } by {
        assert(b[i].shape == a[i].shape);
        assert(eff_min(a[i], axis, gap, padding) == eff_min(b[i], axis, gap, padding));
        assert(eff_max(a[i], axis, gap, padding) == eff_max(b[i], axis, gap, padding));
        assert(eff_min(a[i], axis.spec_flip(), gap, padding) == eff_min(b[i], axis.spec_flip(), gap, padding));
    }
    assert(forall|i: int| 0 <= i < b.len() ==> grow_room_of(#[trigger] b[i], axis, gap, padding) == grow_room_of(a[i], axis, gap, padding));
    assert(forall|i: int| 0 <= i < b.len() ==> blocked(#[trigger] b[i], axis, allow_cross_growth, gap, padding) == blocked(a[i], axis, allow_cross_growth, gap, padding));
}

/// Whether `n` are the panes `o` after sizes moved between them along `axis`: the same trees,
/// still well formed, the same sizes across `axis` and the same total along it; no pane that
/// was at or above its minimum along `axis` went below it, and none grew past the larger of
/// its old size and its maximum.
pub open spec fn moved_within(o: Seq<PaneNode>, n: Seq<PaneNode>, axis: Axis2D, gap: u16, padding: Vec2<u16>) -> bool {
    &&& shifted_within(o, n, axis, gap, padding)
    &&& n.len() == o.len()
    &&& seq_sum(sizes_along(n, axis), n.len() as int) == seq_sum(sizes_along(o, axis), o.len() as int)
    &&& forall|i: int|
        0 <= i < o.len() ==> {
            let a = o[i];
            let b = #[trigger] n[i];
            &&& same_tree(a, b)
            &&& fits(b)
            &&& b.size.at(axis.spec_flip()) == a.size.at(axis.spec_flip())
            &&& a.size.at(axis) >= eff_min(a, axis, gap, padding) ==> b.size.at(axis) >= eff_min(a, axis, gap, padding)
            &&& b.size.at(axis) <= a.size.at(axis) || b.size.at(axis) <= eff_max(a, axis, gap, padding)
        }
}

/// Whether `n` are the panes `o` after sizes moved between them along `axis`, keeping their
/// trees, their well-formedness, their sizes across `axis` and their total along it; no pane
/// that was at or above its minimum along `axis` went below it.
pub open spec fn shifted_within(o: Seq<PaneNode>, n: Seq<PaneNode>, axis: Axis2D, gap: u16, padding: Vec2<u16>) -> bool {
    &&& n.len() == o.len()
    &&& seq_sum(sizes_along(n, axis), n.len() as int) == seq_sum(sizes_along(o, axis), o.len() as int)
    &&& forall|i: int|
        0 <= i < o.len() ==> {
            let a = o[i];
            let b = #[trigger] n[i];
            &&& same_tree(a, b)
            &&& fits(b)
            &&& b.size.at(axis.spec_flip()) == a.size.at(axis.spec_flip())
            &&& a.size.at(axis) >= eff_min(a, axis, gap, padding) ==> b.size.at(axis) >= eff_min(a, axis, gap, padding)
        }
}

proof fn lemma_shifted_trans(o: Seq<PaneNode>, m: Seq<PaneNode>, n: Seq<PaneNode>, axis: Axis2D, gap: u16, padding: Vec2<u16>)
    requires
        shifted_within(o, m, axis, gap, padding),
        shifted_within(m, n, axis, gap, padding),
    ensures
        shifted_within(o, n, axis, gap, padding),
{
    assert forall|i: int| 0 <= i < o.len() implies {
        let a = o[i];
        let b = #[trigger] n[i];
        &&& same_tree(a, b)
        &&& fits(b)
        &&& b.size.at(axis.spec_flip()) == a.size.at(axis.spec_flip())
        &&& a.size.at(axis) >= eff_min(a, axis, gap, padding) ==> b.size.at(axis) >= eff_min(a, axis, gap, padding)
    } by {
        assert(same_tree(o[i], m[i]));
        assert(same_tree(m[i], n[i]));
        lemma_same_tree_trans(o[i], m[i], n[i]);
        lemma_same_tree_sizing(o[i], m[i], axis, gap, padding);
    }
}

/// Moving `t` from pane `a`, which can spare it, to pane `b` keeps the panes at or above
/// their minimums and their total.
proof fn lemma_shifted_transfer(
    s: Seq<PaneNode>,
    a: int,
    ca: PaneNode,
    b: int,
    cb: PaneNode,
    t: int,
    axis: Axis2D,
    gap: u16,
    padding: Vec2<u16>,
)
    requires
        0 <= a < s.len(),
        0 <= b < s.len(),
        a != b,
        0 <= t,
        forall|i: int| 0 <= i < s.len() ==> fits(#[trigger] s[i]),
        same_tree(s[a], ca),
        same_tree(s[b], cb),
        fits(ca),
        fits(cb),
        ca.size.at(axis.spec_flip()) == s[a].size.at(axis.spec_flip()),
        cb.size.at(axis.spec_flip()) == s[b].size.at(axis.spec_flip()),
        t <= shrink_room_of(s[a], axis, gap, padding),
        ca.size.at(axis) == s[a].size.at(axis) - t,
        cb.size.at(axis) == s[b].size.at(axis) + t,
    ensures
        shifted_within(s, s.update(a, ca).update(b, cb), axis, gap, padding),
{
    lemma_moved_refl(s, axis, gap, padding);
    let n = s.update(a, ca).update(b, cb);
    let sa = sizes_along(s, axis);
    assert(sizes_along(s.update(a, ca), axis) =~= sa.update(a, ca.size.at(axis)));
    assert(sizes_along(n, axis) =~= sa.update(a, ca.size.at(axis)).update(b, cb.size.at(axis)));
    lemma_sum_update(sa, a, ca.size.at(axis), s.len() as int);
    lemma_sum_update(sa.update(a, ca.size.at(axis)), b, cb.size.at(axis), s.len() as int);
}

/// Two distinct entries of a sum add up to no more than it.
proof fn lemma_sum_two(s: Seq<u16>, a: int, b: int, k: int)
    requires
        0 <= a < k,
        0 <= b < k,
        a != b,
        k <= s.len(),
    ensures
        s[a] + s[b] <= seq_sum(s, k),
    decreases k,
{
    lemma_sum_nonneg(s, k - 1);
    if a != k - 1 && b != k - 1 {
        lemma_sum_two(s, a, b, k - 1);
    } else if a == k - 1 {
        lemma_sum_one(s, b, k - 1);
    } else {
        lemma_sum_one(s, a, k - 1);
    }
}

proof fn lemma_sum_one(s: Seq<u16>, a: int, k: int)
    requires
        0 <= a < k <= s.len(),
    ensures
        s[a] <= seq_sum(s, k),
    decreases k,
{
    lemma_sum_nonneg(s, k - 1);
    if a < k - 1 {
        lemma_sum_one(s, a, k - 1);
    }
}

proof fn lemma_sum_nonneg(s: Seq<u16>, k: int)
    requires
        k <= s.len(),
    ensures
        seq_sum(s, k) >= 0,
    decreases k,
{
    if k > 0 {
        lemma_sum_nonneg(s, k - 1);
    }
}

proof fn lemma_sum_update(s: Seq<u16>, j: int, v: u16, k: int)
    requires
        0 <= j < s.len(),
        0 <= k <= s.len(),
    ensures
        seq_sum(s.update(j, v), k) == seq_sum(s, k) + if j < k {
            v - s[j]
        } else {
            0
        },
    decreases k,
{
    if k > 0 {
        lemma_sum_update(s, j, v, k - 1);
    }
}

proof fn lemma_moved_refl(o: Seq<PaneNode>, axis: Axis2D, gap: u16, padding: Vec2<u16>)
    requires
        forall|i: int| 0 <= i < o.len() ==> fits(#[trigger] o[i]),
    ensures
        moved_within(o, o, axis, gap, padding),
{
    assert forall|i: int| 0 <= i < o.len() implies same_tree(o[i], #[trigger] o[i]) by {
        lemma_same_tree_refl(o[i]);
    }
}

proof fn lemma_moved_trans(o: Seq<PaneNode>, m: Seq<PaneNode>, n: Seq<PaneNode>, axis: Axis2D, gap: u16, padding: Vec2<u16>)
    requires
        moved_within(o, m, axis, gap, padding),
        moved_within(m, n, axis, gap, padding),
    ensures
        moved_within(o, n, axis, gap, padding),
{
    assert forall|i: int| 0 <= i < o.len() implies {
        let a = o[i];
        let b = #[trigger] n[i];
        &&& same_tree(a, b)
        &&& fits(b)
        &&& b.size.at(axis.spec_flip()) == a.size.at(axis.spec_flip())
        &&& a.size.at(axis) >= eff_min(a, axis, gap, padding) ==> b.size.at(axis) >= eff_min(a, axis, gap, padding)
        &&& b.size.at(axis) <= a.size.at(axis) || b.size.at(axis) <= eff_max(a, axis, gap, padding)
    } by {
        assert(same_tree(o[i], m[i]));
        assert(same_tree(m[i], n[i]));
        lemma_same_tree_trans(o[i], m[i], n[i]);
        lemma_same_tree_sizing(o[i], m[i], axis, gap, padding);
    }
}

/// Replacing pane `j` by one with the same tree, still well formed and of the same size moves
/// nothing.
proof fn lemma_moved_same_size(s: Seq<PaneNode>, j: int, c: PaneNode, axis: Axis2D, gap: u16, padding: Vec2<u16>)
    requires
        0 <= j < s.len(),
        forall|i: int| 0 <= i < s.len() ==> fits(#[trigger] s[i]),
        same_tree(s[j], c),
        fits(c),
        c.size == s[j].size,
    ensures
        moved_within(s, s.update(j, c), axis, gap, padding),
{
    lemma_moved_refl(s, axis, gap, padding);
    assert(sizes_along(s.update(j, c), axis) =~= sizes_along(s, axis));
}

/// Moving `t` from pane `a`, which can spare it, to pane `b`, which has room for it, keeps the
/// panes within their bounds and their total.
proof fn lemma_moved_transfer(
    s: Seq<PaneNode>,
    a: int,
    ca: PaneNode,
    b: int,
    cb: PaneNode,
    t: int,
    axis: Axis2D,
    gap: u16,
    padding: Vec2<u16>,
)
    requires
        0 <= a < s.len(),
        0 <= b < s.len(),
        a != b,
        0 <= t,
        forall|i: int| 0 <= i < s.len() ==> fits(#[trigger] s[i]),
        same_tree(s[a], ca),
        same_tree(s[b], cb),
        fits(ca),
        fits(cb),
        ca.size.at(axis.spec_flip()) == s[a].size.at(axis.spec_flip()),
        cb.size.at(axis.spec_flip()) == s[b].size.at(axis.spec_flip()),
        t <= shrink_room_of(s[a], axis, gap, padding),
        t <= grow_room_of(s[b], axis, gap, padding),
        ca.size.at(axis) == s[a].size.at(axis) - t,
        cb.size.at(axis) == s[b].size.at(axis) + t,
    ensures
        moved_within(s, s.update(a, ca).update(b, cb), axis, gap, padding),
{
    lemma_moved_refl(s, axis, gap, padding);
    let n = s.update(a, ca).update(b, cb);
    let sa = sizes_along(s, axis);
    assert(sizes_along(s.update(a, ca), axis) =~= sa.update(a, ca.size.at(axis)));
    assert(sizes_along(n, axis) =~= sa.update(a, ca.size.at(axis)).update(b, cb.size.at(axis)));
    lemma_sum_update(sa, a, ca.size.at(axis), s.len() as int);
    lemma_sum_update(sa.update(a, ca.size.at(axis)), b, cb.size.at(axis), s.len() as int);
}

/// Whether two panes have the same tree: the same leaves and containers in the same places,
/// with the same dragged sizes; only their current sizes may differ.
pub open spec fn same_tree(o: PaneNode, n: PaneNode) -> bool
    decreases o,
{
    &&& n.dragged == o.dragged
    &&& match (o.shape, n.shape) {
        (PaneShape::Leaf(a), PaneShape::Leaf(b)) => a == b,
        (
            PaneShape::Container { orientation: oa, children: oc, flex: of },
            PaneShape::Container { orientation: na, children: nc, flex: nf },
        ) => {
            &&& na == oa
            &&& nf == of
            &&& nc@.len() == oc@.len()
            &&& forall|i: int| 0 <= i < oc@.len() ==> same_tree(oc@[i], #[trigger] nc@[i])
        },
        _ => false,
    }
}

/// Every pane has the same tree as itself.
pub proof fn lemma_same_tree_refl(o: PaneNode)
    ensures
        same_tree(o, o),
    decreases o,
{
    if let PaneShape::Container { children, .. } = o.shape {
        assert forall|i: int| 0 <= i < children@.len() implies same_tree(children@[i], #[trigger] children@[i]) by {
            assert(decreases_to!(o => o.shape));
            assert(decreases_to!(o.shape => children));
            assert(decreases_to!(children => children@));
            assert(decreases_to!(children@ => children@[i]));
            lemma_same_tree_refl(children@[i]);
        }
    }
}

/// Having the same tree carries over from one pane to a third.
pub proof fn lemma_same_tree_trans(a: PaneNode, b: PaneNode, c: PaneNode)
    requires
        same_tree(a, b),
        same_tree(b, c),
    ensures
        same_tree(a, c),
    decreases a,
{
    if let PaneShape::Container { children: ac, .. } = a.shape {
        let bc = b.shape->Container_children;
        let cc = c.shape->Container_children;
        assert forall|i: int| 0 <= i < ac@.len() implies same_tree(ac@[i], #[trigger] cc@[i]) by {
            assert(decreases_to!(a => a.shape));
            assert(decreases_to!(a.shape => ac));
            assert(decreases_to!(ac => ac@));
            assert(decreases_to!(ac@ => ac@[i]));
            assert(same_tree(ac@[i], bc@[i]));
            assert(same_tree(bc@[i], cc@[i]));
            lemma_same_tree_trans(ac@[i], bc@[i], cc@[i]);
        }
    }
}

/// Panes with the same tree have the same bounds, preferences, flex weight and borders.
pub proof fn lemma_same_tree_sizing(o: PaneNode, n: PaneNode, axis: Axis2D, gap: u16, padding: Vec2<u16>)
    requires
        same_tree(o, n),
    ensures
        eff_min(o, axis, gap, padding) == eff_min(n, axis, gap, padding),
        eff_max(o, axis, gap, padding) == eff_max(n, axis, gap, padding),
        eff_pref(o, axis, gap, padding) == eff_pref(n, axis, gap, padding),
        borderless(o) == borderless(n),
        pane_flex(o) == pane_flex(n),
    decreases o, 0int,
{
    if let PaneShape::Container { children: oc, .. } = o.shape {
        let nc = n.shape->Container_children;
        assert(decreases_to!(o => o.shape));
        assert(decreases_to!(o.shape => oc));
        assert(decreases_to!(oc => oc@));
        lemma_same_tree_views(oc@, nc@, axis, gap, padding, oc@.len() as int);
    }
}

/// Pairwise same trees give the same views of the first `k` panes.
proof fn lemma_same_tree_views(
    oc: Seq<PaneNode>,
    nc: Seq<PaneNode>,
    axis: Axis2D,
    gap: u16,
    padding: Vec2<u16>,
    k: int,
)
    requires
        oc.len() == nc.len(),
        forall|i: int| 0 <= i < oc.len() ==> same_tree(oc[i], #[trigger] nc[i]),
    ensures
        min_view(oc, axis, gap, padding, k) == min_view(nc, axis, gap, padding, k),
        max_view(oc, axis, gap, padding, k) == max_view(nc, axis, gap, padding, k),
        pref_view(oc, axis, gap, padding, k) == pref_view(nc, axis, gap, padding, k),
        all_borderless(oc, k) == all_borderless(nc, k),
    decreases oc, k,
{
    if 0 < k <= oc.len() {
        assert(same_tree(oc[k - 1], nc[k - 1]));
        assert(decreases_to!(oc => oc[k - 1]));
        lemma_same_tree_sizing(oc[k - 1], nc[k - 1], axis, gap, padding);
        lemma_same_tree_views(oc, nc, axis, gap, padding, k - 1);
    }
}

/// Whether no container in a pane tree can help its children further: either no child is below
/// its minimum along the container's axis, or every child but the first such one is at or
/// below its own minimum.
pub open spec fn settled(n: PaneNode, gap: u16, padding: Vec2<u16>) -> bool
    decreases n,
{
    match n.shape {
        PaneShape::Leaf(_) => true,
        PaneShape::Container { orientation, children, .. } => {
            let v = child_views(children@, orientation, gap, padding);
            let needy = needy_from(v, 0);
            &&& needy < v.len() ==> forall|j: int|
                0 <= j < v.len() && j != needy ==> spare(#[trigger] v[j]) == 0
            &&& forall|i: int| 0 <= i < children@.len() ==> settled(#[trigger] children@[i], gap, padding)
        },
    }
}

/// Whether `f` is `o` after its own children were reinforced: its size, kind and children kept;
/// each child's size across the container's axis set to the container's, and along it as the
/// rounds of donations in [`reinforced`] leave the children's sizes.
pub open spec fn reinforced_top(o: PaneNode, f: PaneNode, gap: u16, padding: Vec2<u16>) -> bool {
    &&& f.size == o.size
    &&& f.dragged == o.dragged
    &&& match (o.shape, f.shape) {
        (PaneShape::Leaf(a), PaneShape::Leaf(b)) => a == b,
        (
            PaneShape::Container { orientation: oa, children: oc, flex: of },
            PaneShape::Container { orientation: fa, children: fc, flex: ff },
        ) => {
            let v0 = child_views(oc@, oa, gap, padding);
            let r = reinforced(v0, total_shortfall(v0, v0.len() as int) as nat);
            &&& fa == oa
            &&& ff == of
            &&& fc@.len() == oc@.len()
            &&& forall|j: int|
                0 <= j < oc@.len() ==> {
                    let c = #[trigger] fc@[j];
                    &&& c.size.at(oa) == r[j].size
                    &&& c.size.at(oa.spec_flip()) == o.size.at(oa.spec_flip())
                }
        },
        _ => false,
    }
}

/// Replacing one pane by another with the same tree changes its view only in its size.
proof fn lemma_views_update(kids: Seq<PaneNode>, j: int, c: PaneNode, axis: Axis2D, gap: u16, padding: Vec2<u16>)
    requires
        0 <= j < kids.len(),
        same_tree(kids[j], c),
    ensures
        child_views(kids.update(j, c), axis, gap, padding) == child_views(kids, axis, gap, padding).update(
            j,
            crate::split_resize::resized(child_views(kids, axis, gap, padding)[j], c.size.at(axis) as int),
        ),
{
    lemma_same_tree_sizing(kids[j], c, axis, gap, padding);
    assert(child_views(kids.update(j, c), axis, gap, padding) =~= child_views(kids, axis, gap, padding).update(
        j,
        crate::split_resize::resized(child_views(kids, axis, gap, padding)[j], c.size.at(axis) as int),
    ));
}

proof fn lemma_gap_fold_nonneg(s: Seq<SplitSizing>, gap: u16, k: int)
    ensures
        gap_fold(s, gap, k) >= 0,
    decreases k,
{
    if k > 0 {
        lemma_gap_fold_nonneg(s, gap, k - 1);
    }
}

proof fn lemma_sum_le(a: Seq<u16>, b: Seq<u16>, k: int)
    requires
        0 <= k <= a.len(),
        b.len() == a.len(),
        forall|j: int| 0 <= j < k ==> #[trigger] b[j] <= a[j],
    ensures
        seq_sum(b, k) <= seq_sum(a, k),
    decreases k,
{
    if k > 0 {
        lemma_sum_le(a, b, k - 1);
    }
}

proof fn lemma_sum_shift(a: Seq<u16>, b: Seq<u16>, d: Seq<i32>, k: int)
    requires
        0 <= k <= a.len(),
        b.len() == a.len(),
        d.len() == a.len(),
        forall|j: int| 0 <= j < k ==> #[trigger] b[j] == a[j] + d[j],
    ensures
        seq_sum(b, k) == seq_sum(a, k) + delta_sum(d, k),
    decreases k,
{
    if k > 0 {
        lemma_sum_shift(a, b, d, k - 1);
    }
}

/// A size changed by `change`, not below zero.
pub open spec fn adjusted(cur: u16, change: int) -> u16 {
    if cur + change < 0 {
        0
    } else {
        (cur + change) as u16
    }
}

/// How much child `i` of a container changes along the resized axis: the container's own
/// change across its axis; along it, the child's share as [`resize_deltas`] spreads the
/// container's new size `parent_size` (nothing when it spreads nothing).
pub open spec fn child_delta(
    same_axis: bool,
    view: Seq<SplitSizing>,
    parent_size: u16,
    gap: u16,
    change: int,
    i: int,
) -> int {
    if !same_axis {
        change
    } else {
        match resize_deltas(view, parent_size, gap) {
            Some(d) => d[i],
            None => 0,
        }
    }
}

/// Whether `n` is the child `o` after a change by `delta`: unchanged when `delta` is zero.
pub open spec fn child_resized(o: PaneNode, axis: Axis2D, delta: int, n: PaneNode, gap: u16, padding: Vec2<u16>) -> bool {
    if delta == 0 {
        n == o
    } else {
        resized(o, axis, delta, n, gap, padding)
    }
}

/// Whether `n` is `o` with its size along `axis` changed by `change` and the change passed
/// down to its children as [`PaneNode::resize_adjust`] passes it.
pub open spec fn resized(o: PaneNode, axis: Axis2D, change: int, n: PaneNode, gap: u16, padding: Vec2<u16>) -> bool
    decreases o,
{
    let new_size = adjusted(o.size.at(axis), change);
    &&& n.size == o.size.with(axis, new_size)
    &&& n.dragged == o.dragged
    &&& match (o.shape, n.shape) {
        (PaneShape::Leaf(a), PaneShape::Leaf(b)) => a == b,
        (
            PaneShape::Container { orientation: oa, children: oc, flex: of },
            PaneShape::Container { orientation: na, children: nc, flex: nf },
        ) => {
            &&& na == oa
            &&& nf == of
            &&& nc@.len() == oc@.len()
            &&& forall|i: int|
                0 <= i < oc@.len() ==> {
                    let d = child_delta(oa == axis, child_views(oc@, axis, gap, padding), new_size, gap, change, i);
                    if d == 0 {
                        #[trigger] nc@[i] == oc@[i]
                    } else {
                        resized(oc@[i], axis, d, nc@[i], gap, padding)
                    }
                }
        },
        _ => false,
    }
}

/// Whether `n` is `o` given the size `top` and shared out down the tree: a leaf is unchanged
/// but for its size; a container keeps its kind and children, each child taking the
/// container's size across its axis and its flex-distributed share along it, and being shared
/// out in turn.
pub open spec fn distributed_at(o: PaneNode, top: Vec2<u16>, n: PaneNode, gap: u16, padding: Vec2<u16>) -> bool
    decreases o,
{
    &&& n.size == top
    &&& n.dragged == o.dragged
    &&& match (o.shape, n.shape) {
        (PaneShape::Leaf(a), PaneShape::Leaf(b)) => a == b,
        (
            PaneShape::Container { orientation: oa, children: oc, flex: of },
            PaneShape::Container { orientation: na, children: nc, flex: nf },
        ) => {
            let sizes = main_sizes(child_views(oc@, oa, gap, padding), top.at(oa), gap);
            &&& na == oa
            &&& nf == of
            &&& nc@.len() == oc@.len()
            &&& forall|i: int|
                0 <= i < oc@.len() ==> {
                    let c = #[trigger] nc@[i];
                    &&& c.size.at(oa) == sizes[i]
                    &&& c.size.at(oa.spec_flip()) == top.at(oa.spec_flip())
                    &&& distributed_at(oc@[i], c.size, c, gap, padding)
                }
        },
        _ => false,
    }
}

} // verus!
