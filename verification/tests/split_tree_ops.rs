use tuie::geometry::{Axis2D, Vec2};
use tuie::split_tree::{drag_worsens, DragDivider, LeafPane, PaneNode, PaneShape};

const NONE: u16 = u16::MAX;

fn v(x: u16, y: u16) -> Vec2<u16> {
    Vec2 { x, y }
}

fn leaf_with(id: u64, min: Vec2<u16>, max: Vec2<u16>, preferred: Vec2<u16>, size: Vec2<u16>) -> PaneNode {
    PaneNode {
        shape: PaneShape::Leaf(LeafPane {
            id,
            min,
            max,
            preferred,
            flow_axis: Axis2D::Y,
            flow_size: v(0, 0),
            flex: 1,
            bordered: true,
            draggable: false,
        }),
        size,
        dragged: Vec2 { x: None, y: None },
    }
}

fn leaf(id: u64, min: Vec2<u16>, size: Vec2<u16>) -> PaneNode {
    leaf_with(id, min, v(NONE, NONE), v(NONE, NONE), size)
}

fn container(orientation: Axis2D, children: Vec<PaneNode>, size: Vec2<u16>) -> PaneNode {
    PaneNode {
        shape: PaneShape::Container { orientation, children, flex: 1 },
        size,
        dragged: Vec2 { x: None, y: None },
    }
}

fn kids(n: &PaneNode) -> &Vec<PaneNode> {
    match &n.shape {
        PaneShape::Container { children, .. } => children,
        PaneShape::Leaf(_) => panic!("not a container"),
    }
}

fn flags(n: &mut PaneNode, bordered: bool, draggable: bool) {
    if let PaneShape::Leaf(l) = &mut n.shape {
        l.bordered = bordered;
        l.draggable = draggable;
    }
}

#[test]
fn container_bounds_add_along_and_take_extremes_across() {
    let a = leaf_with(1, v(3, 2), v(10, 10), v(7, NONE), v(0, 0));
    let b = leaf_with(2, v(5, 4), v(20, 20), v(NONE, NONE), v(0, 0));
    let root = container(Axis2D::X, vec![a, b], v(0, 0));
    let pad = v(1, 1);
    assert_eq!(root.effective_min(Axis2D::X, 1, pad), 11);
    assert_eq!(root.effective_min(Axis2D::Y, 1, pad), 5);
    assert_eq!(root.effective_max(Axis2D::X, 1, pad), 33);
    assert_eq!(root.effective_max(Axis2D::Y, 1, pad), 11);
    assert_eq!(root.effective_preferred(Axis2D::X, 1, pad), 15);
    assert_eq!(root.effective_preferred(Axis2D::Y, 1, pad), NONE);
    assert_eq!(root.preferred_or_min(Axis2D::Y, 1, pad), 5);
    assert_eq!(root.effective_flex(), 1);
}

#[test]
fn leaf_minimum_follows_its_flow_size_along_its_flow_axis() {
    let mut a = leaf(1, v(0, 2), v(0, 0));
    if let PaneShape::Leaf(l) = &mut a.shape {
        l.flow_size = v(9, 6);
    }
    assert_eq!(a.effective_min(Axis2D::Y, 0, v(0, 0)), 6);
    assert_eq!(a.effective_min(Axis2D::X, 0, v(0, 0)), 1);
}

#[test]
fn a_dragged_size_overrides_the_preference() {
    let a = leaf(1, v(1, 1), v(0, 0));
    let b = leaf(2, v(1, 1), v(0, 0));
    let mut root = container(Axis2D::X, vec![a, b], v(0, 0));
    root.dragged = Vec2 { x: Some(40), y: None };
    assert_eq!(root.effective_preferred(Axis2D::X, 1, v(0, 0)), 40);
    assert_eq!(root.effective_preferred(Axis2D::Y, 1, v(0, 0)), NONE);
}

#[test]
fn borders_drags_and_unsized_leaves_are_found_anywhere_in_the_tree() {
    let mut a = leaf(1, v(1, 1), v(3, 3));
    let mut b = leaf(2, v(1, 1), v(0, 0));
    flags(&mut a, false, false);
    flags(&mut b, false, true);
    let inner = container(Axis2D::Y, vec![b], v(3, 3));
    let root = container(Axis2D::X, vec![a, inner], v(7, 3));
    assert!(root.all_borderless());
    assert!(root.any_draggable());
    assert!(root.needs_initial_layout());
    let mut c = leaf(3, v(1, 1), v(2, 2));
    flags(&mut c, true, false);
    let other = container(Axis2D::X, vec![c], v(2, 2));
    assert!(!other.all_borderless());
    assert!(!other.any_draggable());
    assert!(!other.needs_initial_layout());
}

#[test]
fn distribution_shares_the_main_size_and_copies_the_cross_size() {
    let a = leaf(1, v(1, 1), v(0, 0));
    let b = leaf(2, v(1, 1), v(0, 0));
    let mut root = container(Axis2D::X, vec![a, b], v(21, 10));
    root.flex_distribute(1, v(0, 0));
    assert_eq!(root.size, v(21, 10));
    let k = kids(&root);
    assert_eq!(k[0].size, v(10, 10));
    assert_eq!(k[1].size, v(10, 10));
}

#[test]
fn distribution_reaches_nested_containers() {
    let d = leaf(3, v(1, 1), v(0, 0));
    let e = leaf(4, v(1, 1), v(0, 0));
    let inner = container(Axis2D::Y, vec![d, e], v(0, 0));
    let a = leaf(1, v(1, 1), v(0, 0));
    let mut root = container(Axis2D::X, vec![a, inner], v(21, 11));
    root.flex_distribute(1, v(0, 0));
    let k = kids(&root);
    assert_eq!(k[0].size, v(10, 11));
    assert_eq!(k[1].size, v(10, 11));
    let inner_kids = kids(&k[1]);
    assert_eq!(inner_kids[0].size, v(10, 5));
    assert_eq!(inner_kids[1].size, v(10, 5));
}

#[test]
fn growing_along_the_axis_spreads_the_change_by_flex() {
    let a = leaf(1, v(1, 1), v(10, 10));
    let d = leaf(3, v(1, 1), v(10, 5));
    let e = leaf(4, v(1, 1), v(10, 4));
    let inner = container(Axis2D::Y, vec![d, e], v(10, 10));
    let mut root = container(Axis2D::X, vec![a, inner], v(21, 10));
    root.resize_adjust(Axis2D::X, 4, 1, v(0, 0));
    assert_eq!(root.size, v(25, 10));
    let k = kids(&root);
    assert_eq!(k[0].size, v(12, 10));
    assert_eq!(k[1].size, v(12, 10));
    let inner_kids = kids(&k[1]);
    assert_eq!(inner_kids[0].size, v(12, 5));
    assert_eq!(inner_kids[1].size, v(12, 4));
}

#[test]
fn resizing_across_the_axis_changes_every_child_alike() {
    let a = leaf(1, v(1, 1), v(10, 10));
    let b = leaf(2, v(1, 1), v(10, 10));
    let mut root = container(Axis2D::X, vec![a, b], v(21, 10));
    root.resize_adjust(Axis2D::Y, 3, 1, v(0, 0));
    assert_eq!(root.size, v(21, 13));
    let k = kids(&root);
    assert_eq!(k[0].size, v(10, 13));
    assert_eq!(k[1].size, v(10, 13));
    root.resize_adjust(Axis2D::Y, -20, 1, v(0, 0));
    assert_eq!(root.size, v(21, 0));
    let k = kids(&root);
    assert_eq!(k[0].size, v(10, 0));
}

#[test]
fn shrinking_a_leaf_stops_at_zero() {
    let mut a = leaf(1, v(1, 1), v(4, 4));
    a.resize_adjust(Axis2D::X, -9, 0, v(0, 0));
    assert_eq!(a.size, v(0, 4));
}

#[test]
fn reinforcing_moves_space_to_a_child_below_its_minimum() {
    let a = leaf(1, v(6, 1), v(2, 3));
    let b = leaf(2, v(1, 1), v(18, 3));
    let mut root = container(Axis2D::X, vec![a, b], v(21, 10));
    root.reinforce_mins(1, v(0, 0));
    assert_eq!(root.size, v(21, 10));
    let k = kids(&root);
    assert_eq!(k[0].size, v(6, 10));
    assert_eq!(k[1].size, v(14, 10));
}

#[test]
fn reinforcing_gives_what_there_is_when_it_is_not_enough() {
    let a = leaf(1, v(1, 1), v(3, 3));
    let b = leaf(2, v(9, 1), v(4, 3));
    let c = leaf(3, v(2, 1), v(4, 3));
    let mut root = container(Axis2D::X, vec![a, b, c], v(13, 3));
    root.reinforce_mins(0, v(0, 0));
    let k = kids(&root);
    assert_eq!(k[0].size.x, 1);
    assert_eq!(k[1].size.x, 8);
    assert_eq!(k[2].size.x, 2);
}

#[test]
fn reinforcing_passes_each_transfer_down() {
    let d = leaf(3, v(1, 1), v(10, 5));
    let e = leaf(4, v(1, 1), v(10, 4));
    let inner = container(Axis2D::Y, vec![d, e], v(10, 10));
    let a = leaf(1, v(14, 1), v(10, 10));
    let mut root = container(Axis2D::X, vec![inner, a], v(21, 10));
    root.reinforce_mins(1, v(0, 0));
    let k = kids(&root);
    assert_eq!(k[0].size, v(6, 10));
    assert_eq!(k[1].size, v(14, 10));
    let inner_kids = kids(&k[0]);
    assert_eq!(inner_kids[0].size, v(6, 5));
    assert_eq!(inner_kids[1].size, v(6, 4));
}

fn leaf_id(n: &PaneNode) -> u64 {
    match &n.shape {
        PaneShape::Leaf(l) => l.id,
        PaneShape::Container { .. } => panic!("not a leaf"),
    }
}

fn bare(id: u64) -> LeafPane {
    match leaf(id, v(1, 1), v(0, 0)).shape {
        PaneShape::Leaf(l) => l,
        PaneShape::Container { .. } => unreachable!(),
    }
}

fn sample() -> PaneNode {
    let d = leaf(2, v(1, 1), v(10, 5));
    let e = leaf(3, v(1, 1), v(10, 4));
    let inner = container(Axis2D::Y, vec![d, e], v(10, 10));
    let a = leaf(1, v(1, 1), v(10, 10));
    container(Axis2D::X, vec![a, inner], v(21, 10))
}

#[test]
fn leaves_are_found_by_identifier() {
    let root = sample();
    assert!(root.contains(3));
    assert!(root.contains(1));
    assert!(!root.contains(9));
    assert_eq!(root.child_holding(3), Some(1));
    assert_eq!(root.child_holding(1), Some(0));
    assert_eq!(root.child_holding(9), None);
    assert_eq!(leaf(5, v(1, 1), v(0, 0)).child_holding(5), None);
}

#[test]
fn single_leaves_are_recognised_through_single_child_containers() {
    assert!(leaf(1, v(1, 1), v(0, 0)).is_single_leaf());
    let one = container(Axis2D::X, vec![leaf(1, v(1, 1), v(0, 0))], v(0, 0));
    assert!(one.is_single_leaf());
    let nested = container(Axis2D::Y, vec![one], v(0, 0));
    assert!(nested.is_single_leaf());
    assert!(!sample().is_single_leaf());
}

#[test]
fn the_flex_of_the_container_holding_a_leaf_can_be_set() {
    let mut root = sample();
    assert!(root.set_container_flex_of(3, 4));
    match &kids(&root)[1].shape {
        PaneShape::Container { flex, .. } => assert_eq!(*flex, 4),
        PaneShape::Leaf(_) => panic!("not a container"),
    }
    assert!(!root.set_container_flex_of(2, 4));
    assert!(!root.set_container_flex_of(1, 4));
    assert!(!root.set_container_flex_of(9, 4));
}

#[test]
fn a_single_child_container_collapses_into_its_child() {
    let mut one = container(Axis2D::X, vec![leaf(7, v(1, 1), v(3, 3))], v(5, 5));
    one.collapse_singleton();
    assert_eq!(leaf_id(&one), 7);
    assert_eq!(one.size, v(5, 5));
    let mut two = sample();
    two.collapse_singleton();
    assert_eq!(kids(&two).len(), 2);
}

#[test]
fn clearing_drags_reaches_every_pane() {
    let mut root = sample();
    root.dragged = Vec2 { x: Some(3), y: None };
    if let PaneShape::Container { children, .. } = &mut root.shape {
        children[1].dragged = Vec2 { x: None, y: Some(4) };
        if let PaneShape::Container { children: inner, .. } = &mut children[1].shape {
            inner[0].dragged = Vec2 { x: Some(1), y: Some(1) };
        }
    }
    root.clear_dragged();
    assert_eq!(root.dragged, Vec2 { x: None, y: None });
    let k = kids(&root);
    assert_eq!(k[1].dragged, Vec2 { x: None, y: None });
    assert_eq!(kids(&k[1])[0].dragged, Vec2 { x: None, y: None });
    assert_eq!(k[1].size, v(10, 10));
}

#[test]
fn splitting_the_root_leaf_makes_a_container_of_two() {
    let mut root = leaf(1, v(1, 1), v(21, 10));
    assert!(root.split(1, bare(2), Axis2D::X, tuie::geometry::Sign::Positive, 1));
    assert_eq!(root.size, v(21, 10));
    let k = kids(&root);
    assert_eq!(leaf_id(&k[0]), 1);
    assert_eq!(k[0].size, v(10, 10));
    assert_eq!(leaf_id(&k[1]), 2);
    assert_eq!(k[1].size, v(10, 10));
    let mut other = leaf(1, v(1, 1), v(21, 10));
    assert!(other.split(1, bare(2), Axis2D::Y, tuie::geometry::Sign::Negative, 1));
    let k = kids(&other);
    assert_eq!(leaf_id(&k[0]), 2);
    assert_eq!(k[0].size, v(21, 4));
    assert_eq!(k[1].size, v(21, 5));
}

#[test]
fn splitting_along_the_container_axis_inserts_a_sibling() {
    let mut root = container(
        Axis2D::X,
        vec![leaf(1, v(1, 1), v(10, 10)), leaf(2, v(1, 1), v(10, 10))],
        v(21, 10),
    );
    assert!(root.split(2, bare(3), Axis2D::X, tuie::geometry::Sign::Positive, 1));
    let k = kids(&root);
    assert_eq!(k.len(), 3);
    assert_eq!(k[1].size, v(5, 10));
    assert_eq!(leaf_id(&k[2]), 3);
    assert_eq!(k[2].size, v(4, 10));
}

#[test]
fn splitting_across_the_container_axis_nests_a_container() {
    let mut root = container(
        Axis2D::X,
        vec![leaf(1, v(1, 1), v(10, 10)), leaf(2, v(1, 1), v(10, 10))],
        v(21, 10),
    );
    assert!(root.split(1, bare(3), Axis2D::Y, tuie::geometry::Sign::Negative, 1));
    let k = kids(&root);
    assert_eq!(k.len(), 2);
    assert_eq!(k[0].size, v(10, 10));
    let inner = kids(&k[0]);
    assert_eq!(leaf_id(&inner[0]), 3);
    assert_eq!(inner[0].size, v(10, 4));
    assert_eq!(leaf_id(&inner[1]), 1);
    assert_eq!(inner[1].size, v(10, 5));
}

#[test]
fn splitting_reaches_nested_leaves_and_reports_missing_ones() {
    let mut root = sample();
    assert!(root.split(3, bare(4), Axis2D::Y, tuie::geometry::Sign::Positive, 1));
    let inner = kids(&kids(&root)[1]);
    assert_eq!(inner.len(), 3);
    assert_eq!(inner[1].size, v(10, 2));
    assert_eq!(leaf_id(&inner[2]), 4);
    assert_eq!(inner[2].size, v(10, 1));
    assert!(!root.split(9, bare(5), Axis2D::X, tuie::geometry::Sign::Positive, 1));
}

#[test]
fn closing_a_leaf_gives_its_space_to_a_neighbour_and_collapses() {
    let mut root = container(
        Axis2D::X,
        vec![leaf(1, v(1, 1), v(10, 10)), leaf(2, v(1, 1), v(10, 10))],
        v(21, 10),
    );
    let closed = root.close_inner(2, 1, v(0, 0));
    assert_eq!(closed.map(|l| l.id), Some(2));
    assert_eq!(leaf_id(&root), 1);
    assert_eq!(root.size, v(21, 10));
}

#[test]
fn closing_a_nested_leaf_collapses_its_container() {
    let mut root = sample();
    let closed = root.close_inner(3, 1, v(0, 0));
    assert_eq!(closed.map(|l| l.id), Some(3));
    let k = kids(&root);
    assert_eq!(k.len(), 2);
    assert_eq!(leaf_id(&k[1]), 2);
    assert_eq!(k[1].size, v(10, 10));
    assert_eq!(root.close_inner(9, 1, v(0, 0)).map(|l| l.id), None);
    let mut lone = leaf(1, v(1, 1), v(4, 4));
    assert_eq!(lone.close_inner(1, 1, v(0, 0)).map(|l| l.id), None);
}

#[test]
fn pushing_to_the_root_wraps_or_extends_it() {
    let mut root = leaf(1, v(1, 1), v(21, 10));
    root.push_to_root(PaneShape::Leaf(bare(2)), Axis2D::X, tuie::geometry::Sign::Positive, 1);
    let k = kids(&root);
    assert_eq!(k[0].size, v(10, 10));
    assert_eq!(leaf_id(&k[1]), 2);
    assert_eq!(k[1].size, v(10, 10));
    root.push_to_root(PaneShape::Leaf(bare(3)), Axis2D::X, tuie::geometry::Sign::Positive, 1);
    let k = kids(&root);
    assert_eq!(k.len(), 3);
    assert_eq!(k[1].size, v(5, 10));
    assert_eq!(leaf_id(&k[2]), 3);
    assert_eq!(k[2].size, v(4, 10));
    root.push_to_root(PaneShape::Leaf(bare(4)), Axis2D::X, tuie::geometry::Sign::Negative, 1);
    let k = kids(&root);
    assert_eq!(leaf_id(&k[0]), 4);
    assert_eq!(k[0].size, v(4, 10));
    assert_eq!(k[1].size, v(5, 10));
}

#[test]
fn divider_positions_follow_the_path() {
    let root = sample();
    assert_eq!(root.divider_abs_pos(&[], 0, Axis2D::X, Vec2 { x: 2, y: 3 }, 1), Some(12));
    assert_eq!(root.divider_abs_pos(&[1], 0, Axis2D::Y, Vec2 { x: 2, y: 3 }, 1), Some(8));
    assert_eq!(root.divider_abs_pos(&[0], 0, Axis2D::X, Vec2 { x: 2, y: 3 }, 1), None);
    let wide = container(
        Axis2D::X,
        vec![leaf(1, v(1, 1), v(10, 10)), container(Axis2D::X, vec![leaf(2, v(1, 1), v(4, 10)), leaf(3, v(1, 1), v(5, 10))], v(10, 10))],
        v(21, 10),
    );
    assert_eq!(wide.divider_abs_pos(&[1], 0, Axis2D::X, Vec2 { x: 0, y: 0 }, 1), Some(15));
}

#[test]
fn removing_keeps_the_last_leaf() {
    let mut lone = leaf(1, v(1, 1), v(4, 4));
    assert_eq!(lone.remove(1, 1, v(0, 0)).map(|l| l.id), None);
    assert_eq!(leaf_id(&lone), 1);
    let mut wrapped = container(Axis2D::X, vec![leaf(1, v(1, 1), v(4, 4))], v(4, 4));
    assert_eq!(wrapped.remove(1, 1, v(0, 0)).map(|l| l.id), None);
    let mut root = sample();
    assert_eq!(root.remove(2, 1, v(0, 0)).map(|l| l.id), Some(2));
    assert!(!root.contains(2));
    assert!(root.contains(3));
}

#[test]
fn redistributing_forgets_drags_and_shares_by_flex() {
    let mut a = leaf(1, v(1, 1), v(3, 10));
    a.dragged = Vec2 { x: Some(3), y: None };
    let b = leaf(2, v(1, 1), v(17, 10));
    let mut root = container(Axis2D::X, vec![a, b], v(21, 10));
    root.redistribute(1, v(0, 0));
    let k = kids(&root);
    assert_eq!(k[0].size, v(10, 10));
    assert_eq!(k[1].size, v(10, 10));
    assert_eq!(k[0].dragged, Vec2 { x: None, y: None });
}

fn pair(a: PaneNode, b: PaneNode) -> Vec<PaneNode> {
    vec![a, b]
}

#[test]
fn moving_a_divider_forward_grows_the_pane_before_it() {
    let mut kids = pair(leaf(1, v(1, 1), v(10, 10)), leaf(2, v(1, 1), v(10, 10)));
    let moved = PaneNode::move_divider(&mut kids, 0, Axis2D::X, 3, 1, v(0, 0), true);
    assert_eq!(moved, 3);
    assert_eq!(kids[0].size, v(13, 10));
    assert_eq!(kids[1].size, v(7, 10));
}

#[test]
fn moving_a_divider_back_stops_at_the_minimum() {
    let mut kids = pair(leaf(1, v(1, 1), v(13, 10)), leaf(2, v(1, 1), v(7, 10)));
    let moved = PaneNode::move_divider(&mut kids, 0, Axis2D::X, -20, 1, v(0, 0), true);
    assert_eq!(moved, 12);
    assert_eq!(kids[0].size, v(1, 10));
    assert_eq!(kids[1].size, v(19, 10));
}

#[test]
fn a_pane_too_short_across_refuses_to_shrink_unless_allowed() {
    let mut kids = pair(leaf(1, v(1, 20), v(10, 10)), leaf(2, v(1, 1), v(10, 10)));
    assert_eq!(PaneNode::move_divider(&mut kids, 0, Axis2D::X, -3, 1, v(0, 0), false), 0);
    assert_eq!(kids[0].size, v(10, 10));
    assert_eq!(PaneNode::move_divider(&mut kids, 0, Axis2D::X, -3, 1, v(0, 0), true), 3);
    assert_eq!(kids[0].size, v(7, 10));
    let mut one = leaf(3, v(1, 20), v(10, 10));
    assert_eq!(one.try_shrink(Axis2D::X, 4, 1, v(0, 0), false), None);
    assert_eq!(one.size, v(10, 10));
    assert_eq!(one.try_shrink(Axis2D::X, 4, 1, v(0, 0), true), Some(4));
    assert_eq!(one.size, v(6, 10));
    let mut floor = leaf(4, v(6, 1), v(6, 10));
    assert_eq!(floor.try_shrink(Axis2D::X, 4, 1, v(0, 0), true), None);
}

#[test]
fn growing_and_shrinking_at_a_divider_take_the_nearest_panes() {
    let mut kids = vec![
        leaf(1, v(1, 1), v(5, 10)),
        leaf(2, v(1, 1), v(5, 10)),
        leaf(3, v(5, 1), v(5, 10)),
        leaf(4, v(1, 1), v(5, 10)),
    ];
    assert_eq!(PaneNode::grow_at_divider(&mut kids, 1, Axis2D::X, 3, 0, v(0, 0), true), 3);
    assert_eq!(kids[1].size.x, 8);
    assert_eq!(kids[2].size.x, 5);
    assert_eq!(kids[3].size.x, 2);
    assert_eq!(PaneNode::shrink_at_divider(&mut kids, 1, Axis2D::X, 2, 0, v(0, 0), true), 2);
    assert_eq!(kids[1].size.x, 6);
    assert_eq!(kids[2].size.x, 7);
}

#[test]
fn dragged_sizes_are_recorded_along_the_axis() {
    let mut kids = pair(leaf(1, v(1, 1), v(10, 4)), leaf(2, v(1, 1), v(6, 4)));
    PaneNode::commit_dragged_along(&mut kids, Axis2D::X);
    assert_eq!(kids[0].dragged, Vec2 { x: Some(10), y: None });
    assert_eq!(kids[1].dragged, Vec2 { x: Some(6), y: None });
}

#[test]
fn a_divider_move_passes_down_and_records_drags() {
    let mut root = sample();
    let moved = root.move_divider_propagate(&[], 0, Axis2D::X, 3, 1, v(0, 0), true);
    assert_eq!(moved, 3);
    assert_eq!(root.size, v(21, 10));
    let k = kids(&root);
    assert_eq!(k[0].size, v(13, 10));
    assert_eq!(k[1].size, v(7, 10));
    assert_eq!(k[0].dragged, Vec2 { x: Some(13), y: None });
    let inner = kids(&k[1]);
    assert_eq!(inner[0].size, v(7, 5));
    assert_eq!(inner[1].size, v(7, 4));
    assert_eq!(root.move_divider_propagate(&[0], 0, Axis2D::X, 3, 1, v(0, 0), true), 0);
    assert_eq!(root.move_divider_propagate(&[], 0, Axis2D::X, 0, 1, v(0, 0), true), 0);
}

#[test]
fn what_a_container_cannot_move_is_sought_in_its_parent() {
    let inner = container(
        Axis2D::X,
        vec![leaf(3, v(1, 1), v(4, 10)), leaf(4, v(1, 1), v(5, 10))],
        v(10, 10),
    );
    let mut root = container(Axis2D::X, vec![leaf(1, v(1, 1), v(10, 10)), inner], v(21, 10));
    let moved = root.move_divider_propagate(&[1], 0, Axis2D::X, -6, 1, v(0, 0), true);
    assert!(moved >= 4 && moved <= 6);
    assert_eq!(root.size, v(21, 10));
    let k = kids(&root);
    assert_eq!(k[0].size, v(7, 10));
    assert_eq!(k[1].size, v(13, 10));
    assert_eq!(k[0].dragged.x, Some(7));
    assert_eq!(k[1].dragged.x, Some(13));
    let inner = kids(&k[1]);
    assert_eq!(inner[0].size.x + inner[1].size.x + 1, 13);
}

#[test]
fn a_divider_with_nowhere_to_go_moves_nothing() {
    let inner = container(
        Axis2D::X,
        vec![leaf(3, v(4, 1), v(4, 10)), leaf(4, v(5, 1), v(5, 10))],
        v(10, 10),
    );
    let mut root = container(Axis2D::X, vec![leaf(1, v(10, 1), v(10, 10)), inner], v(21, 10));
    assert_eq!(root.move_divider_propagate(&[1], 0, Axis2D::X, 3, 1, v(0, 0), true), 0);
    assert_eq!(root.move_divider_propagate(&[1], 0, Axis2D::X, -3, 1, v(0, 0), true), 0);
    let k = kids(&root);
    assert_eq!(k[0].size, v(10, 10));
    assert_eq!(k[0].dragged.x, None);
    let inner = kids(&k[1]);
    assert_eq!(inner[0].size, v(4, 10));
    assert_eq!(inner[1].size, v(5, 10));
}

fn grabbed(root: &PaneNode, axis: Axis2D, mouse: Vec2<i32>) -> Vec<(Vec<usize>, usize, i32)> {
    let mut path = Vec::new();
    let mut out: Vec<DragDivider> = Vec::new();
    root.find_all_dividers_at_pos(Vec2 { x: 0, y: 0 }, axis, mouse, 1, &mut path, &mut out);
    assert!(path.is_empty());
    out.iter().map(|d| (d.container_path.clone(), d.divider_idx, d.grab_offset)).collect()
}

#[test]
fn the_pointer_grabs_the_divider_under_it() {
    let root = container(
        Axis2D::X,
        vec![leaf(1, v(1, 1), v(10, 10)), leaf(2, v(1, 1), v(10, 10))],
        v(21, 10),
    );
    assert_eq!(grabbed(&root, Axis2D::X, Vec2 { x: 10, y: 5 }), vec![(vec![], 0, 0)]);
    assert_eq!(grabbed(&root, Axis2D::X, Vec2 { x: 11, y: 5 }), vec![]);
    assert_eq!(grabbed(&root, Axis2D::X, Vec2 { x: 10, y: 11 }), vec![]);
    assert_eq!(grabbed(&root, Axis2D::Y, Vec2 { x: 10, y: 5 }), vec![]);
}

#[test]
fn nested_dividers_are_found_with_their_path() {
    let root = sample();
    assert_eq!(grabbed(&root, Axis2D::Y, Vec2 { x: 15, y: 5 }), vec![(vec![1], 0, 0)]);
    assert_eq!(grabbed(&root, Axis2D::X, Vec2 { x: 10, y: 3 }), vec![(vec![], 0, 0)]);
}

#[test]
fn without_a_gap_only_draggable_sides_grab() {
    let mut a = leaf(1, v(1, 1), v(10, 10));
    let mut b = leaf(2, v(1, 1), v(10, 10));
    flags(&mut a, false, false);
    flags(&mut b, false, false);
    let plain = container(Axis2D::X, vec![a, b], v(20, 10));
    assert_eq!(grabbed(&plain, Axis2D::X, Vec2 { x: 10, y: 5 }), vec![]);
    let mut c = leaf(1, v(1, 1), v(10, 10));
    let mut d = leaf(2, v(1, 1), v(10, 10));
    flags(&mut c, false, true);
    flags(&mut d, false, false);
    let left = container(Axis2D::X, vec![c, d], v(20, 10));
    assert_eq!(grabbed(&left, Axis2D::X, Vec2 { x: 9, y: 5 }), vec![(vec![], 0, -1)]);
}

#[test]
fn restoring_a_snapshot_gives_back_the_sizes() {
    let mut root = sample();
    let mut saved = Vec::new();
    root.snapshot_sizes(&mut saved);
    assert_eq!(saved.len(), 5);
    assert_eq!(saved[0], (v(21, 10), Vec2 { x: None, y: None }));
    assert_eq!(saved[4], (v(10, 4), Vec2 { x: None, y: None }));
    root.move_divider_propagate(&[], 0, Axis2D::X, 3, 1, v(0, 0), true);
    assert_eq!(kids(&root)[0].size, v(13, 10));
    let mut idx = 0;
    root.restore_sizes(&saved, &mut idx);
    assert_eq!(idx, 5);
    let mut again = Vec::new();
    root.snapshot_sizes(&mut again);
    assert_eq!(again, saved);
    assert_eq!(kids(&root)[0].dragged, Vec2 { x: None, y: None });
}

#[test]
fn a_drag_is_undone_only_when_it_overflows_more_than_before() {
    assert!(drag_worsens(v(10, 5), v(12, 5), v(11, 20)));
    assert!(!drag_worsens(v(12, 5), v(12, 5), v(11, 20)));
    assert!(!drag_worsens(v(10, 5), v(12, 5), v(12, 20)));
    assert!(drag_worsens(v(10, 5), v(10, 9), v(20, 8)));
}
