use std::collections::HashMap;
use tuie::widget_path::{WidgetId, WidgetPath};
use tuie::widget_tree::{resolve_cached_path, WidgetNode};

fn node(id: u64, children: Vec<WidgetNode>) -> WidgetNode {
    WidgetNode { id: WidgetId(id), children }
}

fn ids(raw: &[u64]) -> Vec<WidgetId> {
    raw.iter().map(|&i| WidgetId(i)).collect()
}

fn sample() -> WidgetNode {
    node(
        1,
        vec![
            node(2, vec![node(4, vec![])]),
            node(3, vec![node(5, vec![]), node(6, vec![node(7, vec![])])]),
        ],
    )
}

#[test]
fn paths_resolve_one_child_at_a_time() {
    let root = sample();
    assert_eq!(root.walk_path(&ids(&[1, 3, 6, 7])).map(|w| w.id), Some(WidgetId(7)));
    assert_eq!(root.walk_path(&ids(&[1])).map(|w| w.id), Some(WidgetId(1)));
    assert!(root.walk_path(&ids(&[1, 2, 5])).is_none());
    assert!(root.walk_path(&ids(&[])).is_none());
    assert!(root.walk_path(&ids(&[2])).is_none());
    assert_eq!(root.get_child(WidgetId(3)).map(|w| w.id), Some(WidgetId(3)));
    assert!(root.get_child(WidgetId(7)).is_none());
    let path = WidgetPath::from_ids(ids(&[1, 2, 4]));
    assert_eq!(path.get(&root).map(|w| w.id), Some(WidgetId(4)));
}

#[test]
fn the_first_child_with_an_identifier_is_the_one_followed() {
    let root = node(1, vec![node(2, vec![]), node(2, vec![node(9, vec![])])]);
    assert!(root.walk_path(&ids(&[1, 2, 9])).is_none());
    assert_eq!(root.child_position(WidgetId(2)), Some(0));
}

#[test]
fn valid_prefixes_are_counted_onto_the_length() {
    let root = sample();
    let mut len = 0;
    root.valid_prefix_len(&ids(&[3, 6, 9]), &mut len);
    assert_eq!(len, 2);
    let mut len = 5;
    root.valid_prefix_len(&ids(&[9]), &mut len);
    assert_eq!(len, 5);
}

#[test]
fn members_within_a_depth_range_are_visited_root_first() {
    let root = sample();
    let path = ids(&[1, 3, 6, 7]);
    assert_eq!(root.path_members(&path, 0, 1, 3), ids(&[3, 6]));
    assert_eq!(root.path_members(&path, 0, 0, 10), ids(&[1, 3, 6, 7]));
    assert_eq!(root.path_members(&ids(&[1, 3, 9, 7]), 0, 0, 10), ids(&[1, 3]));
    let wp = WidgetPath::from_ids(path);
    assert_eq!(wp.members(&root, 2, 4), ids(&[6, 7]));
}

#[test]
fn edges_pair_each_parent_with_the_next_identifier() {
    let root = sample();
    let path = ids(&[1, 3, 6, 7]);
    assert_eq!(
        root.path_edges(&path, 0),
        vec![(WidgetId(1), WidgetId(3)), (WidgetId(3), WidgetId(6)), (WidgetId(6), WidgetId(7))]
    );
    assert_eq!(
        root.path_edges(&ids(&[1, 3, 9]), 0),
        vec![(WidgetId(1), WidgetId(3)), (WidgetId(3), WidgetId(9))]
    );
    assert_eq!(WidgetPath::from_ids(ids(&[1])).edges(&root), vec![]);
}

#[test]
fn events_reach_the_deepest_widget_first() {
    let root = sample();
    assert_eq!(root.emission_order(&ids(&[1, 3, 6, 7]), 0), ids(&[7, 6, 3, 1]));
    assert_eq!(root.emission_order(&ids(&[1, 9]), 0), ids(&[1]));
    assert_eq!(root.emission_order(&ids(&[2]), 0), ids(&[]));
    assert_eq!(WidgetPath::from_ids(ids(&[1, 2])).emission(&root), ids(&[2, 1]));
}

#[test]
fn depth_first_search_appends_the_path_or_leaves_it() {
    let root = sample();
    let mut path = ids(&[42]);
    assert!(root.find_dfs_path(WidgetId(7), &mut path));
    assert_eq!(path, ids(&[42, 1, 3, 6, 7]));
    let mut missing = ids(&[42]);
    assert!(!root.find_dfs_path(WidgetId(9), &mut missing));
    assert_eq!(missing, ids(&[42]));
    let mut first = Vec::new();
    let twice = node(1, vec![node(2, vec![node(8, vec![])]), node(8, vec![])]);
    assert!(twice.find_dfs_path(WidgetId(8), &mut first));
    assert_eq!(first, ids(&[1, 2, 8]));
}

#[test]
fn cached_paths_are_used_while_they_still_lead_to_the_widget() {
    let root = sample();
    let mut cache: HashMap<u64, Vec<WidgetId>> = HashMap::new();
    let found = resolve_cached_path(&root, WidgetId(7), &mut cache).map(|p| p.as_slice().to_vec());
    assert_eq!(found, Some(ids(&[1, 3, 6, 7])));
    assert_eq!(cache.get(&7), Some(&ids(&[1, 3, 6, 7])));
    cache.insert(5, ids(&[1, 3, 5]));
    let hit = resolve_cached_path(&root, WidgetId(5), &mut cache).map(|p| p.as_slice().to_vec());
    assert_eq!(hit, Some(ids(&[1, 3, 5])));
    cache.insert(7, ids(&[1, 2, 4]));
    let fixed = resolve_cached_path(&root, WidgetId(7), &mut cache).map(|p| p.as_slice().to_vec());
    assert_eq!(fixed, Some(ids(&[1, 3, 6, 7])));
    assert_eq!(cache.get(&7), Some(&ids(&[1, 3, 6, 7])));
    cache.insert(9, ids(&[1]));
    assert!(resolve_cached_path(&root, WidgetId(9), &mut cache).is_none());
    assert!(cache.get(&9).is_none());
}
