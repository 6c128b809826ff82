//! Verified layout and input primitives for a terminal widget toolkit.

pub mod arith;
pub mod geometry;
pub mod align;
pub mod flex;
pub mod spacing;
pub mod layout;
pub mod input;
pub mod revelation;
pub mod chrome;
pub mod scrollbar;
pub mod grid;
pub mod split;
pub mod events;
pub mod text;
pub mod drag;
pub mod list_window;
pub mod wrap;
pub mod grid_model;
pub mod flex_laws;
pub mod apportion;
pub mod split_resize;
pub mod pane;
pub mod widget_path;
pub mod wrap_layout;
pub mod split_tree;
pub mod widget_tree;
pub mod cross_edges;
