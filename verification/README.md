# tuie

The layout, scrolling and input logic of a terminal widget toolkit, written in Verus:
the functions in `src/` are verified by Verus against their contracts, and properties that
span several calls are stated and proved as lemmas.

## Layout

- `src/` — the verified library.
  - `geometry`, `spacing`, `align`, `arith` — plain values (axes, vectors, rects, per-edge
    spacing, alignment modes) and shared integer helpers.
  - `layout` — per-widget layout state: dirty tracking, size overrides and constraints, and
    the flow-measurement caches.
  - `flex`, `flex_laws` — the main-axis flex solver and what it guarantees of its result.
  - `grid`, `grid_model`, `drag` — grid track sizing, cell placement and borders, and
    dragging the divider between tracks.
  - `split`, `split_resize`, `apportion` — the split container's sizing, resizing and
    reinforcement of minimums, and the largest-remainder selection they share.
  - `split_tree` — the tree of split panes: bounds and preferences read through nested
    containers, distribution, resizing and reinforcement passed down the tree, splitting and closing
    panes, and moving dividers.
  - `pane`, `wrap`, `wrap_layout` — flex pane decisions, scroll clamping and scrollbar
    visibility, line breaking for wrapping panes, and the layout of the wrapped lines.
  - `list_window` — the scroll model of a virtualized list, and smooth (pixel) scrolling
    for lists and panes.
  - `cross_edges` — merging the border edges two panes draw along a shared line.
  - `scrollbar`, `chrome`, `revelation` — scrollbar cells and glyphs, border titles, and the
    reveal pass.
  - `text`, `input`, `events`, `widget_path` — text cursor movement, the input queue, event
    payloads and widget identifiers.
  - `widget_tree` — paths through the tree of widget identifiers: resolving them, the widgets
    and edges they visit, the order events travel along them, and the depth-first search
    (with its cache) that finds them.
- `tests/` — tests of the library on concrete values.
- `app/` — what stays outside the verified library: conversions to and from the geometry
  crates, the thread-local id counter, and the floating-point scrollbar state.
