use tuie::geometry::{Axis2D, Vec2};
use tuie::scrollbar::{
    corner_extension, scrollbar_cells, BorderStubs, Scrollbar, ScrollbarCell, ScrollbarConfig,
    ScrollbarStyle, ScrollbarThumb, ThumbGlyph,
};

const LOWER_HALF: char = '\u{2584}';

fn border(x: bool, y: bool) -> ScrollbarThumb {
    ScrollbarThumb::Border(BorderStubs { stubs: Vec2::new(x, y) })
}

#[test]
fn subpixels_per_thumb_kind() {
    assert_eq!(ScrollbarThumb::BLOCK.get_subpixels(Axis2D::Y), 8);
    assert_eq!(ScrollbarThumb::Block.get_subpixels(Axis2D::X), 1);
    assert_eq!(border(false, true).get_subpixels(Axis2D::Y), 2);
    assert_eq!(border(false, true).get_subpixels(Axis2D::X), 1);
    assert!(ScrollbarThumb::Block.has_half_cell(Axis2D::Y));
    assert!(!ScrollbarThumb::Block.has_half_cell(Axis2D::X));
}

#[test]
fn block_glyphs() {
    let t = ScrollbarThumb::Block;
    assert_eq!(t.glyph(Axis2D::Y, 8, 8, false), (ThumbGlyph::Char(' '), true));
    assert_eq!(t.glyph(Axis2D::Y, 4, 4, false), (ThumbGlyph::Char(LOWER_HALF), true));
    assert_eq!(t.glyph(Axis2D::Y, 3, 8, true), (ThumbGlyph::Char('\u{2583}'), false));
    assert_eq!(t.glyph(Axis2D::Y, 3, 8, false), (ThumbGlyph::Char('\u{2585}'), true));
    assert_eq!(t.glyph(Axis2D::X, 1, 1, false), (ThumbGlyph::Char(LOWER_HALF), false));
}

#[test]
fn border_glyphs() {
    let t = border(true, true);
    assert_eq!(t.glyph(Axis2D::Y, 2, 2, false), (ThumbGlyph::Edge(Axis2D::X), false));
    assert_eq!(
        t.glyph(Axis2D::Y, 1, 1, false),
        (ThumbGlyph::Arms { left: false, right: false, up: true, down: false }, false)
    );
    assert_eq!(
        t.glyph(Axis2D::Y, 1, 2, true),
        (ThumbGlyph::Arms { left: false, right: false, up: false, down: true }, false)
    );
    assert_eq!(
        t.glyph(Axis2D::X, 1, 2, true),
        (ThumbGlyph::Arms { left: false, right: true, up: false, down: false }, false)
    );
}

#[test]
fn scrollbar_labels() {
    assert_eq!(Scrollbar::AutoHide.label(), "AutoHide");
    assert_eq!(Scrollbar::Hidden.label(), "Hidden");
}

#[test]
fn corner_extension_in_terminal_and_gui() {
    assert_eq!(corner_extension(ScrollbarThumb::Block, true, false), (Vec2::new(true, true), true));
    assert_eq!(corner_extension(ScrollbarThumb::Block, true, true), (Vec2::new(false, true), false));
    assert_eq!(corner_extension(border(false, false), true, true), (Vec2::new(true, true), false));
    assert_eq!(corner_extension(border(false, false), true, false), (Vec2::new(false, false), false));
    assert_eq!(corner_extension(ScrollbarThumb::Block, false, false), (Vec2::new(false, false), false));
}

#[test]
fn thumb_cells_with_partial_rows() {
    let cells = scrollbar_cells(ScrollbarThumb::Block, Axis2D::Y, 3, false, 4, 8, None);
    assert_eq!(
        cells,
        vec![
            ScrollbarCell::Thumb(ThumbGlyph::Char(LOWER_HALF), false),
            ScrollbarCell::Thumb(ThumbGlyph::Char(LOWER_HALF), true),
            ScrollbarCell::Track,
        ]
    );
}

#[test]
fn thumb_cells_full_row_and_half_cell() {
    let cells = scrollbar_cells(ScrollbarThumb::Block, Axis2D::Y, 3, false, 0, 8, None);
    assert_eq!(cells[0], ScrollbarCell::Thumb(ThumbGlyph::Char(' '), true));
    assert_eq!(cells.len(), 3);
    let cells = scrollbar_cells(ScrollbarThumb::Block, Axis2D::Y, 3, true, 24, 4, None);
    assert_eq!(cells.len(), 4);
    assert_eq!(cells[3], ScrollbarCell::Thumb(ThumbGlyph::Char(LOWER_HALF), true));
    assert_eq!(cells[2], ScrollbarCell::Track);
}

#[test]
fn thumb_cells_with_anchor_add_padding_rows() {
    let cells = scrollbar_cells(ScrollbarThumb::Block, Axis2D::Y, 3, false, 0, 8, Some((1, 1)));
    assert_eq!(cells.len(), 5);
    assert_eq!(cells[2], ScrollbarCell::Thumb(ThumbGlyph::Char(' '), true));
    for i in [0usize, 1, 3, 4] {
        assert_eq!(cells[i], ScrollbarCell::Track);
    }
}

#[test]
fn style_overrides_win_over_the_config() {
    let stubs = BorderStubs { stubs: Vec2::new(true, false) };
    let cfg = ScrollbarConfig { thumb: ScrollbarThumb::Border(stubs), track: ' ' };
    let empty = ScrollbarStyle::new();
    assert_eq!(empty.get_resolved(cfg), cfg);
    assert_eq!(empty.get_resolved_thumb(cfg), ScrollbarThumb::Border(stubs));
    let custom = ScrollbarStyle { thumb: Some(ScrollbarThumb::Block), track: Some('|') };
    let r = custom.get_resolved(cfg);
    assert_eq!(r.thumb, ScrollbarThumb::Block);
    assert_eq!(r.track, '|');
    let half = ScrollbarStyle { thumb: None, track: Some('.') };
    let r = half.get_resolved(cfg);
    assert_eq!(r.thumb, ScrollbarThumb::Border(stubs));
    assert_eq!(r.track, '.');
}
