use tuie::text::{TextClickEvent, TextCursor};

const LINES: &str = "ab\ncd\nef";

fn at(i: usize) -> TextCursor {
    TextCursor::new(i)
}

#[test]
fn cursor_index_and_document_ends() {
    let mut c = at(3);
    assert_eq!(c.get_index(), 3);
    c.document_end(LINES);
    assert_eq!(c.get_index(), 8);
    c.document_start();
    assert_eq!(c.get_index(), 0);
    assert!(at(1) < at(2));
    assert_eq!(at(4), at(4));
}

#[test]
fn set_index_snaps_back_to_a_character_boundary() {
    let text = "a\u{e9}\u{1F600}";
    let mut c = at(0);
    c.set_index(text, 2);
    assert_eq!(c.get_index(), 1);
    c.set_index(text, 5);
    assert_eq!(c.get_index(), 3);
    c.set_index(text, 7);
    assert_eq!(c.get_index(), 7);
    c.set_index(text, 10);
    assert_eq!(c.get_index(), 10);
}

#[test]
fn char_steps_cross_whole_characters() {
    let text = "a\u{e9}\u{1F600}";
    let mut c = at(0);
    c.next_char(text);
    assert_eq!(c.get_index(), 1);
    c.next_char(text);
    assert_eq!(c.get_index(), 3);
    c.next_char(text);
    assert_eq!(c.get_index(), 7);
    c.next_char(text);
    assert_eq!(c.get_index(), 7);
    c.prev_char(text);
    assert_eq!(c.get_index(), 3);
    c.prev_char(text);
    assert_eq!(c.get_index(), 1);
    c.prev_char(text);
    assert_eq!(c.get_index(), 0);
    c.prev_char(text);
    assert_eq!(c.get_index(), 0);
}

#[test]
fn grapheme_steps_keep_combining_marks_together() {
    let text = "e\u{301}x";
    let mut c = at(0);
    c.next_grapheme(text);
    assert_eq!(c.get_index(), 3);
    let mut d = at(0);
    d.next_char(text);
    assert_eq!(d.get_index(), 1);
    c.next_grapheme(text);
    assert_eq!(c.get_index(), 4);
    c.next_grapheme(text);
    assert_eq!(c.get_index(), 4);
    c.prev_grapheme(text);
    assert_eq!(c.get_index(), 3);
    c.prev_grapheme(text);
    assert_eq!(c.get_index(), 0);
    c.prev_grapheme(text);
    assert_eq!(c.get_index(), 0);
}

#[test]
fn get_char_reads_the_character_at_the_cursor() {
    assert_eq!(at(3).get_char(LINES), 'c');
    assert_eq!(at(8).get_char(LINES), '\0');
    assert_eq!(at(20).get_char(LINES), '\0');
    assert_eq!(at(1).get_char("a\u{e9}"), '\u{e9}');
}

#[test]
fn line_motions() {
    let mut c = at(4);
    c.line_start(LINES);
    assert_eq!(c.get_index(), 3);
    let mut c = at(2);
    c.line_start(LINES);
    assert_eq!(c.get_index(), 0);
    let mut c = at(0);
    c.line_end(LINES);
    assert_eq!(c.get_index(), 2);
    let mut c = at(6);
    c.line_end(LINES);
    assert_eq!(c.get_index(), 8);
    let mut c = at(0);
    c.linewise_end(LINES);
    assert_eq!(c.get_index(), 3);
    let mut c = at(6);
    c.linewise_end(LINES);
    assert_eq!(c.get_index(), 9);
    let mut c = at(0);
    c.next_line_start(LINES);
    assert_eq!(c.get_index(), 3);
    let mut c = at(6);
    c.next_line_start(LINES);
    assert_eq!(c.get_index(), 8);
}

#[test]
fn previous_line_start() {
    let mut c = at(7);
    c.prev_line_start(LINES);
    assert_eq!(c.get_index(), 3);
    c.prev_line_start(LINES);
    assert_eq!(c.get_index(), 0);
    let mut c = at(1);
    c.prev_line_start(LINES);
    assert_eq!(c.get_index(), 0);
}

#[test]
fn character_search() {
    let mut c = at(0);
    c.find_char_forward(LINES, 'd');
    assert_eq!(c.get_index(), 4);
    c.find_char_forward(LINES, 'z');
    assert_eq!(c.get_index(), 4);
    c.find_char_backward(LINES, 'c');
    assert_eq!(c.get_index(), 3);
    c.find_char_backward(LINES, 'a');
    assert_eq!(c.get_index(), 0);
    let mut c = at(0);
    c.find_char_forward("a\u{e9}\u{1F600}", '\u{1F600}');
    assert_eq!(c.get_index(), 3);
}

#[test]
fn string_search() {
    let mut c = at(0);
    c.find_str_forward(LINES, "\ne");
    assert_eq!(c.get_index(), 5);
    let mut c = at(8);
    c.find_str_backward(LINES, "b\n");
    assert_eq!(c.get_index(), 1);
    let mut c = at(2);
    c.find_str_forward(LINES, "");
    assert_eq!(c.get_index(), 2);
    let mut c = at(4);
    c.find_str_backward(LINES, "");
    assert_eq!(c.get_index(), 4);
    let mut c = at(4);
    c.find_str_backward(LINES, "cd");
    assert_eq!(c.get_index(), 4);
    c.find_str_forward(LINES, "ab");
    assert_eq!(c.get_index(), 4);
}

#[test]
fn matches_checks_the_text_at_the_cursor() {
    assert!(at(3).matches(LINES, "cd"));
    assert!(!at(4).matches(LINES, "cd"));
    assert!(at(8).matches(LINES, ""));
    assert!(!at(7).matches(LINES, "fg"));
}

#[test]
fn click_event_holds_the_byte_range() {
    let e = TextClickEvent { start_index: 2, end_index: 5 };
    assert_eq!(e.end_index - e.start_index, 3);
}

#[test]
fn stepping_over_a_given_cluster_moves_by_its_bytes() {
    let mut c = TextCursor::new(2);
    c.step_over("e\u{301}");
    assert_eq!(c.get_index(), 5);
    c.step_back("\u{1F600}");
    assert_eq!(c.get_index(), 1);
}
