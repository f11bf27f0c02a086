use editor::editor::{word_char, Editor};

fn at(text: &str, offset: usize) -> Editor {
    let mut e = Editor::from_text(text);
    while e.cursor() < offset {
        e.move_right();
    }
    e
}

#[test]
fn editor_from_text_counts_lines() {
    let e = Editor::from_text("hello\nworld");
    assert_eq!(e.line_count(), 2);
    assert_eq!(e.len(), 11);
    assert_eq!(e.cursor(), 0);
    assert_eq!(e.text(), "hello\nworld");
    assert!(!e.is_empty());
}

#[test]
fn editor_default_is_one_empty_line() {
    let e = Editor::default();
    assert!(e.is_empty());
    assert_eq!(e.line_count(), 1);
    assert_eq!(e.cursor_pos(), (0, 0));
    assert_eq!(e.viewport(), (0, 0, 0, 0));
}

#[test]
fn editor_insert_then_delete_back_restores() {
    let mut e = at("ab", 1);
    e.insert('x');
    assert_eq!(e.text(), "axb");
    assert_eq!(e.cursor(), 2);
    e.delete_back();
    assert_eq!(e.text(), "ab");
    assert_eq!(e.cursor(), 1);
}

#[test]
fn editor_insert_multibyte_moves_by_its_bytes() {
    let mut e = Editor::from_text("ab");
    e.insert('é');
    assert_eq!(e.text(), "éab");
    assert_eq!(e.cursor(), 2);
    assert_eq!(e.cursor_pos(), (1, 0));
    e.delete_back();
    assert_eq!(e.text(), "ab");
    assert_eq!(e.cursor(), 0);
}

#[test]
fn editor_insert_newline_adds_a_line() {
    let mut e = at("ab", 1);
    e.insert('\n');
    assert_eq!(e.text(), "a\nb");
    assert_eq!(e.line_count(), 2);
    assert_eq!(e.cursor_pos(), (0, 1));
}

#[test]
fn editor_left_then_right_returns() {
    let mut e = at("aé€b", 3);
    e.move_left();
    assert_eq!(e.cursor(), 1);
    e.move_right();
    assert_eq!(e.cursor(), 3);
    e.move_right();
    assert_eq!(e.cursor(), 6);
    e.move_left();
    assert_eq!(e.cursor(), 3);
}

#[test]
fn editor_left_at_start_and_right_at_end_stay() {
    let mut e = Editor::from_text("ab");
    e.move_left();
    assert_eq!(e.cursor(), 0);
    e.move_end_full();
    e.move_right();
    assert_eq!(e.cursor(), 2);
}

#[test]
fn editor_home_and_end_are_idempotent() {
    let mut e = Editor::from_text("abc\ndef");
    e.move_down();
    assert_eq!(e.cursor(), 4);
    assert_eq!(e.cursor_pos(), (0, 1));
    e.move_end();
    assert_eq!(e.cursor(), 7);
    e.move_end();
    assert_eq!(e.cursor(), 7);
    e.move_home();
    assert_eq!(e.cursor(), 4);
    e.move_home();
    assert_eq!(e.cursor(), 4);
    e.move_home_full();
    assert_eq!(e.cursor(), 0);
    e.move_end_full();
    assert_eq!(e.cursor(), 7);
}

#[test]
fn editor_vertical_moves_keep_the_column() {
    let mut e = Editor::from_text("abcdef\nab\nabcdef");
    e.move_end();
    assert_eq!(e.cursor_pos(), (6, 0));
    e.move_down();
    assert_eq!(e.cursor(), 9);
    assert_eq!(e.cursor_pos(), (2, 1));
    e.move_down();
    assert_eq!(e.cursor(), 16);
    assert_eq!(e.cursor_pos(), (6, 2));
    e.move_up();
    assert_eq!(e.cursor(), 9);
    e.move_up();
    assert_eq!(e.cursor(), 6);
}

#[test]
fn editor_up_on_first_line_goes_to_its_start() {
    let mut e = at("abc\ndef", 2);
    e.move_up();
    assert_eq!(e.cursor(), 0);
}

#[test]
fn editor_down_on_last_line_goes_to_its_end() {
    let mut e = at("abc\ndef", 5);
    e.move_down();
    assert_eq!(e.cursor(), 7);
}

#[test]
fn editor_word_moves() {
    let mut e = Editor::from_text("foo bar_baz, qux");
    e.move_word_right();
    assert_eq!(e.cursor(), 3);
    e.move_word_right();
    assert_eq!(e.cursor(), 11);
    e.move_word_right();
    assert_eq!(e.cursor(), 16);
    e.move_word_right();
    assert_eq!(e.cursor(), 16);
    e.move_word_left();
    assert_eq!(e.cursor(), 13);
    e.move_word_left();
    assert_eq!(e.cursor(), 4);
    e.move_word_left();
    assert_eq!(e.cursor(), 0);
    e.move_word_left();
    assert_eq!(e.cursor(), 0);
}

#[test]
fn editor_word_moves_over_letters_of_other_scripts() {
    let mut e = Editor::from_text("añb cd");
    e.move_word_right();
    assert_eq!(e.cursor(), 4);
}

#[test]
fn editor_delete_forward_joins_lines() {
    let mut e = at("a\nb", 1);
    e.delete_forward();
    assert_eq!(e.text(), "ab");
    assert_eq!(e.line_count(), 1);
    assert_eq!(e.cursor(), 1);
    e.move_end_full();
    e.delete_forward();
    assert_eq!(e.text(), "ab");
}

#[test]
fn editor_delete_back_at_start_does_nothing() {
    let mut e = Editor::from_text("ab");
    e.delete_back();
    assert_eq!(e.text(), "ab");
    assert_eq!(e.cursor(), 0);
}

#[test]
fn editor_delete_line_in_the_middle() {
    let mut e = Editor::from_text("one\ntwo\nthree");
    e.move_down();
    e.move_right();
    e.delete_line();
    assert_eq!(e.text(), "one\nthree");
    assert_eq!(e.cursor(), 4);
    assert_eq!(e.line_count(), 2);
}

#[test]
fn editor_delete_last_line_takes_the_break_before_it() {
    let mut e = Editor::from_text("one\nthree");
    e.move_end_full();
    e.delete_line();
    assert_eq!(e.text(), "one");
    assert_eq!(e.cursor(), 3);
    assert_eq!(e.line_count(), 1);
}

#[test]
fn editor_delete_only_line_empties_the_text() {
    let mut e = at("abc", 2);
    e.delete_line();
    assert_eq!(e.text(), "");
    assert_eq!(e.cursor(), 0);
    assert_eq!(e.line_count(), 1);
}

#[test]
fn editor_insert_str_counts_its_line_breaks() {
    let mut e = Editor::from_text("x");
    e.insert_str("    ");
    assert_eq!(e.text(), "    x");
    assert_eq!(e.cursor(), 4);
    e.insert_str("a\nb\n");
    assert_eq!(e.text(), "    a\nb\nx");
    assert_eq!(e.line_count(), 3);
    assert_eq!(e.cursor_pos(), (0, 2));
}

#[test]
fn editor_visible_lines_cut_to_the_view() {
    let mut e = Editor::from_text("line one\nline two\nline three");
    e.set_viewport_size(20, 10);
    assert_eq!(e.visible_lines(), vec!["line one", "line two", "line three"]);
    e.set_viewport_size(4, 2);
    assert_eq!(e.visible_lines(), vec!["line", "line"]);
}

#[test]
fn editor_visible_lines_include_a_trailing_empty_line() {
    let mut e = Editor::from_text("a\n");
    e.set_viewport_size(10, 10);
    assert_eq!(e.visible_lines(), vec!["a", ""]);
}

#[test]
fn editor_scroll_keeps_a_margin_around_the_cursor() {
    let mut e = Editor::from_text("line one\nline two\nline three");
    e.set_viewport_size(20, 10);
    e.move_end_full();
    e.scroll_to_cursor();
    assert_eq!(e.viewport(), (0, 0, 20, 10));
    e.set_viewport_size(4, 2);
    e.scroll_to_cursor();
    assert_eq!(e.viewport(), (11, 5, 4, 2));
    assert!(e.visible_lines().is_empty());
    e.move_home_full();
    e.scroll_to_cursor();
    assert_eq!(e.viewport(), (0, 0, 4, 2));
    assert_eq!(e.visible_lines(), vec!["line", "line"]);
}

#[test]
fn editor_cursor_pos_counts_characters() {
    let mut e = Editor::from_text("x\nhéllo");
    e.move_end_full();
    assert_eq!(e.cursor(), 8);
    assert_eq!(e.cursor_pos(), (5, 1));
}

#[test]
fn editor_word_char_rule() {
    assert!(word_char('a', true));
    assert!(word_char('_', false));
    assert!(!word_char('-', false));
    assert!(!word_char(' ', false));
}

#[test]
fn editor_down_then_up_returns_to_the_cursor() {
    let mut e = at("abcdef\nab\nxyz", 5);
    e.move_down();
    assert_eq!(e.cursor(), 9);
    e.move_up();
    assert_eq!(e.cursor(), 5);
}
