use ratmail::compose::{compose_token_at_cursor, 
    char_index_from_row_col, clamp_cursor, compose_focus_next, compose_focus_prev, cursor_line_col, next_index,
    prev_index, remove_char_at, replace_range_chars, ComposeBuffer,
};
use ratmail::types::ComposeFocus;

#[test]
fn delete_line_by_end_removes_current_line() {
    let mut buf = ComposeBuffer::new("one\ntwo\nthree");
    buf.set_cursor(1, 1);
    buf.delete_line_by_end();
    assert_eq!(buf.text(), "one\nthree");
    assert_eq!(buf.cursor(), (1, 0));
}

#[test]
fn word_navigation_moves_across_whitespace() {
    let mut buf = ComposeBuffer::new("alpha  beta gamma");
    buf.move_cursor_word_forward();
    assert_eq!(buf.cursor(), (0, 7));
    buf.move_cursor_word_forward();
    assert_eq!(buf.cursor(), (0, 12));
    buf.move_cursor_word_back();
    assert_eq!(buf.cursor(), (0, 7));
}

#[test]
fn insert_and_delete_chars_edit_at_cursor() {
    let mut buf = ComposeBuffer::new("");
    buf.insert_char('a');
    buf.insert_char('b');
    assert_eq!(buf.text(), "ab");
    buf.delete_prev_char();
    assert_eq!(buf.text(), "a");
    buf.insert_char('\r');
    assert_eq!(buf.text(), "a\n");
    assert_eq!(buf.cursor(), (1, 0));
}

#[test]
fn head_end_and_up_follow_rows() {
    let mut buf = ComposeBuffer::new("first line\nab");
    buf.set_cursor(1, 2);
    buf.move_cursor_head();
    assert_eq!(buf.cursor(), (1, 0));
    buf.move_cursor_end();
    assert_eq!(buf.cursor(), (1, 2));
    buf.move_cursor_up();
    assert_eq!(buf.cursor(), (0, 2));
    assert_eq!(buf.line_at(0), Some("first line".to_string()));
    assert_eq!(buf.line_at(2), None);
    assert_eq!(buf.lines(), vec!["first line".to_string(), "ab".to_string()]);
}

#[test]
fn scroll_follows_cursor_row() {
    let mut buf = ComposeBuffer::new("a\nb\nc\nd\ne");
    buf.set_cursor(4, 0);
    buf.update_scroll(2);
    assert_eq!(buf.scroll_top(), 3);
    buf.set_cursor(0, 0);
    buf.update_scroll(2);
    assert_eq!(buf.scroll_top(), 0);
}

#[test]
fn cursor_helpers_count_characters() {
    assert_eq!(cursor_line_col("ab\ncd", 4), (1, 1));
    assert_eq!(cursor_line_col("ab", 10), (0, 2));
    assert_eq!(char_index_from_row_col("ab\r\ncd", 1, 5), 5);
    assert_eq!(char_index_from_row_col("ab", 3, 0), 3);
    assert_eq!(clamp_cursor(9, "héllo"), 5);
    let mut s = "héllo".to_string();
    remove_char_at(&mut s, 1);
    assert_eq!(s, "hllo");
    let mut t = "one two".to_string();
    replace_range_chars(&mut t, 0, 3, "1");
    assert_eq!(t, "1 two");
}

#[test]
fn list_indices_wrap() {
    assert_eq!(next_index(2, 3), 0);
    assert_eq!(next_index(0, 0), 0);
    assert_eq!(prev_index(0, 3), 2);
    assert_eq!(prev_index(2, 3), 1);
    assert_eq!(compose_focus_next(ComposeFocus::Body), ComposeFocus::To);
    assert_eq!(compose_focus_prev(ComposeFocus::To), ComposeFocus::Body);
}

#[test]
fn token_at_cursor_finds_address_being_typed() {
    assert_eq!(compose_token_at_cursor("a@x.com, bo", 11), Some((9, 11, "bo".to_string())));
    assert_eq!(compose_token_at_cursor("a@x.com, bo", 10), None);
    assert_eq!(compose_token_at_cursor("a@x.com, ", 9), None);
    assert_eq!(compose_token_at_cursor("abc", 9), None);
}
