use karukan_im::InputBuffer;

#[test]
fn new_buffer_is_empty() {
    let b = InputBuffer::new();
    assert_eq!(b.text(), "");
    assert_eq!(b.raw_text(), "");
    assert_eq!(b.cursor_pos, 0);
}

#[test]
fn clear_empties_units_and_cursor() {
    let mut b = InputBuffer::new();
    b.insert_unit("shi", "し");
    b.insert("ab");
    b.clear();
    assert_eq!(b.text(), "");
    assert_eq!(b.raw_text(), "");
    assert_eq!(b.cursor_pos, 0);
}

#[test]
fn unit_keeps_raw_keystrokes() {
    let mut b = InputBuffer::new();
    b.insert_unit("shi", "し");
    assert_eq!(b.text(), "し");
    assert_eq!(b.raw_text(), "shi");
    assert_eq!(b.cursor_pos, 1);
}

#[test]
fn literal_insert_has_raw_equal_to_text() {
    let mut b = InputBuffer::new();
    b.insert("Iso 🎉");
    assert_eq!(b.text(), "Iso 🎉");
    assert_eq!(b.raw_text(), b.text());
    assert_eq!(b.cursor_pos, 5);
}

#[test]
fn insert_counts_cursor_in_characters() {
    let mut b = InputBuffer::new();
    b.insert("あいう");
    assert_eq!(b.cursor_pos, 3);
    b.insert_unit("kya", "きゃ");
    assert_eq!(b.cursor_pos, 5);
}

#[test]
fn insert_at_unit_boundary_keeps_raw() {
    let mut b = InputBuffer::new();
    b.insert_unit("ka", "か");
    b.insert_unit("shi", "し");
    b.cursor_pos = 1;
    b.insert("a");
    assert_eq!(b.text(), "かaし");
    assert_eq!(b.raw_text(), "kaashi");
    assert_eq!(b.cursor_pos, 2);
}

#[test]
fn insert_inside_unit_degrades_only_that_unit() {
    let mut b = InputBuffer::new();
    b.insert_unit("ka", "か");
    b.insert_unit("kya", "きゃ");
    b.insert_unit("shi", "し");
    b.cursor_pos = 2;
    b.insert("x");
    assert_eq!(b.text(), "かきxゃし");
    assert_eq!(b.raw_text(), "kaきxゃshi");
    assert_eq!(b.cursor_pos, 3);
}

#[test]
fn insert_unit_inside_unit_degrades_only_that_unit() {
    let mut b = InputBuffer::new();
    b.insert_unit("kya", "きゃ");
    b.cursor_pos = 1;
    b.insert_unit("n", "ん");
    assert_eq!(b.text(), "きんゃ");
    assert_eq!(b.raw_text(), "きnゃ");
    assert_eq!(b.cursor_pos, 2);
}

#[test]
fn insert_past_end_appends() {
    let mut b = InputBuffer::new();
    b.insert("ab");
    b.cursor_pos = 10;
    b.insert("c");
    assert_eq!(b.text(), "abc");
    assert_eq!(b.cursor_pos, 11);
}

#[test]
fn empty_insert_changes_nothing() {
    let mut b = InputBuffer::new();
    b.insert_unit("kya", "きゃ");
    b.cursor_pos = 1;
    b.insert("");
    b.insert_unit("q", "");
    assert_eq!(b.text(), "きゃ");
    assert_eq!(b.raw_text(), "kya");
    assert_eq!(b.cursor_pos, 1);
}

#[test]
fn remove_char_at_returns_the_character() {
    let mut b = InputBuffer::new();
    b.insert("abc");
    assert_eq!(b.remove_char_at(1), Some('b'));
    assert_eq!(b.text(), "ac");
    assert_eq!(b.cursor_pos, 3);
}

#[test]
fn remove_char_at_out_of_range_is_none() {
    let mut b = InputBuffer::new();
    b.insert_unit("ka", "か");
    assert_eq!(b.remove_char_at(1), None);
    assert_eq!(b.remove_char_at(7), None);
    assert_eq!(b.text(), "か");
    assert_eq!(b.raw_text(), "ka");
}

#[test]
fn remove_inside_unit_degrades_only_that_unit() {
    let mut b = InputBuffer::new();
    b.insert_unit("ka", "か");
    b.insert_unit("kya", "きゃ");
    b.insert_unit("shi", "し");
    assert_eq!(b.text(), "かきゃし");
    assert_eq!(b.raw_text(), "kakyashi");
    assert_eq!(b.remove_char_at(2), Some('ゃ'));
    assert_eq!(b.text(), "かきし");
    assert_eq!(b.raw_text(), "kaきshi");
}

#[test]
fn remove_whole_unit_keeps_others_raw() {
    let mut b = InputBuffer::new();
    b.insert_unit("ka", "か");
    b.insert_unit("shi", "し");
    assert_eq!(b.remove_char_at(0), Some('か'));
    assert_eq!(b.text(), "し");
    assert_eq!(b.raw_text(), "shi");
}

#[test]
fn backspace_at_start_is_none() {
    let mut b = InputBuffer::new();
    b.insert("ab");
    b.cursor_pos = 0;
    assert_eq!(b.remove_char_before_cursor(), None);
    assert_eq!(b.text(), "ab");
    assert_eq!(b.cursor_pos, 0);
}

#[test]
fn backspace_moves_cursor_back() {
    let mut b = InputBuffer::new();
    b.insert("abc");
    b.cursor_pos = 2;
    assert_eq!(b.remove_char_before_cursor(), Some('b'));
    assert_eq!(b.text(), "ac");
    assert_eq!(b.cursor_pos, 1);
}

#[test]
fn backspace_past_end_moves_cursor_only() {
    let mut b = InputBuffer::new();
    b.insert("ab");
    b.cursor_pos = 5;
    assert_eq!(b.remove_char_before_cursor(), None);
    assert_eq!(b.text(), "ab");
    assert_eq!(b.cursor_pos, 4);
}

#[test]
fn delete_at_cursor_keeps_cursor() {
    let mut b = InputBuffer::new();
    b.insert("abc");
    b.cursor_pos = 1;
    assert_eq!(b.remove_char_at_cursor(), Some('b'));
    assert_eq!(b.text(), "ac");
    assert_eq!(b.cursor_pos, 1);
    b.cursor_pos = 2;
    assert_eq!(b.remove_char_at_cursor(), None);
    assert_eq!(b.text(), "ac");
}

#[test]
fn backspace_undoes_one_character_insert() {
    let mut b = InputBuffer::new();
    b.insert_unit("ka", "か");
    b.insert_unit("shi", "し");
    b.cursor_pos = 1;
    b.insert("x");
    assert_eq!(b.text(), "かxし");
    assert_eq!(b.remove_char_before_cursor(), Some('x'));
    assert_eq!(b.text(), "かし");
    assert_eq!(b.raw_text(), "kashi");
    assert_eq!(b.cursor_pos, 1);
}

#[test]
fn backspace_after_insert_past_end_does_not_undo() {
    // The one input on which backspace does not undo an insert: a cursor
    // past the end of the text.
    let mut b = InputBuffer::new();
    b.insert("ab");
    b.cursor_pos = 3;
    b.insert("c");
    assert_eq!(b.text(), "abc");
    assert_eq!(b.remove_char_before_cursor(), None);
    assert_eq!(b.text(), "abc");
}

#[test]
fn split_by_char_to_string_builds_singletons() {
    // Splitting a unit builds one-character strings for each kana character.
    let mut b = InputBuffer::new();
    b.insert_unit("kyo", "きょ");
    b.cursor_pos = 1;
    b.insert("");
    assert_eq!(b.raw_text(), "kyo");
    b.insert("-");
    assert_eq!(b.raw_text(), "き-ょ");
    assert_eq!(b.remove_char_at(2), Some('ょ'));
    assert_eq!(b.raw_text(), "き-");
}

#[test]
fn set_cursor_moves_cursor_only() {
    let mut b = InputBuffer::new();
    b.insert_unit("kya", "きゃ");
    b.set_cursor(1);
    assert_eq!(b.get_cursor(), 1);
    assert_eq!(b.cursor_pos, 1);
    assert_eq!(b.text(), "きゃ");
    assert_eq!(b.raw_text(), "kya");
}

#[test]
fn insert_twice_equals_insert_once() {
    let mut b1 = InputBuffer::new();
    b1.insert_unit("kya", "きゃ");
    b1.set_cursor(1);
    let mut b2 = InputBuffer::new();
    b2.insert_unit("kya", "きゃ");
    b2.set_cursor(1);
    b1.insert("a");
    b1.insert("bc");
    b2.insert("abc");
    assert_eq!(b1.text(), b2.text());
    assert_eq!(b1.raw_text(), b2.raw_text());
    assert_eq!(b1.get_cursor(), b2.get_cursor());
    assert_eq!(b1.text(), "きabcゃ");
}

#[test]
fn backspace_undoes_unit_insert_at_boundary() {
    let mut b = InputBuffer::new();
    b.insert_unit("ka", "か");
    b.insert_unit("shi", "し");
    b.set_cursor(1);
    b.insert_unit("nn", "ん");
    assert_eq!(b.raw_text(), "kannshi");
    assert_eq!(b.remove_char_before_cursor(), Some('ん'));
    assert_eq!(b.text(), "かし");
    assert_eq!(b.raw_text(), "kashi");
    assert_eq!(b.get_cursor(), 1);
}

#[test]
fn remove_first_char_of_multi_char_unit_keeps_rest_literal() {
    let mut b = InputBuffer::new();
    b.insert_unit("ka", "か");
    b.insert_unit("kyo", "きょ");
    assert_eq!(b.remove_char_at(1), Some('き'));
    assert_eq!(b.text(), "かょ");
    assert_eq!(b.raw_text(), "kaょ");
}

#[test]
fn literal_buffer_raw_stays_text_after_edits() {
    let mut b = InputBuffer::new();
    b.insert("hello");
    b.set_cursor(2);
    b.insert("XY");
    assert_eq!(b.remove_char_before_cursor(), Some('Y'));
    assert_eq!(b.remove_char_at_cursor(), Some('l'));
    assert_eq!(b.text(), "heXlo");
    assert_eq!(b.raw_text(), b.text());
}
