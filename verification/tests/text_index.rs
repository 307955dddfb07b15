use jylsp::text_index::{Position, Range, TextIndex};

fn at(line: u32, character: u32) -> Position {
    Position { line, character }
}

#[test]
fn lines_and_columns() {
    let index = TextIndex::new("ab\ncd\n\ne");
    assert_eq!(index.position_from_byte(0), at(0, 0));
    assert_eq!(index.position_from_byte(1), at(0, 1));
    assert_eq!(index.position_from_byte(2), at(0, 2));
    assert_eq!(index.position_from_byte(3), at(1, 0));
    assert_eq!(index.position_from_byte(6), at(2, 0));
    assert_eq!(index.position_from_byte(7), at(3, 0));
    assert_eq!(index.position_from_byte(8), at(3, 1));
}

#[test]
fn offset_behind_the_end_is_the_end() {
    let index = TextIndex::new("ab\nc");
    assert_eq!(index.position_from_byte(4), at(1, 1));
    assert_eq!(index.position_from_byte(5), at(1, 1));
    assert_eq!(index.position_from_byte(usize::MAX), at(1, 1));
    let empty = TextIndex::new("");
    assert_eq!(empty.position_from_byte(0), at(0, 0));
    assert_eq!(empty.position_from_byte(9), at(0, 0));
}

#[test]
fn columns_count_utf16_code_units() {
    // One byte, two bytes, three bytes, four bytes.
    let index = TextIndex::new("a\u{e9}\u{20ac}\u{1f600}b");
    assert_eq!(index.position_from_byte(1), at(0, 1));
    assert_eq!(index.position_from_byte(3), at(0, 2));
    assert_eq!(index.position_from_byte(6), at(0, 3));
    assert_eq!(index.position_from_byte(10), at(0, 5));
    assert_eq!(index.position_from_byte(11), at(0, 6));
}

#[test]
fn offset_within_a_character_is_its_start() {
    let index = TextIndex::new("x\u{1f600}y");
    for byte in 1..5 {
        assert_eq!(index.position_from_byte(byte), at(0, 1));
    }
    assert_eq!(index.position_from_byte(5), at(0, 3));
}

#[test]
fn carriage_return_is_part_of_its_line() {
    let index = TextIndex::new("a\r\nb");
    assert_eq!(index.position_from_byte(2), at(0, 2));
    assert_eq!(index.position_from_byte(3), at(1, 0));
}

#[test]
fn ranges_go_from_start_to_end() {
    let index = TextIndex::new("ab\ncd");
    assert_eq!(index.range_from_bytes(1, 4), Range { start: at(0, 1), end: at(1, 1) });
    assert_eq!(index.range_from_bytes(0, 0), Range::default());
}

#[test]
fn range_with_its_end_before_its_start() {
    let index = TextIndex::new("ab\ncd");
    assert_eq!(index.range_from_bytes(4, 1), Range { start: at(1, 1), end: at(0, 1) });
}

#[test]
fn positions_keep_the_order_of_offsets() {
    let index = TextIndex::new("a\u{e9}\nb\u{1f600}\n\nc");
    let mut last = index.position_from_byte(0);
    for byte in 1..14 {
        let next = index.position_from_byte(byte);
        assert!((last.line, last.character) <= (next.line, next.character));
        last = next;
    }
}
