use path_sense_lsp::text::{apply_range_change, offset_to_point, offset_to_position, position_to_offset, range_from_offsets, Point, Position, Range};

#[test]
fn apply_range_change_returns_expected_input_edit() {
    let mut text = "let path = \"./src/ma\";".to_string();
    let edit = apply_range_change(&mut text, Range::new(Position::new(0, 18), Position::new(0, 20)), "in").expect("edit");

    assert_eq!(text, "let path = \"./src/in\";");
    assert_eq!(edit.start_byte, 18);
    assert_eq!(edit.old_end_byte, 20);
    assert_eq!(edit.new_end_byte, 20);
}

#[test]
fn positions_count_utf16_columns_and_offsets_count_bytes() {
    let text = "aé😀\nb";
    assert_eq!(position_to_offset(text, Position::new(0, 0)), Some(0));
    assert_eq!(position_to_offset(text, Position::new(0, 2)), Some(3));
    assert_eq!(position_to_offset(text, Position::new(0, 4)), Some(7));
    assert_eq!(position_to_offset(text, Position::new(1, 1)), Some(9));
    assert_eq!(position_to_offset(text, Position::new(0, 3)), None);
    assert_eq!(position_to_offset(text, Position::new(2, 0)), None);
    assert_eq!(offset_to_position(text, 7), Some(Position::new(0, 4)));
    assert_eq!(offset_to_position(text, 2), None);
    assert_eq!(offset_to_point(text, 9), Some(Point { row: 1, column: 1 }));
    assert_eq!(range_from_offsets(text, 0, 8).map(|range| range.end), Some(Position::new(1, 0)));
}

#[test]
fn an_unknown_range_leaves_the_text_unchanged() {
    let mut text = "let path = \"./src/ma\";".to_string();
    assert!(apply_range_change(&mut text, Range::new(Position::new(99, 0), Position::new(99, 1)), "broken").is_none());
    assert_eq!(text, "let path = \"./src/ma\";");
}

#[test]
fn multi_line_insert_moves_the_end_point() {
    let mut text = "ab".to_string();
    let edit = apply_range_change(&mut text, Range::new(Position::new(0, 1), Position::new(0, 1)), "x\nyz").expect("edit");
    assert_eq!(text, "ax\nyzb");
    assert_eq!(edit.new_end_position, Point { row: 1, column: 2 });
    assert_eq!(edit.new_end_byte, 5);
}

#[test]
fn ordinary_texts_have_positions_that_fit() {
    assert!(path_sense_lsp::text::text_positions_fit("ab\ncd"));
    assert!(path_sense_lsp::text::text_positions_fit(""));
}
