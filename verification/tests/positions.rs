use cea_language_server::text::{byte_offset_at_position, byte_position, lsp_position, Position};

const SOURCE: &str = "ab\né😀x\n";

#[test]
fn finds_the_byte_offset_of_utf16_positions() {
    let bytes = SOURCE.as_bytes();
    assert_eq!(byte_offset_at_position(bytes, Position::new(0, 0)), Some(0));
    assert_eq!(byte_offset_at_position(bytes, Position::new(0, 2)), Some(2));
    assert_eq!(byte_offset_at_position(bytes, Position::new(0, 3)), None);
    assert_eq!(byte_offset_at_position(bytes, Position::new(1, 0)), Some(3));
    assert_eq!(byte_offset_at_position(bytes, Position::new(1, 1)), Some(5));
    assert_eq!(byte_offset_at_position(bytes, Position::new(1, 2)), None);
    assert_eq!(byte_offset_at_position(bytes, Position::new(1, 3)), Some(9));
    assert_eq!(byte_offset_at_position(bytes, Position::new(1, 4)), Some(10));
    assert_eq!(byte_offset_at_position(bytes, Position::new(1, 5)), None);
    assert_eq!(byte_offset_at_position(bytes, Position::new(5, 0)), Some(11));
    assert_eq!(byte_offset_at_position(bytes, Position::new(5, 1)), None);
}

#[test]
fn gives_the_position_of_a_byte_offset() {
    let bytes = SOURCE.as_bytes();
    assert_eq!(byte_position(bytes, 0), Position::new(0, 0));
    assert_eq!(byte_position(bytes, 3), Position::new(1, 0));
    assert_eq!(byte_position(bytes, 9), Position::new(1, 3));
    assert_eq!(byte_position(bytes, 4), Position::new(2, 0));
    assert_eq!(byte_position(bytes, 100), Position::new(2, 0));
}

#[test]
fn converts_syntax_points_to_utf16_positions() {
    let bytes = SOURCE.as_bytes();
    assert_eq!(lsp_position(bytes, 1, 2), Position::new(1, 1));
    assert_eq!(lsp_position(bytes, 1, 3), Position::new(1, 4));
    assert_eq!(lsp_position(bytes, 1, 7), Position::new(1, 4));
    assert_eq!(lsp_position(bytes, 5, 2), Position::new(5, 0));
}
