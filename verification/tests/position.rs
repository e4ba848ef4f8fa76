use fallow::lsp::position::{byte_col_to_utf16, utf16_span};

#[test]
fn ascii_columns_pass_through() {
    assert_eq!(byte_col_to_utf16("const helper = 1;\n", 0, 6), 6);
}

#[test]
fn emoji_before_token_converts_to_utf16() {
    assert_eq!(
        byte_col_to_utf16("const emoji = \"🎉\"; helper\n", 0, 22),
        20
    );
}

#[test]
fn byte_col_past_line_end_clamps() {
    assert_eq!(byte_col_to_utf16("🎉\n", 0, 200), 2);
}

#[test]
fn missing_line_falls_back_to_byte_col() {
    assert_eq!(byte_col_to_utf16("only one line", 4, 42), 42);
}

#[test]
fn later_lines_and_mid_character_columns() {
    // Line 1 is "aé€b": 'é' is two bytes, '€' three, each one UTF-16 unit.
    let text = "x\naé€b\n";
    assert_eq!(byte_col_to_utf16(text, 1, 0), 0);
    assert_eq!(byte_col_to_utf16(text, 1, 3), 2);
    // Byte 2 falls inside 'é': moved back to its start.
    assert_eq!(byte_col_to_utf16(text, 1, 2), 1);
    assert_eq!(byte_col_to_utf16(text, 1, 6), 3);
    assert_eq!(byte_col_to_utf16(text, 1, 7), 4);
    // The empty line after the final line feed exists; one more does not.
    assert_eq!(byte_col_to_utf16(text, 2, 5), 0);
    assert_eq!(byte_col_to_utf16(text, 3, 5), 5);
    assert_eq!(byte_col_to_utf16("", 0, 9), 0);
}

#[test]
fn identifier_spans_count_utf16_units() {
    assert_eq!(utf16_span(4, "helper"), (4, 10));
    assert_eq!(utf16_span(0, "🎉x"), (0, 3));
    assert_eq!(utf16_span(u32::MAX - 1, "abc"), (u32::MAX - 1, u32::MAX));
    assert_eq!(utf16_span(7, ""), (7, 7));
}
