use lichen::lex::line_starts;
use lichen::lsp::{
    encode_semantic_tokens, offset_from_position, offset_of_span, position_at_offset,
    range_from_byte_range, range_from_span, semantic_token_legend, span_of_offset, utf16_len,
    Position, Range, SemanticTokenData, SemanticTokenModifier, SemanticTokenType,
};

#[test]
fn position_offset_round_trips() {
    let source = "a = 1\nb = a + 1\nb";
    let starts = line_starts(source);
    // The `a` use in `b = a + 1` is at line 1, byte column 4 (0-based col 4).
    let pos = position_at_offset(source, &starts, starts[1] + 4);
    assert_eq!(pos, Position { line: 1, character: 4 });
    let back = offset_from_position(source, &starts, pos).expect("position in source");
    assert_eq!(back, starts[1] + 4);
}

#[test]
fn span_of_offset_round_trips_to_1_based_span() {
    let source = "a = 1\nb";
    let starts = line_starts(source);
    // Byte offset of the `b` on line 2 (col 1).
    let offset = starts[1];
    assert_eq!(span_of_offset(&starts, offset), (2, 1));
}

#[test]
fn encode_semantic_tokens_delta_encodes_and_maps_legend_indices() {
    let source = "a = 1\nb = 2\na + b\n";
    let starts = line_starts(source);
    let tokens = vec![
        // `a` at line 0 char 0.
        SemanticTokenData { start: 0, end: 1, token_type: SemanticTokenType::VARIABLE, modifiers: Vec::new() },
        // `1` at line 0 char 4 (same line, so a delta_start).
        SemanticTokenData { start: 4, end: 5, token_type: SemanticTokenType::NUMBER, modifiers: Vec::new() },
        // `2` at line 1 char 4 (a new line, so an absolute delta_start).
        SemanticTokenData { start: 10, end: 11, token_type: SemanticTokenType::NUMBER, modifiers: Vec::new() },
    ];
    let encoded = encode_semantic_tokens(source, &starts, &tokens);
    assert_eq!(encoded.data.len(), 3);
    let legend = semantic_token_legend();
    let ty = |t: &SemanticTokenType| legend.token_types.iter().position(|x| x == t).unwrap() as u32;
    assert_eq!(encoded.data[0].delta_line, 0);
    assert_eq!(encoded.data[0].delta_start, 0);
    assert_eq!(encoded.data[0].length, 1);
    assert_eq!(encoded.data[0].token_type, ty(&SemanticTokenType::VARIABLE));
    assert_eq!(encoded.data[1].delta_line, 0);
    assert_eq!(encoded.data[1].delta_start, 4);
    assert_eq!(encoded.data[1].token_type, ty(&SemanticTokenType::NUMBER));
    assert_eq!(encoded.data[2].delta_line, 1);
    assert_eq!(encoded.data[2].delta_start, 4);
    assert_eq!(encoded.data[2].token_type, ty(&SemanticTokenType::NUMBER));
}

#[test]
fn line_starts_follow_each_newline() {
    assert_eq!(line_starts(""), vec![0]);
    assert_eq!(line_starts("a\nbc\n"), vec![0, 2, 5]);
    assert_eq!(line_starts("é\nx"), vec![0, 3]);
}

#[test]
fn positions_count_utf16_units() {
    // `é` is two UTF-8 bytes and one UTF-16 unit; `𝒜` is four and two.
    let source = "é𝒜x\ny";
    let starts = line_starts(source);
    assert_eq!(utf16_len("é𝒜x"), 4);
    assert_eq!(position_at_offset(source, &starts, 6), Position { line: 0, character: 3 });
    assert_eq!(position_at_offset(source, &starts, 7), Position { line: 0, character: 4 });
    assert_eq!(position_at_offset(source, &starts, 8), Position { line: 1, character: 0 });
    // Offsets past the end clamp to it.
    assert_eq!(position_at_offset(source, &starts, 100), Position { line: 1, character: 1 });
    assert_eq!(offset_from_position(source, &starts, Position { line: 0, character: 3 }), Some(6));
}

#[test]
fn offset_from_position_past_the_line_or_table() {
    let source = "ab\ncd";
    let starts = line_starts(source);
    // A character past the line's end stops at the line's end (its newline).
    assert_eq!(offset_from_position(source, &starts, Position { line: 0, character: 9 }), Some(3));
    assert_eq!(offset_from_position(source, &starts, Position { line: 1, character: 9 }), Some(5));
    // A line past the table has no offset.
    assert_eq!(offset_from_position(source, &starts, Position { line: 2, character: 0 }), None);
}

#[test]
fn offset_of_span_reads_1_based_spans() {
    let starts = line_starts("ab\ncd\nef");
    assert_eq!(offset_of_span(&starts, (2, 2)), 4);
    assert_eq!(offset_of_span(&starts, (1, 0)), 0);
    // A line outside the table gives the last line's start.
    assert_eq!(offset_of_span(&starts, (0, 5)), 6);
    assert_eq!(offset_of_span(&starts, (9, 1)), 6);
    assert_eq!(offset_of_span(&[], (3, 3)), 0);
    for off in 0..8 {
        assert_eq!(offset_of_span(&starts, span_of_offset(&starts, off)), off);
    }
}

#[test]
fn ranges_widen_a_span_to_one_character() {
    let source = "a = é\n";
    let starts = line_starts(source);
    assert_eq!(
        range_from_span(source, &starts, (1, 5)),
        Range { start: Position { line: 0, character: 4 }, end: Position { line: 0, character: 5 } }
    );
    // At the very end of the source the range is empty.
    assert_eq!(
        range_from_span(source, &starts, (2, 1)),
        Range { start: Position { line: 1, character: 0 }, end: Position { line: 1, character: 0 } }
    );
    assert_eq!(
        range_from_byte_range(source, &starts, (0, 1)),
        Range { start: Position { line: 0, character: 0 }, end: Position { line: 0, character: 1 } }
    );
}

#[test]
fn semantic_token_modifiers_and_unknown_types() {
    let source = "let x";
    let starts = line_starts(source);
    let tokens = vec![
        SemanticTokenData {
            start: 4,
            end: 5,
            token_type: SemanticTokenType::VARIABLE,
            modifiers: vec![SemanticTokenModifier::READONLY, SemanticTokenModifier::DECLARATION],
        },
        SemanticTokenData {
            start: 4,
            end: 5,
            token_type: SemanticTokenType::MACRO,
            modifiers: vec![SemanticTokenModifier::STATIC],
        },
    ];
    let encoded = encode_semantic_tokens(source, &starts, &tokens);
    assert!(encoded.result_id.is_none());
    assert_eq!(encoded.data[0].delta_start, 4);
    assert_eq!(encoded.data[0].token_type, 1);
    assert_eq!(encoded.data[0].token_modifiers_bitset, 1);
    // A type outside the legend maps to index 0; a modifier outside it sets no bit.
    assert_eq!(encoded.data[1].delta_start, 0);
    assert_eq!(encoded.data[1].token_type, 0);
    assert_eq!(encoded.data[1].token_modifiers_bitset, 0);
}

#[test]
fn span_of_offset_needs_no_sorted_table() {
    assert_eq!(span_of_offset(&[], 4), (1, 5));
    assert_eq!(span_of_offset(&[0, 10, 5], 7), (1, 8));
}
