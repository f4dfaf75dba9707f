use lichen::diag::Stage;
use lichen::lex::{lex, Token, TokenKind};

fn kinds(source: &str) -> Vec<TokenKind> {
    lex(source).unwrap().into_iter().map(|t| t.kind).collect()
}

fn lex_one(source: &str) -> Token {
    let tokens = lex(source).unwrap();
    assert_eq!(tokens.len(), 2, "one token plus Eof");
    tokens.into_iter().next().unwrap()
}

#[test]
fn tokens_of_a_small_program() {
    assert_eq!(
        kinds("x => 5 : Int"),
        vec![
            TokenKind::Name("x".to_string()),
            TokenKind::FatArrow,
            TokenKind::Int(5),
            TokenKind::Colon,
            TokenKind::KwInt,
            TokenKind::Eof,
        ]
    );
}

#[test]
fn arrows_and_punctuation() {
    assert_eq!(
        kinds("(a, b) : A -> B <3>"),
        vec![
            TokenKind::LParen,
            TokenKind::Name("a".to_string()),
            TokenKind::Comma,
            TokenKind::Name("b".to_string()),
            TokenKind::RParen,
            TokenKind::Colon,
            TokenKind::Name("A".to_string()),
            TokenKind::Arrow,
            TokenKind::Name("B".to_string()),
            TokenKind::LAngle,
            TokenKind::Int(3),
            TokenKind::RAngle,
            TokenKind::Eof,
        ]
    );
}

#[test]
fn int_and_type_are_keywords_but_not_prefixes() {
    assert_eq!(
        kinds("Int Type Int2 int"),
        vec![
            TokenKind::KwInt,
            TokenKind::KwType,
            TokenKind::Name("Int2".to_string()),
            TokenKind::Name("int".to_string()),
            TokenKind::Eof,
        ]
    );
}

#[test]
fn comments_are_skipped() {
    assert_eq!(
        kinds("5 -- a comment\n-- another\n 6"),
        vec![TokenKind::Int(5), TokenKind::Int(6), TokenKind::Eof]
    );
}

#[test]
fn spans_track_line_and_column() {
    let token = lex_one("  x");
    assert_eq!(token.span, (1, 3));
    let token = lex_one("\n\n  y");
    assert_eq!(token.span, (3, 3));
}

#[test]
fn angle_brackets_lex_as_their_own_tokens() {
    // `Int<3>` — the array type; `<Int, Type>` — the tuple type.  Both
    // are plain tokens; no adjacency rule exists.
    assert_eq!(
        kinds("Int<3> <Int, Type>"),
        vec![
            TokenKind::KwInt,
            TokenKind::LAngle,
            TokenKind::Int(3),
            TokenKind::RAngle,
            TokenKind::LAngle,
            TokenKind::KwInt,
            TokenKind::Comma,
            TokenKind::KwType,
            TokenKind::RAngle,
            TokenKind::Eof,
        ]
    );
}

#[test]
fn an_unexpected_character_is_a_lex_error() {
    let err = lex("x @ y").unwrap_err();
    assert_eq!(err.stage, Stage::Lex);
    assert_eq!(err.message, "unexpected character '@'");
    assert_eq!(err.span, Some((1, 3)));
}

#[test]
fn an_overflowing_literal_is_a_lex_error() {
    let err = lex("99999999999999999999999999999999999999").unwrap_err();
    assert_eq!(err.message, "integer literal out of range");
}

// --- beyond the original's cases -------------------------------------------

#[test]
fn struct_is_a_keyword_and_braces_are_tokens() {
    assert_eq!(
        kinds("struct { Int, Type };"),
        vec![
            TokenKind::KwStruct,
            TokenKind::LBrace,
            TokenKind::KwInt,
            TokenKind::Comma,
            TokenKind::KwType,
            TokenKind::RBrace,
            TokenKind::Semicolon,
            TokenKind::Eof,
        ]
    );
}

#[test]
fn equals_and_fat_arrow_are_distinct() {
    assert_eq!(
        kinds("a = b => c"),
        vec![
            TokenKind::Name("a".to_string()),
            TokenKind::Equals,
            TokenKind::Name("b".to_string()),
            TokenKind::FatArrow,
            TokenKind::Name("c".to_string()),
            TokenKind::Eof,
        ]
    );
}

#[test]
fn a_lone_minus_is_a_lex_error() {
    let err = lex("1 - 2").unwrap_err();
    assert_eq!(err.message, "unexpected character '-'");
    assert_eq!(err.span, Some((1, 3)));
}

#[test]
fn a_non_ascii_character_is_reported_whole() {
    let err = lex("x é").unwrap_err();
    assert_eq!(err.message, "unexpected character 'é'");
    assert_eq!(err.span, Some((1, 3)));
}

#[test]
fn a_wide_comment_counts_bytes_in_the_end_column() {
    // `é` is two bytes: the Eof after `-- é` sits at column 1 + 5.
    let tokens = lex("-- é").unwrap();
    assert_eq!(tokens.len(), 1);
    assert_eq!(tokens[0].kind, TokenKind::Eof);
    assert_eq!(tokens[0].span, (1, 6));
}

#[test]
fn the_empty_source_is_just_eof() {
    let tokens = lex("").unwrap();
    assert_eq!(tokens.len(), 1);
    assert_eq!(tokens[0].kind, TokenKind::Eof);
    assert_eq!(tokens[0].span, (1, 1));
}

#[test]
fn the_largest_literal_lexes() {
    let max = usize::MAX.to_string();
    assert_eq!(kinds(&max), vec![TokenKind::Int(usize::MAX), TokenKind::Eof]);
    let over = format!("{}0", max);
    assert_eq!(lex(&over).unwrap_err().message, "integer literal out of range");
}

#[test]
fn describe_spells_each_kind() {
    assert_eq!(TokenKind::Int(7).describe(), "an integer literal");
    assert_eq!(TokenKind::Name("x".to_string()).describe(), "a name");
    assert_eq!(TokenKind::KwInt.describe(), "'Int'");
    assert_eq!(TokenKind::Arrow.describe(), "'->'");
    assert_eq!(TokenKind::Eof.describe(), "the end of the program");
}

#[test]
fn a_fixed_spelling_lexes_to_a_kind_described_by_it_in_quotes() {
    for s in ["Int", "Type", "struct", "->", "=>", ":", "=", ";", ",", "(", ")", "[", "]", "<", ">", "{", "}"] {
        let ts = lex(s).unwrap();
        assert_eq!(ts[0].kind.describe(), format!("'{}'", s));
    }
    assert_eq!(TokenKind::Int(1).describe(), TokenKind::Int(2).describe());
}
