use lichen::analysis::{field_type_in_struct, match_close, split_top_level};

#[test]
fn a_named_field_type_reads_out_of_a_struct_type() {
    let ty = "struct<.succ Int -> Int, .add Int -> Int -> Int>";
    assert_eq!(field_type_in_struct(ty, "succ"), Some("Int -> Int".to_string()));
    assert_eq!(field_type_in_struct(ty, "add"), Some("Int -> Int -> Int".to_string()));
    assert_eq!(field_type_in_struct(ty, "mul"), None);
}

#[test]
fn a_nested_struct_field_keeps_its_brackets() {
    let ty = "struct<.inner struct<.x Int, .y Int>, .z <Int, Int>>";
    assert_eq!(
        field_type_in_struct(ty, "inner"),
        Some("struct<.x Int, .y Int>".to_string())
    );
    assert_eq!(field_type_in_struct(ty, "z"), Some("<Int, Int>".to_string()));
    assert_eq!(field_type_in_struct(ty, "x"), None);
}

#[test]
fn positional_and_malformed_fields_are_skipped() {
    assert_eq!(field_type_in_struct("struct<Int, .n Type>", "n"), Some("Type".to_string()));
    assert_eq!(field_type_in_struct("struct<.lonely, .n Int>", "lonely"), None);
    assert_eq!(field_type_in_struct("Int -> Int", "n"), None);
    assert_eq!(field_type_in_struct("struct<.n Int", "n"), None);
}

#[test]
fn the_close_of_an_arrow_is_not_a_bracket() {
    assert_eq!(match_close("Int -> Int> tail"), Some("Int -> Int"));
    assert_eq!(match_close("<a> b> c"), Some("<a> b"));
    assert_eq!(match_close("no close"), None);
}

#[test]
fn top_level_splitting_ignores_nested_separators() {
    assert_eq!(split_top_level("a, (b, c), <d, e>, f -> g", ','), vec!["a", " (b, c)", " <d, e>", " f -> g"]);
    assert_eq!(split_top_level("", ','), vec![""]);
    assert_eq!(split_top_level("x,", ','), vec!["x", ""]);
}

#[test]
fn split_segments_rejoin_to_the_source() {
    let s = ".a Int -> Int, .b (Int, Int), .c <Int, <Int>>";
    let parts = split_top_level(s, ',');
    assert_eq!(parts.len(), 3);
    assert_eq!(parts.join(","), s);
}

#[test]
fn one_more_segment_than_top_level_separators() {
    let v = split_top_level("<a, b>, c -> d", ',');
    assert_eq!(v, vec!["<a, b>", " c -> d"]);
    assert_eq!(split_top_level("a,b,(c,d)", ',').len(), 3);
}
