use yarnpkg_parsers::{parse, Attempt, ParseError, Shape, Value};

fn text(t: &str) -> Value {
    Value::String(t.to_string())
}

fn object(entries: Vec<(&str, Value)>) -> Value {
    Value::Object(entries.into_iter().map(|(k, v)| (k.to_string(), v)).collect())
}

fn whole(input: &str) -> Value {
    let (rest, v) = parse(input.as_bytes()).expect("document parses");
    assert!(rest.is_empty(), "unparsed tail: {:?}", rest);
    v
}

fn failed_at(items: usize, props: usize, flow: usize, scalar: usize) -> ParseError {
    ParseError {
        offset: items.max(props).max(flow).max(scalar),
        tried: vec![
            Attempt { shape: Shape::ItemList, offset: items },
            Attempt { shape: Shape::PropertyMap, offset: props },
            Attempt { shape: Shape::FlowSequence, offset: flow },
            Attempt { shape: Shape::Scalar, offset: scalar },
        ],
    }
}

#[test]
fn single_property() {
    assert_eq!(whole("key: value\n"), object(vec![("key", text("value"))]));
}

#[test]
fn two_items() {
    assert_eq!(whole("- a\n- b\n"), Value::Array(vec![text("a"), text("b")]));
}

#[test]
fn nested_property_map() {
    assert_eq!(
        whole("foo:\n  bar: 1\n"),
        object(vec![("foo", object(vec![("bar", text("1"))]))])
    );
}

#[test]
fn flow_sequence_value() {
    assert_eq!(
        whole("a: [1, 2, 3]\n"),
        object(vec![("a", Value::Array(vec![text("1"), text("2"), text("3")]))])
    );
}

#[test]
fn escaped_newline_in_quotes() {
    assert_eq!(whole("k: \"line1\\nline2\"\n"), object(vec![("k", text("line1\nline2"))]));
}

#[test]
fn leading_comment_is_dropped() {
    assert_eq!(whole("# note\nkey: val\n"), object(vec![("key", text("val"))]));
}

#[test]
fn unicode_escape() {
    assert_eq!(whole("k: \"\\u00e9\"\n"), object(vec![("k", text("é"))]));
}

#[test]
fn unicode_escape_upper_case_digits() {
    assert_eq!(whole("k: \"\\u00E9\\u00e9\"\n"), object(vec![("k", text("éé"))]));
}

#[test]
fn unicode_escape_three_bytes() {
    assert_eq!(whole("k: \"\\u20AC\"\n"), object(vec![("k", text("€"))]));
}

#[test]
fn surrogate_escape_is_rejected() {
    assert_eq!(parse(b"k: \"\\ud800\"\n"), Err(failed_at(0, 4, 0, 1)));
}

#[test]
fn short_unicode_escape_is_rejected() {
    assert_eq!(parse(b"k: \"\\u00e\"\n"), Err(failed_at(0, 4, 0, 1)));
}

#[test]
fn every_simple_escape() {
    assert_eq!(
        whole("k: \"\\n\\r\\t\\b\\f\\\"\\\\\\/\"\n"),
        object(vec![("k", text("\n\r\t\u{8}\u{c}\"\\/"))])
    );
}

#[test]
fn each_simple_escape_is_one_character() {
    let cases = [
        ("n", '\n'),
        ("r", '\r'),
        ("t", '\t'),
        ("b", '\u{8}'),
        ("f", '\u{c}'),
        ("\"", '"'),
        ("\\", '\\'),
        ("/", '/'),
    ];
    for (code, c) in cases {
        let input = format!("k: \"\\{}\"\n", code);
        assert_eq!(whole(&input), object(vec![("k", Value::String(c.to_string()))]));
    }
}

#[test]
fn unknown_escape_is_rejected() {
    assert_eq!(parse(b"k: \"\\q\"\n"), Err(failed_at(0, 4, 0, 1)));
}

#[test]
fn unterminated_quote_is_rejected() {
    assert_eq!(parse(b"k: \"abc\n"), Err(failed_at(0, 8, 0, 1)));
}

#[test]
fn delete_byte_in_quotes_is_rejected() {
    assert_eq!(parse(b"k: \"a\x7fb\"\n"), Err(failed_at(0, 5, 0, 1)));
}

#[test]
fn empty_quoted_scalar() {
    assert_eq!(whole("k: \"\"\n"), object(vec![("k", text(""))]));
}

#[test]
fn quoted_text_with_spaces_and_colon() {
    assert_eq!(whole("k: \"a: b, [c]\"\n"), object(vec![("k", text("a: b, [c]"))]));
}

#[test]
fn quoted_key() {
    assert_eq!(whole("\"a b\": c\n"), object(vec![("a b", text("c"))]));
}

#[test]
fn later_duplicate_key_wins() {
    assert_eq!(whole("k: 1\nk: 2\n"), object(vec![("k", text("2"))]));
}

#[test]
fn duplicate_key_keeps_other_entries() {
    assert_eq!(
        whole("a: 1\nb: 2\na: 3\n"),
        object(vec![("a", text("3")), ("b", text("2"))])
    );
}

#[test]
fn items_keep_their_order() {
    assert_eq!(
        whole("- c\n- a\n- b\n- a\n"),
        Value::Array(vec![text("c"), text("a"), text("b"), text("a")])
    );
}

#[test]
fn nested_item_list() {
    assert_eq!(
        whole("a:\n  - x\n  - y\nb: z\n"),
        object(vec![("a", Value::Array(vec![text("x"), text("y")])), ("b", text("z"))])
    );
}

#[test]
fn item_holding_a_map() {
    assert_eq!(
        whole("- \n  k: v\n  l: w\n"),
        Value::Array(vec![object(vec![("k", text("v")), ("l", text("w"))])])
    );
}

#[test]
fn item_marker_needs_whitespace() {
    assert_eq!(parse(b"-\n  k: v\n"), Err(failed_at(1, 0, 0, 0)));
}

#[test]
fn deeper_indent_ends_item_list() {
    let (rest, v) = parse(b"- a\n - b\n").unwrap();
    assert_eq!(v, Value::Array(vec![text("a")]));
    assert_eq!(rest, b" - b\n");
}

#[test]
fn wrong_nested_indent_is_rejected() {
    assert_eq!(parse(b"a:\n   b: 1\n"), Err(failed_at(0, 5, 0, 1)));
}

#[test]
fn shallower_line_ends_nested_map() {
    assert_eq!(
        whole("a:\n  b: 1\nc: 2\n"),
        object(vec![("a", object(vec![("b", text("1"))])), ("c", text("2"))])
    );
}

#[test]
fn plain_scalar_stops_at_adjacent_colon() {
    assert_eq!(whole("a:b\n"), object(vec![("a", text("b"))]));
}

#[test]
fn plain_scalars_stop_at_adjacent_commas_and_brackets() {
    assert_eq!(whole("[x,y]\n"), Value::Array(vec![text("x"), text("y")]));
}

#[test]
fn plain_scalar_with_inner_spaces() {
    assert_eq!(whole("k: hello big world\n"), object(vec![("k", text("hello big world"))]));
}

#[test]
fn plain_scalar_with_dash_inside() {
    assert_eq!(whole("k: a-b\n"), object(vec![("k", text("a-b"))]));
}

#[test]
fn plain_scalar_with_non_ascii_text() {
    assert_eq!(whole("k: café\n"), object(vec![("k", text("café"))]));
}

#[test]
fn invalid_utf8_is_rejected() {
    assert_eq!(parse(b"k: \xff\n"), Err(failed_at(0, 3, 0, 1)));
}

#[test]
fn empty_flow_sequence() {
    assert_eq!(whole("[]\n"), Value::Array(vec![]));
    assert_eq!(whole("k: [ ]\n"), object(vec![("k", Value::Array(vec![]))]));
}

#[test]
fn flow_sequence_with_quoted_elements() {
    assert_eq!(
        whole("k: [ \"a,b\" , c ]\n"),
        object(vec![("k", Value::Array(vec![text("a,b"), text("c")]))])
    );
}

#[test]
fn top_level_scalar() {
    assert_eq!(whole("hello\n"), text("hello"));
}

#[test]
fn top_level_scalar_may_end_the_input() {
    let (rest, v) = parse(b"hello").unwrap();
    assert_eq!(rest, b"");
    assert_eq!(v, text("hello"));
}

#[test]
fn top_level_flow_sequence_may_end_the_input() {
    let (rest, v) = parse(b"[a, b]").unwrap();
    assert_eq!(rest, b"");
    assert_eq!(v, Value::Array(vec![text("a"), text("b")]));
}

#[test]
fn nested_scalar_still_needs_a_line_end() {
    assert_eq!(parse(b"k: v"), Err(failed_at(0, 4, 0, 1)));
}

#[test]
fn empty_input_is_rejected() {
    assert_eq!(parse(b""), Err(failed_at(0, 0, 0, 0)));
}

#[test]
fn blank_lines_and_comments_are_absorbed() {
    assert_eq!(
        whole("a: 1\n\n  \n# c\nb: 2\n  # indented comment\n"),
        object(vec![("a", text("1")), ("b", text("2"))])
    );
}

#[test]
fn comment_only_nested_map_is_empty_object() {
    assert_eq!(whole("a:\n# c\n"), object(vec![("a", object(vec![]))]));
}

#[test]
fn crlf_line_endings() {
    assert_eq!(
        whole("a: 1\r\nb:\r\n  - x\r\n"),
        object(vec![("a", text("1")), ("b", Value::Array(vec![text("x")]))])
    );
}

#[test]
fn trailing_space_after_scalar_is_rejected() {
    assert_eq!(parse(b"k: v \n"), Err(failed_at(0, 4, 0, 1)));
}

#[test]
fn unparsed_tail_is_returned() {
    let (rest, v) = parse(b"k: v\n!!\n").unwrap();
    assert_eq!(v, object(vec![("k", text("v"))]));
    assert_eq!(rest, b"!!\n");
}

fn nested_maps(levels: usize) -> String {
    let mut doc = String::new();
    for level in 0..levels {
        doc.push_str(&" ".repeat(2 * level));
        doc.push_str("k:\n");
    }
    doc.push_str(&" ".repeat(2 * levels));
    doc.push_str("k: v\n");
    doc
}

#[test]
fn nesting_up_to_the_ceiling_is_accepted() {
    let doc = nested_maps(100);
    let mut v = whole(&doc);
    for _ in 0..100 {
        v = match v {
            Value::Object(mut entries) => entries.remove(0).1,
            other => panic!("expected an object, found {:?}", other),
        };
    }
    assert_eq!(v, object(vec![("k", text("v"))]));
}

#[test]
fn nesting_beyond_the_ceiling_is_rejected() {
    let doc = nested_maps(101);
    assert_eq!(parse(doc.as_bytes()), Err(failed_at(0, 10402, 0, 1)));
}

#[test]
fn plain_scalar_stops_at_hash_brace_and_quote() {
    assert_eq!(parse(b"k: a#b\n"), Err(failed_at(0, 4, 0, 1)));
    assert_eq!(parse(b"k: a{b\n"), Err(failed_at(0, 4, 0, 1)));
    assert_eq!(parse(b"k: a'b\n"), Err(failed_at(0, 4, 0, 1)));
    assert_eq!(whole("k: a b\n"), object(vec![("k", text("a b"))]));
}

#[test]
fn missing_bracket_is_reported_where_it_was_expected() {
    let err = parse(b"key: [a\n").unwrap_err();
    assert_eq!(err, failed_at(0, 7, 0, 3));
    assert_eq!(err.offset, 7);
}

#[test]
fn success_consumes_part_of_the_input() {
    let (rest, _) = parse(b"- a\n!\n").unwrap();
    assert_eq!(rest, b"!\n");
}

#[test]
fn escaping_then_decoding_gives_the_text_back() {
    let original = "say \"hi\" \\ back\\slash, [x]: #1\nnext";
    let escaped = original.replace('\\', "\\\\").replace('"', "\\\"");
    let input = format!("k: \"{}\"\n", escaped);
    assert_eq!(whole(&input), object(vec![("k", text(original))]));
}
