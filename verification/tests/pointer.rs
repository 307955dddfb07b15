use jylsp::json_tree::{pointer_to_span, JsonNode};
use jylsp::pointer::{
    escape_pointer_segment, join_pointer, parent_pointer, pointer_segments,
    unescape_pointer_segment,
};
use jylsp::text::{parse_index, split_words, to_decimal, trim};

fn chars(s: &str) -> Vec<char> {
    s.chars().collect()
}

fn segments(pointer: &str) -> Vec<String> {
    pointer_segments(pointer).into_iter().map(|s| s.into_iter().collect()).collect()
}

#[test]
fn escaping_a_segment() {
    assert_eq!(escape_pointer_segment("a/b~c"), "a~1b~0c");
    assert_eq!(escape_pointer_segment(""), "");
    assert_eq!(escape_pointer_segment("plain"), "plain");
    assert_eq!(escape_pointer_segment("~1"), "~01");
}

#[test]
fn unescaping_a_segment() {
    assert_eq!(unescape_pointer_segment("a~1b~0c"), "a/b~c");
    assert_eq!(unescape_pointer_segment("~01"), "~1");
    assert_eq!(unescape_pointer_segment("~"), "~");
    assert_eq!(unescape_pointer_segment("~2"), "~2");
    assert_eq!(unescape_pointer_segment("~~0"), "~~");
}

#[test]
fn unescaping_undoes_escaping() {
    for segment in ["", "/", "~", "~0", "~1", "a/~b", "\u{e9}/\u{1f600}~"] {
        let escaped = escape_pointer_segment(segment);
        assert!(!escaped.contains('/'));
        assert_eq!(unescape_pointer_segment(&escaped), segment);
    }
}

#[test]
fn joining_adds_one_segment() {
    assert_eq!(join_pointer("", "a"), "/a");
    assert_eq!(join_pointer("/a", "b/c"), "/a/b~1c");
    assert_eq!(join_pointer("/a", ""), "/a/");
    assert_eq!(segments(""), Vec::<String>::new());
    assert_eq!(segments("/a/b~1c/"), vec!["a", "b/c", ""]);
    assert_eq!(segments(&join_pointer("/x", "~/")), vec!["x", "~/"]);
}

#[test]
fn parent_undoes_joining() {
    assert_eq!(parent_pointer(&join_pointer("/a/b", "c/d")), "/a/b");
    assert_eq!(parent_pointer("/a"), "");
    assert_eq!(parent_pointer("no slash"), "");
}

fn leaf(start: usize, end: usize) -> JsonNode {
    JsonNode::Leaf((start, end))
}

fn tree() -> JsonNode {
    // {"a/b": [1, {"c": 2}], "d": 3, "d": 4}
    let inner = JsonNode::Object((12, 20), vec![("c".to_string(), leaf(18, 19))]);
    let array = JsonNode::Array((8, 21), vec![leaf(9, 10), inner]);
    JsonNode::Object(
        (0, 38),
        vec![
            ("a/b".to_string(), array),
            ("d".to_string(), leaf(28, 29)),
            ("d".to_string(), leaf(36, 37)),
        ],
    )
}

#[test]
fn pointers_lead_to_the_spans_of_nodes() {
    let root = tree();
    assert_eq!(pointer_to_span(&root, ""), Some((0, 38)));
    assert_eq!(pointer_to_span(&root, "/a~1b"), Some((8, 21)));
    assert_eq!(pointer_to_span(&root, "/a~1b/0"), Some((9, 10)));
    assert_eq!(pointer_to_span(&root, "/a~1b/1"), Some((12, 20)));
    assert_eq!(pointer_to_span(&root, "/a~1b/1/c"), Some((18, 19)));
}

#[test]
fn last_of_two_equal_properties_is_found() {
    assert_eq!(pointer_to_span(&tree(), "/d"), Some((36, 37)));
}

#[test]
fn pointer_below_a_leaf_gives_the_leaf() {
    assert_eq!(pointer_to_span(&tree(), "/d/x/y"), Some((36, 37)));
}

#[test]
fn pointers_that_lead_nowhere() {
    let root = tree();
    assert_eq!(pointer_to_span(&root, "/missing"), None);
    assert_eq!(pointer_to_span(&root, "/a~1b/2"), None);
    assert_eq!(pointer_to_span(&root, "/a~1b/x"), None);
    assert_eq!(pointer_to_span(&root, "/a~1b/-1"), None);
    assert_eq!(pointer_to_span(&root, "/a~1b/"), None);
    assert_eq!(pointer_to_span(&root, "/a~1b/99999999999999999999999"), None);
}

#[test]
fn text_before_the_first_slash_is_ignored() {
    assert_eq!(pointer_to_span(&tree(), "x/d"), Some((36, 37)));
    assert_eq!(pointer_to_span(&tree(), "x"), Some((0, 38)));
}

#[test]
fn indices_have_no_sign_and_no_leading_zero() {
    let root = tree();
    assert_eq!(pointer_to_span(&root, "/a~1b/+1"), None);
    assert_eq!(pointer_to_span(&root, "/a~1b/00"), None);
    assert_eq!(pointer_to_span(&root, "/a~1b/01"), None);
    assert_eq!(pointer_to_span(&root, "/a~1b/+"), None);
    assert_eq!(pointer_to_span(&root, "/a~1b/-"), None);
}

#[test]
fn span_of_a_child_lies_in_that_of_its_parent() {
    let root = tree();
    let mut outer = pointer_to_span(&root, "").unwrap();
    for pointer in ["/a~1b", "/a~1b/1", "/a~1b/1/c", "/a~1b/1/c/below"] {
        let inner = pointer_to_span(&root, pointer).unwrap();
        assert!(outer.0 <= inner.0 && inner.0 <= inner.1 && inner.1 <= outer.1);
        outer = inner;
    }
}

#[test]
fn decimals_and_indices() {
    assert_eq!(to_decimal(0), "0");
    assert_eq!(to_decimal(907), "907");
    assert_eq!(to_decimal(usize::MAX), usize::MAX.to_string());
    assert_eq!(parse_index(&chars("0")), Some(0));
    assert_eq!(parse_index(&chars("907")), Some(907));
    assert_eq!(parse_index(&chars(&usize::MAX.to_string())), Some(usize::MAX));
    assert_eq!(parse_index(&chars("18446744073709551616")), None);
    for text in ["", "1a", "+1", "00", "07", "-1", " 1"] {
        assert_eq!(parse_index(&chars(text)), None);
    }
}

#[test]
fn white_space_is_that_of_unicode() {
    let text = chars("\u{a0}\u{2003} a \u{85}b\t");
    let words: Vec<String> =
        split_words(&text).into_iter().map(|w| w.into_iter().collect()).collect();
    assert_eq!(words, vec!["a", "b"]);
    let trimmed: String = trim(&text).into_iter().collect();
    assert_eq!(trimmed, "a \u{85}b");
    for code in 0u32..0x3100 {
        if let Some(c) = char::from_u32(code) {
            assert_eq!(jylsp::text::is_white_space(c), c.is_whitespace());
        }
    }
}
