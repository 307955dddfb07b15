use jylsp::yaml_spans::{
    merge_document_spans, DocumentPointerMap, YamlContent, YamlDocument, YamlNode, YamlPointerMap,
};

fn node(start: u64, end: u64, content: YamlContent) -> YamlNode {
    YamlNode { start, end, content }
}

fn scalar(start: u64, end: u64, text: &str) -> YamlNode {
    node(start, end, YamlContent::Scalar(text.as_bytes().to_vec()))
}

/// a/b: [x, y]
/// c: z
fn mapping() -> YamlDocument {
    YamlDocument {
        nodes: vec![
            node(0, 17, YamlContent::Mapping(vec![(2, 3), (6, 7)])),
            scalar(0, 3, "a/b"),
            node(5, 11, YamlContent::Sequence(vec![4, 5])),
            scalar(6, 7, "x"),
            scalar(9, 10, "y"),
            scalar(12, 13, "c"),
            scalar(15, 16, "z"),
        ],
        root: 1,
    }
}

fn parse(docs: Vec<YamlDocument>) -> Option<YamlPointerMap> {
    for doc in &docs {
        assert!(doc.is_acyclic());
    }
    YamlPointerMap::parse(&docs)
}

#[test]
fn pointers_of_one_document() {
    let map = parse(vec![mapping()]).unwrap();
    assert_eq!(map.lookup(""), Some((0, 17)));
    assert_eq!(map.lookup("/a~1b"), Some((5, 11)));
    assert_eq!(map.lookup("/a~1b/0"), Some((6, 7)));
    assert_eq!(map.lookup("/a~1b/1"), Some((9, 10)));
    assert_eq!(map.lookup("/c"), Some((15, 16)));
}

#[test]
fn unknown_pointer_gives_the_nearest_above() {
    let map = parse(vec![mapping()]).unwrap();
    assert_eq!(map.lookup("/a~1b/7"), Some((5, 11)));
    assert_eq!(map.lookup("/a~1b/7/8/9"), Some((5, 11)));
    assert_eq!(map.lookup("/missing"), Some((0, 17)));
    assert_eq!(map.lookup("no slash"), Some((0, 17)));
}

#[test]
fn no_document_has_no_pointer() {
    let map = parse(vec![]).unwrap();
    assert_eq!(map.lookup(""), None);
    assert_eq!(map.lookup("/a"), None);
    assert_eq!(YamlPointerMap::default().lookup("/a"), None);
}

#[test]
fn several_documents_are_found_by_index() {
    let second = YamlDocument { nodes: vec![scalar(22, 25, "end")], root: 1 };
    let map = parse(vec![mapping(), second]).unwrap();
    assert_eq!(map.lookup(""), Some((0, 25)));
    assert_eq!(map.lookup("/0"), Some((0, 17)));
    assert_eq!(map.lookup("/0/c"), Some((15, 16)));
    assert_eq!(map.lookup("/1"), Some((22, 25)));
    assert_eq!(map.lookup("/2"), Some((0, 25)));
}

#[test]
fn end_is_not_before_start() {
    let map = parse(vec![YamlDocument { nodes: vec![scalar(9, 4, "x")], root: 1 }]).unwrap();
    assert_eq!(map.lookup(""), Some((9, 9)));
}

#[test]
fn document_without_a_root_has_no_map() {
    assert!(parse(vec![YamlDocument { nodes: vec![], root: 1 }]).is_none());
    assert!(parse(vec![mapping(), YamlDocument { nodes: vec![], root: 0 }]).is_none());
}

#[test]
fn keys_that_are_no_text_are_passed_over() {
    let doc = YamlDocument {
        nodes: vec![
            node(0, 9, YamlContent::Mapping(vec![(2, 3), (4, 3), (9, 3)])),
            node(0, 2, YamlContent::Sequence(vec![])),
            scalar(4, 5, "v"),
            node(6, 7, YamlContent::Scalar(vec![0xff])),
        ],
        root: 1,
    };
    let map = parse(vec![doc]).unwrap();
    assert_eq!(map.lookup("/v"), Some((0, 9)));
    assert_eq!(map.lookup(""), Some((0, 9)));
}

#[test]
fn later_of_two_equal_keys_has_the_span() {
    let doc = YamlDocument {
        nodes: vec![
            node(0, 9, YamlContent::Mapping(vec![(2, 3), (2, 4)])),
            scalar(0, 1, "k"),
            scalar(3, 4, "v"),
            scalar(7, 8, "w"),
        ],
        root: 1,
    };
    assert_eq!(parse(vec![doc]).unwrap().lookup("/k"), Some((7, 8)));
}

#[test]
fn node_that_is_used_twice_has_two_pointers() {
    let doc = YamlDocument {
        nodes: vec![node(0, 9, YamlContent::Sequence(vec![2, 2])), scalar(1, 2, "x")],
        root: 1,
    };
    let map = parse(vec![doc]).unwrap();
    assert_eq!(map.lookup("/0"), Some((1, 2)));
    assert_eq!(map.lookup("/1"), Some((1, 2)));
}

#[test]
fn node_below_itself_is_a_cycle() {
    let doc = YamlDocument { nodes: vec![node(0, 9, YamlContent::Sequence(vec![1]))], root: 1 };
    assert!(!doc.is_acyclic());
    let longer = YamlDocument {
        nodes: vec![
            node(0, 9, YamlContent::Sequence(vec![2])),
            node(1, 8, YamlContent::Mapping(vec![(3, 1)])),
            scalar(2, 3, "k"),
        ],
        root: 1,
    };
    assert!(!longer.is_acyclic());
    assert!(mapping().is_acyclic());
}

#[test]
fn merging_given_spans() {
    let docs = vec![
        DocumentPointerMap {
            root_span: (0, 4),
            spans: vec![("".to_string(), (0, 4)), ("/a".to_string(), (2, 3))],
        },
        DocumentPointerMap { root_span: (8, 9), spans: vec![("".to_string(), (8, 9))] },
    ];
    let map = merge_document_spans(&docs);
    assert_eq!(map.get(""), Some(&(0, 9)));
    assert_eq!(map.get("/0"), Some(&(0, 4)));
    assert_eq!(map.get("/0/a"), Some(&(2, 3)));
    assert_eq!(map.get("/1"), Some(&(8, 9)));
    assert_eq!(map.get("/a"), None);
    assert_eq!(map.len(), 4);
}

#[test]
fn merging_one_document_keeps_its_spans() {
    let docs = vec![DocumentPointerMap {
        root_span: (0, 4),
        spans: vec![("".to_string(), (0, 4)), ("/a".to_string(), (2, 3))],
    }];
    let map = merge_document_spans(&docs);
    assert_eq!(map.get("/a"), Some(&(2, 3)));
    assert_eq!(map.get("/0"), None);
    assert_eq!(merge_document_spans(&vec![]).len(), 0);
}

#[test]
fn every_value_of_several_documents_has_its_own_entry() {
    let second = YamlDocument {
        nodes: vec![
            node(20, 28, YamlContent::Sequence(vec![2, 2])),
            node(21, 25, YamlContent::Mapping(vec![(3, 4)])),
            scalar(21, 22, "k~"),
            scalar(24, 25, "v"),
        ],
        root: 1,
    };
    let map = parse(vec![mapping(), second]).unwrap();
    assert_eq!(map.lookup("/0/a~1b/1"), Some((9, 10)));
    assert_eq!(map.lookup("/1"), Some((20, 28)));
    assert_eq!(map.lookup("/1/0"), Some((21, 25)));
    assert_eq!(map.lookup("/1/0/k~0"), Some((24, 25)));
    assert_eq!(map.lookup("/1/1/k~0"), Some((24, 25)));
}
