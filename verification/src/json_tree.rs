//! The syntax tree of a JSON text, with the bytes that each node spans.
use jsonc_parser::common::Ranged;
use vstd::prelude::*;

use crate::pointer::pointer_segments;
use crate::pointer::{
    join_adds_one_segment, joined, segments, slash_adds_one_segment, unescaped,
};
use crate::text::{array_index, decimal, decimal_round_trip, index_is_its_decimal, texts};
use crate::text::{parse_index, string_of};

verus! {

/// The byte offsets at which a part of a text starts and ends.
pub type ByteSpan = (usize, usize);

/// A node of a syntax tree: an object with its properties in the order of the text, an array with
/// its elements, or anything that has no children.
#[derive(Debug, PartialEq, Eq)]
pub enum JsonNode {
    Object(ByteSpan, Vec<(String, JsonNode)>),
    Array(ByteSpan, Vec<JsonNode>),
    Leaf(ByteSpan),
}

/// What a node is.
pub ghost enum NodeView {
    Object(ByteSpan, Seq<(Seq<char>, NodeView)>),
    Array(ByteSpan, Seq<NodeView>),
    Leaf(ByteSpan),
}

impl NodeView {
    /// The bytes that the node spans.
    pub open spec fn span(self) -> ByteSpan {
        match self {
            NodeView::Object(span, _) => span,
            NodeView::Array(span, _) => span,
            NodeView::Leaf(span) => span,
        }
    }
}

impl JsonNode {
    /// What the node is.
    pub open spec fn view(&self) -> NodeView
        decreases self,
    {
        match self {
            JsonNode::Object(span, properties) => NodeView::Object(
                *span,
                Seq::new(
                    properties@.len(),
                    |i: int|
                        if 0 <= i < properties@.len() {
                            (properties@[i].0@, properties@[i].1.view())
                        } else {
                            (Seq::empty(), NodeView::Leaf((0, 0)))
                        },
                ),
            ),
            JsonNode::Array(span, elements) => NodeView::Array(
                *span,
                Seq::new(
                    elements@.len(),
                    |i: int|
                        if 0 <= i < elements@.len() {
                            elements@[i].view()
                        } else {
                            NodeView::Leaf((0, 0))
                        },
                ),
            ),
            JsonNode::Leaf(span) => NodeView::Leaf(*span),
        }
    }

    /// The bytes that the node spans.
    pub fn span(&self) -> (r: ByteSpan)
        ensures
            r == self@.span(),
    {
        match self {
            JsonNode::Object(span, _) => *span,
            JsonNode::Array(span, _) => *span,
            JsonNode::Leaf(span) => *span,
        }
    }
}

/// The value of the last property with a given name: the one that an object has under it.
pub open spec fn property(properties: Seq<(Seq<char>, NodeView)>, name: Seq<char>) -> Option<NodeView>
    decreases properties.len(),
{
    if properties.len() == 0 {
        None
    } else if properties.last().0 == name {
        Some(properties.last().1)
    } else {
        property(properties.drop_last(), name)
    }
}

/// The child of a node that a segment names: the last property of that name, or the element whose
/// index the segment is.
pub open spec fn child(node: NodeView, segment: Seq<char>) -> Option<NodeView> {
    match node {
        NodeView::Object(_, properties) => property(properties, segment),
        NodeView::Array(_, elements) => match array_index(segment) {
            Some(i) => if i < elements.len() {
                Some(elements[i as int])
            } else {
                None
            },
            None => None,
        },
        NodeView::Leaf(_) => None,
    }
}

/// The node that a path leads to.
pub open spec fn node_at(node: NodeView, path: Seq<Seq<char>>) -> Option<NodeView>
    decreases path.len(),
{
    if path.len() == 0 {
        Some(node)
    } else {
        match child(node, path[0]) {
            Some(next) => node_at(next, path.drop_first()),
            None => None,
        }
    }
}

/// The span at the end of a path. A path that goes on below a node without children ends there;
/// one that names a property or an element that is not there has no span.
pub open spec fn span_at(node: NodeView, path: Seq<Seq<char>>) -> Option<ByteSpan>
    decreases path.len(),
{
    if path.len() == 0 || node is Leaf {
        Some(node.span())
    } else {
        match child(node, path[0]) {
            Some(next) => span_at(next, path.drop_first()),
            None => None,
        }
    }
}

/// The last property with a given name.
fn find_property<'a>(properties: &'a Vec<(String, JsonNode)>, name: &String) -> (r: Option<&'a JsonNode>)
    ensures
        forall|span: ByteSpan|
            match r {
                Some(node) => child(#[trigger] JsonNode::Object(span, *properties)@, name@) == Some(node@),
                None => child(JsonNode::Object(span, *properties)@, name@) is None,
            },
{
    let ghost all = properties@.map_values(|p: (String, JsonNode)| (p.0@, p.1@));
    assert forall|span: ByteSpan| (#[trigger] JsonNode::Object(span, *properties)@) == NodeView::Object(
        span,
        all,
    ) by {
        assert(JsonNode::Object(span, *properties)@->Object_1 =~= all);
    }
    let mut n: usize = properties.len();
    assert(all.take(n as int) =~= all);
    while n > 0
        invariant
            n <= properties@.len(),
            all == properties@.map_values(|p: (String, JsonNode)| (p.0@, p.1@)),
            forall|span: ByteSpan|
                (#[trigger] JsonNode::Object(span, *properties)@) == NodeView::Object(span, all),
            property(all, name@) == property(all.take(n as int), name@),
        decreases n,
    {
        let ghost rest = all.take(n as int);
        assert(rest.last() == (properties@[n - 1].0@, properties@[n - 1].1@));
        if properties[n - 1].0 == *name {
            return Some(&properties[n - 1].1);
        }
        assert(rest.drop_last() =~= all.take(n - 1));
        n = n - 1;
    }
    None
}

/// Converts a JSON pointer (RFC 6901) to a byte span in the text that the tree was read from.
pub fn pointer_to_span(root: &JsonNode, pointer: &str) -> (r: Option<ByteSpan>)
    ensures
        r == span_at(root@, segments(pointer@)),
{
    let parts = pointer_segments(pointer);
    let ghost path = segments(pointer@);
    let mut node: &JsonNode = root;
    let mut i: usize = 0;
    assert(path.skip(0) =~= path);
    assert(texts(parts@).len() == parts@.len());
    while i < parts.len()
        invariant
            i <= parts@.len(),
            path == texts(parts@),
            path == segments(pointer@),
            span_at(root@, path) == span_at(node@, path.skip(i as int)),
        decreases parts@.len() - i,
    {
        let ghost rest = path.skip(i as int);
        let part = &parts[i];
        assert(rest[0] == part@);
        assert(rest.drop_first() =~= path.skip(i + 1));
        match node {
            JsonNode::Object(_span, properties) => {
                let name = string_of(part);
                match find_property(properties, &name) {
                    Some(next) => {
                        node = next;
                    },
                    None => {
                        return None;
                    },
                }
            },
            JsonNode::Array(_span, elements) => {
                let ghost all = node@->Array_1;
                match parse_index(part) {
                    Some(index) => {
                        if index >= elements.len() {
                            return None;
                        }
                        assert(all[index as int] == elements@[index as int]@);
                        node = &elements[index];
                    },
                    None => {
                        let count: usize = elements.len();
                        assert(all.len() == count);
                        return None;
                    },
                }
            },
            JsonNode::Leaf(span) => {
                return Some(*span);
            },
        }
        i = i + 1;
    }
    assert(path.skip(i as int) =~= Seq::<Seq<char>>::empty());
    Some(node.span())
}

/// A pointer that leads to a node is converted to the span of that node.
pub proof fn pointer_to_node_gives_its_span(root: NodeView, path: Seq<Seq<char>>)
    requires
        node_at(root, path) is Some,
    ensures
        span_at(root, path) == Some(node_at(root, path)->0.span()),
    decreases path.len(),
{
    if path.len() > 0 {
        pointer_to_node_gives_its_span(child(root, path[0])->0, path.drop_first());
    }
}

/// One more segment leads from a node to its child.
proof fn lemma_node_at_push(root: NodeView, path: Seq<Seq<char>>, segment: Seq<char>)
    requires
        node_at(root, path) is Some,
    ensures
        node_at(root, path.push(segment)) == child(node_at(root, path)->0, segment),
    decreases path.len(),
{
    let longer = path.push(segment);
    if path.len() == 0 {
        assert(longer.drop_first() =~= path);
        match child(root, segment) {
            Some(next) => {
                assert(node_at(next, path) == Some(next));
            },
            None => {},
        }
    } else {
        lemma_node_at_push(child(root, path[0])->0, path.drop_first(), segment);
        assert(longer.drop_first() =~= path.drop_first().push(segment));
    }
}

/// Joining a name to the pointer of a node gives the pointer of the child of that name.
pub proof fn joined_pointer_leads_to_child(root: NodeView, pointer: Seq<char>, segment: Seq<char>)
    requires
        node_at(root, segments(pointer)) is Some,
    ensures
        node_at(root, segments(joined(pointer, segment))) == child(
            node_at(root, segments(pointer))->0,
            segment,
        ),
{
    join_adds_one_segment(pointer, segment);
    lemma_node_at_push(root, segments(pointer), segment);
}

/// The decimal numeral of an index leads to the element at that index.
pub proof fn index_leads_to_element(span: ByteSpan, elements: Seq<NodeView>, index: int)
    requires
        0 <= index < elements.len(),
    ensures
        child(NodeView::Array(span, elements), decimal(index as nat)) == Some(elements[index]),
{
    decimal_round_trip(index as nat);
}

/// Whether a span lies in another one.
pub open spec fn lies_in(inner: ByteSpan, outer: ByteSpan) -> bool {
    outer.0 <= inner.0 <= inner.1 <= outer.1
}

/// Whether every node of a tree lies in its parent.
pub open spec fn nested(node: NodeView) -> bool
    decreases node,
{
    match node {
        NodeView::Object(span, properties) => {
            &&& lies_in(span, span)
            &&& forall|i: int|
                0 <= i < properties.len() ==> nested((#[trigger] properties[i]).1) && lies_in(
                    properties[i].1.span(),
                    span,
                )
        },
        NodeView::Array(span, elements) => {
            &&& lies_in(span, span)
            &&& forall|i: int|
                0 <= i < elements.len() ==> nested(#[trigger] elements[i]) && lies_in(
                    elements[i].span(),
                    span,
                )
        },
        NodeView::Leaf(span) => lies_in(span, span),
    }
}

/// What is found under a name is the value of one of the properties.
proof fn lemma_property(properties: Seq<(Seq<char>, NodeView)>, name: Seq<char>)
    ensures
        property(properties, name) matches Some(value) ==> exists|i: int|
            0 <= i < properties.len() && (#[trigger] properties[i]).1 == value,
    decreases properties.len(),
{
    if properties.len() > 0 {
        let init = properties.drop_last();
        lemma_property(init, name);
        if properties.last().0 == name {
            assert(properties[properties.len() - 1] == properties.last());
        } else if let Some(value) = property(init, name) {
            let i = choose|i: int| 0 <= i < init.len() && (#[trigger] init[i]).1 == value;
            assert(properties[i] == init[i]);
        }
    }
}

/// A child lies in its parent, and what is below it is nested too.
proof fn lemma_child_nested(node: NodeView, segment: Seq<char>)
    requires
        nested(node),
    ensures
        child(node, segment) matches Some(next) ==> nested(next) && lies_in(
            next.span(),
            node.span(),
        ),
{
    if let NodeView::Object(_, properties) = node {
        lemma_property(properties, segment);
    }
}

/// Every span below a node lies in that of the node.
proof fn lemma_span_in_root(node: NodeView, path: Seq<Seq<char>>)
    requires
        nested(node),
    ensures
        span_at(node, path) matches Some(span) ==> lies_in(span, node.span()),
    decreases path.len(),
{
    if path.len() > 0 && !(node is Leaf) {
        lemma_child_nested(node, path[0]);
        if let Some(next) = child(node, path[0]) {
            lemma_span_in_root(next, path.drop_first());
        }
    }
}

/// Every span further down a path lies in that of the path.
pub proof fn longer_path_lies_in_shorter(
    root: NodeView,
    path: Seq<Seq<char>>,
    more: Seq<Seq<char>>,
)
    requires
        nested(root),
    ensures
        span_at(root, path) matches Some(outer) ==> (span_at(root, path + more) matches Some(inner)
            ==> lies_in(inner, outer)),
    decreases path.len(),
{
    let all = path + more;
    if path.len() == 0 {
        assert(all =~= more);
        lemma_span_in_root(root, more);
    } else if !(root is Leaf) {
        lemma_child_nested(root, path[0]);
        assert(all[0] == path[0]);
        assert(all.drop_first() =~= path.drop_first() + more);
        if let Some(next) = child(root, path[0]) {
            longer_path_lies_in_shorter(next, path.drop_first(), more);
        }
    }
}

/// The span that a pointer is converted to holds that of the pointer with one more segment, in a
/// tree whose nodes lie in their parents.
pub proof fn longer_pointer_lies_in_shorter(
    root: NodeView,
    pointer: Seq<char>,
    segment: Seq<char>,
)
    requires
        nested(root),
        forall|i: int| 0 <= i < segment.len() ==> segment[i] != '/',
    ensures
        span_at(root, segments(pointer)) matches Some(outer) ==> (span_at(
            root,
            segments(pointer.push('/') + segment),
        ) matches Some(inner) ==> lies_in(inner, outer)),
{
    slash_adds_one_segment(pointer, segment);
    let path = segments(pointer);
    let more = seq![unescaped(segment)];
    assert(path + more =~= path.push(unescaped(segment)));
    longer_path_lies_in_shorter(root, path, more);
}

/// Why a text is no JSON, and the bytes at which that showed.
#[derive(Debug, PartialEq, Eq)]
pub struct JsonSyntaxError {
    pub span: ByteSpan,
    pub message: String,
}

/// What a syntax error says.
pub ghost struct JsonSyntaxErrorView {
    pub span: ByteSpan,
    pub message: Seq<char>,
}

impl View for JsonSyntaxError {
    type V = JsonSyntaxErrorView;

    open spec fn view(&self) -> JsonSyntaxErrorView {
        JsonSyntaxErrorView { span: self.span, message: self.message@ }
    }
}

/// The node type of `jsonc_parser`.
#[verifier::external_type_specification]
#[verifier::external_body]
pub struct ExAstValue<'a>(jsonc_parser::ast::Value<'a>);

/// Takes a node of `jsonc_parser` over, case by case, with its range and its children.
#[verifier::external_body]
fn node_from(node: &jsonc_parser::ast::Value<'_>) -> (r: JsonNode) {
    let span = (node.range().start, node.range().end);
    match node {
        jsonc_parser::ast::Value::Object(object) => JsonNode::Object(span, object.properties.iter().map(|p| (p.name.as_str().to_string(), node_from(&p.value))).collect()),
        jsonc_parser::ast::Value::Array(array) => JsonNode::Array(span, array.elements.iter().map(node_from).collect()),
        _ => JsonNode::Leaf(span),
    }
}

/// What `jsonc_parser::parse_to_ast` makes of a text: its tree, nothing where the text holds no
/// value, or an error.
pub uninterp spec fn json_syntax(text: Seq<char>) -> Result<Option<NodeView>, JsonSyntaxErrorView>;

/// What reading a syntax tree came to.
pub open spec fn syntax_view(r: Result<Option<JsonNode>, JsonSyntaxError>) -> Result<
    Option<NodeView>,
    JsonSyntaxErrorView,
> {
    match r {
        Ok(Some(node)) => Ok(Some(node@)),
        Ok(None) => Ok(None),
        Err(e) => Err(e@),
    }
}

/// `jsonc_parser::parse_to_ast` with its default options. The tree, or the range and the text of
/// the error, depends on the text alone. Every node of a tree lies in its parent: an object or an
/// array goes from its opening token to its closing one, and its children are read in between.
#[verifier::external_body]
pub(crate) fn parse_json_syntax(text: &str) -> (r: Result<Option<JsonNode>, JsonSyntaxError>)
    ensures
        syntax_view(r) == json_syntax(text@),
        r matches Ok(Some(root)) ==> nested(root@),
{
    match jsonc_parser::parse_to_ast(text, &Default::default(), &Default::default()) {
        Ok(parsed) => Ok(parsed.value.as_ref().map(node_from)),
        Err(error) => Err(JsonSyntaxError { span: (error.range().start, error.range().end), message: error.to_string() }),
    }
}

/// What is found under a name is the value of the last property that has exactly this name, and
/// nothing is found where no property has it.
pub proof fn last_property_of_name_is_found(
    properties: Seq<(Seq<char>, NodeView)>,
    name: Seq<char>,
    i: int,
)
    requires
        0 <= i < properties.len(),
        properties[i].0 == name,
        forall|k: int| i < k < properties.len() ==> (#[trigger] properties[k]).0 != name,
    ensures
        property(properties, name) == Some(properties[i].1),
    decreases properties.len(),
{
    if i < properties.len() - 1 {
        let init = properties.drop_last();
        assert(properties[properties.len() - 1].0 != name);
        assert forall|k: int| i < k < init.len() implies (#[trigger] init[k]).0 != name by {
            assert(init[k] == properties[k]);
        }
        assert(init[i] == properties[i]);
        last_property_of_name_is_found(init, name, i);
    }
}

/// Nothing is found under a name that no property has.
pub proof fn missing_property_is_not_found(
    properties: Seq<(Seq<char>, NodeView)>,
    name: Seq<char>,
)
    requires
        forall|i: int| 0 <= i < properties.len() ==> (#[trigger] properties[i]).0 != name,
    ensures
        property(properties, name) is None,
    decreases properties.len(),
{
    if properties.len() > 0 {
        let init = properties.drop_last();
        assert(properties[properties.len() - 1].0 != name);
        assert forall|i: int| 0 <= i < init.len() implies (#[trigger] init[i]).0 != name by {
            assert(init[i] == properties[i]);
        }
        missing_property_is_not_found(init, name);
    }
}

/// The child of an object under a name is the value of the last property that has this very name,
/// and there is none where no property has it. With names that are all different, a child is found
/// exactly where it is the value of the property of that name.
pub proof fn child_has_the_very_name(
    span: ByteSpan,
    properties: Seq<(Seq<char>, NodeView)>,
    name: Seq<char>,
    i: int,
)
    ensures
        0 <= i < properties.len() && properties[i].0 == name && (forall|k: int|
            i < k < properties.len() ==> (#[trigger] properties[k]).0 != name) ==> child(
            NodeView::Object(span, properties),
            name,
        ) == Some(properties[i].1),
        (forall|k: int| 0 <= k < properties.len() ==> (#[trigger] properties[k]).0 != name)
            ==> child(NodeView::Object(span, properties), name) is None,
        child(NodeView::Object(span, properties), name) matches Some(value) ==> exists|k: int|
            0 <= k < properties.len() && (#[trigger] properties[k]).0 == name && properties[k].1
                == value,
{
    if 0 <= i < properties.len() && properties[i].0 == name && (forall|k: int|
        i < k < properties.len() ==> (#[trigger] properties[k]).0 != name) {
        last_property_of_name_is_found(properties, name, i);
    }
    if forall|k: int| 0 <= k < properties.len() ==> (#[trigger] properties[k]).0 != name {
        missing_property_is_not_found(properties, name);
    }
    lemma_property_has_name(properties, name);
}

proof fn lemma_property_has_name(properties: Seq<(Seq<char>, NodeView)>, name: Seq<char>)
    ensures
        property(properties, name) matches Some(value) ==> exists|k: int|
            0 <= k < properties.len() && (#[trigger] properties[k]).0 == name && properties[k].1
                == value,
    decreases properties.len(),
{
    if properties.len() > 0 {
        let init = properties.drop_last();
        lemma_property_has_name(init, name);
        let last = properties[properties.len() - 1];
        if last.0 != name {
            if let Some(value) = property(init, name) {
                let k = choose|k: int|
                    0 <= k < init.len() && (#[trigger] init[k]).0 == name && init[k].1 == value;
                assert(properties[k] == init[k]);
            }
        }
    }
}

/// A segment leads to an element of an array exactly where it is the decimal numeral of the index of
/// that element, and to nothing below a node without children.
pub proof fn element_has_the_very_index(
    span: ByteSpan,
    elements: Seq<NodeView>,
    segment: Seq<char>,
)
    ensures
        child(NodeView::Array(span, elements), segment) matches Some(value) ==> exists|i: int|
            0 <= i < elements.len() && segment == decimal(i as nat) && #[trigger] elements[i]
                == value,
        child(NodeView::Array(span, elements), segment) is None ==> forall|i: int|
            0 <= i < elements.len() ==> segment != #[trigger] decimal(i as nat),
        child(NodeView::Leaf(span), segment) is None,
{
    if child(NodeView::Array(span, elements), segment) is Some {
        index_is_its_decimal(segment);
        let i = array_index(segment)->0 as int;
        assert(elements[i] == elements[i]);
    } else {
        assert forall|i: int| 0 <= i < elements.len() implies segment != #[trigger] decimal(
            i as nat,
        ) by {
            decimal_round_trip(i as nat);
        }
    }
}

/// A path leads to a node one segment after the other, from the root on.
pub proof fn path_goes_from_child_to_child(
    root: NodeView,
    path: Seq<Seq<char>>,
    segment: Seq<char>,
)
    ensures
        node_at(root, Seq::empty()) == Some(root),
        node_at(root, path.push(segment)) == match node_at(root, path) {
            Some(node) => child(node, segment),
            None => None,
        },
{
    lemma_node_at_next(root, path, segment);
}

proof fn lemma_node_at_next(root: NodeView, path: Seq<Seq<char>>, segment: Seq<char>)
    ensures
        node_at(root, path.push(segment)) == match node_at(root, path) {
            Some(node) => child(node, segment),
            None => None,
        },
    decreases path.len(),
{
    if node_at(root, path) is Some {
        lemma_node_at_push(root, path, segment);
    } else {
        let longer = path.push(segment);
        assert(longer[0] == path[0]);
        assert(longer.drop_first() =~= path.drop_first().push(segment));
        if let Some(next) = child(root, path[0]) {
            lemma_node_at_next(next, path.drop_first(), segment);
        }
    }
}

/// The span at the end of a path is that of the node that it leads to. A path that goes on below a
/// node without children ends there, and one that leaves an object or an array by a segment that
/// leads to no child has no span.
pub proof fn span_is_that_of_the_node(
    root: NodeView,
    path: Seq<Seq<char>>,
    segment: Seq<char>,
    more: Seq<Seq<char>>,
    node: NodeView,
)
    requires
        node_at(root, path) == Some(node),
    ensures
        span_at(root, path) == Some(node.span()),
        node is Leaf ==> span_at(root, path + more) == Some(node.span()),
        !(node is Leaf) && child(node, segment) is None ==> span_at(
            root,
            path.push(segment) + more,
        ) is None,
    decreases path.len(),
{
    pointer_to_node_gives_its_span(root, path);
    let all = path.push(segment) + more;
    if path.len() == 0 {
        assert(path + more =~= more);
        assert(all[0] == segment);
    } else {
        assert(all[0] == path[0]);
        assert(all.drop_first() =~= path.drop_first().push(segment) + more);
        assert((path + more).drop_first() =~= path.drop_first() + more);
        let next = child(root, path[0])->0;
        span_is_that_of_the_node(next, path.drop_first(), segment, more, node);
    }
}

/// A node spans what it was read from, and its children are those of the node, in order.
pub proof fn nodes_are_what_they_hold(
    span: ByteSpan,
    properties: Vec<(String, JsonNode)>,
    elements: Vec<JsonNode>,
    children: Seq<NodeView>,
    named: Seq<(Seq<char>, NodeView)>,
    i: int,
)
    ensures
        JsonNode::Leaf(span)@ == NodeView::Leaf(span),
        JsonNode::Array(span, elements)@ matches NodeView::Array(own, all) && own == span
            && all.len() == elements@.len() && (0 <= i < elements@.len() ==> all[i]
            == elements@[i]@),
        JsonNode::Object(span, properties)@ matches NodeView::Object(own, all) && own == span
            && all.len() == properties@.len() && (0 <= i < properties@.len() ==> all[i] == (
            properties@[i].0@,
            properties@[i].1@,
        )),
        NodeView::Leaf(span).span() == span,
        NodeView::Array(span, children).span() == span,
        NodeView::Object(span, named).span() == span,
{
}

/// What reading a syntax tree came to is the tree, nothing, or the error, with its span and its whole
/// message.
pub proof fn readings_are_what_they_hold(node: JsonNode, e: JsonSyntaxError)
    ensures
        syntax_view(Ok(Some(node))) == Ok::<Option<NodeView>, JsonSyntaxErrorView>(Some(node@)),
        syntax_view(Ok(None)) == Ok::<Option<NodeView>, JsonSyntaxErrorView>(None),
        syntax_view(Err(e)) matches Err(own) && own.span == e.span && own.message == e.message@,
        e@.span == e.span,
        e@.message == e.message@,
{
}

} // verus!
