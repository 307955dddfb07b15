//! The pointers into a YAML text are those into the JSON value that it is validated as.
use vstd::prelude::*;

use crate::json::{member, with_member, JsonView};
use crate::json_tree::ByteSpan;
use crate::pointer::{escaped, joined};
use crate::text::{array_index, decimal, index_is_its_decimal, is_digit, lemma_decimal};
use crate::validate::combined;
use crate::yaml_json::{
    items_json, pairs_json, yaml_json, ConvertErrorView, YamlKeyView, YamlView,
};
use crate::yaml_spans::{
    document_has_every_pointer, document_pointer, document_views, merged,
    merged_documents_keep_their_spans, pointer_along, roots_have_spans, spans_lie_within, YamlContent, YamlDocument,
};

verus! {

/// The value that a path leads to: by the names of members, and by the indices of items.
pub open spec fn value_at(j: JsonView, path: Seq<Seq<char>>) -> Option<JsonView>
    decreases path.len(),
{
    if path.len() == 0 {
        Some(j)
    } else {
        match j {
            JsonView::Object(members) => match member(members, path[0]) {
                Some(next) => value_at(next, path.drop_first()),
                None => None,
            },
            JsonView::Array(items) => match array_index(path[0]) {
                Some(i) => if i < items.len() {
                    value_at(items[i as int], path.drop_first())
                } else {
                    None
                },
                None => None,
            },
            _ => None,
        }
    }
}

/// Whether a node is what a YAML value without tags was read from: it has a span, and its items or
/// pairs are those of the value, with the same texts as keys.
pub open spec fn represents(doc: YamlDocument, id: i32, v: YamlView) -> bool
    decreases v,
{
    &&& doc.span(id) is Some
    &&& match v {
        YamlView::Sequence(items) => {
            &&& doc.node(id).content matches YamlContent::Sequence(ids)
            &&& ids@.len() == items.len()
            &&& forall|i: int|
                0 <= i < items.len() ==> represents(doc, ids@[i], #[trigger] items[i])
        },
        YamlView::Mapping(pairs) => {
            &&& doc.node(id).content matches YamlContent::Mapping(ids)
            &&& ids@.len() == pairs.len()
            &&& forall|i: int|
                0 <= i < pairs.len() ==> represents(doc, ids@[i].1, (#[trigger] pairs[i]).1) && (
                pairs[i].0 matches YamlKeyView::Text(name) ==> doc.scalar_text(ids@[i].0) == Some(
                    name,
                ))
        },
        YamlView::Tagged(_, _) => false,
        _ => true,
    }
}

/// What is found under a name once a member is added.
proof fn lemma_member_added(
    members: Seq<(Seq<char>, JsonView)>,
    name: Seq<char>,
    value: JsonView,
    other: Seq<char>,
)
    ensures
        member(with_member(members, name, value), other) == if other == name {
            Some(value)
        } else {
            member(members, other)
        },
    decreases members.len(),
{
    let all = with_member(members, name, value);
    if members.len() == 0 {
        assert(all.drop_first() =~= Seq::empty());
        assert(member(all.drop_first(), other) is None);
    } else if members[0].0 == name {
        assert(all.drop_first() =~= members.drop_first());
    } else {
        lemma_member_added(members.drop_first(), name, value, other);
        assert(all.drop_first() =~= with_member(members.drop_first(), name, value));
    }
}

/// A member of a converted mapping is the converted value of a pair with that name.
proof fn lemma_member_of_pair(
    pairs: Seq<(YamlKeyView, YamlView)>,
    n: nat,
    name: Seq<char>,
) -> (i: int)
    requires
        n <= pairs.len(),
        pairs_json(pairs, n) is Ok,
        member(pairs_json(pairs, n)->Ok_0, name) is Some,
    ensures
        0 <= i < n,
        pairs[i].0 == YamlKeyView::Text(name),
        yaml_json(pairs[i].1) == Ok::<JsonView, ConvertErrorView>(
            member(pairs_json(pairs, n)->Ok_0, name)->0,
        ),
    decreases n,
{
    if n == 0 {
        assert(member(Seq::<(Seq<char>, JsonView)>::empty(), name) is None);
        0
    } else {
        let before = pairs_json(pairs, (n - 1) as nat)->Ok_0;
        let last = pairs[n - 1].0->Text_0;
        lemma_member_added(before, last, yaml_json(pairs[n - 1].1)->Ok_0, name);
        if name == last {
            n - 1
        } else {
            lemma_member_of_pair(pairs, (n - 1) as nat, name)
        }
    }
}

/// The items of a converted sequence are the converted items.
proof fn lemma_item_of_sequence(items: Seq<YamlView>, n: nat, i: int)
    requires
        0 <= i < n <= items.len(),
        items_json(items, n) is Ok,
    ensures
        items_json(items, n)->Ok_0.len() == n,
        yaml_json(items[i]) == Ok::<JsonView, ConvertErrorView>(items_json(items, n)->Ok_0[i]),
    decreases n,
{
    if i < n - 1 {
        lemma_item_of_sequence(items, (n - 1) as nat, i);
    } else if n > 1 {
        lemma_item_of_sequence(items, (n - 1) as nat, 0);
    }
}

/// The items of a converted sequence are as many as those of the sequence.
proof fn lemma_items_len(items: Seq<YamlView>)
    requires
        items_json(items, items.len()) is Ok,
    ensures
        items_json(items, items.len())->Ok_0.len() == items.len(),
{
    if items.len() > 0 {
        lemma_item_of_sequence(items, items.len(), 0);
    }
}

/// A path to a value in the converted value leads to a node in the document that it was read from.
pub proof fn path_to_value_leads_to_node(
    doc: YamlDocument,
    id: i32,
    v: YamlView,
    path: Seq<Seq<char>>,
) -> (target: i32)
    requires
        represents(doc, id, v),
        yaml_json(v) is Ok,
        value_at(yaml_json(v)->Ok_0, path) is Some,
    ensures
        doc.reaches(id, path, target),
    decreases path.len(),
{
    if path.len() == 0 {
        id
    } else {
        let rest = path.drop_first();
        match v {
            YamlView::Sequence(items) => {
                index_is_its_decimal(path[0]);
                lemma_items_len(items);
                let i = array_index(path[0])->0 as int;
                lemma_item_of_sequence(items, items.len(), i);
                let ids = doc.node(id).content->Sequence_0@;
                assert(represents(doc, ids[i], items[i]));
                let target = path_to_value_leads_to_node(doc, ids[i], items[i], rest);
                assert(doc.reaches(ids[i], rest, target));
                target
            },
            YamlView::Mapping(pairs) => {
                let i = lemma_member_of_pair(pairs, pairs.len(), path[0]);
                let ids = doc.node(id).content->Mapping_0@;
                assert(represents(doc, ids[i].1, pairs[i].1));
                let target = path_to_value_leads_to_node(doc, ids[i].1, pairs[i].1, rest);
                assert(doc.scalar_text(ids[i].0) == Some(path[0]));
                target
            },
            _ => id,
        }
    }
}

/// A pointer that leads on from another one is put behind it.
proof fn lemma_pointer_along(base: Seq<char>, more: Seq<char>, path: Seq<Seq<char>>)
    ensures
        pointer_along(base + more, path) == base + pointer_along(more, path),
        pointer_along(more, path).len() >= more.len() + path.len(),
    decreases path.len(),
{
    if path.len() > 0 {
        assert(joined(base + more, path[0]) =~= base + joined(more, path[0]));
        lemma_pointer_along(base, joined(more, path[0]), path.drop_first());
    }
}

/// Digits are not escaped.
proof fn lemma_escaped_digits(s: Seq<char>)
    requires
        forall|i: int| 0 <= i < s.len() ==> is_digit(#[trigger] s[i]),
    ensures
        escaped(s) == s,
    decreases s.len(),
{
    if s.len() > 0 {
        let rest = s.drop_first();
        assert forall|i: int| 0 <= i < rest.len() implies is_digit(#[trigger] rest[i]) by {
            assert(rest[i] == s[i + 1]);
        }
        lemma_escaped_digits(rest);
        assert(is_digit(s[0]));
        assert(escaped(s) =~= s);
    }
}

/// Whether each of several documents ends before the next one starts.
pub open spec fn follow_one_another(docs: Seq<YamlDocument>) -> bool {
    forall|i: int, k: int|
        0 <= i < k < docs.len() ==> #[trigger] root_span(docs[i]).1 <= #[trigger] root_span(docs[k]).0
}

/// The span of the root of a document, where it has one.
pub open spec fn root_span(doc: YamlDocument) -> ByteSpan {
    doc.span(doc.root)->0
}

/// Every value in the JSON value that a YAML text is validated as has an entry of its own among the
/// spans of the text, under its pointer: nothing falls back to a value above it. A span does not
/// end before it starts, nor behind the text, whose documents have their marks within its length
/// and follow one another.
pub proof fn every_value_has_its_span(
    docs: Seq<YamlDocument>,
    values: Seq<YamlView>,
    path: Seq<Seq<char>>,
    length: nat,
)
    requires
        docs.len() == values.len(),
        docs.len() > 0,
        forall|i: int|
            0 <= i < docs.len() ==> (#[trigger] docs[i]).acyclic() && docs[i].marks_within(length),
        follow_one_another(docs),
        forall|i: int|
            0 <= i < docs.len() ==> represents(#[trigger] docs[i], docs[i].root, values[i]),
        yaml_json(combined(values)) is Ok,
        value_at(yaml_json(combined(values))->Ok_0, path) is Some,
    ensures
        ({
            let all = merged(document_views(docs));
            let pointer = pointer_along(Seq::empty(), path);
            &&& roots_have_spans(docs)
            &&& all.contains_key(pointer)
            &&& all[pointer].0 <= all[pointer].1 <= length
        }),
{
    let empty = Seq::<char>::empty();
    let all = merged(document_views(docs));
    let pointer = pointer_along(empty, path);
    assert forall|i: int| 0 <= i < docs.len() implies (#[trigger] docs[i]).span(docs[i].root) is Some by {
        assert(represents(docs[i], docs[i].root, values[i]));
    }
    if docs.len() == 1 {
        let doc = docs[0];
        let target = path_to_value_leads_to_node(doc, doc.root, values[0], path);
        document_has_every_pointer(doc, path, target, length);
        assert(document_views(docs)[0].1 == doc.all_spans());
    } else if path.len() == 0 {
        let last = docs[docs.len() - 1];
        merged_documents_keep_their_spans(docs, 0, empty);
        spans_lie_within(last, last.root, empty, 0, length);
        assert(root_span(docs[0]).1 <= root_span(last).0);
        assert(docs[0].span(docs[0].root) is Some && last.span(last.root) is Some);
    } else {
        let rest = path.drop_first();
        index_is_its_decimal(path[0]);
        lemma_items_len(values);
        let i = array_index(path[0])->0;
        lemma_item_of_sequence(values, values.len(), i as int);
        let doc = docs[i as int];
        let target = path_to_value_leads_to_node(doc, doc.root, values[i as int], rest);
        document_has_every_pointer(doc, rest, target, length);
        let tail = pointer_along(empty, rest);
        let at = document_pointer(i);
        lemma_decimal(i);
        lemma_escaped_digits(decimal(i));
        assert(joined(empty, path[0]) =~= at);
        assert(at + empty =~= at);
        lemma_pointer_along(at, empty, rest);
        assert(pointer == at + tail);
        merged_documents_keep_their_spans(docs, i, tail);
        if rest.len() == 0 {
            assert(pointer =~= at);
            assert(doc.span(doc.root) is Some);
            spans_lie_within(doc, doc.root, empty, 0, length);
        }
    }
}

} // verus!
