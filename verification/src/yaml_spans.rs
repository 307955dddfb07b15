//! From JSON pointers to the bytes of a YAML text.
use vstd::hash_map::StringHashMap;
use vstd::prelude::*;
use vstd::utf8::*;

use crate::json_tree::ByteSpan;
use crate::pointer::{join_pointer, parent_pointer};
use crate::pointer::{
    escaped, join_adds_one_segment, joined, lemma_parent_of, parent_of, parent_undoes_join, segments,
    slash_parts_pointers,
};
use crate::text::{concat, to_decimal};
use crate::text::{decimal, decimal_injective, is_digit, lemma_decimal, lemma_find_first_is};

verus! {

/// What a node of a loaded YAML document holds. Other nodes are named by their numbers.
#[derive(Debug, PartialEq, Eq)]
pub enum YamlContent {
    Scalar(Vec<u8>),
    Sequence(Vec<i32>),
    Mapping(Vec<(i32, i32)>),
    Empty,
}

/// A node of a loaded YAML document, with the byte offsets of its marks.
#[derive(Debug, PartialEq, Eq)]
pub struct YamlNode {
    pub start: u64,
    pub end: u64,
    pub content: YamlContent,
}

/// A loaded YAML document: its nodes, which are numbered from one, and the number of its root.
#[derive(Debug, PartialEq, Eq)]
pub struct YamlDocument {
    pub nodes: Vec<YamlNode>,
    pub root: i32,
}

/// Pointers and their spans, in the order in which they were found. A later one of the same
/// pointer takes the place of an earlier one.
pub type SpanLog = Seq<(Seq<char>, ByteSpan)>;

impl YamlDocument {
    /// Whether there is a node of a given number.
    pub open spec fn has_node(&self, id: i32) -> bool {
        1 <= id <= self.nodes@.len()
    }

    /// The node of a given number.
    pub open spec fn node(&self, id: i32) -> YamlNode {
        self.nodes@[id - 1]
    }

    /// The text of a scalar node, where it is valid UTF-8.
    pub open spec fn scalar_text(&self, id: i32) -> Option<Seq<char>> {
        if self.has_node(id) {
            match self.node(id).content {
                YamlContent::Scalar(bytes) => if valid_utf8(bytes@) {
                    Some(decode_utf8(bytes@))
                } else {
                    None
                },
                _ => None,
            }
        } else {
            None
        }
    }

    /// The span of a node, which has one where its marks fit in `usize`. It never ends before it
    /// starts.
    pub open spec fn span(&self, id: i32) -> Option<ByteSpan> {
        if self.has_node(id) && self.node(id).start <= usize::MAX && self.node(id).end <= usize::MAX {
            let start = self.node(id).start as usize;
            let end = self.node(id).end as usize;
            Some((start, if end >= start { end } else { start }))
        } else {
            None
        }
    }

    /// Whether every descent from a node passes at most `depth` nodes.
    pub open spec fn bounded(&self, id: i32, depth: nat) -> bool
        decreases depth,
    {
        &&& depth > 0
        &&& self.span(id) is Some ==> match self.node(id).content {
            YamlContent::Mapping(pairs) => forall|i: int|
                0 <= i < pairs@.len() && self.scalar_text((#[trigger] pairs@[i]).0) is Some
                    ==> self.bounded(pairs@[i].1, (depth - 1) as nat),
            YamlContent::Sequence(items) => forall|i: int|
                0 <= i < items@.len() ==> self.bounded(#[trigger] items@[i], (depth - 1) as nat),
            _ => true,
        }
    }

    /// Whether no node is found below itself: a descent then passes no node twice, and so never
    /// more nodes than there are, and at its end perhaps a number without a node.
    pub open spec fn acyclic(&self) -> bool {
        self.bounded(self.root, self.nodes@.len() + 1)
    }

    /// The spans at and below a node, for the pointer that leads to it.
    pub open spec fn spans_from(&self, id: i32, pointer: Seq<char>, depth: nat) -> SpanLog
        decreases depth, 0nat,
    {
        if depth == 0 || self.span(id) is None {
            Seq::empty()
        } else {
            let own = seq![(pointer, self.span(id)->0)];
            match self.node(id).content {
                YamlContent::Mapping(pairs) => own + self.pair_spans(
                    pairs@,
                    pairs@.len(),
                    pointer,
                    (depth - 1) as nat,
                ),
                YamlContent::Sequence(items) => own + self.item_spans(
                    items@,
                    items@.len(),
                    pointer,
                    (depth - 1) as nat,
                ),
                _ => own,
            }
        }
    }

    /// The spans below the first `n` pairs of a mapping: those of the values whose key is a text.
    pub open spec fn pair_spans(
        &self,
        pairs: Seq<(i32, i32)>,
        n: nat,
        pointer: Seq<char>,
        depth: nat,
    ) -> SpanLog
        decreases depth, n + 1,
    {
        if n == 0 {
            Seq::empty()
        } else {
            let (key, value) = pairs[n - 1];
            let before = self.pair_spans(pairs, (n - 1) as nat, pointer, depth);
            match self.scalar_text(key) {
                Some(name) => before + self.spans_from(value, joined(pointer, name), depth),
                None => before,
            }
        }
    }

    /// The spans below the first `n` items of a sequence.
    pub open spec fn item_spans(
        &self,
        items: Seq<i32>,
        n: nat,
        pointer: Seq<char>,
        depth: nat,
    ) -> SpanLog
        decreases depth, n + 1,
    {
        if n == 0 {
            Seq::empty()
        } else {
            self.item_spans(items, (n - 1) as nat, pointer, depth) + self.spans_from(
                items[n - 1],
                joined(pointer, decimal((n - 1) as nat)),
                depth,
            )
        }
    }

    /// The spans of the whole document.
    pub open spec fn all_spans(&self) -> SpanLog {
        self.spans_from(self.root, Seq::empty(), self.nodes@.len() + 1)
    }
}

/// The pointers of a log, each with the last of its spans.
pub open spec fn log_map(log: SpanLog) -> Map<Seq<char>, ByteSpan>
    decreases log.len(),
{
    if log.len() == 0 {
        Map::empty()
    } else {
        log_map(log.drop_last()).insert(log.last().0, log.last().1)
    }
}

/// The entries of a log behind a prefix, without that of the empty pointer.
pub open spec fn prefixed(prefix: Seq<char>, log: SpanLog) -> SpanLog
    decreases log.len(),
{
    if log.len() == 0 {
        Seq::empty()
    } else {
        let before = prefixed(prefix, log.drop_last());
        if log.last().0.len() == 0 {
            before
        } else {
            before.push((prefix + log.last().0, log.last().1))
        }
    }
}

/// The pointer to a document among several.
pub open spec fn document_pointer(index: nat) -> Seq<char> {
    seq!['/'] + decimal(index)
}

/// The spans of one document: that of its root, and those of all its pointers.
#[derive(Debug)]
pub struct DocumentPointerMap {
    pub root_span: ByteSpan,
    pub spans: Vec<(String, ByteSpan)>,
}

/// The pointers and spans of a list of entries.
pub open spec fn log_of(entries: Seq<(String, ByteSpan)>) -> SpanLog {
    entries.map_values(|e: (String, ByteSpan)| (e.0@, e.1))
}

impl View for DocumentPointerMap {
    type V = (ByteSpan, SpanLog);

    open spec fn view(&self) -> (ByteSpan, SpanLog) {
        (self.root_span, log_of(self.spans@))
    }
}

/// The root spans and the spans of several documents.
pub open spec fn map_views(maps: Seq<DocumentPointerMap>) -> Seq<(ByteSpan, SpanLog)> {
    maps.map_values(|map: DocumentPointerMap| map@)
}

/// The entries of the first `n` of several documents: first the empty pointer with the span from
/// the first root to the last, then for each document its root under its index, and its other
/// pointers behind that.
pub open spec fn merged_log(docs: Seq<(ByteSpan, SpanLog)>, n: nat) -> SpanLog
    decreases n,
{
    if n == 0 {
        seq![(Seq::empty(), (docs[0].0.0, docs.last().0.1))]
    } else {
        let (root_span, spans) = docs[n - 1];
        let at = document_pointer((n - 1) as nat);
        merged_log(docs, (n - 1) as nat).push((at, root_span)) + prefixed(at, spans)
    }
}

/// The spans of all documents: those of the one document as they are, and those of several
/// documents behind their indices.
pub open spec fn merged(docs: Seq<(ByteSpan, SpanLog)>) -> Map<Seq<char>, ByteSpan> {
    if docs.len() == 0 {
        Map::empty()
    } else if docs.len() == 1 {
        log_map(docs[0].1)
    } else {
        log_map(merged_log(docs, docs.len()))
    }
}

/// The span of the pointer, or else that of the nearest pointer above it that has one.
pub open spec fn nearest(spans: Map<Seq<char>, ByteSpan>, pointer: Seq<char>) -> Option<ByteSpan>
    decreases pointer.len(),
    via nearest_decreases
{
    if spans.contains_key(pointer) {
        Some(spans[pointer])
    } else if pointer.len() == 0 {
        None
    } else {
        nearest(spans, parent_of(pointer))
    }
}

#[via_fn]
proof fn nearest_decreases(spans: Map<Seq<char>, ByteSpan>, pointer: Seq<char>) {
    lemma_parent_of(pointer);
}

/// `std::str::from_utf8`: the text that the bytes encode, where they are valid UTF-8.
#[verifier::external_body]
fn text_of_bytes(bytes: &Vec<u8>) -> (r: Option<String>)
    ensures
        r is Some <==> valid_utf8(bytes@),
        r matches Some(s) ==> s@ == decode_utf8(bytes@),
{
    std::str::from_utf8(bytes).ok().map(str::to_string)
}

impl YamlDocument {
    /// The text of a scalar node.
    fn scalar_node_text(&self, id: i32) -> (r: Option<String>)
        ensures
            match r {
                Some(s) => self.scalar_text(id) == Some(s@),
                None => self.scalar_text(id) is None,
            },
    {
        if id < 1 || id as usize > self.nodes.len() {
            return None;
        }
        match &self.nodes[id as usize - 1].content {
            YamlContent::Scalar(bytes) => text_of_bytes(bytes),
            _ => None,
        }
    }

    /// The span of a node.
    fn node_span(&self, id: i32) -> (r: Option<ByteSpan>)
        ensures
            r == self.span(id),
    {
        if id < 1 || id as usize > self.nodes.len() {
            return None;
        }
        let node = &self.nodes[id as usize - 1];
        if node.start > usize::MAX as u64 || node.end > usize::MAX as u64 {
            return None;
        }
        let start: usize = node.start as usize;
        let end: usize = node.end as usize;
        Some(
            (
                start,
                if end >= start {
                    end
                } else {
                    start
                },
            ),
        )
    }

    /// Adds the spans at and below a node.
    fn collect_node_spans(
        &self,
        id: i32,
        pointer: &str,
        depth: u128,
        out: &mut Vec<(String, ByteSpan)>,
    )
        ensures
            log_of(final(out)@) == log_of(old(out)@) + self.spans_from(id, pointer@, depth as nat),
        decreases depth, 0nat,
    {
        let span = match self.node_span(id) {
            Some(span) => span,
            None => {
                assert(log_of(out@) =~= log_of(old(out)@) + Seq::empty());
                return ;
            },
        };
        if depth == 0 {
            assert(log_of(out@) =~= log_of(old(out)@) + Seq::empty());
            return ;
        }
        out.push((pointer.to_string(), span));
        assert(log_of(out@) =~= log_of(old(out)@) + seq![(pointer@, span)]);
        match &self.nodes[id as usize - 1].content {
            YamlContent::Mapping(pairs) => {
                self.collect_mapping_spans(pairs, pointer, depth - 1, out);
            },
            YamlContent::Sequence(items) => {
                self.collect_sequence_spans(items, pointer, depth - 1, out);
            },
            _ => {},
        }
        assert(log_of(out@) =~= log_of(old(out)@) + self.spans_from(id, pointer@, depth as nat));
    }

    /// Adds the spans below the pairs of a mapping.
    fn collect_mapping_spans(
        &self,
        pairs: &Vec<(i32, i32)>,
        pointer: &str,
        depth: u128,
        out: &mut Vec<(String, ByteSpan)>,
    )
        ensures
            log_of(final(out)@) == log_of(old(out)@) + self.pair_spans(
                pairs@,
                pairs@.len(),
                pointer@,
                depth as nat,
            ),
        decreases depth, 1nat,
    {
        let mut i: usize = 0;
        assert(log_of(out@) =~= log_of(old(out)@) + Seq::empty());
        while i < pairs.len()
            invariant
                i <= pairs@.len(),
                log_of(out@) == log_of(old(out)@) + self.pair_spans(
                    pairs@,
                    i as nat,
                    pointer@,
                    depth as nat,
                ),
            decreases pairs@.len() - i,
        {
            let (key, value) = pairs[i];
            if let Some(name) = self.scalar_node_text(key) {
                let child = join_pointer(pointer, name.as_str());
                self.collect_node_spans(value, child.as_str(), depth, out);
            }
            i = i + 1;
            assert(log_of(out@) =~= log_of(old(out)@) + self.pair_spans(
                pairs@,
                i as nat,
                pointer@,
                depth as nat,
            ));
        }
    }

    /// Adds the spans below the items of a sequence.
    fn collect_sequence_spans(
        &self,
        items: &Vec<i32>,
        pointer: &str,
        depth: u128,
        out: &mut Vec<(String, ByteSpan)>,
    )
        ensures
            log_of(final(out)@) == log_of(old(out)@) + self.item_spans(
                items@,
                items@.len(),
                pointer@,
                depth as nat,
            ),
        decreases depth, 1nat,
    {
        let mut i: usize = 0;
        assert(log_of(out@) =~= log_of(old(out)@) + Seq::empty());
        while i < items.len()
            invariant
                i <= items@.len(),
                log_of(out@) == log_of(old(out)@) + self.item_spans(
                    items@,
                    i as nat,
                    pointer@,
                    depth as nat,
                ),
            decreases items@.len() - i,
        {
            let child = join_pointer(pointer, to_decimal(i).as_str());
            self.collect_node_spans(items[i], child.as_str(), depth, out);
            i = i + 1;
            assert(log_of(out@) =~= log_of(old(out)@) + self.item_spans(
                items@,
                i as nat,
                pointer@,
                depth as nat,
            ));
        }
    }

    /// Whether every descent from a node passes at most `depth` nodes.
    fn is_bounded(&self, id: i32, depth: u128) -> (r: bool)
        ensures
            r == self.bounded(id, depth as nat),
        decreases depth,
    {
        if depth == 0 {
            return false;
        }
        if self.node_span(id).is_none() {
            return true;
        }
        match &self.nodes[id as usize - 1].content {
            YamlContent::Mapping(pairs) => {
                let mut i: usize = 0;
                while i < pairs.len()
                    invariant
                        depth > 0,
                        i <= pairs@.len(),
                        forall|j: int|
                            0 <= j < i && self.scalar_text((#[trigger] pairs@[j]).0) is Some
                                ==> self.bounded(pairs@[j].1, (depth - 1) as nat),
                        self.span(id) is Some,
                        self.node(id).content == YamlContent::Mapping(*pairs),
                    decreases pairs@.len() - i,
                {
                    let (key, value) = pairs[i];
                    if self.scalar_node_text(key).is_some() && !self.is_bounded(value, depth - 1) {
                        assert(!self.bounded(pairs@[i as int].1, (depth - 1) as nat));
                        return false;
                    }
                    i = i + 1;
                }
                true
            },
            YamlContent::Sequence(items) => {
                let mut i: usize = 0;
                while i < items.len()
                    invariant
                        depth > 0,
                        i <= items@.len(),
                        forall|j: int|
                            0 <= j < i ==> self.bounded(#[trigger] items@[j], (depth - 1) as nat),
                        self.span(id) is Some,
                        self.node(id).content == YamlContent::Sequence(*items),
                    decreases items@.len() - i,
                {
                    if !self.is_bounded(items[i], depth - 1) {
                        assert(!self.bounded(items@[i as int], (depth - 1) as nat));
                        proof {
                            if self.bounded(id, depth as nat) {
                                let all = self.node(id).content->Sequence_0@;
                                assert(forall|j: int|
                                    0 <= j < all.len() ==> self.bounded(
                                        #[trigger] all[j],
                                        (depth - 1) as nat,
                                    ));
                                assert(self.bounded(all[i as int], (depth - 1) as nat));
                            }
                        }
                        return false;
                    }
                    i = i + 1;
                }
                true
            },
            _ => true,
        }
    }

    /// Whether no node is found below itself.
    pub fn is_acyclic(&self) -> (r: bool)
        ensures
            r == self.acyclic(),
    {
        self.is_bounded(self.root, self.nodes.len() as u128 + 1)
    }

    /// The spans of the document, where its root has one.
    fn pointer_map(&self) -> (r: Option<DocumentPointerMap>)
        ensures
            match r {
                Some(map) => self.span(self.root) == Some(map.root_span) && log_of(map.spans@)
                    == self.all_spans(),
                None => self.span(self.root) is None,
            },
    {
        let root_span = match self.node_span(self.root) {
            Some(span) => span,
            None => {
                return None;
            },
        };
        let mut spans: Vec<(String, ByteSpan)> = Vec::new();
        self.collect_node_spans(self.root, "", self.nodes.len() as u128 + 1, &mut spans);
        proof {
            reveal_strlit("");
            assert(""@ =~= Seq::<char>::empty());
            assert(log_of(spans@) =~= self.all_spans());
        }
        Some(DocumentPointerMap { root_span, spans })
    }
}

/// Enters every pair of a list, in order.
fn insert_all(map: &mut StringHashMap<ByteSpan>, entries: &Vec<(String, ByteSpan)>)
    requires
        old(map)@ == Map::<Seq<char>, ByteSpan>::empty(),
    ensures
        final(map)@ == log_map(log_of(entries@)),
{
    let ghost log = log_of(entries@);
    let mut i: usize = 0;
    assert(log.take(0) =~= Seq::empty());
    while i < entries.len()
        invariant
            i <= entries@.len(),
            log == log_of(entries@),
            map@ == log_map(log.take(i as int)),
        decreases entries@.len() - i,
    {
        assert(log.take(i + 1).drop_last() =~= log.take(i as int));
        assert(log.take(i + 1).last() == (entries@[i as int].0@, entries@[i as int].1));
        map.insert(entries[i].0.clone(), entries[i].1);
        i = i + 1;
    }
    assert(log.take(log.len() as int) =~= log);
}

/// Merges the spans of all documents.
pub fn merge_document_spans(docs: &Vec<DocumentPointerMap>) -> (r: StringHashMap<ByteSpan>)
    ensures
        r@ == merged(map_views(docs@)),
{
    let ghost all = map_views(docs@);
    let mut map: StringHashMap<ByteSpan> = StringHashMap::new();
    if docs.len() == 0 {
        return map;
    }
    if docs.len() == 1 {
        insert_all(&mut map, &docs[0].spans);
        return map;
    }
    let mut entries: Vec<(String, ByteSpan)> = Vec::new();
    let last: usize = docs.len() - 1;
    entries.push((String::new(), (docs[0].root_span.0, docs[last].root_span.1)));
    assert(log_of(entries@) =~= merged_log(all, 0));
    let mut n: usize = 0;
    while n < docs.len()
        invariant
            n <= docs@.len(),
            all == map_views(docs@),
            log_of(entries@) == merged_log(all, n as nat),
        decreases docs@.len() - n,
    {
        let doc = &docs[n];
        let prefix = concat("/", to_decimal(n).as_str());
        proof {
            reveal_strlit("/");
            assert(prefix@ =~= document_pointer(n as nat));
        }
        let ghost before = log_of(entries@);
        entries.push((prefix.clone(), doc.root_span));
        let ghost base = before.push((prefix@, doc.root_span));
        let ghost log = log_of(doc.spans@);
        assert(log_of(entries@) =~= base);
        let mut i: usize = 0;
        assert(log.take(0) =~= Seq::empty());
        assert(base + prefixed(prefix@, log.take(0)) =~= base);
        while i < doc.spans.len()
            invariant
                i <= doc.spans@.len(),
                log == log_of(doc.spans@),
                log_of(entries@) == base + prefixed(prefix@, log.take(i as int)),
            decreases doc.spans@.len() - i,
        {
            let ghost now = log_of(entries@);
            assert(log.take(i + 1).drop_last() =~= log.take(i as int));
            assert(log.take(i + 1).last() == (doc.spans@[i as int].0@, doc.spans@[i as int].1));
            if !doc.spans[i].0.as_str().is_empty() {
                let pointer = concat(prefix.as_str(), doc.spans[i].0.as_str());
                entries.push((pointer, doc.spans[i].1));
                assert(log_of(entries@) =~= now.push((pointer@, doc.spans@[i as int].1)));
            }
            i = i + 1;
            assert(log_of(entries@) =~= base + prefixed(prefix@, log.take(i as int)));
        }
        assert(log.take(log.len() as int) =~= log);
        assert(all[n as int] == (doc.root_span, log));
        n = n + 1;
    }
    insert_all(&mut map, &entries);
    map
}

/// The spans of the pointers of a YAML text.
pub struct YamlPointerMap {
    spans: StringHashMap<ByteSpan>,
}

impl View for YamlPointerMap {
    type V = Map<Seq<char>, ByteSpan>;

    closed spec fn view(&self) -> Map<Seq<char>, ByteSpan> {
        self.spans@
    }
}

impl Default for YamlPointerMap {
    /// No spans.
    fn default() -> (r: YamlPointerMap)
        ensures
            r@ == Map::<Seq<char>, ByteSpan>::empty(),
    {
        YamlPointerMap { spans: StringHashMap::new() }
    }
}

/// The root spans and the spans of the documents of a text.
pub open spec fn document_views(docs: Seq<YamlDocument>) -> Seq<(ByteSpan, SpanLog)> {
    docs.map_values(|doc: YamlDocument| (doc.span(doc.root)->0, doc.all_spans()))
}

/// Whether the root of each document has a span.
pub open spec fn roots_have_spans(docs: Seq<YamlDocument>) -> bool {
    forall|i: int| 0 <= i < docs.len() ==> (#[trigger] docs[i]).span(docs[i].root) is Some
}

impl YamlPointerMap {
    /// The spans of the documents of a text, where the root of each has one.
    pub fn parse(docs: &Vec<YamlDocument>) -> (r: Option<YamlPointerMap>)
        requires
            forall|i: int| 0 <= i < docs@.len() ==> (#[trigger] docs@[i]).acyclic(),
        ensures
            match r {
                Some(map) => roots_have_spans(docs@) && map@ == merged(document_views(docs@)),
                None => !roots_have_spans(docs@),
            },
    {
        let mut maps: Vec<DocumentPointerMap> = Vec::new();
        let mut i: usize = 0;
        while i < docs.len()
            invariant
                i <= docs@.len(),
                maps@.len() == i,
                forall|j: int| 0 <= j < i ==> (#[trigger] docs@[j]).span(docs@[j].root) is Some,
                forall|j: int|
                    0 <= j < i ==> (#[trigger] maps@[j])@ == document_views(docs@)[j],
            decreases docs@.len() - i,
        {
            match docs[i].pointer_map() {
                Some(map) => {
                    maps.push(map);
                },
                None => {
                    assert(docs@[i as int].span(docs@[i as int].root) is None);
                    return None;
                },
            }
            i = i + 1;
        }
        assert(map_views(maps@) =~= document_views(docs@));
        Some(YamlPointerMap { spans: merge_document_spans(&maps) })
    }

    /// The span of a pointer, or else that of the nearest pointer above it that has one.
    pub fn lookup(&self, pointer: &str) -> (r: Option<ByteSpan>)
        ensures
            r == nearest(self@, pointer@),
    {
        let mut current = pointer.to_string();
        loop
            invariant
                nearest(self@, pointer@) == nearest(self@, current@),
            decreases current@.len(),
        {
            if let Some(span) = self.spans.get(current.as_str()) {
                return Some(*span);
            }
            if current.as_str().is_empty() {
                return None;
            }
            proof {
                lemma_parent_of(current@);
            }
            current = parent_pointer(current.as_str());
        }
    }
}

/// A bound on the depth of a document that is large enough does not change its spans.
pub proof fn deeper_bound_gives_same_spans(
    doc: YamlDocument,
    id: i32,
    pointer: Seq<char>,
    depth: nat,
    deeper: nat,
)
    requires
        doc.bounded(id, depth),
        depth <= deeper,
    ensures
        doc.spans_from(id, pointer, deeper) == doc.spans_from(id, pointer, depth),
    decreases depth, 0nat,
{
    if doc.span(id) is Some {
        match doc.node(id).content {
            YamlContent::Mapping(pairs) => {
                let all = pairs@;
                assert forall|i: int|
                    0 <= i < all.len() && doc.scalar_text((#[trigger] all[i]).0) is Some implies doc.bounded(
                    all[i].1,
                    (depth - 1) as nat,
                ) by {
                    assert(all[i] == pairs@[i]);
                }
                lemma_deeper_pairs(doc, all, all.len(), pointer, (depth - 1) as nat, (deeper - 1) as nat);
            },
            YamlContent::Sequence(items) => {
                let all = items@;
                assert forall|i: int| 0 <= i < all.len() implies doc.bounded(
                    #[trigger] all[i],
                    (depth - 1) as nat,
                ) by {
                    assert(all[i] == items@[i]);
                }
                lemma_deeper_items(doc, all, all.len(), pointer, (depth - 1) as nat, (deeper - 1) as nat);
            },
            _ => {},
        }
    }
}

proof fn lemma_deeper_pairs(
    doc: YamlDocument,
    pairs: Seq<(i32, i32)>,
    n: nat,
    pointer: Seq<char>,
    depth: nat,
    deeper: nat,
)
    requires
        n <= pairs.len(),
        depth <= deeper,
        forall|i: int|
            0 <= i < pairs.len() && doc.scalar_text((#[trigger] pairs[i]).0) is Some ==> doc.bounded(
                pairs[i].1,
                depth,
            ),
    ensures
        doc.pair_spans(pairs, n, pointer, deeper) == doc.pair_spans(pairs, n, pointer, depth),
    decreases depth, n + 1,
{
    if n > 0 {
        lemma_deeper_pairs(doc, pairs, (n - 1) as nat, pointer, depth, deeper);
        let (key, value) = pairs[n - 1];
        if let Some(name) = doc.scalar_text(key) {
            deeper_bound_gives_same_spans(doc, value, joined(pointer, name), depth, deeper);
        }
    }
}

proof fn lemma_deeper_items(
    doc: YamlDocument,
    items: Seq<i32>,
    n: nat,
    pointer: Seq<char>,
    depth: nat,
    deeper: nat,
)
    requires
        n <= items.len(),
        depth <= deeper,
        forall|i: int| 0 <= i < items.len() ==> doc.bounded(#[trigger] items[i], depth),
    ensures
        doc.item_spans(items, n, pointer, deeper) == doc.item_spans(items, n, pointer, depth),
    decreases depth, n + 1,
{
    if n > 0 {
        lemma_deeper_items(doc, items, (n - 1) as nat, pointer, depth, deeper);
        let child = joined(pointer, decimal((n - 1) as nat));
        deeper_bound_gives_same_spans(doc, items[n - 1], child, depth, deeper);
    }
}

/// Whether a pointer is empty or starts with a slash.
pub open spec fn slashed(pointer: Seq<char>) -> bool {
    pointer.len() == 0 || pointer[0] == '/'
}

/// What holds of every entry of a log: its pointer is empty or starts with a slash, and its span
/// does not end before it starts.
pub open spec fn orderly(log: SpanLog) -> bool {
    forall|i: int|
        0 <= i < log.len() ==> slashed((#[trigger] log[i]).0) && log[i].1.0 <= log[i].1.1
}

/// Every pointer of a document is empty or starts with a slash, and no span of a document ends
/// before it starts.
pub proof fn document_spans_are_orderly(doc: YamlDocument, id: i32, pointer: Seq<char>, depth: nat)
    requires
        slashed(pointer),
    ensures
        orderly(doc.spans_from(id, pointer, depth)),
    decreases depth, 0nat,
{
    if depth > 0 && doc.span(id) is Some {
        match doc.node(id).content {
            YamlContent::Mapping(pairs) => {
                lemma_orderly_pairs(doc, pairs@, pairs@.len(), pointer, (depth - 1) as nat);
            },
            YamlContent::Sequence(items) => {
                lemma_orderly_items(doc, items@, items@.len(), pointer, (depth - 1) as nat);
            },
            _ => {},
        }
    }
}

proof fn lemma_orderly_pairs(
    doc: YamlDocument,
    pairs: Seq<(i32, i32)>,
    n: nat,
    pointer: Seq<char>,
    depth: nat,
)
    requires
        slashed(pointer),
    ensures
        orderly(doc.pair_spans(pairs, n, pointer, depth)),
    decreases depth, n + 1,
{
    if n > 0 {
        lemma_orderly_pairs(doc, pairs, (n - 1) as nat, pointer, depth);
        let (key, value) = pairs[n - 1];
        if let Some(name) = doc.scalar_text(key) {
            document_spans_are_orderly(doc, value, joined(pointer, name), depth);
        }
    }
}

proof fn lemma_orderly_items(
    doc: YamlDocument,
    items: Seq<i32>,
    n: nat,
    pointer: Seq<char>,
    depth: nat,
)
    requires
        slashed(pointer),
    ensures
        orderly(doc.item_spans(items, n, pointer, depth)),
    decreases depth, n + 1,
{
    if n > 0 {
        lemma_orderly_items(doc, items, (n - 1) as nat, pointer, depth);
        let child = joined(pointer, decimal((n - 1) as nat));
        document_spans_are_orderly(doc, items[n - 1], child, depth);
    }
}

/// Whether no span of a log ends behind a length.
pub open spec fn log_within(log: SpanLog, length: nat) -> bool {
    forall|i: int| 0 <= i < log.len() ==> (#[trigger] log[i]).1.1 <= length
}

impl YamlDocument {
    /// Whether every mark of the document lies within a length.
    pub open spec fn marks_within(&self, length: nat) -> bool {
        forall|i: int|
            0 <= i < self.nodes@.len() ==> (#[trigger] self.nodes@[i]).start <= length
                && self.nodes@[i].end <= length
    }
}

/// Where the marks of a document lie within a length, so do all its spans.
pub proof fn spans_lie_within(
    doc: YamlDocument,
    id: i32,
    pointer: Seq<char>,
    depth: nat,
    length: nat,
)
    requires
        doc.marks_within(length),
    ensures
        doc.span(id) matches Some(span) ==> span.1 <= length,
        log_within(doc.spans_from(id, pointer, depth), length),
    decreases depth, 0nat,
{
    if doc.span(id) is Some {
        assert(doc.nodes@[id - 1].start <= length && doc.nodes@[id - 1].end <= length);
        if depth > 0 {
            match doc.node(id).content {
                YamlContent::Mapping(pairs) => {
                    lemma_pairs_within(
                        doc,
                        pairs@,
                        pairs@.len(),
                        pointer,
                        (depth - 1) as nat,
                        length,
                    );
                },
                YamlContent::Sequence(items) => {
                    lemma_items_within(
                        doc,
                        items@,
                        items@.len(),
                        pointer,
                        (depth - 1) as nat,
                        length,
                    );
                },
                _ => {},
            }
        }
    }
}

proof fn lemma_pairs_within(
    doc: YamlDocument,
    pairs: Seq<(i32, i32)>,
    n: nat,
    pointer: Seq<char>,
    depth: nat,
    length: nat,
)
    requires
        doc.marks_within(length),
    ensures
        log_within(doc.pair_spans(pairs, n, pointer, depth), length),
    decreases depth, n + 1,
{
    if n > 0 {
        lemma_pairs_within(doc, pairs, (n - 1) as nat, pointer, depth, length);
        let (key, value) = pairs[n - 1];
        if let Some(name) = doc.scalar_text(key) {
            spans_lie_within(doc, value, joined(pointer, name), depth, length);
        }
    }
}

proof fn lemma_items_within(
    doc: YamlDocument,
    items: Seq<i32>,
    n: nat,
    pointer: Seq<char>,
    depth: nat,
    length: nat,
)
    requires
        doc.marks_within(length),
    ensures
        log_within(doc.item_spans(items, n, pointer, depth), length),
    decreases depth, n + 1,
{
    if n > 0 {
        lemma_items_within(doc, items, (n - 1) as nat, pointer, depth, length);
        let child = joined(pointer, decimal((n - 1) as nat));
        spans_lie_within(doc, items[n - 1], child, depth, length);
    }
}

/// A pointer that has a span is looked up as that span.
pub proof fn lookup_finds_known_pointer(spans: Map<Seq<char>, ByteSpan>, pointer: Seq<char>)
    requires
        spans.contains_key(pointer),
    ensures
        nearest(spans, pointer) == Some(spans[pointer]),
{
}

/// A child without a span is looked up as its parent.
pub proof fn lookup_falls_back_to_parent(
    spans: Map<Seq<char>, ByteSpan>,
    parent: Seq<char>,
    segment: Seq<char>,
)
    requires
        !spans.contains_key(joined(parent, segment)),
    ensures
        nearest(spans, joined(parent, segment)) == nearest(spans, parent),
{
    parent_undoes_join(parent, segment);
}

/// Every pointer is found where the empty one has a span.
proof fn lemma_nearest_is_found(spans: Map<Seq<char>, ByteSpan>, pointer: Seq<char>)
    requires
        spans.contains_key(Seq::empty()),
    ensures
        nearest(spans, pointer) is Some,
    decreases pointer.len(),
{
    if pointer.len() == 0 {
        assert(pointer =~= Seq::empty());
    } else if !spans.contains_key(pointer) {
        lemma_parent_of(pointer);
        lemma_nearest_is_found(spans, parent_of(pointer));
    }
}

/// The pointers of two logs, one behind the other.
proof fn lemma_log_map_concat(a: SpanLog, b: SpanLog)
    ensures
        log_map(a + b) == log_map(a).union_prefer_right(log_map(b)),
    decreases b.len(),
{
    if b.len() == 0 {
        assert(a + b =~= a);
        assert(log_map(a).union_prefer_right(log_map(b)) =~= log_map(a));
    } else {
        lemma_log_map_concat(a, b.drop_last());
        assert((a + b).drop_last() =~= a + b.drop_last());
        assert((a + b).last() == b.last());
        assert(log_map(a + b) =~= log_map(a).union_prefer_right(log_map(b)));
    }
}

/// The pointers behind a prefix.
proof fn lemma_prefixed(prefix: Seq<char>, log: SpanLog)
    ensures
        forall|p: Seq<char>| #![trigger prefix + p]
            p.len() > 0 ==> (log_map(prefixed(prefix, log)).contains_key(prefix + p)
                <==> log_map(log).contains_key(p)),
        forall|p: Seq<char>| #![trigger prefix + p]
            p.len() > 0 && log_map(log).contains_key(p) ==> log_map(prefixed(prefix, log))[prefix + p]
                == log_map(log)[p],
        forall|k: Seq<char>|
            #[trigger] log_map(prefixed(prefix, log)).contains_key(k) ==> k.len() > prefix.len()
                && k.take(prefix.len() as int) == prefix && log_map(log).contains_key(
                k.skip(prefix.len() as int),
            ),
    decreases log.len(),
{
    if log.len() > 0 {
        lemma_prefixed(prefix, log.drop_last());
        let (q, span) = log.last();
        let before = prefixed(prefix, log.drop_last());
        if q.len() > 0 {
            assert(prefixed(prefix, log) =~= before.push((prefix + q, span)));
            assert(prefixed(prefix, log).drop_last() =~= before);
        }
        assert forall|p: Seq<char>| #![trigger prefix + p] p.len() > 0 implies (log_map(
            prefixed(prefix, log),
        ).contains_key(prefix + p) <==> log_map(log).contains_key(p)) && (log_map(log).contains_key(
            p,
        ) ==> log_map(prefixed(prefix, log))[prefix + p] == log_map(log)[p]) by {
            if prefix + p == prefix + q {
                assert(p =~= (prefix + p).skip(prefix.len() as int));
                assert(q =~= (prefix + q).skip(prefix.len() as int));
            }
        }
        assert forall|k: Seq<char>| #[trigger]
            log_map(prefixed(prefix, log)).contains_key(k) implies k.len() > prefix.len() && k.take(
            prefix.len() as int,
        ) == prefix && log_map(log).contains_key(k.skip(prefix.len() as int)) by {
            if k == prefix + q && q.len() > 0 {
                assert(k.take(prefix.len() as int) =~= prefix);
                assert(k.skip(prefix.len() as int) =~= q);
            } else {
                assert(log_map(before).contains_key(k));
            }
        }
    }
}

/// A pointer behind a document index determines the index and what follows it.
proof fn lemma_index_unique(i: nat, p: Seq<char>, j: nat, q: Seq<char>)
    requires
        slashed(p),
        slashed(q),
        document_pointer(i) + p == document_pointer(j) + q,
    ensures
        i == j,
        p == q,
{
    let k = document_pointer(i) + p;
    let rest = k.skip(1);
    lemma_decimal(i);
    lemma_decimal(j);
    assert(rest =~= decimal(i) + p);
    assert(rest =~= decimal(j) + q);
    assert forall|n: int| 0 <= n < decimal(i).len() implies rest[n] != '/' by {
        assert(is_digit(decimal(i)[n]));
    }
    assert forall|n: int| 0 <= n < decimal(j).len() implies rest[n] != '/' by {
        assert(is_digit(decimal(j)[n]));
    }
    lemma_find_first_is(rest, '/', decimal(i).len() as int);
    lemma_find_first_is(rest, '/', decimal(j).len() as int);
    assert(decimal(i) =~= rest.take(decimal(i).len() as int));
    assert(decimal(j) =~= rest.take(decimal(j).len() as int));
    decimal_injective(i, j);
    assert(p =~= rest.skip(decimal(i).len() as int));
    assert(q =~= rest.skip(decimal(j).len() as int));
}

/// The pointers of the first `n` of several documents.
proof fn lemma_merged_log(docs: Seq<(ByteSpan, SpanLog)>, n: nat)
    requires
        docs.len() > 0,
        n <= docs.len(),
        forall|i: int| 0 <= i < docs.len() ==> orderly((#[trigger] docs[i]).1),
    ensures
        log_map(merged_log(docs, n)).contains_key(Seq::empty()),
        log_map(merged_log(docs, n))[Seq::empty()] == (docs[0].0.0, docs.last().0.1),
        forall|i: nat|
            #![trigger document_pointer(i)]
            i < n ==> log_map(merged_log(docs, n)).contains_key(document_pointer(i)) && log_map(
                merged_log(docs, n),
            )[document_pointer(i)] == docs[i as int].0,
        forall|i: nat, p: Seq<char>|
            #![trigger document_pointer(i) + p]
            i < n && p.len() > 0 && log_map(docs[i as int].1).contains_key(p) ==> log_map(
                merged_log(docs, n),
            ).contains_key(document_pointer(i) + p) && log_map(merged_log(docs, n))[document_pointer(
                i,
            ) + p] == log_map(docs[i as int].1)[p],
        forall|k: Seq<char>| #[trigger]
            log_map(merged_log(docs, n)).contains_key(k) && k.len() > 0 ==> exists|
                i: nat,
                p: Seq<char>,
            |
                i < n && (p.len() == 0 || log_map(docs[i as int].1).contains_key(p)) && slashed(p)
                    && k == #[trigger] (document_pointer(i) + p),
    decreases n,
{
    let empty = Seq::<char>::empty();
    if n == 0 {
        let log = merged_log(docs, 0);
        let root = (docs[0].0.0, docs.last().0.1);
        assert(log =~= seq![(empty, root)]);
        assert(log_map(log.drop_last()) == Map::<Seq<char>, ByteSpan>::empty());
        assert(log.last() == (empty, root));
    } else {
        let m = (n - 1) as nat;
        lemma_merged_log(docs, m);
        let (root_span, spans) = docs[n - 1];
        let at = document_pointer(m);
        let before = merged_log(docs, m);
        let base = before.push((at, root_span));
        assert(base.drop_last() =~= before);
        lemma_log_map_concat(base, prefixed(at, spans));
        lemma_prefixed(at, spans);
        lemma_log_map_keys_slashed(spans);
        assert(orderly(docs[n - 1].1));
        let all = log_map(merged_log(docs, n));
        let own = log_map(prefixed(at, spans));
        assert(all == log_map(before).insert(at, root_span).union_prefer_right(own));
        assert(!own.contains_key(empty));
        assert(at + empty =~= at);
        assert(!own.contains_key(at));
        assert forall|i: nat|
            #![trigger document_pointer(i)]
            i < n implies all.contains_key(document_pointer(i)) && all[document_pointer(i)]
            == docs[i as int].0 by {
            let k = document_pointer(i);
            if i < m {
                assert(k + empty =~= k);
                if k == at {
                    lemma_index_unique(i, empty, m, empty);
                }
                if own.contains_key(k) {
                    let q = k.skip(at.len() as int);
                    assert(k =~= at + q);
                    lemma_index_unique(i, empty, m, q);
                }
            }
        }
        assert forall|i: nat, p: Seq<char>|
            #![trigger document_pointer(i) + p]
            i < n && p.len() > 0 && log_map(docs[i as int].1).contains_key(p) implies all.contains_key(
            document_pointer(i) + p,
        ) && all[document_pointer(i) + p] == log_map(docs[i as int].1)[p] by {
            let k = document_pointer(i) + p;
            if i < m {
                assert(orderly(docs[i as int].1));
                lemma_log_map_keys_slashed(docs[i as int].1);
                if k == at {
                    lemma_index_unique(i, p, m, empty);
                }
                if own.contains_key(k) {
                    let q = k.skip(at.len() as int);
                    assert(k =~= at + q);
                    lemma_index_unique(i, p, m, q);
                }
            }
        }
        assert forall|k: Seq<char>| #[trigger] all.contains_key(k) && k.len() > 0 implies exists|
            i: nat,
            p: Seq<char>,
        |
            i < n && (p.len() == 0 || log_map(docs[i as int].1).contains_key(p)) && slashed(p) && k
                == #[trigger] (document_pointer(i) + p) by {
            if own.contains_key(k) {
                let q = k.skip(at.len() as int);
                assert(k =~= document_pointer(m) + q);
            } else if k == at {
                assert(k == document_pointer(m) + empty);
            } else {
                assert(log_map(before).contains_key(k));
                let (i, p): (nat, Seq<char>) = choose|i: nat, p: Seq<char>|
                    i < m && (p.len() == 0 || log_map(docs[i as int].1).contains_key(p)) && slashed(p)
                        && k == #[trigger] (document_pointer(i) + p);
                assert(i < n && slashed(p) && k == document_pointer(i) + p);
            }
        }
    }
}

/// The pointers of an orderly log are empty or start with a slash.
proof fn lemma_log_map_keys_slashed(log: SpanLog)
    ensures
        orderly(log) ==> forall|p: Seq<char>| #[trigger] log_map(log).contains_key(p) ==> slashed(p),
        forall|i: int| 0 <= i < log.len() ==> log_map(log).contains_key((#[trigger] log[i]).0),
    decreases log.len(),
{
    if log.len() > 0 {
        let init = log.drop_last();
        lemma_log_map_keys_slashed(init);
        assert forall|i: int| 0 <= i < log.len() implies log_map(log).contains_key((#[trigger] log[i]).0) by {
            if i < init.len() {
                assert(log[i] == init[i]);
            }
        }
        if orderly(log) {
            assert forall|i: int| 0 <= i < init.len() implies slashed((#[trigger] init[i]).0) && init[i].1.0
                <= init[i].1.1 by {
                assert(log[i] == init[i]);
            }
            assert(slashed(log[log.len() - 1].0));
            assert forall|p: Seq<char>| #[trigger] log_map(log).contains_key(p) implies slashed(p) by {
                if p != log.last().0 {
                    assert(log_map(init).contains_key(p));
                }
            }
        }
    }
}

/// The spans of the documents of a text are orderly.
proof fn lemma_document_views_orderly(docs: Seq<YamlDocument>)
    ensures
        forall|i: int|
            0 <= i < docs.len() ==> orderly((#[trigger] document_views(docs)[i]).1),
{
    assert forall|i: int| 0 <= i < docs.len() implies orderly(
        (#[trigger] document_views(docs)[i]).1,
    ) by {
        let doc = docs[i];
        document_spans_are_orderly(doc, doc.root, Seq::empty(), doc.nodes@.len() + 1);
    }
}

/// Among several documents each root is found under the index of its document, and each other
/// pointer of a document behind that index, with the span that it has in its document. The empty
/// pointer spans all documents.
pub proof fn merged_documents_keep_their_spans(docs: Seq<YamlDocument>, i: nat, pointer: Seq<char>)
    requires
        docs.len() > 1,
        i < docs.len(),
        roots_have_spans(docs),
    ensures
        ({
            let all = merged(document_views(docs));
            let own = log_map(docs[i as int].all_spans());
            let first = docs[0].span(docs[0].root)->Some_0;
            let last = docs.last().span(docs.last().root)->Some_0;
            &&& nearest(all, Seq::empty()) == Some((first.0, last.1))
            &&& nearest(all, document_pointer(i)) == docs[i as int].span(docs[i as int].root)
            &&& all.contains_key(Seq::empty()) && all.contains_key(document_pointer(i))
            &&& pointer.len() > 0 && own.contains_key(pointer) ==> all.contains_key(
                document_pointer(i) + pointer,
            ) && nearest(all, document_pointer(i) + pointer) == Some(own[pointer])
        }),
{
    let views = document_views(docs);
    lemma_document_views_orderly(docs);
    lemma_merged_log(views, views.len());
    assert(views[i as int].1 == docs[i as int].all_spans());
    assert(docs[i as int].span(docs[i as int].root) is Some);
    let k = document_pointer(i) + pointer;
    assert(log_map(merged_log(views, views.len())).contains_key(document_pointer(i)));
}

/// Where there is a document, every pointer is found, if only as a document.
pub proof fn every_pointer_is_found(docs: Seq<YamlDocument>, pointer: Seq<char>)
    requires
        docs.len() > 0,
        roots_have_spans(docs),
    ensures
        nearest(merged(document_views(docs)), pointer) is Some,
{
    let views = document_views(docs);
    lemma_document_views_orderly(docs);
    lemma_merged_log(views, views.len());
    let log = docs[0].all_spans();
    assert(docs[0].span(docs[0].root) is Some);
    lemma_log_map_keys_slashed(log);
    assert(log.len() > 0 && log[0].0 == Seq::<char>::empty());
    lemma_nearest_is_found(merged(views), pointer);
}

/// The spans of a single document are found under its own pointers.
pub proof fn single_document_keeps_its_spans(doc: YamlDocument, pointer: Seq<char>)
    requires
        doc.span(doc.root) is Some,
        log_map(doc.all_spans()).contains_key(pointer),
    ensures
        nearest(merged(document_views(seq![doc])), pointer) == Some(log_map(doc.all_spans())[pointer]),
{
    assert(document_views(seq![doc])[0].1 == doc.all_spans());
}

/// The pointer that leads on from another one through named children.
pub open spec fn pointer_along(base: Seq<char>, path: Seq<Seq<char>>) -> Seq<char>
    decreases path.len(),
{
    if path.len() == 0 {
        base
    } else {
        pointer_along(joined(base, path[0]), path.drop_first())
    }
}

impl YamlDocument {
    /// Whether a path leads from a node to another one, through nodes that have spans: by the texts
    /// of keys in mappings, and by the numerals of indices in sequences.
    pub open spec fn reaches(&self, id: i32, path: Seq<Seq<char>>, target: i32) -> bool
        decreases path.len(),
    {
        &&& self.span(id) is Some
        &&& if path.len() == 0 {
            id == target
        } else {
            match self.node(id).content {
                YamlContent::Mapping(pairs) => exists|i: int|
                    0 <= i < pairs@.len() && self.scalar_text((#[trigger] pairs@[i]).0) == Some(
                        path[0],
                    ) && self.reaches(pairs@[i].1, path.drop_first(), target),
                YamlContent::Sequence(items) => exists|i: int|
                    0 <= i < items@.len() && path[0] == decimal(i as nat) && self.reaches(
                        #[trigger] items@[i],
                        path.drop_first(),
                        target,
                    ),
                _ => false,
            }
        }
    }
}

/// A pointer along a path has the segments of the pointer that it leads on from, and then those of
/// the path.
pub proof fn pointer_along_has_its_segments(base: Seq<char>, path: Seq<Seq<char>>)
    ensures
        segments(pointer_along(base, path)) == segments(base) + path,
    decreases path.len(),
{
    if path.len() == 0 {
        assert(segments(base) + path =~= segments(base));
    } else {
        let rest = path.drop_first();
        join_adds_one_segment(base, path[0]);
        pointer_along_has_its_segments(joined(base, path[0]), rest);
        assert(segments(base).push(path[0]) + rest =~= segments(base) + path);
    }
}

/// An entry of one of two logs is an entry of both together.
proof fn lemma_entry_of_both(a: SpanLog, b: SpanLog, entry: (Seq<char>, ByteSpan))
    requires
        a.contains(entry) || b.contains(entry),
    ensures
        (a + b).contains(entry),
{
    if a.contains(entry) {
        let i = choose|i: int| 0 <= i < a.len() && a[i] == entry;
        assert((a + b)[i] == entry);
    } else {
        let i = choose|i: int| 0 <= i < b.len() && b[i] == entry;
        assert((a + b)[a.len() + i] == entry);
    }
}

/// The entries below the value of a pair are among those of the mapping.
proof fn lemma_entry_of_pairs(
    doc: YamlDocument,
    pairs: Seq<(i32, i32)>,
    n: nat,
    i: int,
    pointer: Seq<char>,
    depth: nat,
    entry: (Seq<char>, ByteSpan),
)
    requires
        0 <= i < n <= pairs.len(),
        doc.scalar_text(pairs[i].0) is Some,
        doc.spans_from(
            pairs[i].1,
            joined(pointer, doc.scalar_text(pairs[i].0)->0),
            depth,
        ).contains(entry),
    ensures
        doc.pair_spans(pairs, n, pointer, depth).contains(entry),
    decreases n,
{
    let before = doc.pair_spans(pairs, (n - 1) as nat, pointer, depth);
    if i < n - 1 {
        lemma_entry_of_pairs(doc, pairs, (n - 1) as nat, i, pointer, depth, entry);
    }
    if let Some(name) = doc.scalar_text(pairs[n - 1].0) {
        lemma_entry_of_both(
            before,
            doc.spans_from(pairs[n - 1].1, joined(pointer, name), depth),
            entry,
        );
    }
}

/// The entries below an item are among those of the sequence.
proof fn lemma_entry_of_items(
    doc: YamlDocument,
    items: Seq<i32>,
    n: nat,
    i: int,
    pointer: Seq<char>,
    depth: nat,
    entry: (Seq<char>, ByteSpan),
)
    requires
        0 <= i < n <= items.len(),
        doc.spans_from(items[i], joined(pointer, decimal(i as nat)), depth).contains(entry),
    ensures
        doc.item_spans(items, n, pointer, depth).contains(entry),
    decreases n,
{
    let before = doc.item_spans(items, (n - 1) as nat, pointer, depth);
    if i < n - 1 {
        lemma_entry_of_items(doc, items, (n - 1) as nat, i, pointer, depth, entry);
    }
    let child = joined(pointer, decimal((n - 1) as nat));
    lemma_entry_of_both(before, doc.spans_from(items[n - 1], child, depth), entry);
}

/// A node that a path leads to has an entry of its own, under the pointer along that path and with
/// its span.
pub proof fn reached_node_has_its_entry(
    doc: YamlDocument,
    id: i32,
    base: Seq<char>,
    path: Seq<Seq<char>>,
    target: i32,
    depth: nat,
)
    requires
        doc.bounded(id, depth),
        doc.reaches(id, path, target),
    ensures
        doc.span(target) is Some,
        doc.spans_from(id, base, depth).contains((pointer_along(base, path), doc.span(target)->0)),
    decreases path.len(),
{
    let own = seq![(base, doc.span(id)->0)];
    let log = doc.spans_from(id, base, depth);
    if path.len() == 0 {
        assert(log[0] == own[0]);
    } else {
        let rest = path.drop_first();
        let child = joined(base, path[0]);
        let less = (depth - 1) as nat;
        let entry = (pointer_along(base, path), doc.span(target)->0);
        match doc.node(id).content {
            YamlContent::Mapping(pairs) => {
                let all = pairs@;
                let i = choose|i: int|
                    0 <= i < all.len() && doc.scalar_text((#[trigger] all[i]).0) == Some(path[0])
                        && doc.reaches(all[i].1, rest, target);
                assert(all[i] == pairs@[i]);
                reached_node_has_its_entry(doc, all[i].1, child, rest, target, less);
                lemma_entry_of_pairs(doc, all, all.len(), i, base, less, entry);
                lemma_entry_of_both(own, doc.pair_spans(all, all.len(), base, less), entry);
            },
            YamlContent::Sequence(items) => {
                let all = items@;
                let i = choose|i: int|
                    0 <= i < all.len() && path[0] == decimal(i as nat) && doc.reaches(
                        #[trigger] all[i],
                        rest,
                        target,
                    );
                assert(all[i] == items@[i]);
                reached_node_has_its_entry(doc, all[i], child, rest, target, less);
                lemma_entry_of_items(doc, all, all.len(), i, base, less, entry);
                lemma_entry_of_both(own, doc.item_spans(all, all.len(), base, less), entry);
            },
            _ => {},
        }
    }
}

/// The span of a log under a pointer is that of one of its entries.
proof fn lemma_log_map_spans(log: SpanLog, pointer: Seq<char>)
    requires
        log_map(log).contains_key(pointer),
    ensures
        exists|i: int| 0 <= i < log.len() && (#[trigger] log[i]).1 == log_map(log)[pointer],
    decreases log.len(),
{
    if log.len() > 0 {
        let init = log.drop_last();
        if pointer == log.last().0 {
            assert(log[log.len() - 1] == log.last());
        } else {
            lemma_log_map_spans(init, pointer);
            let i = choose|i: int|
                0 <= i < init.len() && (#[trigger] init[i]).1 == log_map(init)[pointer];
            assert(log[i] == init[i]);
        }
    }
}

/// In a document whose nodes are not found below themselves, every node below text keys and indices
/// is found under its own pointer, with a span that does not end before it starts, nor behind the
/// length that the marks of the document lie within.
pub proof fn document_has_every_pointer(
    doc: YamlDocument,
    path: Seq<Seq<char>>,
    target: i32,
    length: nat,
)
    requires
        doc.acyclic(),
        doc.marks_within(length),
        doc.reaches(doc.root, path, target),
    ensures
        ({
            let own = log_map(doc.all_spans());
            let pointer = pointer_along(Seq::empty(), path);
            own.contains_key(pointer) && own[pointer].0 <= own[pointer].1 <= length
        }),
{
    let empty = Seq::<char>::empty();
    let depth = doc.nodes@.len() + 1;
    let pointer = pointer_along(empty, path);
    let log = doc.all_spans();
    reached_node_has_its_entry(doc, doc.root, empty, path, target, depth);
    document_spans_are_orderly(doc, doc.root, empty, depth);
    spans_lie_within(doc, doc.root, empty, depth, length);
    lemma_log_map_keys_slashed(log);
    let i = choose|i: int| 0 <= i < log.len() && log[i] == (pointer, doc.span(target)->0);
    assert(log_map(log).contains_key(log[i].0));
    lemma_log_map_spans(log, pointer);
}

/// A node has the number that is one more than its place, and its span goes from its first mark to
/// its second, or stays at the first where the second is before it.
pub proof fn span_goes_from_mark_to_mark(doc: YamlDocument, i: int)
    requires
        0 <= i < doc.nodes@.len(),
        i < i32::MAX,
        doc.nodes@[i].start <= usize::MAX,
        doc.nodes@[i].end <= usize::MAX,
    ensures
        doc.span((i + 1) as i32) matches Some(span) && span.0 == doc.nodes@[i].start && (
        doc.nodes@[i].end >= doc.nodes@[i].start ==> span.1 == doc.nodes@[i].end) && (
        doc.nodes@[i].end < doc.nodes@[i].start ==> span.1 == doc.nodes@[i].start),
        doc.node((i + 1) as i32) == doc.nodes@[i],
        doc.span(0) is None,
{
}

/// A number that no node has has no span.
pub proof fn unknown_node_has_no_span(doc: YamlDocument, id: i32)
    requires
        id < 1 || id > doc.nodes@.len(),
    ensures
        doc.span(id) is None,
        doc.scalar_text(id) is None,
{
}

/// The text of a scalar is the one that its bytes encode, and nothing else has a text.
pub proof fn scalar_text_is_what_its_bytes_encode(doc: YamlDocument, id: i32, text: Seq<char>)
    requires
        1 <= id <= doc.nodes@.len(),
    ensures
        (doc.nodes@[id - 1].content matches YamlContent::Scalar(bytes) && bytes@ == encode_utf8(text))
            ==> doc.scalar_text(id) == Some(text),
        doc.scalar_text(id) == Some(text) ==> (doc.nodes@[id - 1].content matches YamlContent::Scalar(
            bytes,
        ) && bytes@ == encode_utf8(text)),
{
    encode_utf8_valid_utf8(text);
    encode_utf8_decode_utf8(text);
    if let YamlContent::Scalar(bytes) = doc.nodes@[id - 1].content {
        if valid_utf8(bytes@) {
            decode_utf8_encode_utf8(bytes@);
        }
    }
}

impl YamlDocument {
    /// Whether a node is a direct child of another one that has a span: the value of a text key, or
    /// an item.
    pub open spec fn has_child(&self, id: i32, child: i32) -> bool {
        &&& self.span(id) is Some
        &&& match self.node(id).content {
            YamlContent::Mapping(pairs) => exists|i: int|
                0 <= i < pairs@.len() && self.scalar_text((#[trigger] pairs@[i]).0) is Some
                    && pairs@[i].1 == child,
            YamlContent::Sequence(items) => exists|i: int|
                0 <= i < items@.len() && #[trigger] items@[i] == child,
            _ => false,
        }
    }
}

/// A document in which every child has a lower rank than its parent is one without cycles.
pub proof fn ranked_document_is_acyclic(doc: YamlDocument, rank: spec_fn(i32) -> nat)
    requires
        forall|id: i32, child: i32| #[trigger] doc.has_child(id, child) ==> rank(child) < rank(id),
        rank(doc.root) <= doc.nodes@.len(),
    ensures
        doc.acyclic(),
{
    lemma_ranked_is_bounded(doc, rank, doc.root, doc.nodes@.len() + 1);
}

proof fn lemma_ranked_is_bounded(
    doc: YamlDocument,
    rank: spec_fn(i32) -> nat,
    id: i32,
    depth: nat,
)
    requires
        forall|id: i32, child: i32| #[trigger] doc.has_child(id, child) ==> rank(child) < rank(id),
        rank(id) < depth,
    ensures
        doc.bounded(id, depth),
    decreases depth,
{
    if doc.span(id) is Some {
        match doc.node(id).content {
            YamlContent::Mapping(pairs) => {
                assert forall|i: int|
                    0 <= i < pairs@.len() && doc.scalar_text(
                        (#[trigger] pairs@[i]).0,
                    ) is Some implies doc.bounded(pairs@[i].1, (depth - 1) as nat) by {
                    assert(doc.has_child(id, pairs@[i].1));
                    lemma_ranked_is_bounded(doc, rank, pairs@[i].1, (depth - 1) as nat);
                }
            },
            YamlContent::Sequence(items) => {
                assert forall|i: int| 0 <= i < items@.len() implies doc.bounded(
                    #[trigger] items@[i],
                    (depth - 1) as nat,
                ) by {
                    assert(doc.has_child(id, items@[i]));
                    lemma_ranked_is_bounded(doc, rank, items@[i], (depth - 1) as nat);
                }
            },
            _ => {},
        }
    }
}

/// No path in a document without cycles is longer than there are nodes.
pub proof fn acyclic_document_has_short_paths(
    doc: YamlDocument,
    path: Seq<Seq<char>>,
    target: i32,
)
    requires
        doc.acyclic(),
        doc.reaches(doc.root, path, target),
    ensures
        path.len() <= doc.nodes@.len(),
{
    lemma_path_is_short(doc, doc.root, path, target, doc.nodes@.len() + 1);
}

proof fn lemma_path_is_short(
    doc: YamlDocument,
    id: i32,
    path: Seq<Seq<char>>,
    target: i32,
    depth: nat,
)
    requires
        doc.bounded(id, depth),
        doc.reaches(id, path, target),
    ensures
        path.len() < depth,
    decreases path.len(),
{
    if path.len() > 0 {
        let rest = path.drop_first();
        match doc.node(id).content {
            YamlContent::Mapping(pairs) => {
                let all = pairs@;
                let i = choose|i: int|
                    0 <= i < all.len() && doc.scalar_text((#[trigger] all[i]).0) == Some(path[0])
                        && doc.reaches(all[i].1, rest, target);
                assert(all[i] == pairs@[i]);
                lemma_path_is_short(doc, all[i].1, rest, target, (depth - 1) as nat);
            },
            YamlContent::Sequence(items) => {
                let all = items@;
                let i = choose|i: int|
                    0 <= i < all.len() && path[0] == decimal(i as nat) && doc.reaches(
                        #[trigger] all[i],
                        rest,
                        target,
                    );
                assert(all[i] == items@[i]);
                lemma_path_is_short(doc, all[i], rest, target, (depth - 1) as nat);
            },
            _ => {},
        }
    }
}

/// Every entry of a document is that of a node that a path leads to: its pointer is the one along
/// that path, and its span that of the node.
pub proof fn every_entry_is_that_of_a_node(
    doc: YamlDocument,
    id: i32,
    base: Seq<char>,
    depth: nat,
    entry: (Seq<char>, ByteSpan),
) -> (found: (Seq<Seq<char>>, i32))
    requires
        doc.spans_from(id, base, depth).contains(entry),
    ensures
        doc.reaches(id, found.0, found.1),
        entry.0 == pointer_along(base, found.0),
        doc.span(found.1) == Some(entry.1),
    decreases depth, 0nat,
{
    let own = seq![(base, doc.span(id)->0)];
    let empty = Seq::<Seq<char>>::empty();
    if entry == own[0] {
        (empty, id)
    } else {
        let less = (depth - 1) as nat;
        match doc.node(id).content {
            YamlContent::Mapping(pairs) => {
                let all = pairs@;
                lemma_entry_of_one(own, doc.pair_spans(all, all.len(), base, less), entry);
                let (i, rest, target) = lemma_pair_of_entry(doc, all, all.len(), base, less, entry);
                let path = seq![doc.scalar_text(all[i].0)->0] + rest;
                assert(path.drop_first() =~= rest);
                assert(doc.scalar_text(pairs@[i].0) == Some(path[0]) && doc.reaches(
                    pairs@[i].1,
                    path.drop_first(),
                    target,
                ));
                (path, target)
            },
            YamlContent::Sequence(items) => {
                let all = items@;
                lemma_entry_of_one(own, doc.item_spans(all, all.len(), base, less), entry);
                let (i, rest, target) = lemma_item_of_entry(doc, all, all.len(), base, less, entry);
                let path = seq![decimal(i as nat)] + rest;
                assert(path.drop_first() =~= rest);
                assert(path[0] == decimal(i as nat) && doc.reaches(
                    items@[i],
                    path.drop_first(),
                    target,
                ));
                (path, target)
            },
            _ => {
                let k = choose|k: int| 0 <= k < own.len() && own[k] == entry;
                (empty, id)
            },
        }
    }
}

/// An entry of two logs together is one of either.
proof fn lemma_entry_of_one(a: SpanLog, b: SpanLog, entry: (Seq<char>, ByteSpan))
    requires
        (a + b).contains(entry),
    ensures
        a.contains(entry) || b.contains(entry),
{
    let k = choose|k: int| 0 <= k < (a + b).len() && (a + b)[k] == entry;
    if k < a.len() {
        assert(a[k] == entry);
    } else {
        assert(b[k - a.len()] == entry);
    }
}

proof fn lemma_pair_of_entry(
    doc: YamlDocument,
    pairs: Seq<(i32, i32)>,
    n: nat,
    base: Seq<char>,
    depth: nat,
    entry: (Seq<char>, ByteSpan),
) -> (found: (int, Seq<Seq<char>>, i32))
    requires
        n <= pairs.len(),
        doc.pair_spans(pairs, n, base, depth).contains(entry),
    ensures
        0 <= found.0 < n,
        doc.scalar_text(pairs[found.0].0) is Some,
        doc.reaches(pairs[found.0].1, found.1, found.2),
        entry.0 == pointer_along(joined(base, doc.scalar_text(pairs[found.0].0)->0), found.1),
        doc.span(found.2) == Some(entry.1),
    decreases depth, n + 1,
{
    if n == 0 {
        assert(false);
        (0, Seq::empty(), 0)
    } else {
        let before = doc.pair_spans(pairs, (n - 1) as nat, base, depth);
        match doc.scalar_text(pairs[n - 1].0) {
            Some(name) => {
                let child = joined(base, name);
                let own = doc.spans_from(pairs[n - 1].1, child, depth);
                lemma_entry_of_one(before, own, entry);
                if own.contains(entry) {
                    let (path, target) = every_entry_is_that_of_a_node(
                        doc,
                        pairs[n - 1].1,
                        child,
                        depth,
                        entry,
                    );
                    (n - 1, path, target)
                } else {
                    lemma_pair_of_entry(doc, pairs, (n - 1) as nat, base, depth, entry)
                }
            },
            None => lemma_pair_of_entry(doc, pairs, (n - 1) as nat, base, depth, entry),
        }
    }
}

proof fn lemma_item_of_entry(
    doc: YamlDocument,
    items: Seq<i32>,
    n: nat,
    base: Seq<char>,
    depth: nat,
    entry: (Seq<char>, ByteSpan),
) -> (found: (int, Seq<Seq<char>>, i32))
    requires
        n <= items.len(),
        doc.item_spans(items, n, base, depth).contains(entry),
    ensures
        0 <= found.0 < n,
        doc.reaches(items[found.0], found.1, found.2),
        entry.0 == pointer_along(joined(base, decimal(found.0 as nat)), found.1),
        doc.span(found.2) == Some(entry.1),
    decreases depth, n + 1,
{
    if n == 0 {
        assert(false);
        (0, Seq::empty(), 0)
    } else {
        let before = doc.item_spans(items, (n - 1) as nat, base, depth);
        let child = joined(base, decimal((n - 1) as nat));
        let own = doc.spans_from(items[n - 1], child, depth);
        lemma_entry_of_one(before, own, entry);
        if own.contains(entry) {
            let (path, target) = every_entry_is_that_of_a_node(
                doc,
                items[n - 1],
                child,
                depth,
                entry,
            );
            (n - 1, path, target)
        } else {
            lemma_item_of_entry(doc, items, (n - 1) as nat, base, depth, entry)
        }
    }
}

/// The last entry of a pointer is its span, and an entry of another pointer changes nothing for it.
pub proof fn last_entry_of_pointer_is_its_span(
    log: SpanLog,
    pointer: Seq<char>,
    span: ByteSpan,
    other: Seq<char>,
)
    ensures
        log_map(Seq::empty()) == Map::<Seq<char>, ByteSpan>::empty(),
        log_map(log.push((pointer, span))).contains_key(pointer),
        log_map(log.push((pointer, span)))[pointer] == span,
        other != pointer ==> (log_map(log.push((pointer, span))).contains_key(other)
            <==> log_map(log).contains_key(other)),
        other != pointer && log_map(log).contains_key(other) ==> log_map(
            log.push((pointer, span)),
        )[other] == log_map(log)[other],
{
    assert(log.push((pointer, span)).drop_last() =~= log);
}

/// A pointer without a span is looked up as what stands before its last slash, and the empty one is
/// then not found.
pub proof fn lookup_goes_up_slash_by_slash(
    spans: Map<Seq<char>, ByteSpan>,
    parent: Seq<char>,
    part: Seq<char>,
)
    requires
        forall|i: int| 0 <= i < part.len() ==> part[i] != '/',
    ensures
        !spans.contains_key(parent + seq!['/'] + part) ==> nearest(
            spans,
            parent + seq!['/'] + part,
        ) == nearest(spans, parent),
        !spans.contains_key(part) && part.len() > 0 ==> nearest(spans, part) == nearest(
            spans,
            Seq::empty(),
        ),
        !spans.contains_key(Seq::empty()) ==> nearest(spans, Seq::empty()) is None,
{
    slash_parts_pointers(parent, part);
}

/// A text without documents has no spans, and the pointers of several documents are the empty one,
/// those of the documents, and theirs behind them, and no others.
pub proof fn merged_pointers_are_those_of_the_documents(
    docs: Seq<YamlDocument>,
    pointer: Seq<char>,
) -> (found: (nat, Seq<char>))
    requires
        docs.len() > 1,
        merged(document_views(docs)).contains_key(pointer),
        pointer.len() > 0,
    ensures
        merged(document_views(Seq::<YamlDocument>::empty())) == Map::<
            Seq<char>,
            ByteSpan,
        >::empty(),
        found.0 < docs.len(),
        found.1.len() == 0 || log_map(docs[found.0 as int].all_spans()).contains_key(found.1),
        pointer == seq!['/'] + decimal(found.0) + found.1,
{
    let views = document_views(docs);
    lemma_document_views_orderly(docs);
    lemma_merged_log(views, views.len());
    assert(log_map(merged_log(views, views.len())).contains_key(pointer));
    let (i, p): (nat, Seq<char>) = choose|i: nat, p: Seq<char>|
        i < views.len() && (p.len() == 0 || log_map(views[i as int].1).contains_key(p)) && slashed(p)
            && pointer == #[trigger] (document_pointer(i) + p);
    assert(views[i as int].1 == docs[i as int].all_spans());
    (i, p)
}

/// The entries of a document, and the documents of a text, are taken as they are, in order.
pub proof fn entries_are_what_they_hold(
    entries: Seq<(String, ByteSpan)>,
    entry: (String, ByteSpan),
    maps: Seq<DocumentPointerMap>,
    map: DocumentPointerMap,
    docs: Seq<YamlDocument>,
    doc: YamlDocument,
)
    ensures
        log_of(Seq::empty()) == SpanLog::empty(),
        log_of(entries.push(entry)) == log_of(entries).push((entry.0@, entry.1)),
        map@.0 == map.root_span,
        map@.1 == log_of(map.spans@),
        map_views(Seq::empty()) == Seq::<(ByteSpan, SpanLog)>::empty(),
        map_views(maps.push(map)) == map_views(maps).push(map@),
        document_views(Seq::empty()) == Seq::<(ByteSpan, SpanLog)>::empty(),
        doc.span(doc.root) matches Some(span) ==> document_views(docs.push(doc)) == document_views(
            docs,
        ).push((span, doc.all_spans())),
        roots_have_spans(Seq::empty()),
        roots_have_spans(docs.push(doc)) <==> roots_have_spans(docs) && doc.span(doc.root) is Some,
{
    assert(log_of(Seq::empty()) =~= SpanLog::empty());
    assert(log_of(entries.push(entry)) =~= log_of(entries).push((entry.0@, entry.1)));
    assert(map_views(Seq::empty()) =~= Seq::empty());
    assert(map_views(maps.push(map)) =~= map_views(maps).push(map@));
    assert(document_views(Seq::empty()) =~= Seq::empty());
    let longer = docs.push(doc);
    assert(document_views(longer) =~= document_views(docs).push(
        (doc.span(doc.root)->0, doc.all_spans()),
    ));
    assert(longer[docs.len() as int] == doc);
    if roots_have_spans(longer) {
        assert forall|i: int| 0 <= i < docs.len() implies (#[trigger] docs[i]).span(
            docs[i].root,
        ) is Some by {
            assert(longer[i] == docs[i]);
        }
    }
}

/// Below a sequence, an item is found behind the numeral of its index, which counts from zero, and
/// below a mapping, a value behind the text of its key, escaped. Each has the span of its own node.
pub proof fn children_are_found_by_index_and_key(
    doc: YamlDocument,
    id: i32,
    base: Seq<char>,
    depth: nat,
    i: int,
    name: Seq<char>,
)
    requires
        depth >= 2,
        doc.span(id) is Some,
    ensures
        doc.node(id).content matches YamlContent::Sequence(items) ==> (0 <= i < items@.len() ==> (
        doc.span(items@[i]) matches Some(span) ==> doc.spans_from(id, base, depth).contains(
            (base.push('/') + escaped(decimal(i as nat)), span),
        ) && doc.reaches(id, seq![decimal(i as nat)], items@[i]))),
        doc.node(id).content matches YamlContent::Mapping(pairs) ==> (0 <= i < pairs@.len()
            && doc.scalar_text(pairs@[i].0) == Some(name) ==> (doc.span(pairs@[i].1) matches Some(
            span,
        ) ==> doc.spans_from(id, base, depth).contains((base.push('/') + escaped(name), span))
            && doc.reaches(id, seq![name], pairs@[i].1))),
        doc.spans_from(id, base, depth)[0] == (base, doc.span(id)->0),
{
    let less = (depth - 1) as nat;
    let own = seq![(base, doc.span(id)->0)];
    let none = Seq::<Seq<char>>::empty();
    match doc.node(id).content {
        YamlContent::Sequence(items) => {
            if 0 <= i < items@.len() && doc.span(items@[i]) is Some {
                let part = decimal(i as nat);
                let entry = (joined(base, part), doc.span(items@[i])->0);
                assert(doc.spans_from(items@[i], joined(base, part), less)[0] == entry);
                lemma_entry_of_items(doc, items@, items@.len(), i, base, less, entry);
                lemma_entry_of_both(own, doc.item_spans(items@, items@.len(), base, less), entry);
                let path = seq![part];
                assert(path.drop_first() =~= none);
                assert(doc.reaches(items@[i], none, items@[i]));
                assert(path[0] == part && doc.reaches(items@[i], path.drop_first(), items@[i]));
            }
        },
        YamlContent::Mapping(pairs) => {
            if 0 <= i < pairs@.len() && doc.scalar_text(pairs@[i].0) == Some(name) && doc.span(
                pairs@[i].1,
            ) is Some {
                let value = pairs@[i].1;
                let entry = (joined(base, name), doc.span(value)->0);
                assert(doc.spans_from(value, joined(base, name), less)[0] == entry);
                lemma_entry_of_pairs(doc, pairs@, pairs@.len(), i, base, less, entry);
                lemma_entry_of_both(own, doc.pair_spans(pairs@, pairs@.len(), base, less), entry);
                let path = seq![name];
                assert(path.drop_first() =~= none);
                assert(doc.reaches(value, none, value));
                assert(path[0] == name && doc.reaches(value, path.drop_first(), value));
            }
        },
        _ => {},
    }
}

} // verus!
