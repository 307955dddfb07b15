//! YAML values, and the JSON values that they are validated as.
use serde::Deserialize;
use serde_yaml::Value as SerdeYaml;
use vstd::prelude::*;

use crate::json::{insert_member, item_views, lemma_array_view, lemma_object_view, member_views};
use crate::json::{with_member, JsonNumber, JsonValue, JsonView, NumberView};
use crate::text::concat;

verus! {

/// A YAML number, as what it can be read as: a signed integer, an unsigned one, or a float, the
/// last as its shortest decimal text (`NaN`, `inf` and `-inf` where it is not finite).
#[derive(Debug, PartialEq, Eq)]
pub struct YamlNumber {
    pub signed: Option<i64>,
    pub unsigned: Option<u64>,
    pub float: Option<String>,
}

/// A mapping key: a text, or anything else, as it is shown in messages.
#[derive(Debug, PartialEq, Eq)]
pub enum YamlKey {
    Text(String),
    Other(String),
}

/// A YAML value. One behind a tag is held with the text of the tag.
#[derive(Debug, PartialEq, Eq)]
pub enum YamlValue {
    Null,
    Bool(bool),
    Number(YamlNumber),
    Text(String),
    Sequence(Vec<YamlValue>),
    Mapping(Vec<(YamlKey, YamlValue)>),
    Tagged(String, Box<YamlValue>),
}

/// Why a YAML value has no JSON value.
#[derive(Debug, PartialEq, Eq)]
pub enum ConvertError {
    /// A mapping key, shown here, is no text.
    KeyNotText(String),
}

/// The message of a failed conversion.
pub open spec fn convert_message(e: ConvertErrorView) -> Seq<char> {
    match e {
        ConvertErrorView::KeyNotText(shown) => "YAML mapping key must be string (got "@ + shown
            + ")"@,
    }
}

impl ConvertError {
    /// The message of the error.
    pub fn message(&self) -> (r: String)
        ensures
            r@ == convert_message(self@),
    {
        match self {
            ConvertError::KeyNotText(shown) => concat(
                concat("YAML mapping key must be string (got ", shown.as_str()).as_str(),
                ")",
            ),
        }
    }
}

/// What a YAML number can be read as.
pub ghost struct YamlNumberView {
    pub signed: Option<i64>,
    pub unsigned: Option<u64>,
    pub float: Option<Seq<char>>,
}

/// What a mapping key is.
pub ghost enum YamlKeyView {
    Text(Seq<char>),
    Other(Seq<char>),
}

/// What a YAML value is.
pub ghost enum YamlView {
    Null,
    Bool(bool),
    Number(YamlNumberView),
    Text(Seq<char>),
    Sequence(Seq<YamlView>),
    Mapping(Seq<(YamlKeyView, YamlView)>),
    Tagged(Seq<char>, Box<YamlView>),
}

/// What a failed conversion says.
pub ghost enum ConvertErrorView {
    KeyNotText(Seq<char>),
}

impl View for YamlNumber {
    type V = YamlNumberView;

    open spec fn view(&self) -> YamlNumberView {
        YamlNumberView {
            signed: self.signed,
            unsigned: self.unsigned,
            float: match self.float {
                Some(s) => Some(s@),
                None => None,
            },
        }
    }
}

impl View for YamlKey {
    type V = YamlKeyView;

    open spec fn view(&self) -> YamlKeyView {
        match self {
            YamlKey::Text(s) => YamlKeyView::Text(s@),
            YamlKey::Other(s) => YamlKeyView::Other(s@),
        }
    }
}

impl View for ConvertError {
    type V = ConvertErrorView;

    open spec fn view(&self) -> ConvertErrorView {
        match self {
            ConvertError::KeyNotText(s) => ConvertErrorView::KeyNotText(s@),
        }
    }
}

impl YamlValue {
    /// What the value is.
    pub open spec fn view(&self) -> YamlView
        decreases self,
    {
        match self {
            YamlValue::Null => YamlView::Null,
            YamlValue::Bool(b) => YamlView::Bool(*b),
            YamlValue::Number(n) => YamlView::Number(n@),
            YamlValue::Text(s) => YamlView::Text(s@),
            YamlValue::Sequence(items) => YamlView::Sequence(
                Seq::new(
                    items@.len(),
                    |i: int|
                        if 0 <= i < items@.len() {
                            items@[i].view()
                        } else {
                            YamlView::Null
                        },
                ),
            ),
            YamlValue::Mapping(pairs) => YamlView::Mapping(
                Seq::new(
                    pairs@.len(),
                    |i: int|
                        if 0 <= i < pairs@.len() {
                            (pairs@[i].0@, pairs@[i].1.view())
                        } else {
                            (YamlKeyView::Text(Seq::empty()), YamlView::Null)
                        },
                ),
            ),
            YamlValue::Tagged(tag, value) => YamlView::Tagged(tag@, Box::new(value.view())),
        }
    }
}

/// What the items of a sequence are.
pub open spec fn yaml_views(items: Seq<YamlValue>) -> Seq<YamlView> {
    items.map_values(|item: YamlValue| item@)
}

/// What the pairs of a mapping are.
pub open spec fn pair_views(pairs: Seq<(YamlKey, YamlValue)>) -> Seq<(YamlKeyView, YamlView)> {
    pairs.map_values(|p: (YamlKey, YamlValue)| (p.0@, p.1@))
}

/// A sequence is its items.
pub broadcast proof fn lemma_sequence_view(items: Vec<YamlValue>)
    ensures
        #[trigger] YamlValue::Sequence(items).view() == YamlView::Sequence(yaml_views(items@)),
{
    let v = YamlValue::Sequence(items);
    assert(v.view()->Sequence_0 =~= yaml_views(items@));
}

/// A mapping is its pairs.
pub broadcast proof fn lemma_mapping_view(pairs: Vec<(YamlKey, YamlValue)>)
    ensures
        #[trigger] YamlValue::Mapping(pairs).view() == YamlView::Mapping(pair_views(pairs@)),
{
    let v = YamlValue::Mapping(pairs);
    assert(v.view()->Mapping_0 =~= pair_views(pairs@));
}

/// Whether the text of a float is that of a finite one.
pub open spec fn finite(float: Seq<char>) -> bool {
    float != "NaN"@ && float != "inf"@ && float != "-inf"@
}

/// The JSON value of a number: the integer that it is, else its float where that is finite, else
/// null.
pub open spec fn number_json(n: YamlNumberView) -> JsonView {
    match (n.signed, n.unsigned, n.float) {
        (Some(i), _, _) => JsonView::Number(NumberView::Integer(i as int)),
        (None, Some(u), _) => JsonView::Number(NumberView::Integer(u as int)),
        (None, None, Some(f)) => if finite(f) {
            JsonView::Number(NumberView::Float(f))
        } else {
            JsonView::Null
        },
        (None, None, None) => JsonView::Null,
    }
}

/// The JSON value of a YAML value, or the first thing in it that has none. A tag becomes an object
/// with one member, the value behind it.
pub open spec fn yaml_json(v: YamlView) -> Result<JsonView, ConvertErrorView>
    decreases v, 0nat,
{
    match v {
        YamlView::Null => Ok(JsonView::Null),
        YamlView::Bool(b) => Ok(JsonView::Bool(b)),
        YamlView::Number(n) => Ok(number_json(n)),
        YamlView::Text(s) => Ok(JsonView::Text(s)),
        YamlView::Sequence(items) => match items_json(items, items.len()) {
            Ok(out) => Ok(JsonView::Array(out)),
            Err(e) => Err(e),
        },
        YamlView::Mapping(pairs) => match pairs_json(pairs, pairs.len()) {
            Ok(out) => Ok(JsonView::Object(out)),
            Err(e) => Err(e),
        },
        YamlView::Tagged(tag, value) => match yaml_json(*value) {
            Ok(j) => Ok(JsonView::Object(seq![(tag, j)])),
            Err(e) => Err(e),
        },
    }
}

/// The JSON values of the first `n` items, or the first failure among them.
pub open spec fn items_json(items: Seq<YamlView>, n: nat) -> Result<Seq<JsonView>, ConvertErrorView>
    decreases items, n,
{
    if n == 0 || n > items.len() {
        Ok(Seq::empty())
    } else {
        match items_json(items, (n - 1) as nat) {
            Err(e) => Err(e),
            Ok(out) => match yaml_json(items[n - 1]) {
                Err(e) => Err(e),
                Ok(j) => Ok(out.push(j)),
            },
        }
    }
}

/// The members made of the first `n` pairs, or the first failure among them. A key that occurs
/// again takes the later value.
pub open spec fn pairs_json(
    pairs: Seq<(YamlKeyView, YamlView)>,
    n: nat,
) -> Result<Seq<(Seq<char>, JsonView)>, ConvertErrorView>
    decreases pairs, n,
{
    if n == 0 || n > pairs.len() {
        Ok(Seq::empty())
    } else {
        match pairs_json(pairs, (n - 1) as nat) {
            Err(e) => Err(e),
            Ok(out) => match pairs[n - 1].0 {
                YamlKeyView::Other(shown) => Err(ConvertErrorView::KeyNotText(shown)),
                YamlKeyView::Text(name) => match yaml_json(pairs[n - 1].1) {
                    Err(e) => Err(e),
                    Ok(j) => Ok(with_member(out, name, j)),
                },
            },
        }
    }
}

/// Whether the text of a float is that of a finite one.
fn is_finite(float: &String) -> (r: bool)
    ensures
        r == finite(float@),
{
    let nan = "NaN".to_string();
    let inf = "inf".to_string();
    let neg = "-inf".to_string();
    !(*float == nan) && !(*float == inf) && !(*float == neg)
}

/// The JSON value of a number.
fn number_to_json(n: &YamlNumber) -> (r: JsonValue)
    ensures
        r@ == number_json(n@),
{
    if let Some(i) = n.signed {
        return JsonValue::Number(JsonNumber::Signed(i));
    }
    if let Some(u) = n.unsigned {
        return JsonValue::Number(JsonNumber::Unsigned(u));
    }
    match &n.float {
        Some(f) => {
            if is_finite(f) {
                JsonValue::Number(JsonNumber::Float(f.clone()))
            } else {
                JsonValue::Null
            }
        },
        None => JsonValue::Null,
    }
}

/// What a conversion came to.
pub open spec fn converted(r: Result<JsonValue, ConvertError>) -> Result<JsonView, ConvertErrorView> {
    match r {
        Ok(v) => Ok(v@),
        Err(e) => Err(e@),
    }
}

/// The JSON value of a YAML value. A mapping key that is no text is an error.
pub fn yaml_to_json_value(v: &YamlValue) -> (r: Result<JsonValue, ConvertError>)
    ensures
        converted(r) == yaml_json(v@),
    decreases v,
{
    broadcast use lemma_array_view, lemma_object_view, lemma_sequence_view, lemma_mapping_view;

    match v {
        YamlValue::Null => Ok(JsonValue::Null),
        YamlValue::Bool(b) => Ok(JsonValue::Bool(*b)),
        YamlValue::Number(n) => Ok(number_to_json(n)),
        YamlValue::Text(s) => Ok(JsonValue::Text(s.clone())),
        YamlValue::Sequence(items) => {
            let ghost all = yaml_views(items@);
            let mut out: Vec<JsonValue> = Vec::new();
            let mut i: usize = 0;
            assert(item_views(out@) =~= Seq::empty());
            while i < items.len()
                invariant
                    i <= items@.len(),
                    *v == YamlValue::Sequence(*items),
                    v@ == YamlView::Sequence(all),
                    all == yaml_views(items@),
                    items_json(all, i as nat) == Ok::<Seq<JsonView>, ConvertErrorView>(
                        item_views(out@),
                    ),
                decreases items@.len() - i,
            {
                assert(all[i as int] == items@[i as int]@);
                match yaml_to_json_value(&items[i]) {
                    Ok(j) => {
                        let ghost before = item_views(out@);
                        out.push(j);
                        assert(item_views(out@) =~= before.push(j@));
                    },
                    Err(e) => {
                        proof {
                            lemma_items_error(all, (i + 1) as nat, all.len());
                        }
                        return Err(e);
                    },
                }
                i = i + 1;
            }
            Ok(JsonValue::Array(out))
        },
        YamlValue::Mapping(pairs) => {
            let ghost all = pair_views(pairs@);
            let mut out: Vec<(String, JsonValue)> = Vec::new();
            let mut i: usize = 0;
            assert(member_views(out@) =~= Seq::empty());
            while i < pairs.len()
                invariant
                    i <= pairs@.len(),
                    *v == YamlValue::Mapping(*pairs),
                    v@ == YamlView::Mapping(all),
                    all == pair_views(pairs@),
                    pairs_json(all, i as nat) == Ok::<
                        Seq<(Seq<char>, JsonView)>,
                        ConvertErrorView,
                    >(member_views(out@)),
                decreases pairs@.len() - i,
            {
                assert(all[i as int] == (pairs@[i as int].0@, pairs@[i as int].1@));
                let name = match &pairs[i].0 {
                    YamlKey::Text(s) => s.clone(),
                    YamlKey::Other(shown) => {
                        proof {
                            lemma_pairs_error(all, (i + 1) as nat, all.len());
                        }
                        return Err(ConvertError::KeyNotText(shown.clone()));
                    },
                };
                match yaml_to_json_value(&pairs[i].1) {
                    Ok(j) => {
                        insert_member(&mut out, name, j);
                    },
                    Err(e) => {
                        proof {
                            lemma_pairs_error(all, (i + 1) as nat, all.len());
                        }
                        return Err(e);
                    },
                }
                i = i + 1;
            }
            Ok(JsonValue::Object(out))
        },
        YamlValue::Tagged(tag, value) => match yaml_to_json_value(value) {
            Ok(j) => {
                let mut out: Vec<(String, JsonValue)> = Vec::new();
                out.push((tag.clone(), j));
                assert(member_views(out@) =~= seq![(tag@, j@)]);
                Ok(JsonValue::Object(out))
            },
            Err(e) => Err(e),
        },
    }
}

/// A failure among the first items is the failure of all of them.
proof fn lemma_items_error(items: Seq<YamlView>, m: nat, n: nat)
    requires
        m <= n <= items.len(),
        items_json(items, m) is Err,
    ensures
        items_json(items, n) == items_json(items, m),
    decreases n,
{
    if m < n {
        lemma_items_error(items, m, (n - 1) as nat);
    }
}

/// A failure among the first pairs is the failure of all of them.
proof fn lemma_pairs_error(pairs: Seq<(YamlKeyView, YamlView)>, m: nat, n: nat)
    requires
        m <= n <= pairs.len(),
        pairs_json(pairs, m) is Err,
    ensures
        pairs_json(pairs, n) == pairs_json(pairs, m),
    decreases n,
{
    if m < n {
        lemma_pairs_error(pairs, m, (n - 1) as nat);
    }
}

/// Whether every mapping key in a value, at any depth, is a text.
pub open spec fn convertible(v: YamlView) -> bool
    decreases v,
{
    match v {
        YamlView::Sequence(items) => forall|i: int|
            0 <= i < items.len() ==> convertible(#[trigger] items[i]),
        YamlView::Mapping(pairs) => forall|i: int|
            0 <= i < pairs.len() ==> (#[trigger] pairs[i]).0 is Text && convertible(pairs[i].1),
        YamlView::Tagged(_, value) => convertible(*value),
        _ => true,
    }
}

/// A YAML value has a JSON value exactly where every key in it is a text, at every depth and below
/// every tag.
pub proof fn conversion_fails_on_keys_alone(v: YamlView)
    ensures
        yaml_json(v) is Ok <==> convertible(v),
    decreases v, 0nat,
{
    match v {
        YamlView::Sequence(items) => {
            lemma_items_convertible(items, items.len());
        },
        YamlView::Mapping(pairs) => {
            lemma_pairs_convertible(pairs, pairs.len());
        },
        YamlView::Tagged(_, value) => {
            conversion_fails_on_keys_alone(*value);
        },
        _ => {},
    }
}

proof fn lemma_items_convertible(items: Seq<YamlView>, n: nat)
    requires
        n <= items.len(),
    ensures
        items_json(items, n) is Ok <==> forall|i: int|
            0 <= i < n ==> convertible(#[trigger] items[i]),
    decreases items, n,
{
    if n > 0 {
        lemma_items_convertible(items, (n - 1) as nat);
        conversion_fails_on_keys_alone(items[n - 1]);
        if items_json(items, n) is Ok {
            assert forall|i: int| 0 <= i < n implies convertible(#[trigger] items[i]) by {
                if i < n - 1 {
                }
            }
        }
    }
}

proof fn lemma_pairs_convertible(pairs: Seq<(YamlKeyView, YamlView)>, n: nat)
    requires
        n <= pairs.len(),
    ensures
        pairs_json(pairs, n) is Ok <==> forall|i: int|
            0 <= i < n ==> (#[trigger] pairs[i]).0 is Text && convertible(pairs[i].1),
    decreases pairs, n,
{
    if n > 0 {
        lemma_pairs_convertible(pairs, (n - 1) as nat);
        conversion_fails_on_keys_alone(pairs[n - 1].1);
        if pairs_json(pairs, n) is Ok {
            assert forall|i: int| 0 <= i < n implies (#[trigger] pairs[i]).0 is Text && convertible(
                pairs[i].1,
            ) by {
                if i < n - 1 {
                }
            }
        }
    }
}

/// A member of a new name comes last.
proof fn lemma_with_new_member(
    members: Seq<(Seq<char>, JsonView)>,
    name: Seq<char>,
    value: JsonView,
)
    requires
        forall|i: int| 0 <= i < members.len() ==> (#[trigger] members[i]).0 != name,
    ensures
        with_member(members, name, value) == members.push((name, value)),
    decreases members.len(),
{
    if members.len() == 0 {
        assert(with_member(members, name, value) =~= members.push((name, value)));
    } else {
        let rest = members.drop_first();
        assert forall|i: int| 0 <= i < rest.len() implies (#[trigger] rest[i]).0 != name by {
            assert(rest[i] == members[i + 1]);
        }
        lemma_with_new_member(rest, name, value);
        assert(with_member(members, name, value) =~= members.push((name, value)));
    }
}

/// A mapping whose keys are different texts becomes the object with one member for each pair, in
/// the same order.
pub proof fn mapping_keeps_its_pairs(pairs: Seq<(YamlKeyView, YamlView)>)
    requires
        convertible(YamlView::Mapping(pairs)),
        forall|i: int, j: int| 0 <= i < j < pairs.len() ==> pairs[i].0 != pairs[j].0,
    ensures
        yaml_json(YamlView::Mapping(pairs)) matches Ok(JsonView::Object(members)) && members.len()
            == pairs.len() && forall|i: int|
            0 <= i < pairs.len() ==> YamlKeyView::Text((#[trigger] members[i]).0) == pairs[i].0
                && yaml_json(pairs[i].1) == Ok::<JsonView, ConvertErrorView>(members[i].1),
{
    lemma_distinct_pairs(pairs, pairs.len());
}

proof fn lemma_distinct_pairs(pairs: Seq<(YamlKeyView, YamlView)>, n: nat)
    requires
        n <= pairs.len(),
        convertible(YamlView::Mapping(pairs)),
        forall|i: int, j: int| 0 <= i < j < pairs.len() ==> pairs[i].0 != pairs[j].0,
    ensures
        pairs_json(pairs, n) matches Ok(members) && members.len() == n && forall|i: int|
            0 <= i < n ==> YamlKeyView::Text((#[trigger] members[i]).0) == pairs[i].0 && yaml_json(
                pairs[i].1,
            ) == Ok::<JsonView, ConvertErrorView>(members[i].1),
    decreases n,
{
    if n > 0 {
        lemma_distinct_pairs(pairs, (n - 1) as nat);
        let members = pairs_json(pairs, (n - 1) as nat)->Ok_0;
        assert(pairs[n - 1].0 is Text && convertible(pairs[n - 1].1));
        conversion_fails_on_keys_alone(pairs[n - 1].1);
        let name = pairs[n - 1].0->Text_0;
        assert forall|i: int| 0 <= i < members.len() implies (#[trigger] members[i]).0 != name by {
            assert(pairs[i].0 != pairs[n - 1].0);
        }
        lemma_with_new_member(members, name, yaml_json(pairs[n - 1].1)->Ok_0);
    }
}

/// Whether a YAML value is a JSON value written down: an integer can be read as whatever it fits in,
/// and perhaps as a float; any other number as its float alone; and each name is a text key.
pub open spec fn written_as(j: JsonView, y: YamlView) -> bool
    decreases j,
{
    match j {
        JsonView::Null => y == YamlView::Null,
        JsonView::Bool(b) => y == YamlView::Bool(b),
        JsonView::Number(NumberView::Integer(n)) => {
            &&& y matches YamlView::Number(m)
            &&& m.signed == (if i64::MIN <= n <= i64::MAX {
                Some(n as i64)
            } else {
                None
            })
            &&& m.unsigned == (if 0 <= n <= u64::MAX {
                Some(n as u64)
            } else {
                None
            })
        },
        JsonView::Number(NumberView::Float(f)) => y == YamlView::Number(
            YamlNumberView { signed: None, unsigned: None, float: Some(f) },
        ),
        JsonView::Text(s) => y == YamlView::Text(s),
        JsonView::Array(items) => {
            &&& y matches YamlView::Sequence(all)
            &&& all.len() == items.len()
            &&& forall|i: int| 0 <= i < items.len() ==> written_as(#[trigger] items[i], all[i])
        },
        JsonView::Object(members) => {
            &&& y matches YamlView::Mapping(all)
            &&& all.len() == members.len()
            &&& forall|i: int|
                0 <= i < members.len() ==> all[i].0 == YamlKeyView::Text((#[trigger] members[i]).0)
                    && written_as(members[i].1, all[i].1)
        },
    }
}

/// Whether a JSON value is one that can be read: its integers fit in 64 bits, its floats are
/// finite, and no object has two members of one name.
pub open spec fn regular(j: JsonView) -> bool
    decreases j,
{
    match j {
        JsonView::Number(NumberView::Integer(n)) => i64::MIN <= n <= u64::MAX,
        JsonView::Number(NumberView::Float(f)) => f != "NaN"@ && f != "inf"@ && f != "-inf"@,
        JsonView::Array(items) => forall|i: int|
            0 <= i < items.len() ==> regular(#[trigger] items[i]),
        JsonView::Object(members) => {
            &&& forall|i: int| 0 <= i < members.len() ==> regular((#[trigger] members[i]).1)
            &&& forall|i: int, k: int|
                0 <= i < k < members.len() ==> (#[trigger] members[i]).0 != (
                #[trigger] members[k]).0
        },
        _ => true,
    }
}

/// A JSON value written as YAML converts back to itself: the same nesting, items, names and
/// numbers, in the same order.
pub proof fn yaml_round_trip(j: JsonView, y: YamlView)
    requires
        regular(j),
        written_as(j, y),
    ensures
        yaml_json(y) == Ok::<JsonView, ConvertErrorView>(j),
    decreases j, 0nat,
{
    match j {
        JsonView::Array(items) => {
            lemma_items_round_trip(items, y->Sequence_0, items.len());
            assert(items.take(items.len() as int) =~= items);
        },
        JsonView::Object(members) => {
            lemma_members_round_trip(members, y->Mapping_0, members.len());
            assert(members.take(members.len() as int) =~= members);
        },
        _ => {},
    }
}

proof fn lemma_items_round_trip(items: Seq<JsonView>, all: Seq<YamlView>, n: nat)
    requires
        n <= items.len(),
        all.len() == items.len(),
        forall|i: int| 0 <= i < items.len() ==> written_as(#[trigger] items[i], all[i]),
        forall|i: int| 0 <= i < items.len() ==> regular(#[trigger] items[i]),
    ensures
        items_json(all, n) == Ok::<Seq<JsonView>, ConvertErrorView>(items.take(n as int)),
    decreases items, n,
{
    if n == 0 {
        assert(items.take(0) =~= Seq::empty());
    } else {
        lemma_items_round_trip(items, all, (n - 1) as nat);
        yaml_round_trip(items[n - 1], all[n - 1]);
        assert(items.take(n as int) =~= items.take(n - 1).push(items[n - 1]));
    }
}

proof fn lemma_members_round_trip(
    members: Seq<(Seq<char>, JsonView)>,
    all: Seq<(YamlKeyView, YamlView)>,
    n: nat,
)
    requires
        n <= members.len(),
        all.len() == members.len(),
        forall|i: int|
            0 <= i < members.len() ==> all[i].0 == YamlKeyView::Text((#[trigger] members[i]).0)
                && written_as(members[i].1, all[i].1),
        forall|i: int| 0 <= i < members.len() ==> regular((#[trigger] members[i]).1),
        forall|i: int, k: int|
            0 <= i < k < members.len() ==> (#[trigger] members[i]).0 != (#[trigger] members[k]).0,
    ensures
        pairs_json(all, n) == Ok::<Seq<(Seq<char>, JsonView)>, ConvertErrorView>(
            members.take(n as int),
        ),
    decreases members, n,
{
    if n == 0 {
        assert(members.take(0) =~= Seq::empty());
    } else {
        let before = members.take(n - 1);
        let last = members[n - 1];
        lemma_members_round_trip(members, all, (n - 1) as nat);
        yaml_round_trip(last.1, all[n - 1].1);
        assert forall|i: int| 0 <= i < before.len() implies (#[trigger] before[i]).0 != last.0 by {
            assert(before[i] == members[i]);
        }
        lemma_with_new_member(before, last.0, last.1);
        assert(members.take(n as int) =~= before.push(last));
    }
}

/// Why a YAML text could not be read, and the line and column, both from one, where that is
/// known.
#[derive(Debug, PartialEq, Eq)]
pub struct YamlSyntaxError {
    pub message: String,
    pub location: Option<(usize, usize)>,
}

/// What a syntax error says.
pub ghost struct YamlSyntaxErrorView {
    pub message: Seq<char>,
    pub location: Option<(usize, usize)>,
}

impl View for YamlSyntaxError {
    type V = YamlSyntaxErrorView;

    open spec fn view(&self) -> YamlSyntaxErrorView {
        YamlSyntaxErrorView { message: self.message@, location: self.location }
    }
}

/// The value type of `serde_yaml`.
#[verifier::external_type_specification]
#[verifier::external_body]
pub struct ExSerdeYamlValue(serde_yaml::Value);

/// Takes a value of `serde_yaml` over, case by case: a number by its accessors, a key that is no
/// text by its debug form, and a tag by its text.
#[verifier::external_body]
fn yaml_value_from(value: SerdeYaml) -> (r: YamlValue) {
    match value {
        SerdeYaml::Null => YamlValue::Null,
        SerdeYaml::Bool(b) => YamlValue::Bool(b),
        SerdeYaml::Number(n) => YamlValue::Number(YamlNumber { signed: n.as_i64(), unsigned: n.as_u64(), float: n.as_f64().map(|f| f.to_string()) }),
        SerdeYaml::String(s) => YamlValue::Text(s),
        SerdeYaml::Sequence(items) => YamlValue::Sequence(items.into_iter().map(yaml_value_from).collect()),
        SerdeYaml::Mapping(pairs) => YamlValue::Mapping(pairs.into_iter().map(|(k, v)| (yaml_key_from(k), yaml_value_from(v))).collect()),
        SerdeYaml::Tagged(tagged) => YamlValue::Tagged(tagged.tag.to_string(), Box::new(yaml_value_from(tagged.value))),
    }
}

/// Takes a mapping key of `serde_yaml` over: a text as it is, anything else by its debug form.
#[verifier::external_body]
fn yaml_key_from(key: SerdeYaml) -> (r: YamlKey) {
    match key {
        SerdeYaml::String(s) => YamlKey::Text(s),
        other => YamlKey::Other(format!("{other:?}")),
    }
}

/// The documents that `serde_yaml` reads in a text, or its first error.
pub uninterp spec fn yaml_in_text(text: Seq<char>) -> Result<Seq<YamlView>, YamlSyntaxErrorView>;

/// `serde_yaml::Deserializer::from_str`, with each document read into a value of any shape, up to
/// the first that fails. The documents, or the message and the place of the error, depend on the
/// text alone.
#[verifier::external_body]
pub(crate) fn parse_yaml_text(text: &str) -> (r: Result<Vec<YamlValue>, YamlSyntaxError>)
    ensures
        match r {
            Ok(docs) => yaml_in_text(text@) == Ok::<Seq<YamlView>, YamlSyntaxErrorView>(
                yaml_views(docs@),
            ),
            Err(e) => yaml_in_text(text@) == Err::<Seq<YamlView>, YamlSyntaxErrorView>(e@),
        },
{
    serde_yaml::Deserializer::from_str(text)
        .map(|doc| SerdeYaml::deserialize(doc).map(yaml_value_from))
        .collect::<Result<Vec<YamlValue>, serde_yaml::Error>>()
        .map_err(|e| YamlSyntaxError { message: e.to_string(), location: e.location().map(|at| (at.line(), at.column())) })
}

/// What `serde_yaml::from_slice` makes of bytes: a value, or the text of its error.
pub uninterp spec fn yaml_in_bytes(bytes: Seq<u8>) -> Result<YamlView, Seq<char>>;

/// `serde_yaml::from_slice`, read into a value of any shape. The result, or the text of the error,
/// depends on the bytes alone.
#[verifier::external_body]
pub(crate) fn parse_yaml_bytes(bytes: &[u8]) -> (r: Result<YamlValue, String>)
    ensures
        match r {
            Ok(value) => yaml_in_bytes(bytes@) == Ok::<YamlView, Seq<char>>(value@),
            Err(cause) => yaml_in_bytes(bytes@) == Err::<YamlView, Seq<char>>(cause@),
        },
{
    match serde_yaml::from_slice::<SerdeYaml>(bytes) {
        Ok(value) => Ok(yaml_value_from(value)),
        Err(error) => Err(error.to_string()),
    }
}

/// A number is an integer wherever it can be read as one. Any other is the float that it is read as,
/// unless that is one of the three that are no numbers, which are null, as is a number that cannot
/// be read at all.
pub proof fn numbers_stay_numbers(i: i64, u: u64, f: Seq<char>, n: YamlNumberView)
    ensures
        n.signed == Some(i) ==> number_json(n) == JsonView::Number(NumberView::Integer(i as int)),
        n.signed is None && n.unsigned == Some(u) ==> number_json(n) == JsonView::Number(
            NumberView::Integer(u as int),
        ),
        n.signed is None && n.unsigned is None && n.float == Some(f) && f != "NaN"@ && f != "inf"@
            && f != "-inf"@ ==> number_json(n) == JsonView::Number(NumberView::Float(f)),
        n.signed is None && n.unsigned is None && (n.float == Some("NaN"@) || n.float == Some(
            "inf"@,
        ) || n.float == Some("-inf"@) || n.float is None) ==> number_json(n) == JsonView::Null,
{
}

/// Scalars convert to the same scalars, and a tag becomes the name of the only member of an object,
/// whose value is what stands behind the tag. What cannot be converted there cannot be below it.
pub proof fn scalars_and_tags_convert(
    b: bool,
    s: Seq<char>,
    n: YamlNumberView,
    tag: Seq<char>,
    v: YamlView,
)
    ensures
        yaml_json(YamlView::Null) == Ok::<JsonView, ConvertErrorView>(JsonView::Null),
        yaml_json(YamlView::Bool(b)) == Ok::<JsonView, ConvertErrorView>(JsonView::Bool(b)),
        yaml_json(YamlView::Text(s)) == Ok::<JsonView, ConvertErrorView>(JsonView::Text(s)),
        yaml_json(YamlView::Number(n)) == Ok::<JsonView, ConvertErrorView>(number_json(n)),
        match yaml_json(v) {
            Ok(j) => yaml_json(YamlView::Tagged(tag, Box::new(v))) matches Ok(
                JsonView::Object(members),
            ) && members.len() == 1 && members[0].0 == tag && members[0].1 == j,
            Err(e) => yaml_json(YamlView::Tagged(tag, Box::new(v))) == Err::<
                JsonView,
                ConvertErrorView,
            >(e),
        },
{
}

/// The first items of a longer sequence convert as they did.
proof fn lemma_items_of_longer(items: Seq<YamlView>, last: YamlView, n: nat)
    requires
        n <= items.len(),
    ensures
        items_json(items.push(last), n) == items_json(items, n),
    decreases n,
{
    if n > 0 {
        lemma_items_of_longer(items, last, (n - 1) as nat);
    }
}

/// The first pairs of a longer mapping convert as they did.
proof fn lemma_pairs_of_longer(
    pairs: Seq<(YamlKeyView, YamlView)>,
    last: (YamlKeyView, YamlView),
    n: nat,
)
    requires
        n <= pairs.len(),
    ensures
        pairs_json(pairs.push(last), n) == pairs_json(pairs, n),
    decreases n,
{
    if n > 0 {
        lemma_pairs_of_longer(pairs, last, (n - 1) as nat);
    }
}

/// A sequence converts item by item: one more item adds its converted value at the end, and what
/// fails first is what is said.
pub proof fn sequence_converts_item_by_item(items: Seq<YamlView>, last: YamlView)
    ensures
        yaml_json(YamlView::Sequence(seq![])) == Ok::<JsonView, ConvertErrorView>(
            JsonView::Array(seq![]),
        ),
        match yaml_json(YamlView::Sequence(items)) {
            Err(e) => yaml_json(YamlView::Sequence(items.push(last))) == Err::<
                JsonView,
                ConvertErrorView,
            >(e),
            Ok(json) => json is Array && match yaml_json(last) {
                Ok(j) => yaml_json(YamlView::Sequence(items.push(last))) == Ok::<
                    JsonView,
                    ConvertErrorView,
                >(JsonView::Array(json->Array_0.push(j))),
                Err(e) => yaml_json(YamlView::Sequence(items.push(last))) == Err::<
                    JsonView,
                    ConvertErrorView,
                >(e),
            },
        },
{
    let longer = items.push(last);
    lemma_items_of_longer(items, last, items.len());
    assert(longer[longer.len() - 1] == last);
    assert(items_json(Seq::<YamlView>::empty(), 0) == Ok::<Seq<JsonView>, ConvertErrorView>(
        Seq::empty(),
    ));
    assert(items_json(longer, longer.len()) is Ok <==> items_json(items, items.len()) is Ok
        && yaml_json(last) is Ok);
}

/// A mapping converts pair by pair: one more pair with a text as its key gives the converted value
/// that name, in place of any that had it; a key that is no text, or what fails first, is what is
/// said.
pub proof fn mapping_converts_pair_by_pair(
    pairs: Seq<(YamlKeyView, YamlView)>,
    name: Seq<char>,
    shown: Seq<char>,
    v: YamlView,
)
    ensures
        yaml_json(YamlView::Mapping(seq![])) == Ok::<JsonView, ConvertErrorView>(
            JsonView::Object(seq![]),
        ),
        match yaml_json(YamlView::Mapping(pairs)) {
            Err(e) => yaml_json(YamlView::Mapping(pairs.push((YamlKeyView::Text(name), v)))) == Err::<
                JsonView,
                ConvertErrorView,
            >(e) && yaml_json(YamlView::Mapping(pairs.push((YamlKeyView::Other(shown), v)))) == Err::<
                JsonView,
                ConvertErrorView,
            >(e),
            Ok(json) => json is Object && yaml_json(
                YamlView::Mapping(pairs.push((YamlKeyView::Other(shown), v))),
            ) == Err::<JsonView, ConvertErrorView>(ConvertErrorView::KeyNotText(shown))
                && match yaml_json(v) {
                Ok(j) => yaml_json(YamlView::Mapping(pairs.push((YamlKeyView::Text(name), v)))) == Ok::<
                    JsonView,
                    ConvertErrorView,
                >(JsonView::Object(with_member(json->Object_0, name, j))),
                Err(e) => yaml_json(YamlView::Mapping(pairs.push((YamlKeyView::Text(name), v)))) == Err::<
                    JsonView,
                    ConvertErrorView,
                >(e),
            },
        },
{
    let named = pairs.push((YamlKeyView::Text(name), v));
    let unnamed = pairs.push((YamlKeyView::Other(shown), v));
    lemma_pairs_of_longer(pairs, (YamlKeyView::Text(name), v), pairs.len());
    lemma_pairs_of_longer(pairs, (YamlKeyView::Other(shown), v), pairs.len());
    assert(named[named.len() - 1] == (YamlKeyView::Text(name), v));
    assert(unnamed[unnamed.len() - 1] == (YamlKeyView::Other(shown), v));
    assert(pairs_json(Seq::<(YamlKeyView, YamlView)>::empty(), 0) == Ok::<
        Seq<(Seq<char>, JsonView)>,
        ConvertErrorView,
    >(Seq::empty()));
    assert(pairs_json(named, named.len()) is Ok <==> pairs_json(pairs, pairs.len()) is Ok
        && yaml_json(v) is Ok);
    assert(pairs_json(unnamed, unnamed.len()) is Err);
}

/// The message of a failed conversion shows the key, whole, between fixed words.
pub proof fn convert_message_shows_the_key(shown: Seq<char>)
    ensures
        convert_message(ConvertErrorView::KeyNotText(shown)) == "YAML mapping key must be string (got "@
            + shown + ")"@,
{
}

/// YAML values are what they hold: the view of a value is its own, and the views of its parts, in
/// order.
pub proof fn yaml_values_are_what_they_hold(
    items: Vec<YamlValue>,
    pairs: Vec<(YamlKey, YamlValue)>,
    n: YamlNumber,
    s: String,
    b: bool,
    v: Box<YamlValue>,
    i: int,
)
    ensures
        YamlValue::Null@ == YamlView::Null,
        YamlValue::Bool(b)@ == YamlView::Bool(b),
        YamlValue::Text(s)@ == YamlView::Text(s@),
        YamlValue::Number(n)@ == YamlView::Number(n@),
        n@.signed == n.signed && n@.unsigned == n.unsigned,
        n@.float == match n.float {
            Some(f) => Some(f@),
            None => None,
        },
        YamlKey::Text(s)@ == YamlKeyView::Text(s@),
        YamlKey::Other(s)@ == YamlKeyView::Other(s@),
        YamlValue::Tagged(s, v)@ == YamlView::Tagged(s@, Box::new(v@)),
        YamlValue::Sequence(items)@ matches YamlView::Sequence(all) && all.len() == items@.len() && (
        0 <= i < items@.len() ==> all[i] == items@[i]@),
        YamlValue::Mapping(pairs)@ matches YamlView::Mapping(all) && all.len() == pairs@.len() && (0
            <= i < pairs@.len() ==> all[i] == (pairs@[i].0@, pairs@[i].1@)),
{
    lemma_sequence_view(items);
    lemma_mapping_view(pairs);
}

/// What a conversion came to is the value or the error; an error of a conversion holds the whole key
/// that it shows, and a syntax error its whole message and its place.
pub proof fn conversions_are_what_they_hold(
    v: JsonValue,
    shown: String,
    e: YamlSyntaxError,
    items: Seq<YamlValue>,
    item: YamlValue,
    pairs: Seq<(YamlKey, YamlValue)>,
    pair: (YamlKey, YamlValue),
)
    ensures
        converted(Ok(v)) == Ok::<JsonView, ConvertErrorView>(v@),
        converted(Err(ConvertError::KeyNotText(shown))) == Err::<JsonView, ConvertErrorView>(
            ConvertErrorView::KeyNotText(shown@),
        ),
        e@.message == e.message@,
        e@.location == e.location,
        yaml_views(Seq::empty()) == Seq::<YamlView>::empty(),
        yaml_views(items.push(item)) == yaml_views(items).push(item@),
        pair_views(Seq::empty()) == Seq::<(YamlKeyView, YamlView)>::empty(),
        pair_views(pairs.push(pair)) == pair_views(pairs).push((pair.0@, pair.1@)),
{
    assert(yaml_views(Seq::empty()) =~= Seq::empty());
    assert(yaml_views(items.push(item)) =~= yaml_views(items).push(item@));
    assert(pair_views(Seq::empty()) =~= Seq::empty());
    assert(pair_views(pairs.push(pair)) =~= pair_views(pairs).push((pair.0@, pair.1@)));
}

} // verus!
