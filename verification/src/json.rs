//! JSON values, and the schema that a document names.
use serde_json::Value as SerdeJson;
use vstd::prelude::*;

verus! {

/// A JSON number. A float is held as the shortest decimal text that stands for it.
#[derive(Debug, PartialEq, Eq)]
pub enum JsonNumber {
    Unsigned(u64),
    Signed(i64),
    Float(String),
}

/// A JSON value. The members of an object are in the order in which they are kept.
#[derive(Debug, PartialEq, Eq)]
pub enum JsonValue {
    Null,
    Bool(bool),
    Number(JsonNumber),
    Text(String),
    Array(Vec<JsonValue>),
    Object(Vec<(String, JsonValue)>),
}

/// What a number is: an integer, or the text of a float.
pub ghost enum NumberView {
    Integer(int),
    Float(Seq<char>),
}

/// What a JSON value is.
pub ghost enum JsonView {
    Null,
    Bool(bool),
    Number(NumberView),
    Text(Seq<char>),
    Array(Seq<JsonView>),
    Object(Seq<(Seq<char>, JsonView)>),
}

impl View for JsonNumber {
    type V = NumberView;

    open spec fn view(&self) -> NumberView {
        match self {
            JsonNumber::Unsigned(n) => NumberView::Integer(*n as int),
            JsonNumber::Signed(n) => NumberView::Integer(*n as int),
            JsonNumber::Float(s) => NumberView::Float(s@),
        }
    }
}

impl JsonValue {
    /// What the value is.
    pub open spec fn view(&self) -> JsonView
        decreases self,
    {
        match self {
            JsonValue::Null => JsonView::Null,
            JsonValue::Bool(b) => JsonView::Bool(*b),
            JsonValue::Number(n) => JsonView::Number(n@),
            JsonValue::Text(s) => JsonView::Text(s@),
            JsonValue::Array(items) => JsonView::Array(
                Seq::new(
                    items@.len(),
                    |i: int|
                        if 0 <= i < items@.len() {
                            items@[i].view()
                        } else {
                            JsonView::Null
                        },
                ),
            ),
            JsonValue::Object(members) => JsonView::Object(
                Seq::new(
                    members@.len(),
                    |i: int|
                        if 0 <= i < members@.len() {
                            (members@[i].0@, members@[i].1.view())
                        } else {
                            (Seq::empty(), JsonView::Null)
                        },
                ),
            ),
        }
    }
}

/// What the items of an array are.
pub open spec fn item_views(items: Seq<JsonValue>) -> Seq<JsonView> {
    items.map_values(|item: JsonValue| item@)
}

/// What the members of an object are.
pub open spec fn member_views(members: Seq<(String, JsonValue)>) -> Seq<(Seq<char>, JsonView)> {
    members.map_values(|m: (String, JsonValue)| (m.0@, m.1@))
}

/// An array is its items.
pub broadcast proof fn lemma_array_view(items: Vec<JsonValue>)
    ensures
        #[trigger] JsonValue::Array(items).view() == JsonView::Array(item_views(items@)),
{
    let v = JsonValue::Array(items);
    assert(v.view()->Array_0 =~= item_views(items@));
}

/// An object is its members.
pub broadcast proof fn lemma_object_view(members: Vec<(String, JsonValue)>)
    ensures
        #[trigger] JsonValue::Object(members).view() == JsonView::Object(member_views(members@)),
{
    let v = JsonValue::Object(members);
    assert(v.view()->Object_0 =~= member_views(members@));
}

/// The value of the first member with a given name.
pub open spec fn member(members: Seq<(Seq<char>, JsonView)>, name: Seq<char>) -> Option<JsonView>
    decreases members.len(),
{
    if members.len() == 0 {
        None
    } else if members[0].0 == name {
        Some(members[0].1)
    } else {
        member(members.drop_first(), name)
    }
}

/// The members with one more: it takes the place of the first of the same name, or else comes
/// last.
pub open spec fn with_member(
    members: Seq<(Seq<char>, JsonView)>,
    name: Seq<char>,
    value: JsonView,
) -> Seq<(Seq<char>, JsonView)>
    decreases members.len(),
{
    if members.len() == 0 {
        seq![(name, value)]
    } else if members[0].0 == name {
        members.update(0, (name, value))
    } else {
        seq![members[0]] + with_member(members.drop_first(), name, value)
    }
}

/// Whether a member has another name than the given one.
pub open spec fn named_otherwise(name: Seq<char>) -> spec_fn((Seq<char>, JsonView)) -> bool {
    |m: (Seq<char>, JsonView)| m.0 != name
}

/// The members without those of a given name.
pub open spec fn without_member(
    members: Seq<(Seq<char>, JsonView)>,
    name: Seq<char>,
) -> Seq<(Seq<char>, JsonView)> {
    members.filter(named_otherwise(name))
}

/// The text of the top-level member `$schema`, where there is one and it is a text.
pub open spec fn schema_of(v: JsonView) -> Option<Seq<char>> {
    match v {
        JsonView::Object(members) => match member(members, "$schema"@) {
            Some(JsonView::Text(s)) => Some(s),
            _ => None,
        },
        _ => None,
    }
}

/// The value without its top-level member `$schema`.
pub open spec fn without_schema(v: JsonView) -> JsonView {
    match v {
        JsonView::Object(members) => JsonView::Object(without_member(members, "$schema"@)),
        _ => v,
    }
}

/// The schema that stands for another one: an object whose only member is `$ref`.
pub open spec fn reference_to(uri: Seq<char>) -> JsonView {
    JsonView::Object(seq![("$ref"@, JsonView::Text(uri))])
}

/// Adds a member: it takes the place of the first of the same name, or else comes last.
pub fn insert_member(members: &mut Vec<(String, JsonValue)>, name: String, value: JsonValue)
    ensures
        member_views(final(members)@) == with_member(member_views(old(members)@), name@, value@),
{
    let ghost before = member_views(members@);
    let mut i: usize = 0;
    assert(before.skip(0) =~= before);
    while i < members.len()
        invariant
            i <= members@.len(),
            before == member_views(old(members)@),
            member_views(members@) == before,
            with_member(before, name@, value@) =~= before.take(i as int) + with_member(
                before.skip(i as int),
                name@,
                value@,
            ),
        decreases members@.len() - i,
    {
        let ghost rest = before.skip(i as int);
        assert(rest[0] == (members@[i as int].0@, members@[i as int].1@));
        if members[i].0 == name {
            let ghost pair = (name, value);
            members.set(i, (name, value));
            assert(member_views(members@) =~= before.update(i as int, (pair.0@, pair.1@)));
            assert(before.update(i as int, (pair.0@, pair.1@)) =~= before.take(i as int)
                + rest.update(0, (pair.0@, pair.1@)));
            return ;
        }
        assert(rest.drop_first() =~= before.skip(i + 1));
        assert(before.take(i + 1) =~= before.take(i as int) + seq![rest[0]]);
        i = i + 1;
    }
    assert(before.skip(i as int) =~= Seq::<(Seq<char>, JsonView)>::empty());
    assert(before.take(i as int) =~= before);
    let ghost pair = (name, value);
    members.push((name, value));
    assert(member_views(members@) =~= before.push((pair.0@, pair.1@)));
    assert(before.push((pair.0@, pair.1@)) =~= before + seq![(pair.0@, pair.1@)]);
}

impl JsonValue {
    /// The text of the top-level member `$schema`, where there is one and it is a text.
    pub fn schema_reference(&self) -> (r: Option<String>)
        ensures
            match r {
                Some(s) => schema_of(self@) == Some(s@),
                None => schema_of(self@) is None,
            },
    {
        broadcast use lemma_object_view;

        match self {
            JsonValue::Object(members) => {
                let name = "$schema".to_string();
                let ghost all = member_views(members@);
                let mut i: usize = 0;
                assert(all.skip(0) =~= all);
                while i < members.len()
                    invariant
                        i <= members@.len(),
                        all == member_views(members@),
                        name@ == "$schema"@,
                        self@ == JsonView::Object(all),
                        member(all, name@) == member(all.skip(i as int), name@),
                    decreases members@.len() - i,
                {
                    let ghost rest = all.skip(i as int);
                    assert(rest[0] == (members@[i as int].0@, members@[i as int].1@));
                    if members[i].0 == name {
                        return match &members[i].1 {
                            JsonValue::Text(s) => Some(s.clone()),
                            _ => None,
                        };
                    }
                    assert(rest.drop_first() =~= all.skip(i + 1));
                    i = i + 1;
                }
                None
            },
            _ => None,
        }
    }

    /// The value without its top-level member `$schema`.
    pub fn remove_schema(self) -> (r: JsonValue)
        ensures
            r@ == without_schema(self@),
    {
        broadcast use lemma_object_view;

        match self {
            JsonValue::Object(members) => {
                let name = "$schema".to_string();
                let ghost all = member_views(members@);
                let ghost keep = named_otherwise("$schema"@);
                let ghost mut seen: int = 0;
                let mut rest = members;
                let mut i: usize = 0;
                assert(all.take(0).filter(keep) =~= Seq::empty()) by {
                    reveal(Seq::filter);
                }
                while i < rest.len()
                    invariant
                        name@ == "$schema"@,
                        keep == named_otherwise("$schema"@),
                        0 <= i <= rest@.len(),
                        0 <= seen <= all.len(),
                        rest@.len() - i == all.len() - seen,
                        member_views(rest@) =~= all.take(seen).filter(keep) + all.skip(seen),
                        all.take(seen).filter(keep).len() == i,
                    decreases rest@.len() - i,
                {
                    let ghost now = member_views(rest@);
                    let ghost m = (rest@[i as int].0@, rest@[i as int].1@);
                    proof {
                        assert(now[i as int] == m);
                        assert(all.skip(seen)[0] == m);
                        assert(all.take(seen + 1).drop_last() =~= all.take(seen));
                        reveal(Seq::filter);
                    }
                    if rest[i].0 == name {
                        let _removed = rest.remove(i);
                        assert(member_views(rest@) =~= now.remove(i as int));
                    } else {
                        i = i + 1;
                    }
                    proof {
                        seen = seen + 1;
                    }
                }
                assert(all.take(all.len() as int) =~= all);
                assert(member_views(rest@) =~= all.filter(keep));
                JsonValue::Object(rest)
            },
            other => other,
        }
    }
}

/// The schema that stands for the one at `uri`.
pub fn reference_schema(uri: &str) -> (r: JsonValue)
    ensures
        r@ == reference_to(uri@),
{
    broadcast use lemma_object_view;

    let mut members: Vec<(String, JsonValue)> = Vec::new();
    members.push(("$ref".to_string(), JsonValue::Text(uri.to_string())));
    assert(member_views(members@) =~= seq![("$ref"@, JsonView::Text(uri@))]);
    JsonValue::Object(members)
}

/// The value type of `serde_json`.
#[verifier::external_type_specification]
#[verifier::external_body]
pub struct ExSerdeJsonValue(serde_json::Value);

/// Takes a value of `serde_json` over, case by case: integers by the accessors `as_u64` and
/// `as_i64` of its number type, any other number by the decimal text of its float.
#[verifier::external_body]
pub(crate) fn json_value_from(value: SerdeJson) -> (r: JsonValue) {
    match value {
        SerdeJson::Null => JsonValue::Null,
        SerdeJson::Bool(b) => JsonValue::Bool(b),
        SerdeJson::Number(n) => JsonValue::Number(match (n.as_u64(), n.as_i64()) {
            (Some(u), _) => JsonNumber::Unsigned(u),
            (None, Some(i)) => JsonNumber::Signed(i),
            _ => JsonNumber::Float(n.as_f64().map_or(n.to_string(), |f| f.to_string())),
        }),
        SerdeJson::String(s) => JsonValue::Text(s),
        SerdeJson::Array(items) => JsonValue::Array(items.into_iter().map(json_value_from).collect()),
        SerdeJson::Object(members) => JsonValue::Object(members.into_iter().map(|(k, v)| (k, json_value_from(v))).collect()),
    }
}

/// What `serde_json::from_str` makes of a text: a value, or the text of its error.
pub uninterp spec fn json_in_text(text: Seq<char>) -> Result<JsonView, Seq<char>>;

/// `serde_json::from_str`, read into a value of any shape. The result, or the text of the error,
/// depends on the text alone.
#[verifier::external_body]
pub(crate) fn parse_json_text(text: &str) -> (r: Result<JsonValue, String>)
    ensures
        match r {
            Ok(value) => json_in_text(text@) == Ok::<JsonView, Seq<char>>(value@),
            Err(cause) => json_in_text(text@) == Err::<JsonView, Seq<char>>(cause@),
        },
{
    match serde_json::from_str::<SerdeJson>(text) {
        Ok(value) => Ok(json_value_from(value)),
        Err(error) => Err(error.to_string()),
    }
}

/// What `serde_json::from_slice` makes of bytes, where it makes a value of them.
pub uninterp spec fn json_in_bytes(bytes: Seq<u8>) -> Option<JsonView>;

/// `serde_json::from_slice`, read into a value of any shape. Whether there is a value, and which,
/// depends on the bytes alone.
#[verifier::external_body]
pub(crate) fn parse_json_bytes(bytes: &[u8]) -> (r: Option<JsonValue>)
    ensures
        match r {
            Some(value) => json_in_bytes(bytes@) == Some(value@),
            None => json_in_bytes(bytes@) is None,
        },
{
    serde_json::from_slice::<SerdeJson>(bytes).ok().map(json_value_from)
}

/// Gives a number to `serde_json`: an integer as it is, a float by the number that its text stands
/// for, through `serde_json::Number::from_f64`, which has none where that is not finite.
#[verifier::external_body]
fn json_number_to(number: &JsonNumber) -> (r: SerdeJson) {
    match number {
        JsonNumber::Unsigned(n) => SerdeJson::Number((*n).into()),
        JsonNumber::Signed(n) => SerdeJson::Number((*n).into()),
        JsonNumber::Float(s) => s.parse().ok().and_then(serde_json::Number::from_f64).map_or(SerdeJson::Null, SerdeJson::Number),
    }
}

/// Gives a value to `serde_json`, case by case.
#[verifier::external_body]
pub(crate) fn json_value_to(value: &JsonValue) -> (r: SerdeJson) {
    match value {
        JsonValue::Null => SerdeJson::Null,
        JsonValue::Bool(b) => SerdeJson::Bool(*b),
        JsonValue::Number(n) => json_number_to(n),
        JsonValue::Text(s) => SerdeJson::String(s.clone()),
        JsonValue::Array(items) => SerdeJson::Array(items.iter().map(json_value_to).collect()),
        JsonValue::Object(members) => SerdeJson::Object(members.iter().map(|(k, v)| (k.clone(), json_value_to(v))).collect()),
    }
}

/// No member is found under a name exactly where no member has it.
proof fn lemma_member_none(members: Seq<(Seq<char>, JsonView)>, name: Seq<char>)
    ensures
        member(members, name) is None <==> forall|i: int|
            0 <= i < members.len() ==> (#[trigger] members[i]).0 != name,
    decreases members.len(),
{
    if members.len() > 0 {
        let rest = members.drop_first();
        lemma_member_none(rest, name);
        if member(members, name) is None {
            assert forall|i: int| 0 <= i < members.len() implies (#[trigger] members[i]).0 != name by {
                if i > 0 {
                    assert(members[i] == rest[i - 1]);
                }
            }
        } else if members[0].0 != name {
            let i = choose|i: int| 0 <= i < rest.len() && (#[trigger] rest[i]).0 == name;
            assert(members[i + 1].0 == name);
        }
    }
}

/// Removing a name removes every member of that name, and leaves what is found under any other.
pub proof fn removed_member_is_gone(
    members: Seq<(Seq<char>, JsonView)>,
    name: Seq<char>,
    other: Seq<char>,
)
    ensures
        member(without_member(members, name), name) is None,
        other != name ==> member(without_member(members, name), other) == member(members, other),
    decreases members.len(),
{
    let keep = named_otherwise(name);
    let kept = without_member(members, name);
    assert forall|i: int| 0 <= i < kept.len() implies (#[trigger] kept[i]).0 != name by {
        members.lemma_filter_pred(keep, i);
    }
    lemma_member_none(kept, name);
    if members.len() > 0 {
        let first = seq![members[0]];
        let rest = members.drop_first();
        removed_member_is_gone(rest, name, other);
        assert(members =~= first + rest);
        Seq::filter_distributes_over_add(first, rest, keep);
        reveal(Seq::filter);
        assert(first.drop_last() =~= Seq::empty());
        assert(first.drop_last().filter(keep) =~= Seq::empty());
        if members[0].0 != name {
            assert(first.filter(keep) =~= first);
            assert(kept.drop_first() =~= rest.filter(keep));
        } else {
            assert(first.filter(keep) =~= Seq::empty());
            assert(kept =~= rest.filter(keep));
        }
    } else {
        reveal(Seq::filter);
        assert(kept =~= members);
    }
}

/// Filtering leaves a list as it is where every element passes.
proof fn lemma_filter_all(members: Seq<(Seq<char>, JsonView)>, name: Seq<char>)
    requires
        forall|i: int| 0 <= i < members.len() ==> (#[trigger] members[i]).0 != name,
    ensures
        without_member(members, name) == members,
    decreases members.len(),
{
    reveal(Seq::filter);
    if members.len() > 0 {
        lemma_filter_all(members.drop_last(), name);
        assert(members.drop_last().push(members.last()) =~= members);
    }
}

/// The value that is validated has no `$schema` of its own, and removing it again changes nothing.
pub proof fn validated_value_has_no_schema(v: JsonView)
    ensures
        schema_of(without_schema(v)) is None,
        without_schema(without_schema(v)) == without_schema(v),
{
    if let JsonView::Object(members) = v {
        let kept = without_member(members, "$schema"@);
        removed_member_is_gone(members, "$schema"@, "$schema"@);
        lemma_member_none(kept, "$schema"@);
        lemma_filter_all(kept, "$schema"@);
    }
}

/// What is found under a name is the value of the first member that has exactly this name, and
/// nothing is found where no member has it.
pub proof fn first_member_of_name_is_found(
    members: Seq<(Seq<char>, JsonView)>,
    name: Seq<char>,
    i: int,
)
    requires
        0 <= i < members.len(),
        members[i].0 == name,
        forall|k: int| 0 <= k < i ==> (#[trigger] members[k]).0 != name,
    ensures
        member(members, name) == Some(members[i].1),
    decreases members.len(),
{
    if i > 0 {
        let rest = members.drop_first();
        assert(members[0].0 != name);
        assert forall|k: int| 0 <= k < i - 1 implies (#[trigger] rest[k]).0 != name by {
            assert(rest[k] == members[k + 1]);
        }
        first_member_of_name_is_found(rest, name, i - 1);
    }
}

/// Nothing is found under a name exactly where no member has this very name.
pub proof fn missing_member_is_not_found(members: Seq<(Seq<char>, JsonView)>, name: Seq<char>)
    ensures
        member(members, name) is None <==> forall|i: int|
            0 <= i < members.len() ==> (#[trigger] members[i]).0 != name,
{
    lemma_member_none(members, name);
}

/// A member that is added is found under its name, all others stay as they are, and where the name
/// is new, it comes last.
pub proof fn added_member_is_found(
    members: Seq<(Seq<char>, JsonView)>,
    name: Seq<char>,
    value: JsonView,
    other: Seq<char>,
)
    ensures
        member(with_member(members, name, value), name) == Some(value),
        other != name ==> member(with_member(members, name, value), other) == member(
            members,
            other,
        ),
        (forall|i: int| 0 <= i < members.len() ==> (#[trigger] members[i]).0 != name)
            ==> with_member(members, name, value) == members.push((name, value)),
        (exists|i: int| 0 <= i < members.len() && (#[trigger] members[i]).0 == name)
            ==> with_member(members, name, value).len() == members.len() && forall|i: int|
            0 <= i < members.len() ==> (#[trigger] with_member(members, name, value)[i]).0
                == members[i].0,
    decreases members.len(),
{
    let all = with_member(members, name, value);
    if members.len() == 0 {
        assert(all.drop_first() =~= Seq::empty());
        assert(member(all.drop_first(), other) is None);
        assert(all =~= members.push((name, value)));
    } else if members[0].0 == name {
        assert(all.drop_first() =~= members.drop_first());
    } else {
        let rest = members.drop_first();
        added_member_is_found(rest, name, value, other);
        assert(all.drop_first() =~= with_member(rest, name, value));
        if forall|i: int| 0 <= i < members.len() ==> (#[trigger] members[i]).0 != name {
            assert forall|i: int| 0 <= i < rest.len() implies (#[trigger] rest[i]).0 != name by {
                assert(rest[i] == members[i + 1]);
            }
            assert(all =~= members.push((name, value)));
        } else {
            let i = choose|i: int| 0 <= i < members.len() && (#[trigger] members[i]).0 == name;
            assert(rest[i - 1].0 == name);
            assert forall|k: int| 0 <= k < members.len() implies (#[trigger] all[k]).0
                == members[k].0 by {
                if k > 0 {
                    assert(all[k] == with_member(rest, name, value)[k - 1]);
                }
            }
        }
    }
}

/// The schema of a value is the text of its member `$schema`: the one that is put there, whatever
/// else there is. Anything but a text names no schema, and so does a value that is no object or has
/// no such member.
pub proof fn schema_is_the_member_of_that_name(
    members: Seq<(Seq<char>, JsonView)>,
    s: Seq<char>,
    v: JsonView,
)
    ensures
        schema_of(JsonView::Object(with_member(members, "$schema"@, JsonView::Text(s)))) == Some(s),
        !(v is Text) ==> schema_of(JsonView::Object(with_member(members, "$schema"@, v))) is None,
        (forall|i: int| 0 <= i < members.len() ==> (#[trigger] members[i]).0 != "$schema"@)
            ==> schema_of(JsonView::Object(members)) is None,
        !(v is Object) ==> schema_of(v) is None,
{
    added_member_is_found(members, "$schema"@, JsonView::Text(s), "$schema"@);
    added_member_is_found(members, "$schema"@, v, "$schema"@);
    lemma_member_none(members, "$schema"@);
}

/// Removing the schema from a value takes the members `$schema` out of an object and leaves all
/// others, in their order; a value that is no object stays as it is.
pub proof fn schema_is_removed_alone(
    before: Seq<(Seq<char>, JsonView)>,
    schema: JsonView,
    after: Seq<(Seq<char>, JsonView)>,
    v: JsonView,
)
    requires
        forall|i: int| 0 <= i < before.len() ==> (#[trigger] before[i]).0 != "$schema"@,
        forall|i: int| 0 <= i < after.len() ==> (#[trigger] after[i]).0 != "$schema"@,
    ensures
        without_schema(JsonView::Object(before + seq![("$schema"@, schema)] + after))
            == JsonView::Object(before + after),
        without_schema(JsonView::Object(before + after)) == JsonView::Object(before + after),
        !(v is Object) ==> without_schema(v) == v,
{
    let keep = named_otherwise("$schema"@);
    let middle = seq![("$schema"@, schema)];
    Seq::filter_distributes_over_add(before + middle, after, keep);
    Seq::filter_distributes_over_add(before, middle, keep);
    lemma_filter_all(before, "$schema"@);
    lemma_filter_all(after, "$schema"@);
    assert(middle.filter(keep) =~= Seq::empty()) by {
        reveal(Seq::filter);
        assert(middle.drop_last() =~= Seq::empty());
        assert(middle.drop_last().filter(keep) =~= Seq::empty());
    }
    assert(before + Seq::<(Seq<char>, JsonView)>::empty() + after =~= before + after);
    assert forall|i: int| 0 <= i < (before + after).len() implies (#[trigger] (before + after)[i]).0
        != "$schema"@ by {
        if i < before.len() {
            assert((before + after)[i] == before[i]);
        } else {
            assert((before + after)[i] == after[i - before.len()]);
        }
    }
    lemma_filter_all(before + after, "$schema"@);
}

/// The schema that stands for the one at a URI has one member, `$ref`, and it is the whole URI: two
/// URIs that differ at all, if only in their fragments, have different ones.
pub proof fn reference_holds_the_whole_uri(uri: Seq<char>, other: Seq<char>)
    ensures
        reference_to(uri) matches JsonView::Object(members) && members.len() == 1 && members[0].0
            == "$ref"@ && members[0].1 == JsonView::Text(uri),
        uri != other ==> reference_to(uri) != reference_to(other),
{
    let a = reference_to(uri)->Object_0;
    let b = reference_to(other)->Object_0;
    assert(a[0].1 == JsonView::Text(uri));
    assert(b[0].1 == JsonView::Text(other));
}

/// Values are the same exactly where they look the same: the view of a value is its own, and the
/// views of its parts, in order.
pub proof fn values_are_what_they_hold(
    items: Vec<JsonValue>,
    members: Vec<(String, JsonValue)>,
    n: JsonNumber,
    s: String,
    b: bool,
    i: int,
)
    ensures
        JsonValue::Null@ == JsonView::Null,
        JsonValue::Bool(b)@ == JsonView::Bool(b),
        JsonValue::Text(s)@ == JsonView::Text(s@),
        JsonValue::Number(n)@ == JsonView::Number(n@),
        match n {
            JsonNumber::Unsigned(u) => n@ == NumberView::Integer(u as int),
            JsonNumber::Signed(k) => n@ == NumberView::Integer(k as int),
            JsonNumber::Float(f) => n@ == NumberView::Float(f@),
        },
        JsonValue::Array(items)@ matches JsonView::Array(all) && all.len() == items@.len() && (0
            <= i < items@.len() ==> all[i] == items@[i]@),
        JsonValue::Object(members)@ matches JsonView::Object(all) && all.len() == members@.len() && (
        0 <= i < members@.len() ==> all[i] == (members@[i].0@, members@[i].1@)),
{
    lemma_array_view(items);
    lemma_object_view(members);
}

/// Members of a name are removed one by one: each of that name goes, and each of another name stays
/// behind those before it.
pub proof fn members_are_removed_one_by_one(
    members: Seq<(Seq<char>, JsonView)>,
    last: (Seq<char>, JsonView),
    name: Seq<char>,
)
    ensures
        without_member(Seq::empty(), name) == Seq::<(Seq<char>, JsonView)>::empty(),
        last.0 == name ==> without_member(members.push(last), name) == without_member(members, name),
        last.0 != name ==> without_member(members.push(last), name) == without_member(
            members,
            name,
        ).push(last),
{
    reveal(Seq::filter);
    let longer = members.push(last);
    assert(longer.drop_last() =~= members);
    assert(longer.last() == last);
    let none = Seq::<(Seq<char>, JsonView)>::empty();
    assert(none.filter(named_otherwise(name)) =~= none);
}

} // verus!
