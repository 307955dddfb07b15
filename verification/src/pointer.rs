//! JSON pointers: escaped segments, each behind a slash.
use vstd::prelude::*;

use crate::text::{chars_of, concat, part_of, split_at_char, string_of};
use crate::text::{find_first, lemma_find_first, lemma_find_first_is, split, texts};

verus! {

/// A segment with `~` written as `~0` and `/` as `~1`.
pub open spec fn escaped(s: Seq<char>) -> Seq<char>
    decreases s.len(),
{
    if s.len() == 0 {
        s
    } else if s[0] == '~' {
        seq!['~', '0'] + escaped(s.drop_first())
    } else if s[0] == '/' {
        seq!['~', '1'] + escaped(s.drop_first())
    } else {
        seq![s[0]] + escaped(s.drop_first())
    }
}

/// A segment with `~0` read as `~` and `~1` as `/`; any other `~` stands for itself.
pub open spec fn unescaped(s: Seq<char>) -> Seq<char>
    decreases s.len(),
{
    if s.len() == 0 {
        s
    } else if s.len() > 1 && s[0] == '~' && s[1] == '0' {
        seq!['~'] + unescaped(s.skip(2))
    } else if s.len() > 1 && s[0] == '~' && s[1] == '1' {
        seq!['/'] + unescaped(s.skip(2))
    } else {
        seq![s[0]] + unescaped(s.drop_first())
    }
}

/// The pointer to the child `segment` of what `parent` points to.
pub open spec fn joined(parent: Seq<char>, segment: Seq<char>) -> Seq<char> {
    parent.push('/') + escaped(segment)
}

/// The unescaped segments of a pointer: all that stands behind a slash.
pub open spec fn segments(pointer: Seq<char>) -> Seq<Seq<char>> {
    split(pointer, '/').skip(1).map_values(|part: Seq<char>| unescaped(part))
}

/// The pointer before the last slash, and the empty pointer where there is no slash.
pub open spec fn parent_of(pointer: Seq<char>) -> Seq<char>
    decreases pointer.len(),
{
    if pointer.len() == 0 {
        pointer
    } else if pointer.last() == '/' {
        pointer.drop_last()
    } else {
        parent_of(pointer.drop_last())
    }
}

/// Writes `~` as `~0` and `/` as `~1`.
pub fn escape_pointer_segment(segment: &str) -> (r: String)
    ensures
        r@ == escaped(segment@),
{
    let chars = chars_of(segment);
    let mut out = String::new();
    let mut i: usize = 0;
    assert(chars@.skip(0) =~= chars@);
    while i < chars.len()
        invariant
            i <= chars@.len(),
            escaped(chars@) =~= out@ + escaped(chars@.skip(i as int)),
        decreases chars@.len() - i,
    {
        let c = chars[i];
        let ghost rest = chars@.skip(i as int);
        assert(rest.drop_first() =~= chars@.skip(i + 1));
        if c == '~' {
            out.push('~');
            out.push('0');
        } else if c == '/' {
            out.push('~');
            out.push('1');
        } else {
            out.push(c);
        }
        i = i + 1;
    }
    assert(chars@.skip(i as int) =~= Seq::<char>::empty());
    out
}

/// Reads `~0` as `~` and `~1` as `/`.
pub fn unescape_pointer_segment(segment: &str) -> (r: String)
    ensures
        r@ == unescaped(segment@),
{
    let chars = chars_of(segment);
    string_of(&unescape(&chars))
}

/// Reads `~0` as `~` and `~1` as `/`.
fn unescape(chars: &Vec<char>) -> (r: Vec<char>)
    ensures
        r@ == unescaped(chars@),
{
    let mut out: Vec<char> = Vec::new();
    let mut i: usize = 0;
    assert(chars@.skip(0) =~= chars@);
    while i < chars.len()
        invariant
            i <= chars@.len(),
            unescaped(chars@) =~= out@ + unescaped(chars@.skip(i as int)),
        decreases chars@.len() - i,
    {
        let c = chars[i];
        let ghost rest = chars@.skip(i as int);
        assert(rest.drop_first() =~= chars@.skip(i + 1));
        if c == '~' && i + 1 < chars.len() && (chars[i + 1] == '0' || chars[i + 1] == '1') {
            assert(rest.skip(2) =~= chars@.skip(i + 2));
            assert(rest[1] == chars@[i + 1]);
            out.push(
                if chars[i + 1] == '0' {
                    '~'
                } else {
                    '/'
                },
            );
            i = i + 2;
        } else {
            assert(rest.len() > 1 ==> rest[1] == chars@[i + 1]);
            out.push(c);
            i = i + 1;
        }
    }
    assert(chars@.skip(i as int) =~= Seq::<char>::empty());
    out
}

/// The pointer to the child `segment` of what `parent` points to.
pub fn join_pointer(parent: &str, segment: &str) -> (r: String)
    ensures
        r@ == joined(parent@, segment@),
{
    let mut head = parent.to_string();
    head.push('/');
    concat(head.as_str(), escape_pointer_segment(segment).as_str())
}

/// The unescaped segments of a pointer.
pub fn pointer_segments(pointer: &str) -> (r: Vec<Vec<char>>)
    ensures
        texts(r@) == segments(pointer@),
{
    let parts = split_at_char(&chars_of(pointer), '/');
    let mut out: Vec<Vec<char>> = Vec::new();
    let mut i: usize = 1;
    proof {
        lemma_split_len(pointer@, '/');
        assert(texts(parts@).len() == parts@.len());
    }
    while i < parts.len()
        invariant
            1 <= i <= parts@.len(),
            out@.len() == i - 1,
            forall|j: int|
                0 <= j < out@.len() ==> (#[trigger] out@[j])@ == unescaped(parts@[j + 1]@),
        decreases parts@.len() - i,
    {
        out.push(unescape(&parts[i]));
        i = i + 1;
    }
    assert(texts(out@) =~= segments(pointer@)) by {
        assert forall|j: int| 0 <= j < out@.len() implies texts(out@)[j] == segments(pointer@)[j] by {
            assert(out@[j]@ == unescaped(parts@[j + 1]@));
            assert(texts(parts@)[j + 1] == parts@[j + 1]@);
        }
    }
    out
}

/// The pointer before the last slash.
pub fn parent_pointer(pointer: &str) -> (r: String)
    ensures
        r@ == parent_of(pointer@),
{
    let chars = chars_of(pointer);
    let mut n: usize = chars.len();
    assert(chars@.take(n as int) =~= chars@);
    while n > 0 && chars[n - 1] != '/'
        invariant
            n <= chars@.len(),
            parent_of(chars@) == parent_of(chars@.take(n as int)),
        decreases n,
    {
        assert(chars@.take(n as int).drop_last() =~= chars@.take(n - 1));
        n = n - 1;
    }
    if n == 0 {
        assert(chars@.take(0) =~= Seq::<char>::empty());
        return String::new();
    }
    assert(chars@.take(n as int).drop_last() =~= chars@.subrange(0, n - 1));
    string_of(&part_of(&chars, 0, n - 1))
}

/// A split text has at least one part.
proof fn lemma_split_len(s: Seq<char>, sep: char)
    ensures
        split(s, sep).len() >= 1,
{
    lemma_find_first(s, sep);
}

/// The parent of a pointer is shorter, but for the empty pointer.
pub proof fn lemma_parent_of(pointer: Seq<char>)
    ensures
        parent_of(pointer).len() <= pointer.len(),
        pointer.len() > 0 ==> parent_of(pointer).len() < pointer.len(),
    decreases pointer.len(),
{
    if pointer.len() > 0 && pointer.last() != '/' {
        lemma_parent_of(pointer.drop_last());
    }
}

/// Unescaping undoes escaping.
pub proof fn unescape_undoes_escape(s: Seq<char>)
    ensures
        unescaped(escaped(s)) == s,
    decreases s.len(),
{
    if s.len() > 0 {
        let rest = s.drop_first();
        unescape_undoes_escape(rest);
        let e = escaped(s);
        if s[0] == '~' || s[0] == '/' {
            assert(e.skip(2) =~= escaped(rest));
        } else {
            assert(e.drop_first() =~= escaped(rest));
            assert(e[0] == s[0]);
        }
        assert(seq![s[0]] + rest =~= s);
    }
}

/// An escaped segment holds no slash.
pub proof fn escaped_has_no_slash(s: Seq<char>)
    ensures
        forall|i: int| 0 <= i < escaped(s).len() ==> escaped(s)[i] != '/',
    decreases s.len(),
{
    if s.len() > 0 {
        let tail = escaped(s.drop_first());
        escaped_has_no_slash(s.drop_first());
        assert forall|i: int| 0 <= i < escaped(s).len() implies escaped(s)[i] != '/' by {
            let n = escaped(s).len() - tail.len();
            if i >= n {
                assert(escaped(s)[i] == tail[i - n]);
            }
        }
    }
}

/// The parts of a text behind which a separator and one more part without it are put.
proof fn lemma_split_append(s: Seq<char>, sep: char, part: Seq<char>)
    requires
        forall|i: int| 0 <= i < part.len() ==> part[i] != sep,
    ensures
        split(s.push(sep) + part, sep) == split(s, sep).push(part),
    decreases s.len(),
{
    let all = s.push(sep) + part;
    let n = find_first(s, sep);
    lemma_find_first(s, sep);
    lemma_find_first_is(all, sep, n);
    if n < s.len() {
        let rest = s.skip(n + 1);
        lemma_split_append(rest, sep, part);
        assert(all.skip(n + 1) =~= rest.push(sep) + part);
        assert(all.take(n) =~= s.take(n));
        assert(split(all, sep) =~= split(s, sep).push(part));
    } else {
        assert(all.take(n) =~= s);
        assert(all.skip(n + 1) =~= part);
        lemma_find_first_is(part, sep, part.len() as int);
        assert(split(part, sep) == seq![part]);
        assert(split(all, sep) =~= split(s, sep).push(part));
    }
}

/// A slash and a text without one, put behind a pointer, add one segment: that text, unescaped.
pub proof fn slash_adds_one_segment(parent: Seq<char>, part: Seq<char>)
    requires
        forall|i: int| 0 <= i < part.len() ==> part[i] != '/',
    ensures
        segments(parent.push('/') + part) == segments(parent).push(unescaped(part)),
{
    lemma_split_append(parent, '/', part);
    lemma_split_len(parent, '/');
    assert(segments(parent.push('/') + part) =~= segments(parent).push(unescaped(part)));
}

/// Joining adds exactly one segment, which reads back as it was given.
pub proof fn join_adds_one_segment(parent: Seq<char>, segment: Seq<char>)
    ensures
        segments(joined(parent, segment)) == segments(parent).push(segment),
{
    escaped_has_no_slash(segment);
    slash_adds_one_segment(parent, escaped(segment));
    unescape_undoes_escape(segment);
}

/// The empty pointer has no segments.
pub proof fn empty_pointer_has_no_segments()
    ensures
        segments(Seq::<char>::empty()) == Seq::<Seq<char>>::empty(),
{
    let empty = Seq::<char>::empty();
    assert(split(empty, '/') =~= seq![empty]);
    assert(segments(empty) =~= Seq::<Seq<char>>::empty());
}

/// The parent of a joined pointer is the pointer that was joined to.
pub proof fn parent_undoes_join(parent: Seq<char>, segment: Seq<char>)
    ensures
        parent_of(joined(parent, segment)) == parent,
{
    escaped_has_no_slash(segment);
    lemma_parent_of_append(parent, escaped(segment));
}

proof fn lemma_parent_of_append(parent: Seq<char>, part: Seq<char>)
    requires
        forall|i: int| 0 <= i < part.len() ==> part[i] != '/',
    ensures
        parent_of(parent.push('/') + part) == parent,
    decreases part.len(),
{
    let all = parent.push('/') + part;
    if part.len() == 0 {
        assert(all =~= parent.push('/'));
        assert(all.drop_last() =~= parent);
    } else {
        lemma_parent_of_append(parent, part.drop_last());
        assert(all.drop_last() =~= parent.push('/') + part.drop_last());
    }
}

/// Pointers joined from different parents or different segments are different.
pub proof fn join_is_injective(p: Seq<char>, s: Seq<char>, q: Seq<char>, t: Seq<char>)
    requires
        joined(p, s) == joined(q, t),
    ensures
        p == q,
        s == t,
{
    parent_undoes_join(p, s);
    parent_undoes_join(q, t);
    join_adds_one_segment(p, s);
    join_adds_one_segment(q, t);
    assert(segments(p).push(s).last() == segments(q).push(t).last());
}

/// Escaping goes character by character: a tilde becomes `~0`, a slash `~1`, and nothing else
/// changes.
pub proof fn escaping_goes_by_character(s: Seq<char>, c: char)
    ensures
        escaped(Seq::empty()) == Seq::<char>::empty(),
        escaped(seq!['~'] + s) == seq!['~', '0'] + escaped(s),
        escaped(seq!['/'] + s) == seq!['~', '1'] + escaped(s),
        c != '~' && c != '/' ==> escaped(seq![c] + s) == seq![c] + escaped(s),
{
    assert((seq!['~'] + s).drop_first() =~= s);
    assert((seq!['/'] + s).drop_first() =~= s);
    assert((seq![c] + s).drop_first() =~= s);
}

/// Unescaping reads `~0` as a tilde and `~1` as a slash, and leaves every other character as it is,
/// a tilde before anything else included.
pub proof fn unescaping_reads_two_escapes(s: Seq<char>, c: char)
    ensures
        unescaped(Seq::empty()) == Seq::<char>::empty(),
        unescaped(seq!['~', '0'] + s) == seq!['~'] + unescaped(s),
        unescaped(seq!['~', '1'] + s) == seq!['/'] + unescaped(s),
        c != '~' ==> unescaped(seq![c] + s) == seq![c] + unescaped(s),
        s.len() == 0 || (s[0] != '0' && s[0] != '1') ==> unescaped(seq!['~'] + s) == seq!['~']
            + unescaped(s),
{
    assert((seq!['~', '0'] + s).skip(2) =~= s);
    assert((seq!['~', '1'] + s).skip(2) =~= s);
    assert((seq![c] + s).drop_first() =~= s);
    assert((seq!['~'] + s).drop_first() =~= s);
}

/// A text without a slash has no segments, and no parent but the empty pointer. With a slash and
/// such a text behind it, a pointer has one segment more, and is the parent.
pub proof fn slash_parts_pointers(pointer: Seq<char>, part: Seq<char>)
    requires
        forall|i: int| 0 <= i < part.len() ==> part[i] != '/',
    ensures
        segments(part) == Seq::<Seq<char>>::empty(),
        parent_of(part) == Seq::<char>::empty(),
        segments(pointer + seq!['/'] + part) == segments(pointer).push(unescaped(part)),
        parent_of(pointer + seq!['/'] + part) == pointer,
{
    lemma_find_first_is(part, '/', part.len() as int);
    assert(segments(part) =~= Seq::<Seq<char>>::empty());
    lemma_parent_without_slash(part);
    assert(pointer + seq!['/'] + part =~= pointer.push('/') + part);
    slash_adds_one_segment(pointer, part);
    lemma_parent_of_append(pointer, part);
}

proof fn lemma_parent_without_slash(part: Seq<char>)
    requires
        forall|i: int| 0 <= i < part.len() ==> part[i] != '/',
    ensures
        parent_of(part) == Seq::<char>::empty(),
    decreases part.len(),
{
    if part.len() > 0 {
        assert(part[part.len() - 1] != '/');
        lemma_parent_without_slash(part.drop_last());
    } else {
        assert(part =~= Seq::empty());
    }
}

/// A joined pointer is the parent, a slash and the segment with its escapes, from which the segment
/// can be read back.
pub proof fn joined_pointer_is_parent_and_segment(parent: Seq<char>, segment: Seq<char>)
    ensures
        joined(parent, segment).len() > parent.len(),
        joined(parent, segment).take(parent.len() as int) == parent,
        joined(parent, segment)[parent.len() as int] == '/',
        unescaped(joined(parent, segment).skip(parent.len() as int + 1)) == segment,
{
    let all = joined(parent, segment);
    assert(all.take(parent.len() as int) =~= parent);
    assert(all.skip(parent.len() as int + 1) =~= escaped(segment));
    unescape_undoes_escape(segment);
}

} // verus!
