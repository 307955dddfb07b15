//! Byte offsets in a text as positions of lines and UTF-16 columns.
use vstd::prelude::*;
use vstd::string::*;
use vstd::utf8::*;

verus! {

/// A place in a document: a line, and a column counted in UTF-16 code units, both from zero.
#[derive(Debug, Clone, Copy, PartialEq, Eq, Structural)]
pub struct Position {
    pub line: u32,
    pub character: u32,
}

/// The part of a document from `start` up to `end`.
#[derive(Debug, Clone, Copy, PartialEq, Eq, Structural)]
pub struct Range {
    pub start: Position,
    pub end: Position,
}

impl Position {
    /// The start of the document.
    pub open spec fn origin() -> Position {
        Position { line: 0, character: 0 }
    }
}

impl Range {
    /// The empty range at the start of the document.
    pub open spec fn origin() -> Range {
        Range { start: Position::origin(), end: Position::origin() }
    }
}

impl Default for Range {
    /// The empty range at the start of the document.
    fn default() -> (r: Range)
        ensures
            r == Range::origin(),
    {
        let start = Position { line: 0, character: 0 };
        Range { start, end: start }
    }
}

/// The number of bytes of a character in UTF-8.
pub open spec fn utf8_width(c: char) -> nat {
    encode_scalar(c as u32).len()
}

/// The number of code units of a character in UTF-16.
pub open spec fn utf16_width(c: char) -> nat {
    if (c as u32) < 0x10000 {
        1
    } else {
        2
    }
}

/// The number of code units of a text in UTF-16.
pub open spec fn utf16_len(s: Seq<char>) -> nat
    decreases s.len(),
{
    if s.len() == 0 {
        0
    } else {
        utf16_len(s.drop_last()) + utf16_width(s.last())
    }
}

/// The number of whole characters in the first `byte` bytes of a text.
pub open spec fn chars_within(text: Seq<char>, byte: int) -> nat
    decreases text.len(),
{
    if text.len() == 0 || byte < utf8_width(text[0]) {
        0
    } else {
        1 + chars_within(text.drop_first(), byte - utf8_width(text[0]))
    }
}

/// The line and the column right behind a text: the number of its line feeds, and the number of
/// UTF-16 code units behind the last of them.
pub open spec fn position_after(s: Seq<char>) -> (nat, nat)
    decreases s.len(),
{
    if s.len() == 0 {
        (0, 0)
    } else {
        let (line, column) = position_after(s.drop_last());
        if s.last() == '\n' {
            (line + 1, 0)
        } else {
            (line, column + utf16_width(s.last()))
        }
    }
}

/// The line and the column of a byte offset: those of the character that holds the byte, or of
/// the end of the text where the offset is behind it.
pub open spec fn line_column(text: Seq<char>, byte: int) -> (nat, nat) {
    position_after(text.take(chars_within(text, byte) as int))
}

/// The position of a byte offset, its line and column cut down to 32 bits.
pub open spec fn position_of(text: Seq<char>, byte: int) -> Position {
    let (line, column) = line_column(text, byte);
    Position { line: line as u32, character: column as u32 }
}

/// The range between two byte offsets.
pub open spec fn range_of(text: Seq<char>, start: int, end: int) -> Range {
    Range { start: position_of(text, start), end: position_of(text, end) }
}

/// The offsets at which the lines of a text start.
pub open spec fn starts(bytes: Seq<u8>) -> Seq<int>
    decreases bytes.len(),
{
    if bytes.len() == 0 {
        seq![0]
    } else if bytes.last() == 10 {
        starts(bytes.drop_last()).push(bytes.len() as int)
    } else {
        starts(bytes.drop_last())
    }
}

/// The encoding of a text is that of its parts, one after the other.
proof fn lemma_encode_concat(a: Seq<char>, b: Seq<char>)
    ensures
        encode_utf8(a + b) == encode_utf8(a) + encode_utf8(b),
    decreases a.len(),
{
    if a.len() == 0 {
        assert(a + b =~= b);
        assert(encode_utf8(a) + encode_utf8(b) =~= encode_utf8(b));
    } else {
        lemma_encode_concat(a.drop_first(), b);
        assert((a + b).drop_first() =~= a.drop_first() + b);
        assert(encode_utf8(a + b) =~= encode_utf8(a) + encode_utf8(b));
    }
}

/// The encoding of a character, and the line feeds in it.
proof fn lemma_encode_char(c: char)
    ensures
        1 <= utf8_width(c) <= 4,
        encode_utf8(seq![c]) == encode_scalar(c as u32),
        c == '\n' ==> encode_scalar(c as u32) == seq![10u8],
        c != '\n' ==> forall|i: int|
            0 <= i < encode_scalar(c as u32).len() ==> #[trigger] encode_scalar(c as u32)[i]
                != 10,
{
    let s = seq![c];
    assert(s.drop_first() =~= Seq::<char>::empty());
    reveal_with_fuel(encode_utf8, 2);
    assert(encode_utf8(s) =~= encode_scalar(c as u32));
    encode_utf8_first_scalar(s);
    char_is_scalar(c);
    let n = c as u32;
    assert(n <= 0x7F ==> (n & 0x7F) as u8 == n as u8) by (bit_vector);
    let bytes = encode_scalar(n);
    if has_width_1_encoding(n) {
        assert(bytes[0] == n as u8);
        assert(c == '\n' <==> n == 10);
        if c == '\n' {
            assert(bytes =~= seq![10u8]);
        }
    }
}

/// Where a byte offset lies: the whole characters before it end at it exactly when it is a
/// character boundary, and are those before the previous byte when it is not.
proof fn lemma_chars_within(text: Seq<char>, byte: int)
    requires
        0 <= byte,
    ensures
        chars_within(text, byte) <= text.len(),
        encode_utf8(text.take(chars_within(text, byte) as int)).len() <= byte,
        byte <= encode_utf8(text).len() ==> (is_char_boundary(encode_utf8(text), byte) <==> encode_utf8(
            text.take(chars_within(text, byte) as int),
        ).len() == byte),
        byte < encode_utf8(text).len() || text.len() == chars_within(text, byte),
        encode_utf8(text.take(chars_within(text, byte) as int)).len() < byte ==> chars_within(
            text,
            byte,
        ) == chars_within(text, byte - 1),
    decreases text.len(),
{
    let k = chars_within(text, byte);
    let bytes = encode_utf8(text);
    encode_utf8_valid_utf8(text);
    if text.len() == 0 {
        assert(text.take(0) =~= text);
    } else {
        let c = text[0];
        let w = utf8_width(c) as int;
        let rest = text.drop_first();
        lemma_encode_char(c);
        encode_utf8_first_scalar(text);
        assert(pop_first_scalar(bytes) =~= encode_utf8(rest));
        encode_utf8_valid_utf8(rest);
        if byte < w {
            assert(text.take(0) =~= Seq::<char>::empty());
            assert(byte - w < 0);
            if byte > 0 {
                assert(!is_char_boundary(pop_first_scalar(bytes), byte - w));
            }
        } else {
            lemma_chars_within(rest, byte - w);
            let part = text.take(k as int);
            assert(part.drop_first() =~= rest.take(k - 1));
            assert(encode_utf8(part).len() == w + encode_utf8(rest.take(k - 1)).len());
            assert(is_char_boundary(bytes, byte) == is_char_boundary(encode_utf8(rest), byte - w)
                || byte > bytes.len());
            if encode_utf8(part).len() < byte {
                assert(byte - 1 >= w);
            }
        }
    }
}

/// The line starts of the first part of a text are those of the text up to there.
proof fn lemma_starts_prefix(bytes: Seq<u8>, n: int)
    requires
        0 <= n <= bytes.len(),
    ensures
        0 < starts(bytes.take(n)).len() <= starts(bytes).len(),
        forall|i: int|
            0 <= i < starts(bytes.take(n)).len() ==> starts(bytes.take(n))[i] == starts(bytes)[i],
        forall|i: int|
            starts(bytes.take(n)).len() <= i < starts(bytes).len() ==> starts(bytes)[i] > n,
        forall|i: int| 0 <= i < starts(bytes.take(n)).len() ==> 0
            <= #[trigger] starts(bytes)[i] <= n,
    decreases bytes.len(),
{
    if n == bytes.len() {
        assert(bytes.take(n) =~= bytes);
        if bytes.len() > 0 {
            lemma_starts_prefix(bytes.drop_last(), n - 1);
            assert(bytes.drop_last().take(n - 1) =~= bytes.drop_last());
        }
    } else {
        lemma_starts_prefix(bytes.drop_last(), n);
        assert(bytes.drop_last().take(n) =~= bytes.take(n));
    }
}

/// The line starts grow.
proof fn lemma_starts_sorted(bytes: Seq<u8>)
    ensures
        forall|i: int, j: int|
            0 <= i < j < starts(bytes).len() ==> starts(bytes)[i] < starts(bytes)[j],
    decreases bytes.len(),
{
    if bytes.len() > 0 {
        lemma_starts_sorted(bytes.drop_last());
        lemma_starts_prefix(bytes, bytes.len() - 1);
        assert(bytes.take(bytes.len() - 1) =~= bytes.drop_last());
    }
}

/// A run of bytes without a line feed starts no line.
proof fn lemma_starts_append(a: Seq<u8>, b: Seq<u8>)
    requires
        forall|i: int| 0 <= i < b.len() ==> b[i] != 10,
    ensures
        starts(a + b) == starts(a),
    decreases b.len(),
{
    if b.len() == 0 {
        assert(a + b =~= a);
    } else {
        lemma_starts_append(a, b.drop_last());
        assert((a + b).drop_last() =~= a + b.drop_last());
        assert((a + b).last() == b.last());
    }
}

/// The number of characters up to and with the last line feed.
spec fn last_line_start(s: Seq<char>) -> nat
    decreases s.len(),
{
    if s.len() == 0 || s.last() == '\n' {
        s.len()
    } else {
        last_line_start(s.drop_last())
    }
}

/// What the line starts say of the end of a text.
proof fn lemma_position_after(s: Seq<char>)
    ensures
        last_line_start(s) <= s.len(),
        position_after(s).0 == starts(encode_utf8(s)).len() - 1,
        position_after(s).1 == utf16_len(s.skip(last_line_start(s) as int)),
        starts(encode_utf8(s)).last() == encode_utf8(s.take(last_line_start(s) as int)).len(),
    decreases s.len(),
{
    if s.len() == 0 {
        assert(s.take(0) =~= s);
        assert(s.skip(0) =~= s);
    } else {
        let c = s.last();
        let init = s.drop_last();
        lemma_position_after(init);
        assert(init + seq![c] =~= s);
        lemma_encode_concat(init, seq![c]);
        lemma_encode_char(c);
        if c == '\n' {
            assert(encode_utf8(s).drop_last() =~= encode_utf8(init));
            assert(encode_utf8(s).last() == 10);
            assert(s.take(s.len() as int) =~= s);
            assert(s.skip(s.len() as int) =~= Seq::<char>::empty());
        } else {
            let m = last_line_start(init) as int;
            lemma_starts_append(encode_utf8(init), encode_scalar(c as u32));
            assert(init.take(m) =~= s.take(m));
            assert(s.skip(m).drop_last() =~= init.skip(m));
            assert(s.skip(m).last() == c);
        }
    }
}

/// Text index for converting byte offsets into positions and ranges.
#[derive(Debug)]
pub struct TextIndex {
    text: String,
    line_starts: Vec<usize>,
}

impl Clone for TextIndex {
    fn clone(&self) -> (r: TextIndex)
        ensures
            r.text() == self.text(),
    {
        proof {
            use_type_invariant(self);
        }
        let line_starts = self.line_starts.clone();
        assert(line_starts@ =~= self.line_starts@);
        TextIndex { text: self.text.clone(), line_starts }
    }
}

impl TextIndex {
    /// The indexed text.
    pub closed spec fn text(&self) -> Seq<char> {
        self.text@
    }

    /// The table of line starts is the one of the text.
    #[verifier::type_invariant]
    spec fn consistent(&self) -> bool {
        let all = starts(encode_utf8(self.text@));
        &&& self.line_starts@.len() == all.len()
        &&& forall|i: int| 0 <= i < all.len() ==> self.line_starts@[i] == #[trigger] all[i]
    }

    /// Indexes a text.
    pub fn new(text: &str) -> (r: TextIndex)
        ensures
            r.text() == text@,
    {
        let bytes = text.as_bytes();
        let mut line_starts: Vec<usize> = Vec::new();
        line_starts.push(0);
        let mut i: usize = 0;
        assert(bytes@.take(0) =~= Seq::<u8>::empty());
        while i < bytes.len()
            invariant
                i <= bytes@.len(),
                line_starts@.len() == starts(bytes@.take(i as int)).len(),
                forall|j: int|
                    0 <= j < line_starts@.len() ==> line_starts@[j] == #[trigger] starts(
                        bytes@.take(i as int),
                    )[j],
            decreases bytes@.len() - i,
        {
            assert(bytes@.take(i + 1).drop_last() =~= bytes@.take(i as int));
            if bytes[i] == 10 {
                line_starts.push(i + 1);
            }
            i = i + 1;
        }
        assert(bytes@.take(bytes@.len() as int) =~= bytes@);
        TextIndex { text: text.to_string(), line_starts }
    }

    /// The index of the last line that starts at or before a byte offset.
    fn line_at(&self, byte: usize) -> (r: usize)
        requires
            byte <= encode_utf8(self.text()).len(),
        ensures
            r == starts(encode_utf8(self.text()).take(byte as int)).len() - 1,
            r < self.line_starts@.len(),
    {
        proof {
            use_type_invariant(self);
            lemma_starts_prefix(encode_utf8(self.text@), byte as int);
            lemma_starts_sorted(encode_utf8(self.text@));
        }
        let ghost all = starts(encode_utf8(self.text@));
        let ghost count = starts(encode_utf8(self.text@).take(byte as int)).len();
        let mut low: usize = 0;
        let mut high: usize = self.line_starts.len();
        assert(self.line_starts@[0] == all[0]);
        while high - low > 1
            invariant
                low < high <= self.line_starts@.len(),
                self.line_starts@.len() == all.len(),
                forall|i: int| 0 <= i < all.len() ==> self.line_starts@[i] == #[trigger] all[i],
                low < count <= high,
                forall|i: int| 0 <= i < count ==> all[i] <= byte,
                forall|i: int| count <= i < all.len() ==> all[i] > byte,
            decreases high - low,
        {
            let mid: usize = low + (high - low) / 2;
            assert(self.line_starts@[mid as int] == all[mid as int]);
            if self.line_starts[mid] <= byte {
                low = mid;
            } else {
                high = mid;
            }
        }
        low
    }

    /// The position of a byte offset. An offset behind the end counts as the end, and one inside
    /// a character as the start of that character.
    pub fn position_from_byte(&self, byte: usize) -> (r: Position)
        ensures
            r == position_of(self.text(), byte as int),
    {
        let text = self.text.as_str();
        let ghost bytes = encode_utf8(self.text@);
        let mut at: usize = byte;
        proof {
            lemma_chars_within(self.text@, byte as int);
            lemma_chars_within(self.text@, bytes.len() as int);
        }
        let size: usize = text.as_bytes().len();
        if at > size {
            at = size;
        }
        while at > 0 && !text.is_char_boundary(at)
            invariant
                text@ == self.text@,
                bytes == encode_utf8(self.text@),
                at <= bytes.len(),
                chars_within(self.text@, at as int) == chars_within(self.text@, byte as int),
            decreases at,
        {
            proof {
                lemma_chars_within(self.text@, at as int);
            }
            at = at - 1;
        }
        proof {
            lemma_chars_within(self.text@, at as int);
            encode_utf8_valid_utf8(self.text@);
            is_char_boundary_start_end_of_seq(bytes);
        }
        let ghost before = self.text@.take(chars_within(self.text@, byte as int) as int);
        proof {
            let after = self.text@.skip(chars_within(self.text@, byte as int) as int);
            assert(self.text@ =~= before + after);
            lemma_encode_concat(before, after);
            assert(bytes.take(at as int) =~= encode_utf8(before));
            assert(bytes.subrange(0, at as int) =~= encode_utf8(before));
        }
        let line = self.line_at(at);
        let line_start: usize = self.line_starts[line];
        let (head, _tail) = text.split_at(at);
        let ghost m = last_line_start(before) as int;
        proof {
            use_type_invariant(self);
            lemma_same_encoding(head@, before);
            lemma_position_after(before);
            lemma_starts_prefix(bytes, at as int);
            assert(self.line_starts@[line as int] == starts(bytes)[line as int]);
            assert(before =~= before.take(m) + before.skip(m));
            lemma_encode_concat(before.take(m), before.skip(m));
            lemma_boundary(before, m);
        }
        let (_lines, segment) = head.split_at(line_start);
        proof {
            assert(encode_utf8(before).subrange(line_start as int, encode_utf8(before).len() as int)
                =~= encode_utf8(before.skip(m)));
            lemma_same_encoding(segment@, before.skip(m));
        }
        let character = utf16_units(segment);
        Position { line: line as u32, character: character as u32 }
    }

    /// The range between two byte offsets.
    pub fn range_from_bytes(&self, start: usize, end: usize) -> (r: Range)
        ensures
            r == range_of(self.text(), start as int, end as int),
    {
        let s = self.position_from_byte(start);
        let e = self.position_from_byte(end);
        Range { start: s, end: e }
    }
}

/// Texts with the same encoding are equal.
proof fn lemma_same_encoding(a: Seq<char>, b: Seq<char>)
    requires
        encode_utf8(a) == encode_utf8(b),
    ensures
        a == b,
{
    encode_utf8_decode_utf8(a);
    encode_utf8_decode_utf8(b);
}

/// The end of every character is a character boundary.
proof fn lemma_boundary(text: Seq<char>, n: int)
    requires
        0 <= n <= text.len(),
    ensures
        is_char_boundary(encode_utf8(text), encode_utf8(text.take(n)).len() as int),
    decreases text.len(),
{
    let bytes = encode_utf8(text);
    encode_utf8_valid_utf8(text);
    if n == 0 {
        assert(text.take(n) =~= Seq::<char>::empty());
    } else {
        let rest = text.drop_first();
        lemma_boundary(rest, n - 1);
        lemma_encode_char(text[0]);
        encode_utf8_first_scalar(text);
        assert(pop_first_scalar(bytes) =~= encode_utf8(rest));
        encode_utf8_valid_utf8(rest);
        assert(text.take(n).drop_first() =~= rest.take(n - 1));
        assert(text =~= text.take(n) + text.skip(n));
        lemma_encode_concat(text.take(n), text.skip(n));
    }
}

/// The number of UTF-16 code units of a text.
fn utf16_units(s: &str) -> (r: usize)
    ensures
        r == utf16_len(s@),
{
    let size: usize = s.as_bytes().len();
    let mut n: usize = 0;
    for c in it: s.chars()
        invariant
            it.seq() == s@,
            size == encode_utf8(s@).len(),
            n == utf16_len(s@.take(it.index() as int)),
    {
        proof {
            let i = it.index() as int;
            assert(s@.take(i + 1).drop_last() =~= s@.take(i));
            lemma_utf16_len_bound(s@, i + 1);
        }
        let w: usize = if (c as u32) < 0x10000 {
            1
        } else {
            2
        };
        n = n + w;
    }
    assert(s@.take(s@.len() as int) =~= s@);
    n
}

/// A text has at most as many UTF-16 code units as UTF-8 bytes.
proof fn lemma_utf16_len_bound(s: Seq<char>, n: int)
    requires
        0 <= n <= s.len(),
    ensures
        utf16_len(s.take(n)) <= encode_utf8(s).len(),
    decreases s.len(),
{
    if s.len() == 0 {
    } else {
        let init = s.drop_last();
        assert(s =~= init + seq![s.last()]);
        lemma_encode_concat(init, seq![s.last()]);
        lemma_encode_char(s.last());
        if n < s.len() {
            lemma_utf16_len_bound(init, n);
            assert(init.take(n) =~= s.take(n));
        } else {
            lemma_utf16_len_bound(init, n - 1);
            assert(s.take(n) =~= s);
            assert(init.take(n - 1) =~= init);
        }
    }
}

/// Whether a line and column is at or before another one.
pub open spec fn at_or_before(a: (nat, nat), b: (nat, nat)) -> bool {
    a.0 < b.0 || (a.0 == b.0 && a.1 <= b.1)
}

/// A later offset has no fewer whole characters before it.
proof fn lemma_chars_within_grows(text: Seq<char>, a: int, b: int)
    requires
        a <= b,
    ensures
        chars_within(text, a) <= chars_within(text, b) <= text.len(),
    decreases text.len(),
{
    if text.len() > 0 {
        let w = utf8_width(text[0]) as int;
        lemma_chars_within_grows(text.drop_first(), a - w, b - w);
    }
}

/// A longer part of a text ends no earlier.
proof fn lemma_position_after_grows(s: Seq<char>, m: int, n: int)
    requires
        0 <= m <= n <= s.len(),
    ensures
        at_or_before(position_after(s.take(m)), position_after(s.take(n))),
    decreases n,
{
    if m < n {
        lemma_position_after_grows(s, m, n - 1);
        assert(s.take(n).drop_last() =~= s.take(n - 1));
    }
}

/// Positions keep the order of the byte offsets.
pub proof fn positions_keep_order(text: Seq<char>, a: int, b: int)
    requires
        a <= b,
    ensures
        at_or_before(line_column(text, a), line_column(text, b)),
{
    lemma_chars_within_grows(text, a, b);
    lemma_position_after_grows(text, chars_within(text, a) as int, chars_within(text, b) as int);
}

/// The offset zero is the start of the document.
pub proof fn first_offset_is_origin(text: Seq<char>)
    ensures
        position_of(text, 0) == Position::origin(),
{
    lemma_chars_within(text, 0);
    if text.len() > 0 {
        lemma_encode_char(text[0]);
    }
    assert(text.take(0) =~= Seq::<char>::empty());
}

/// An offset at or behind the end of the text is the end of the text.
pub proof fn offset_behind_end_is_end(text: Seq<char>, byte: int)
    requires
        byte >= encode_utf8(text).len(),
    ensures
        line_column(text, byte) == position_after(text),
{
    lemma_chars_within(text, byte);
    assert(text.take(text.len() as int) =~= text);
}

/// Every byte of a character is at the position where the character starts.
pub proof fn offset_in_character_is_its_start(text: Seq<char>, n: int, byte: int)
    requires
        0 <= n < text.len(),
        encode_utf8(text.take(n)).len() <= byte < encode_utf8(text.take(n + 1)).len(),
    ensures
        line_column(text, byte) == position_after(text.take(n)),
{
    lemma_chars_within_is(text, n, byte);
}

/// The number of whole characters before an offset inside a character.
proof fn lemma_chars_within_is(text: Seq<char>, n: int, byte: int)
    requires
        0 <= n < text.len(),
        encode_utf8(text.take(n)).len() <= byte < encode_utf8(text.take(n + 1)).len(),
    ensures
        chars_within(text, byte) == n,
    decreases n,
{
    let rest = text.drop_first();
    lemma_encode_char(text[0]);
    assert(text.take(n + 1).drop_first() =~= rest.take(n));
    if n == 0 {
        assert(rest.take(0) =~= Seq::<char>::empty());
        assert(encode_utf8(rest.take(0)).len() == 0);
        assert(text.take(1)[0] == text[0]);
    } else {
        assert(text.take(n).drop_first() =~= rest.take(n - 1));
        lemma_chars_within_is(rest, n - 1, byte - utf8_width(text[0]));
    }
}

/// A position is exact wherever its line and its column fit in 32 bits.
pub proof fn position_is_exact(text: Seq<char>, byte: int)
    requires
        line_column(text, byte).0 <= u32::MAX,
        line_column(text, byte).1 <= u32::MAX,
    ensures
        position_of(text, byte).line == line_column(text, byte).0,
        position_of(text, byte).character == line_column(text, byte).1,
{
}

/// A line feed starts a line at column zero, and any other text stays on its line and adds its
/// UTF-16 code units to the column.
pub proof fn position_counts_lines_and_units(before: Seq<char>, line: Seq<char>)
    requires
        forall|i: int| 0 <= i < line.len() ==> line[i] != '\n',
    ensures
        position_after(Seq::empty()) == (0nat, 0nat),
        position_after(before.push('\n')) == (position_after(before).0 + 1, 0nat),
        position_after(before + line) == (
            position_after(before).0,
            position_after(before).1 + utf16_len(line),
        ),
    decreases line.len(),
{
    assert(before.push('\n').drop_last() =~= before);
    if line.len() == 0 {
        assert(before + line =~= before);
    } else {
        position_counts_lines_and_units(before, line.drop_last());
        assert((before + line).drop_last() =~= before + line.drop_last());
        assert(line[line.len() - 1] != '\n');
    }
}

/// A character of the basic plane is one UTF-16 code unit, any other is two, and a text has those of
/// its characters.
pub proof fn utf16_counts_characters(s: Seq<char>, c: char)
    ensures
        utf16_len(Seq::empty()) == 0,
        c < '\u{10000}' ==> utf16_len(s.push(c)) == utf16_len(s) + 1,
        c >= '\u{10000}' ==> utf16_len(s.push(c)) == utf16_len(s) + 2,
{
    assert(s.push(c).drop_last() =~= s);
}

/// A range goes from the position of its first offset to that of its last, and a position holds the
/// low 32 bits of its line and of its column.
pub proof fn range_holds_line_and_column(text: Seq<char>, start: int, end: int)
    requires
        line_column(text, start).0 <= u64::MAX,
        line_column(text, start).1 <= u64::MAX,
        line_column(text, end).0 <= u64::MAX,
        line_column(text, end).1 <= u64::MAX,
    ensures
        range_of(text, start, end).start.line == line_column(text, start).0 % 0x1_0000_0000,
        range_of(text, start, end).start.character == line_column(text, start).1 % 0x1_0000_0000,
        range_of(text, start, end).end.line == line_column(text, end).0 % 0x1_0000_0000,
        range_of(text, start, end).end.character == line_column(text, end).1 % 0x1_0000_0000,
{
    lemma_low_bits(line_column(text, start).0);
    lemma_low_bits(line_column(text, start).1);
    lemma_low_bits(line_column(text, end).0);
    lemma_low_bits(line_column(text, end).1);
}

/// A number cut down to 32 bits is what is left of it by the powers of two above.
pub proof fn lemma_low_bits(n: nat)
    requires
        n <= u64::MAX,
    ensures
        n as u32 == n % 0x1_0000_0000,
{
    let m = n as u64;
    assert(m as u32 == m % 0x1_0000_0000) by (bit_vector);
}

/// The start of the document is line zero, column zero, and the empty range there starts and ends
/// at it.
pub proof fn origin_is_line_zero_column_zero()
    ensures
        Position::origin().line == 0,
        Position::origin().character == 0,
        Range::origin().start == Position::origin(),
        Range::origin().end == Position::origin(),
{
}

} // verus!
