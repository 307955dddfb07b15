//! Text as a sequence of characters: trimming, splitting, and decimal numerals.
use vstd::prelude::*;
use vstd::string::*;

verus! {

/// `String::push` of the standard library: the character is appended at the end.
pub assume_specification[ String::push ](s: &mut String, ch: char)
    ensures
        final(s)@ == old(s)@.push(ch),
;

/// The characters of a string, in order.
pub fn chars_of(s: &str) -> (r: Vec<char>)
    ensures
        r@ == s@,
{
    let mut out: Vec<char> = Vec::new();
    for c in it: s.chars()
        invariant
            it.seq() == s@,
            out@ == s@.take(it.index() as int),
    {
        out.push(c);
        assert(s@.take(it.index() + 1) =~= s@.take(it.index() as int).push(c));
    }
    assert(s@.take(s@.len() as int) =~= s@);
    out
}

/// The string made of the given characters.
pub fn string_of(chars: &Vec<char>) -> (r: String)
    ensures
        r@ == chars@,
{
    let mut out = String::new();
    let mut i: usize = 0;
    while i < chars.len()
        invariant
            i <= chars@.len(),
            out@ == chars@.take(i as int),
        decreases chars@.len() - i,
    {
        out.push(chars[i]);
        assert(chars@.take(i + 1) =~= chars@.take(i as int).push(chars@[i as int]));
        i = i + 1;
    }
    assert(chars@.take(chars@.len() as int) =~= chars@);
    out
}

/// The characters from index `from` up to, and without, index `to`.
pub fn part_of(chars: &Vec<char>, from: usize, to: usize) -> (r: Vec<char>)
    requires
        from <= to <= chars@.len(),
    ensures
        r@ == chars@.subrange(from as int, to as int),
{
    let mut out: Vec<char> = Vec::new();
    let mut i: usize = from;
    while i < to
        invariant
            from <= i <= to <= chars@.len(),
            out@ == chars@.subrange(from as int, i as int),
        decreases to - i,
    {
        out.push(chars[i]);
        assert(chars@.subrange(from as int, i + 1) =~= chars@.subrange(from as int, i as int).push(
            chars@[i as int],
        ));
        i = i + 1;
    }
    out
}

/// The text with another one behind it.
pub fn concat(first: &str, second: &str) -> (r: String)
    ensures
        r@ == first@ + second@,
{
    let mut out = first.to_string();
    out.append(second);
    out
}

/// The texts of a list of character vectors.
pub open spec fn texts(parts: Seq<Vec<char>>) -> Seq<Seq<char>> {
    parts.map_values(|part: Vec<char>| part@)
}

/// The characters with the Unicode property White_Space.
pub open spec fn white_space(c: char) -> bool {
    let n = c as u32;
    ||| 0x9 <= n <= 0xD
    ||| n == 0x20
    ||| n == 0x85
    ||| n == 0xA0
    ||| n == 0x1680
    ||| 0x2000 <= n <= 0x200A
    ||| 0x2028 <= n <= 0x2029
    ||| n == 0x202F
    ||| n == 0x205F
    ||| n == 0x3000
}

/// Whether the character has the Unicode property White_Space.
pub fn is_white_space(c: char) -> (r: bool)
    ensures
        r == white_space(c),
{
    let n: u32 = c as u32;
    (0x9 <= n && n <= 0xD) || n == 0x20 || n == 0x85 || n == 0xA0 || n == 0x1680 || (0x2000 <= n
        && n <= 0x200A) || (0x2028 <= n && n <= 0x2029) || n == 0x202F || n == 0x205F || n == 0x3000
}

/// The text without the white space that it starts with.
pub open spec fn trimmed_start(s: Seq<char>) -> Seq<char>
    decreases s.len(),
{
    if s.len() > 0 && white_space(s[0]) {
        trimmed_start(s.drop_first())
    } else {
        s
    }
}

/// The text without the white space that it ends with.
pub open spec fn trimmed_end(s: Seq<char>) -> Seq<char>
    decreases s.len(),
{
    if s.len() > 0 && white_space(s.last()) {
        trimmed_end(s.drop_last())
    } else {
        s
    }
}

/// The text without the white space at either end.
pub open spec fn trimmed(s: Seq<char>) -> Seq<char> {
    trimmed_end(trimmed_start(s))
}

/// Trimming twice is trimming once.
pub proof fn lemma_trimmed(s: Seq<char>)
    ensures
        trimmed(trimmed(s)) == trimmed(s),
{
    let t = trimmed_start(s);
    lemma_trimmed_start_first(s);
    lemma_trimmed_end(t);
}

/// A text without white space at its start does not begin with any.
proof fn lemma_trimmed_start_first(s: Seq<char>)
    ensures
        trimmed_start(s).len() > 0 ==> !white_space(trimmed_start(s)[0]),
    decreases s.len(),
{
    if s.len() > 0 && white_space(s[0]) {
        lemma_trimmed_start_first(s.drop_first());
    }
}

/// What is left without the white space at the end starts as before and ends with none.
proof fn lemma_trimmed_end(s: Seq<char>)
    ensures
        trimmed_end(trimmed_end(s)) == trimmed_end(s),
        trimmed_end(s).len() > 0 ==> trimmed_end(s)[0] == s[0],
    decreases s.len(),
{
    if s.len() > 0 && white_space(s.last()) {
        lemma_trimmed_end(s.drop_last());
    }
}

/// Drops the white space at the start.
pub fn trim_start(chars: &Vec<char>) -> (r: Vec<char>)
    ensures
        r@ == trimmed_start(chars@),
{
    let mut i: usize = 0;
    assert(chars@.skip(0) =~= chars@);
    while i < chars.len() && is_white_space(chars[i])
        invariant
            i <= chars@.len(),
            trimmed_start(chars@) == trimmed_start(chars@.skip(i as int)),
        decreases chars@.len() - i,
    {
        assert(chars@.skip(i as int).drop_first() =~= chars@.skip(i + 1));
        i = i + 1;
    }
    assert(chars@.skip(i as int) =~= chars@.subrange(i as int, chars@.len() as int));
    part_of(chars, i, chars.len())
}

/// Drops the white space at both ends.
pub fn trim(chars: &Vec<char>) -> (r: Vec<char>)
    ensures
        r@ == trimmed(chars@),
{
    let rest = trim_start(chars);
    let mut n: usize = rest.len();
    assert(rest@.take(n as int) =~= rest@);
    while n > 0 && is_white_space(rest[n - 1])
        invariant
            n <= rest@.len(),
            trimmed_end(rest@) == trimmed_end(rest@.take(n as int)),
        decreases n,
    {
        assert(rest@.take(n as int).drop_last() =~= rest@.take(n - 1));
        n = n - 1;
    }
    assert(rest@.take(n as int) =~= rest@.subrange(0, n as int));
    part_of(&rest, 0, n)
}

/// The index of the first `sep`, or the length where there is none.
pub open spec fn find_first(s: Seq<char>, sep: char) -> int
    decreases s.len(),
{
    if s.len() == 0 || s[0] == sep {
        0
    } else {
        1 + find_first(s.drop_first(), sep)
    }
}

/// What `find_first` returns: an index within the text, before which `sep` does not occur.
pub proof fn lemma_find_first(s: Seq<char>, sep: char)
    ensures
        0 <= find_first(s, sep) <= s.len(),
        forall|i: int| 0 <= i < find_first(s, sep) ==> s[i] != sep,
        find_first(s, sep) < s.len() ==> s[find_first(s, sep)] == sep,
    decreases s.len(),
{
    if s.len() > 0 && s[0] != sep {
        let rest = s.drop_first();
        lemma_find_first(rest, sep);
        assert forall|i: int| 0 <= i < find_first(s, sep) implies s[i] != sep by {
            if i > 0 {
                assert(s[i] == rest[i - 1]);
            }
        }
    }
}

/// The one index that `find_first` can return.
pub proof fn lemma_find_first_is(s: Seq<char>, sep: char, n: int)
    requires
        0 <= n <= s.len(),
        forall|i: int| 0 <= i < n ==> s[i] != sep,
        n < s.len() ==> s[n] == sep,
    ensures
        find_first(s, sep) == n,
{
    lemma_find_first(s, sep);
    if find_first(s, sep) < n {
        assert(s[find_first(s, sep)] != sep);
    } else if n < find_first(s, sep) {
        assert(s[n] != sep);
    }
}

/// The index of the first `sep` at or after index `from`, or the length where there is none.
pub fn find_from(chars: &Vec<char>, from: usize, sep: char) -> (r: usize)
    requires
        from <= chars@.len(),
    ensures
        r == from + find_first(chars@.skip(from as int), sep),
        from <= r <= chars@.len(),
{
    let mut i: usize = from;
    while i < chars.len() && chars[i] != sep
        invariant
            from <= i <= chars@.len(),
            forall|j: int| from <= j < i ==> chars@[j] != sep,
        decreases chars@.len() - i,
    {
        i = i + 1;
    }
    proof {
        lemma_find_first_is(chars@.skip(from as int), sep, i - from);
    }
    i
}

/// The parts between the occurrences of `sep`, of which there is always at least one.
pub open spec fn split(s: Seq<char>, sep: char) -> Seq<Seq<char>>
    decreases s.len(),
{
    let n = find_first(s, sep);
    if 0 <= n < s.len() {
        seq![s.take(n)] + split(s.skip(n + 1), sep)
    } else {
        seq![s]
    }
}

/// Splits the text at every `sep`.
pub fn split_at_char(chars: &Vec<char>, sep: char) -> (r: Vec<Vec<char>>)
    ensures
        texts(r@) == split(chars@, sep),
{
    let mut out: Vec<Vec<char>> = Vec::new();
    let mut start: usize = 0;
    assert(chars@.skip(0) =~= chars@);
    assert(texts(out@) =~= Seq::<Seq<char>>::empty());
    loop
        invariant
            start <= chars@.len(),
            split(chars@, sep) =~= texts(out@) + split(chars@.skip(start as int), sep),
        decreases chars@.len() - start,
    {
        let end = find_from(chars, start, sep);
        let part = part_of(chars, start, end);
        let ghost before = out@;
        let ghost rest = chars@.skip(start as int);
        out.push(part);
        proof {
            lemma_find_first(rest, sep);
            assert(texts(out@) =~= texts(before).push(part@));
            assert(rest.take(end - start) =~= part@);
        }
        if end >= chars.len() {
            assert(rest =~= part@);
            assert(texts(out@) =~= texts(before) + seq![part@]);
            return out;
        }
        proof {
            assert(rest.skip(end - start + 1) =~= chars@.skip(end + 1));
        }
        start = end + 1;
    }
}

/// The number of characters before the first white space.
pub open spec fn word_len(s: Seq<char>) -> nat
    decreases s.len(),
{
    if s.len() == 0 || white_space(s[0]) {
        0
    } else {
        1 + word_len(s.drop_first())
    }
}

/// `word_len` is within the text, and the length of `trimmed_start` is within that of the text.
pub proof fn lemma_word_len(s: Seq<char>)
    ensures
        word_len(s) <= s.len(),
        forall|i: int| 0 <= i < word_len(s) ==> !white_space(s[i]),
        word_len(s) < s.len() ==> white_space(s[word_len(s) as int]),
        trimmed_start(s).len() <= s.len(),
        trimmed_start(s).len() > 0 ==> word_len(trimmed_start(s)) > 0,
    decreases s.len(),
{
    if s.len() > 0 {
        let rest = s.drop_first();
        lemma_word_len(rest);
        assert forall|i: int| 0 <= i < word_len(s) implies !white_space(s[i]) by {
            if i > 0 {
                assert(s[i] == rest[i - 1]);
            }
        }
    }
}

/// The longest parts without white space, in order.
pub open spec fn words(s: Seq<char>) -> Seq<Seq<char>>
    decreases s.len(),
    via words_decreases
{
    let t = trimmed_start(s);
    if t.len() == 0 {
        seq![]
    } else {
        seq![t.take(word_len(t) as int)] + words(t.skip(word_len(t) as int))
    }
}

#[via_fn]
proof fn words_decreases(s: Seq<char>) {
    lemma_word_len(s);
    lemma_word_len(trimmed_start(s));
}

/// Splits the text at its white space.
pub fn split_words(chars: &Vec<char>) -> (r: Vec<Vec<char>>)
    ensures
        texts(r@) == words(chars@),
{
    let mut out: Vec<Vec<char>> = Vec::new();
    let mut rest = trim_start(chars);
    assert(texts(out@) =~= Seq::<Seq<char>>::empty());
    proof {
        lemma_trimmed_start_words(chars@);
    }
    while rest.len() > 0
        invariant
            words(chars@) =~= texts(out@) + words(rest@),
            rest@ == trimmed_start(rest@),
        decreases rest@.len(),
    {
        let mut n: usize = 0;
        assert(rest@.skip(0) =~= rest@);
        while n < rest.len() && !is_white_space(rest[n])
            invariant
                n <= rest@.len(),
                word_len(rest@) == n + word_len(rest@.skip(n as int)),
            decreases rest@.len() - n,
        {
            assert(rest@.skip(n as int).drop_first() =~= rest@.skip(n + 1));
            n = n + 1;
        }
        let word = part_of(&rest, 0, n);
        let tail = part_of(&rest, n, rest.len());
        let next = trim_start(&tail);
        let ghost before = out@;
        out.push(word);
        proof {
            lemma_word_len(rest@);
            assert(texts(out@) =~= texts(before).push(word@));
            assert(rest@.take(n as int) =~= word@);
            assert(rest@.skip(n as int) =~= tail@);
            lemma_trimmed_start_words(tail@);
            lemma_word_len(tail@);
        }
        rest = next;
    }
    out
}

/// Leading white space does not change the words, and trimming twice is trimming once.
pub proof fn lemma_trimmed_start_words(s: Seq<char>)
    ensures
        trimmed_start(trimmed_start(s)) == trimmed_start(s),
        words(trimmed_start(s)) == words(s),
    decreases s.len(),
{
    if s.len() > 0 && white_space(s[0]) {
        lemma_trimmed_start_words(s.drop_first());
    }
}

/// Whether the text starts with `prefix`.
pub open spec fn has_prefix(s: Seq<char>, prefix: Seq<char>) -> bool {
    prefix.len() <= s.len() && s.take(prefix.len() as int) == prefix
}

/// Whether the text ends with `suffix`.
pub open spec fn has_suffix(s: Seq<char>, suffix: Seq<char>) -> bool {
    suffix.len() <= s.len() && s.skip(s.len() - suffix.len()) == suffix
}

/// Compares the characters from index `at` on with `word`.
pub fn matches_at(chars: &Vec<char>, at: usize, word: &Vec<char>) -> (r: bool)
    requires
        at + word@.len() <= chars@.len(),
    ensures
        r == (chars@.subrange(at as int, at + word@.len()) == word@),
{
    let total: usize = chars.len();
    let mut i: usize = 0;
    while i < word.len()
        invariant
            i <= word@.len(),
            at + word@.len() <= total == chars@.len(),
            forall|j: int| 0 <= j < i ==> chars@[at + j] == word@[j],
        decreases word@.len() - i,
    {
        if chars[at + i] != word[i] {
            assert(chars@.subrange(at as int, at + word@.len())[i as int] != word@[i as int]);
            return false;
        }
        i = i + 1;
    }
    assert(chars@.subrange(at as int, at + word@.len()) =~= word@);
    true
}

/// Whether the text starts with `prefix`.
pub fn starts_with(chars: &Vec<char>, prefix: &str) -> (r: bool)
    ensures
        r == has_prefix(chars@, prefix@),
{
    let p = chars_of(prefix);
    assert(p@.len() <= chars@.len() ==> chars@.take(p@.len() as int) =~= chars@.subrange(
        0,
        p@.len() as int,
    ));
    p.len() <= chars.len() && matches_at(chars, 0, &p)
}

/// Whether the text ends with `suffix`.
pub fn ends_with(chars: &Vec<char>, suffix: &str) -> (r: bool)
    ensures
        r == has_suffix(chars@, suffix@),
{
    let p = chars_of(suffix);
    assert(p@.len() <= chars@.len() ==> chars@.skip(chars@.len() - p@.len()) =~= chars@.subrange(
        chars@.len() - p@.len(),
        chars@.len() as int,
    ));
    p.len() <= chars.len() && matches_at(chars, chars.len() - p.len(), &p)
}

/// The character with the letters A to Z made lower case.
pub open spec fn ascii_lower(c: char) -> char {
    if 'A' <= c <= 'Z' {
        ((c as u32 + 32) as u32) as char
    } else {
        c
    }
}

/// The text with the letters A to Z made lower case.
pub open spec fn lowered(s: Seq<char>) -> Seq<char> {
    s.map_values(|c: char| ascii_lower(c))
}

/// Makes the letters A to Z lower case, and leaves every other character as it is.
pub fn to_ascii_lower(chars: &Vec<char>) -> (r: Vec<char>)
    ensures
        r@ == lowered(chars@),
{
    let mut out: Vec<char> = Vec::new();
    let mut i: usize = 0;
    while i < chars.len()
        invariant
            i <= chars@.len(),
            out@ == lowered(chars@.take(i as int)),
        decreases chars@.len() - i,
    {
        let c = chars[i];
        let d = if 'A' <= c && c <= 'Z' {
            (c as u8 + 32) as char
        } else {
            c
        };
        out.push(d);
        assert(out@ =~= lowered(chars@.take(i + 1)));
        i = i + 1;
    }
    assert(chars@.take(chars@.len() as int) =~= chars@);
    out
}

/// The value of a decimal digit.
pub open spec fn digit_value(c: char) -> nat {
    (c as u32 - 48) as nat
}

/// Whether the character is one of the digits 0 to 9.
pub open spec fn is_digit(c: char) -> bool {
    '0' <= c <= '9'
}

/// The digit with a given value.
pub open spec fn digit(value: nat) -> char {
    ((48 + value) as u32) as char
}

/// The decimal numeral of a number, without leading zeros.
pub open spec fn decimal(n: nat) -> Seq<char>
    decreases n,
{
    if n < 10 {
        seq![digit(n)]
    } else {
        decimal(n / 10).push(digit(n % 10))
    }
}

/// The number that a run of digits stands for.
pub open spec fn decimal_value(digits: Seq<char>) -> nat
    decreases digits.len(),
{
    if digits.len() == 0 {
        0
    } else {
        10 * decimal_value(digits.drop_last()) + digit_value(digits.last())
    }
}

/// The number that an array index of a JSON pointer stands for: `0`, or digits of which the first
/// is not `0`.
pub open spec fn array_index(s: Seq<char>) -> Option<nat> {
    if s.len() > 0 && (forall|i: int| 0 <= i < s.len() ==> is_digit(#[trigger] s[i])) && (s.len()
        == 1 || s[0] != '0') {
        Some(decimal_value(s))
    } else {
        None
    }
}

/// Writes a number in decimal.
pub fn to_decimal(n: usize) -> (r: String)
    ensures
        r@ == decimal(n as nat),
    decreases n,
{
    let d: u8 = (n % 10) as u8;
    let c = (48u8 + d) as char;
    assert(c == digit(n as nat % 10));
    let mut out = if n < 10 {
        String::new()
    } else {
        to_decimal(n / 10)
    };
    out.push(c);
    proof {
        if n < 10 {
            assert(out@ =~= seq![c]);
        }
    }
    out
}

/// A run of digits is worth at least as much as any run that it starts with.
proof fn lemma_decimal_value_grows(digits: Seq<char>, n: int)
    requires
        0 <= n <= digits.len(),
    ensures
        decimal_value(digits.take(n)) <= decimal_value(digits),
    decreases digits.len(),
{
    if n == digits.len() {
        assert(digits.take(n) =~= digits);
    } else {
        lemma_decimal_value_grows(digits.drop_last(), n);
        assert(digits.drop_last().take(n) =~= digits.take(n));
    }
}

/// Reads an array index of a JSON pointer. There is none where the text is no index, or one too
/// large for any array.
pub fn parse_index(chars: &Vec<char>) -> (r: Option<usize>)
    ensures
        match r {
            Some(n) => array_index(chars@) == Some(n as nat),
            None => array_index(chars@) matches Some(n) ==> n > usize::MAX,
        },
{
    if chars.len() == 0 || (chars.len() > 1 && chars[0] == '0') {
        return None;
    }
    let mut value: usize = 0;
    let mut i: usize = 0;
    assert(decimal_value(chars@.take(0)) == 0);
    while i < chars.len()
        invariant
            i <= chars@.len(),
            forall|j: int| 0 <= j < i ==> is_digit(#[trigger] chars@[j]),
            value == decimal_value(chars@.take(i as int)),
        decreases chars@.len() - i,
    {
        let c = chars[i];
        if !('0' <= c && c <= '9') {
            assert(!is_digit(chars@[i as int]));
            return None;
        }
        let d: usize = (c as u8 - 48) as usize;
        assert(chars@.take(i + 1).drop_last() =~= chars@.take(i as int));
        assert(decimal_value(chars@.take(i + 1)) == 10 * value + d);
        proof {
            lemma_decimal_value_grows(chars@, i + 1);
        }
        let scaled = match value.checked_mul(10) {
            Some(v) => v,
            None => {
                return None;
            },
        };
        value = match scaled.checked_add(d) {
            Some(v) => v,
            None => {
                return None;
            },
        };
        i = i + 1;
    }
    assert(chars@.take(chars@.len() as int) =~= chars@);
    Some(value)
}

/// The decimal numeral of a number is the array index that stands for it.
pub proof fn decimal_round_trip(n: nat)
    ensures
        array_index(decimal(n)) == Some(n),
{
    lemma_decimal(n);
}

/// An array index is the decimal numeral of the number that it stands for: there is no other way to
/// write it.
pub proof fn index_is_its_decimal(s: Seq<char>)
    requires
        array_index(s) is Some,
    ensures
        s == decimal(array_index(s)->0),
    decreases s.len(),
{
    reveal_with_fuel(decimal_value, 2);
    let c = s.last();
    assert(is_digit(s[s.len() - 1]));
    assert(digit(digit_value(c)) == c);
    let init = s.drop_last();
    if s.len() == 1 {
        assert(init =~= Seq::<char>::empty());
        assert(s =~= seq![c]);
    } else {
        assert forall|i: int| 0 <= i < init.len() implies is_digit(#[trigger] init[i]) by {
            assert(is_digit(s[i]));
        }
        assert(init[0] == s[0]);
        index_is_its_decimal(init);
        let v = decimal_value(init);
        lemma_decimal_value_grows(init, 1);
        assert(init.take(1).drop_last() =~= Seq::<char>::empty());
        assert(v >= 1);
        assert(init.push(c) =~= s);
    }
}

/// A decimal numeral consists of digits that are worth the number.
pub proof fn lemma_decimal(n: nat)
    ensures
        decimal(n).len() > 0,
        forall|i: int| 0 <= i < decimal(n).len() ==> is_digit(#[trigger] decimal(n)[i]),
        decimal_value(decimal(n)) == n,
        n > 0 ==> decimal(n)[0] != '0',
        n < 10 ==> decimal(n).len() == 1,
    decreases n,
{
    reveal_with_fuel(decimal_value, 2);
    if n >= 10 {
        lemma_decimal(n / 10);
        assert(decimal(n).drop_last() =~= decimal(n / 10));
    } else {
        assert(decimal(n).drop_last() =~= Seq::<char>::empty());
    }
}

/// Two numbers with the same decimal numeral are equal.
pub proof fn decimal_injective(m: nat, n: nat)
    requires
        decimal(m) == decimal(n),
    ensures
        m == n,
{
    lemma_decimal(m);
    lemma_decimal(n);
}

/// No white space lies behind the ideographic space, and in ASCII there is none but the blank and
/// the five controls from the tab to the carriage return.
pub proof fn white_space_is_sparse(c: char)
    ensures
        white_space(c) ==> c <= '\u{3000}',
        c < '\u{80}' ==> (white_space(c) <==> c == ' ' || '\t' <= c <= '\r'),
        '\u{80}' <= c < '\u{2000}' ==> (white_space(c) <==> c == '\u{85}' || c == '\u{a0}' || c
            == '\u{1680}'),
        '\u{2000}' <= c <= '\u{3000}' ==> (white_space(c) <==> c <= '\u{200a}' || c == '\u{2028}' || c
            == '\u{2029}' || c == '\u{202f}' || c == '\u{205f}' || c == '\u{3000}'),
{
}

/// Trimming at the start drops a run of white space, and all of it.
pub proof fn trimming_start_drops_white_space_alone(s: Seq<char>) -> (n: int)
    ensures
        0 <= n <= s.len(),
        trimmed_start(s) == s.skip(n),
        forall|i: int| 0 <= i < n ==> white_space(#[trigger] s[i]),
        n < s.len() ==> !white_space(s[n]),
    decreases s.len(),
{
    if s.len() > 0 && white_space(s[0]) {
        let rest = s.drop_first();
        let m = trimming_start_drops_white_space_alone(rest);
        assert(rest.skip(m) =~= s.skip(m + 1));
        assert forall|i: int| 0 <= i < m + 1 implies white_space(#[trigger] s[i]) by {
            if i > 0 {
                assert(s[i] == rest[i - 1]);
            }
        }
        if m + 1 < s.len() {
            assert(s[m + 1] == rest[m]);
        }
        m + 1
    } else {
        assert(s.skip(0) =~= s);
        0
    }
}

/// Trimming at the end drops a run of white space, and all of it.
pub proof fn trimming_end_drops_white_space_alone(s: Seq<char>) -> (n: int)
    ensures
        0 <= n <= s.len(),
        trimmed_end(s) == s.take(n),
        forall|i: int| n <= i < s.len() ==> white_space(#[trigger] s[i]),
        n > 0 ==> !white_space(s[n - 1]),
    decreases s.len(),
{
    if s.len() > 0 && white_space(s.last()) {
        let init = s.drop_last();
        let n = trimming_end_drops_white_space_alone(init);
        assert(init.take(n) =~= s.take(n));
        assert forall|i: int| n <= i < s.len() implies white_space(#[trigger] s[i]) by {
            if i < init.len() {
                assert(s[i] == init[i]);
            }
        }
        n
    } else {
        assert(s.take(s.len() as int) =~= s);
        s.len() as int
    }
}

/// Trimming leaves the part of a text between the white space at its ends, and nothing less.
pub proof fn trimming_leaves_what_is_between(s: Seq<char>) -> (bounds: (int, int))
    ensures
        0 <= bounds.0 <= bounds.1 <= s.len(),
        trimmed(s) == s.subrange(bounds.0, bounds.1),
        forall|i: int| 0 <= i < bounds.0 || bounds.1 <= i < s.len() ==> white_space(#[trigger] s[i]),
        bounds.0 < bounds.1 ==> !white_space(s[bounds.0]) && !white_space(s[bounds.1 - 1]),
{
    let m = trimming_start_drops_white_space_alone(s);
    let t = s.skip(m);
    let n = trimming_end_drops_white_space_alone(t);
    assert(t.take(n) =~= s.subrange(m, m + n));
    assert forall|i: int| 0 <= i < m || m + n <= i < s.len() implies white_space(
        #[trigger] s[i],
    ) by {
        if i >= m + n {
            assert(s[i] == t[i - m]);
        }
    }
    (m, m + n)
}

/// Splitting undoes joining by the separator: a text without it is the only part, and what stands
/// before the first one is the first part, with the parts of the rest behind it.
pub proof fn splitting_undoes_joining(part: Seq<char>, sep: char, rest: Seq<char>)
    requires
        forall|i: int| 0 <= i < part.len() ==> part[i] != sep,
    ensures
        split(part, sep) == seq![part],
        split(part + seq![sep] + rest, sep) == seq![part] + split(rest, sep),
{
    lemma_find_first_is(part, sep, part.len() as int);
    let all = part + seq![sep] + rest;
    lemma_find_first_is(all, sep, part.len() as int);
    assert(all.take(part.len() as int) =~= part);
    assert(all.skip(part.len() as int + 1) =~= rest);
}

/// The words of a text are those before a run of white space and those behind it: white space alone
/// has none, white space in front changes nothing, and a word ends where white space begins.
pub proof fn words_are_between_white_space(
    space: Seq<char>,
    word: Seq<char>,
    c: char,
    rest: Seq<char>,
)
    requires
        forall|i: int| 0 <= i < space.len() ==> white_space(#[trigger] space[i]),
        word.len() > 0,
        forall|i: int| 0 <= i < word.len() ==> !white_space(#[trigger] word[i]),
        white_space(c),
    ensures
        words(space) == Seq::<Seq<char>>::empty(),
        words(space + rest) == words(rest),
        words(word) == seq![word],
        words(word + seq![c] + rest) == seq![word] + words(rest),
{
    lemma_space_has_no_words(space, rest);
    let all = word + seq![c] + rest;
    lemma_word_len_is(word, word.len() as int);
    lemma_word_len_is(all, word.len() as int);
    let n = word.len() as int;
    assert(word.take(n) =~= word);
    assert(word.skip(n) =~= Seq::<char>::empty());
    assert(words(word.skip(n)) =~= Seq::empty());
    assert(words(word) =~= seq![word]);
    assert(all[0] == word[0]);
    assert(all.take(n) =~= word);
    let tail = all.skip(n);
    assert(tail[0] == c);
    assert(tail.drop_first() =~= rest);
    lemma_trimmed_start_words(tail);
    lemma_trimmed_start_words(rest);
    assert(words(all) =~= seq![word] + words(rest));
}

proof fn lemma_space_has_no_words(space: Seq<char>, rest: Seq<char>)
    requires
        forall|i: int| 0 <= i < space.len() ==> white_space(#[trigger] space[i]),
    ensures
        words(space) == Seq::<Seq<char>>::empty(),
        words(space + rest) == words(rest),
    decreases space.len(),
{
    if space.len() == 0 {
        assert(space + rest =~= rest);
    } else {
        lemma_space_has_no_words(space.drop_first(), rest);
        assert((space + rest).drop_first() =~= space.drop_first() + rest);
        lemma_trimmed_start_words(space);
        lemma_trimmed_start_words(space + rest);
        lemma_trimmed_start_words(space.drop_first());
        lemma_trimmed_start_words(space.drop_first() + rest);
    }
}

proof fn lemma_word_len_is(s: Seq<char>, n: int)
    requires
        0 <= n <= s.len(),
        forall|i: int| 0 <= i < n ==> !white_space(#[trigger] s[i]),
        n < s.len() ==> white_space(s[n]),
    ensures
        word_len(s) == n,
{
    lemma_word_len(s);
    let m = word_len(s) as int;
    if m < n {
        assert(!white_space(s[m]));
    } else if n < m {
        assert(!white_space(s[n]));
    }
}

/// A text starts with another one exactly where it is that one with something behind it, and ends
/// with another one exactly where it is that one with something before it.
pub proof fn prefixes_and_suffixes_are_parts(s: Seq<char>, part: Seq<char>)
    ensures
        has_prefix(part + s, part),
        has_suffix(s + part, part),
        has_prefix(s, part) ==> part.len() <= s.len() && s == part + s.skip(part.len() as int),
        has_suffix(s, part) ==> part.len() <= s.len() && s == s.take(s.len() - part.len()) + part,
{
    assert((part + s).take(part.len() as int) =~= part);
    assert((s + part).skip((s + part).len() - part.len()) =~= part);
    if has_prefix(s, part) {
        assert(s =~= part + s.skip(part.len() as int));
    }
    if has_suffix(s, part) {
        assert(s =~= s.take(s.len() - part.len()) + part);
    }
}

/// Making a text lower case changes the letters from `A` to `Z`, each to the small letter at the
/// same place of the alphabet, and nothing else.
pub proof fn lowering_changes_capitals_alone(s: Seq<char>, i: int)
    requires
        0 <= i < s.len(),
    ensures
        lowered(s).len() == s.len(),
        'A' <= s[i] <= 'Z' ==> lowered(s)[i] as u32 - 'a' as u32 == s[i] as u32 - 'A' as u32,
        !('A' <= s[i] <= 'Z') ==> lowered(s)[i] == s[i],
{
}

/// A decimal numeral is one digit for each power of ten, the greatest first.
pub proof fn decimals_are_digit_by_digit(n: nat, d: nat)
    requires
        d < 10,
    ensures
        decimal(d).len() == 1,
        decimal(d)[0] as u32 == '0' as u32 + d,
        n > 0 ==> decimal(10 * n + d) == decimal(n) + decimal(d),
{
    if n > 0 {
        assert((10 * n + d) / 10 == n);
        assert((10 * n + d) % 10 == d);
        assert(decimal(10 * n + d) =~= decimal(n) + decimal(d));
    }
}

/// The texts of a list are those of its character vectors, whole and in order.
pub proof fn texts_are_taken_one_by_one(parts: Seq<Vec<char>>, last: Vec<char>)
    ensures
        texts(Seq::empty()) == Seq::<Seq<char>>::empty(),
        texts(parts.push(last)) == texts(parts).push(last@),
{
    assert(texts(Seq::empty()) =~= Seq::empty());
    assert(texts(parts.push(last)) =~= texts(parts).push(last@));
}

} // verus!
