//! Text: characters, numbers and bytes.

use vstd::prelude::*;

verus! {

/// `String::push` appends one character.
pub assume_specification[ String::push ](s: &mut String, c: char)
    ensures
        final(s)@ == old(s)@.push(c),
;

/// `core::str::from_utf8` gives the text that bytes encode if they are UTF-8, and an
/// error exactly if they are not.
#[verifier::external_body]
pub(crate) fn utf8_text(bytes: &[u8]) -> (text: Option<&str>)
    ensures
        match text {
            Some(s) => vstd::utf8::valid_utf8(bytes@) && s@ == vstd::utf8::decode_utf8(bytes@),
            None => !vstd::utf8::valid_utf8(bytes@),
        },
{
    core::str::from_utf8(bytes).ok()
}

/// The decimal digit of `d`.
pub open spec fn digit(d: int) -> char {
    if d == 0 {
        '0'
    } else if d == 1 {
        '1'
    } else if d == 2 {
        '2'
    } else if d == 3 {
        '3'
    } else if d == 4 {
        '4'
    } else if d == 5 {
        '5'
    } else if d == 6 {
        '6'
    } else if d == 7 {
        '7'
    } else if d == 8 {
        '8'
    } else {
        '9'
    }
}

/// `n` in decimal, without leading zeroes.
pub open spec fn decimal(n: nat) -> Seq<char>
    decreases n,
{
    if n < 10 {
        seq![digit(n as int)]
    } else {
        decimal(n / 10).push(digit(n as int % 10))
    }
}

fn digit_char(d: u64) -> (c: char)
    requires
        d < 10,
    ensures
        c == digit(d as int),
{
    if d == 0 {
        '0'
    } else if d == 1 {
        '1'
    } else if d == 2 {
        '2'
    } else if d == 3 {
        '3'
    } else if d == 4 {
        '4'
    } else if d == 5 {
        '5'
    } else if d == 6 {
        '6'
    } else if d == 7 {
        '7'
    } else if d == 8 {
        '8'
    } else {
        '9'
    }
}

/// Append `n` in decimal.
pub fn push_decimal(out: &mut String, n: u64)
    ensures
        final(out)@ == old(out)@ + decimal(n as nat),
    decreases n,
{
    if n >= 10 {
        push_decimal(out, n / 10);
        out.push(digit_char(n % 10));
    } else {
        out.push(digit_char(n));
    }
}

/// The characters of a text.
pub fn chars_of(s: &str) -> (chars: Vec<char>)
    ensures
        chars@ == s@,
{
    let mut chars: Vec<char> = Vec::new();
    for c in it: s.chars()
        invariant
            chars@.len() == it.index(),
            forall|i: int| 0 <= i < chars@.len() ==> #[trigger] chars@[i] == it.seq()[i],
    {
        chars.push(c);
    }
    chars
}

/// The text of these characters.
pub fn text_of(chars: &[char]) -> (s: String)
    ensures
        s@ == chars@,
{
    let mut s = String::new();
    let mut i: usize = 0;
    while i < chars.len()
        invariant
            i <= chars@.len(),
            s@ == chars@.take(i as int),
        decreases chars@.len() - i,
    {
        s.push(chars[i]);
        i = i + 1;
    }
    assert(chars@.take(i as int) == chars@);
    s
}

/// Whether two texts hold the same characters.
pub fn same_text(a: &[char], b: &[char]) -> (same: bool)
    ensures
        same == (a@ == b@),
{
    if a.len() != b.len() {
        return false;
    }
    let mut i: usize = 0;
    while i < a.len()
        invariant
            a@.len() == b@.len(),
            i <= a@.len(),
            forall|j: int| 0 <= j < i ==> a@[j] == b@[j],
        decreases a@.len() - i,
    {
        if a[i] != b[i] {
            assert(a@[i as int] != b@[i as int]);
            return false;
        }
        i = i + 1;
    }
    assert(a@ =~= b@);
    true
}

/// A character with the Unicode property White_Space.
pub open spec fn is_white(c: char) -> bool {
    ||| '\u{9}' <= c <= '\u{d}'
    ||| c == ' '
    ||| c == '\u{85}'
    ||| c == '\u{a0}'
    ||| c == '\u{1680}'
    ||| '\u{2000}' <= c <= '\u{200a}'
    ||| c == '\u{2028}'
    ||| c == '\u{2029}'
    ||| c == '\u{202f}'
    ||| c == '\u{205f}'
    ||| c == '\u{3000}'
}

/// Whether a character has the Unicode property White_Space.
pub fn white(c: char) -> (yes: bool)
    ensures
        yes == is_white(c),
{
    ('\u{9}' <= c && c <= '\u{d}') || c == ' ' || c == '\u{85}' || c == '\u{a0}' || c == '\u{1680}'
        || ('\u{2000}' <= c && c <= '\u{200a}') || c == '\u{2028}' || c == '\u{2029}' || c
        == '\u{202f}' || c == '\u{205f}' || c == '\u{3000}'
}

/// How many characters stand before the first white space.
pub open spec fn word_len(s: Seq<char>) -> nat
    decreases s.len(),
{
    if s.len() == 0 || is_white(s[0]) {
        0
    } else {
        word_len(s.skip(1)) + 1
    }
}

/// The words of a text: its longest parts without white space.
pub open spec fn words(s: Seq<char>) -> Seq<Seq<char>>
    decreases s.len(),
{
    if s.len() == 0 {
        Seq::empty()
    } else if is_white(s[0]) {
        words(s.skip(1))
    } else {
        proof {
            lemma_word_len_bound(s);
        }
        seq![s.take(word_len(s) as int)] + words(s.skip(word_len(s) as int))
    }
}

/// A word is no longer than the text it begins.
pub proof fn lemma_word_len_bound(s: Seq<char>)
    ensures
        word_len(s) <= s.len(),
    decreases s.len(),
{
    if s.len() > 0 && !is_white(s[0]) {
        lemma_word_len_bound(s.skip(1));
    }
}

/// The length of a word is where the first white space is.
pub proof fn lemma_word_len(s: Seq<char>, n: int)
    requires
        0 <= n <= s.len(),
        forall|i: int| 0 <= i < n ==> !is_white(s[i]),
        n < s.len() ==> is_white(s[n]),
    ensures
        word_len(s) == n,
    decreases s.len(),
{
    if n > 0 {
        let rest = s.skip(1);
        assert forall|i: int| 0 <= i < n - 1 implies !is_white(rest[i]) by {
            assert(rest[i] == s[i + 1]);
        }
        lemma_word_len(rest, n - 1);
    }
}

/// The next word of a text from `from` on: where it begins and where it ends.
pub fn next_word(chars: &[char], from: usize) -> (word: Option<(usize, usize)>)
    requires
        from <= chars@.len(),
    ensures
        match word {
            Some((start, end)) => {
                &&& from <= start < end <= chars@.len()
                &&& words(chars@.skip(from as int)) == seq![
                    chars@.subrange(start as int, end as int),
                ] + words(chars@.skip(end as int))
            },
            None => words(chars@.skip(from as int)).len() == 0,
        },
{
    let mut start: usize = from;
    while start < chars.len() && white(chars[start])
        invariant
            from <= start <= chars@.len(),
            words(chars@.skip(from as int)) == words(chars@.skip(start as int)),
        decreases chars@.len() - start,
    {
        assert(chars@.skip(start as int).skip(1) =~= chars@.skip(start + 1));
        start = start + 1;
    }
    if start == chars.len() {
        return None;
    }
    let mut end: usize = start;
    while end < chars.len() && !white(chars[end])
        invariant
            from <= start <= end <= chars@.len(),
            forall|i: int| start <= i < end ==> !is_white(#[trigger] chars@[i]),
        decreases chars@.len() - end,
    {
        end = end + 1;
    }
    proof {
        let s = chars@.skip(start as int);
        let n = end - start;
        assert forall|i: int| 0 <= i < n implies !is_white(s[i]) by {
            assert(s[i] == chars@[start + i]);
        }
        lemma_word_len(s, n);
        assert(s.take(n) =~= chars@.subrange(start as int, end as int));
        assert(s.skip(n) =~= chars@.skip(end as int));
        assert(s[0] == chars@[start as int]);
        assert(!is_white(s[0]));
    }
    Some((start, end))
}

/// A decimal digit.
pub open spec fn is_digit(c: char) -> bool {
    '0' <= c <= '9'
}

/// A text of decimal digits.
pub open spec fn all_digits(s: Seq<char>) -> bool {
    forall|i: int| 0 <= i < s.len() ==> is_digit(#[trigger] s[i])
}

/// The number that decimal digits make up.
pub open spec fn value(s: Seq<char>) -> nat
    decreases s.len(),
{
    if s.len() == 0 {
        0
    } else {
        value(s.drop_last()) * 10 + (s.last() as nat - '0' as nat) as nat
    }
}

/// More digits do not make a number smaller.
proof fn lemma_value_grows(s: Seq<char>, n: int)
    requires
        0 <= n <= s.len(),
    ensures
        value(s.take(n)) <= value(s),
    decreases s.len() - n,
{
    if n < s.len() {
        lemma_value_grows(s, n + 1);
        assert(s.take(n + 1).drop_last() =~= s.take(n));
    } else {
        assert(s.take(n) =~= s);
    }
}

/// The number that a text of decimal digits makes up, if it is at most `max`.
pub fn parse_decimal(digits: &[char], max: u32) -> (number: Option<u32>)
    ensures
        number == if digits@.len() > 0 && all_digits(digits@) && value(digits@) <= max {
            Some(value(digits@) as u32)
        } else {
            None
        },
{
    if digits.len() == 0 {
        return None;
    }
    let mut n: u64 = 0;
    let mut i: usize = 0;
    assert(digits@.take(0) =~= Seq::<char>::empty());
    while i < digits.len()
        invariant
            i <= digits@.len(),
            forall|j: int| 0 <= j < i ==> is_digit(#[trigger] digits@[j]),
            n == value(digits@.take(i as int)),
            n <= max,
        decreases digits@.len() - i,
    {
        let c: char = digits[i];
        if !('0' <= c && c <= '9') {
            assert(!is_digit(digits@[i as int]));
            return None;
        }
        let d: u32 = c as u32 - '0' as u32;
        assert(digits@.take(i + 1).drop_last() =~= digits@.take(i as int));
        n = n * 10 + d as u64;
        i = i + 1;
        if n > max as u64 {
            proof {
                lemma_value_grows(digits@, i as int);
            }
            return None;
        }
    }
    assert(digits@.take(i as int) =~= digits@);
    Some(n as u32)
}

/// A text without the white space that it begins with.
pub open spec fn trim_start(s: Seq<char>) -> Seq<char>
    decreases s.len(),
{
    if s.len() > 0 && is_white(s[0]) {
        trim_start(s.skip(1))
    } else {
        s
    }
}

/// A text without the white space that it ends with.
pub open spec fn trim_end(s: Seq<char>) -> Seq<char>
    decreases s.len(),
{
    if s.len() > 0 && is_white(s.last()) {
        trim_end(s.drop_last())
    } else {
        s
    }
}

/// A text without the white space around it.
pub open spec fn trimmed(s: Seq<char>) -> Seq<char> {
    trim_end(trim_start(s))
}

/// A text without the white space around it.
pub fn trim(chars: &[char]) -> (inner: &[char])
    ensures
        inner@ == trimmed(chars@),
{
    let mut start: usize = 0;
    assert(chars@.skip(0) =~= chars@);
    while start < chars.len() && white(chars[start])
        invariant
            start <= chars@.len(),
            trim_start(chars@) == trim_start(chars@.skip(start as int)),
        decreases chars@.len() - start,
    {
        assert(chars@.skip(start as int).skip(1) =~= chars@.skip(start + 1));
        start = start + 1;
    }
    assert(trim_start(chars@) == chars@.skip(start as int));
    let mut end: usize = chars.len();
    assert(chars@.subrange(start as int, end as int) =~= chars@.skip(start as int));
    while end > start && white(chars[end - 1])
        invariant
            start <= end <= chars@.len(),
            trimmed(chars@) == trim_end(chars@.subrange(start as int, end as int)),
        decreases end,
    {
        assert(chars@.subrange(start as int, end as int).drop_last() =~= chars@.subrange(
            start as int,
            end - 1,
        ));
        end = end - 1;
    }
    &chars[start..end]
}

/// How many characters stand before the first `c`; all of them where there is none.
pub open spec fn until(s: Seq<char>, c: char) -> nat
    decreases s.len(),
{
    if s.len() == 0 || s[0] == c {
        0
    } else {
        until(s.skip(1), c) + 1
    }
}

/// What stands before the first `c`, and no more than the text.
pub proof fn lemma_until(s: Seq<char>, c: char)
    ensures
        until(s, c) <= s.len(),
        forall|i: int| 0 <= i < until(s, c) ==> s[i] != c,
        until(s, c) < s.len() ==> s[until(s, c) as int] == c,
    decreases s.len(),
{
    if s.len() > 0 && s[0] != c {
        let rest = s.skip(1);
        lemma_until(rest, c);
        assert forall|i: int| 0 <= i < until(s, c) implies s[i] != c by {
            if i > 0 {
                assert(rest[i - 1] == s[i]);
            }
        }
        if until(s, c) < s.len() {
            assert(rest[until(rest, c) as int] == s[until(s, c) as int]);
        }
    }
}

/// A character with none like it before it is the first one.
pub proof fn lemma_until_is(s: Seq<char>, c: char, n: int)
    requires
        0 <= n <= s.len(),
        forall|i: int| 0 <= i < n ==> s[i] != c,
        n < s.len() ==> s[n] == c,
    ensures
        until(s, c) == n,
{
    lemma_until(s, c);
    if until(s, c) < n {
        assert(s[until(s, c) as int] == c);
    }
}

/// The parts of a text between the characters `c`.
pub open spec fn split(s: Seq<char>, c: char) -> Seq<Seq<char>>
    decreases s.len(),
{
    proof {
        lemma_until(s, c);
    }
    let n = until(s, c) as int;
    if n >= s.len() {
        seq![s]
    } else {
        seq![s.take(n)] + split(s.skip(n + 1), c)
    }
}

/// Several texts as sequences of characters.
pub open spec fn texts(parts: Seq<Vec<char>>) -> Seq<Seq<char>> {
    Seq::new(parts.len(), |i: int| parts[i]@)
}

/// The parts of a text between the characters `c`.
pub fn split_at_char(chars: &[char], c: char) -> (parts: Vec<Vec<char>>)
    ensures
        texts(parts@) == split(chars@, c),
{
    let mut parts: Vec<Vec<char>> = Vec::new();
    let mut start: usize = 0;
    let mut end: usize = 0;
    assert(chars@.skip(0) =~= chars@);
    assert(texts(parts@) + split(chars@.skip(0), c) =~= split(chars@, c));
    while end < chars.len()
        invariant
            start <= end <= chars@.len(),
            forall|i: int| start <= i < end ==> #[trigger] chars@[i] != c,
            texts(parts@) + split(chars@.skip(start as int), c) == split(chars@, c),
        decreases chars@.len() - end,
    {
        if chars[end] == c {
            let part: Vec<char> = vstd::slice::slice_to_vec(&chars[start..end]);
            proof {
                let s = chars@.skip(start as int);
                let n = end - start;
                assert forall|i: int| 0 <= i < n implies s[i] != c by {
                    assert(s[i] == chars@[start + i]);
                }
                lemma_until_is(s, c, n);
                assert(s.take(n) =~= part@);
                assert(s.skip(n + 1) =~= chars@.skip(end + 1));
                let before = texts(parts@);
                let rest = split(chars@.skip(end + 1), c);
                assert(split(s, c) == seq![part@] + rest);
                assert(texts(parts@.push(part)) =~= before.push(part@));
                assert(before + (seq![part@] + rest) =~= before.push(part@) + rest);
            }
            parts.push(part);
            start = end + 1;
        }
        end = end + 1;
    }
    let part: Vec<char> = vstd::slice::slice_to_vec(&chars[start..end]);
    proof {
        let s = chars@.skip(start as int);
        assert forall|i: int| 0 <= i < s.len() implies s[i] != c by {
            assert(s[i] == chars@[start + i]);
        }
        lemma_until_is(s, c, s.len() as int);
        assert(s =~= part@);
        assert(texts(parts@.push(part)) =~= texts(parts@).push(part@));
        assert(texts(parts@) + seq![part@] =~= texts(parts@).push(part@));
    }
    parts.push(part);
    parts
}

/// Whether a text begins with another.
pub fn starts_with(chars: &[char], prefix: &str) -> (yes: bool)
    ensures
        yes == prefix@.is_prefix_of(chars@),
{
    let want: Vec<char> = chars_of(prefix);
    if want.len() > chars.len() {
        return false;
    }
    let front = &chars[0..want.len()];
    assert(front@ == chars@.subrange(0, want@.len() as int));
    same_text(front, want.as_slice())
}

/// Whether a text ends with another.
pub fn ends_with(chars: &[char], suffix: &str) -> (yes: bool)
    ensures
        yes == suffix@.is_suffix_of(chars@),
{
    let want: Vec<char> = chars_of(suffix);
    if want.len() > chars.len() {
        return false;
    }
    let back = &chars[chars.len() - want.len()..chars.len()];
    assert(back@ == chars@.subrange(chars@.len() - want@.len(), chars@.len() as int));
    same_text(back, want.as_slice())
}

/// Whether a text is another.
pub fn is_text(chars: &[char], other: &str) -> (yes: bool)
    ensures
        yes == (chars@ == other@),
{
    let want: Vec<char> = chars_of(other);
    same_text(chars, want.as_slice())
}

/// `s` with every `from` replaced by `to`.
pub open spec fn replaced(s: Seq<char>, from: char, to: char) -> Seq<char> {
    s.map_values(
        |c: char|
            if c == from {
                to
            } else {
                c
            },
    )
}

/// Replace every `from` by `to`.
pub fn replace_char(chars: &[char], from: char, to: char) -> (out: Vec<char>)
    ensures
        out@ == replaced(chars@, from, to),
{
    let mut out: Vec<char> = Vec::new();
    let mut i: usize = 0;
    while i < chars.len()
        invariant
            i <= chars@.len(),
            out@.len() == i,
            forall|j: int| 0 <= j < i ==> #[trigger] out@[j] == replaced(chars@, from, to)[j],
        decreases chars@.len() - i,
    {
        out.push(
            if chars[i] == from {
                to
            } else {
                chars[i]
            },
        );
        i = i + 1;
    }
    assert(out@ =~= replaced(chars@, from, to));
    out
}

/// How many characters stand before the first two `c` in a row; all of them where there
/// are none.
pub open spec fn before_pair(s: Seq<char>, c: char) -> nat
    decreases s.len(),
{
    if s.len() < 2 {
        s.len()
    } else if s[0] == c && s[1] == c {
        0
    } else {
        before_pair(s.skip(1), c) + 1
    }
}

/// The first two `c` in a row.
pub proof fn lemma_before_pair(s: Seq<char>, c: char, n: int)
    requires
        0 <= n <= s.len(),
        forall|i: int| 0 <= i < n && i + 1 < s.len() ==> !(#[trigger] s[i] == c && s[i + 1] == c),
        n < s.len() ==> n + 1 < s.len() && s[n] == c && s[n + 1] == c,
    ensures
        before_pair(s, c) == n,
    decreases s.len(),
{
    if s.len() >= 2 && n > 0 {
        let rest = s.skip(1);
        assert(!(s[0] == c && s[1] == c));
        assert forall|i: int| 0 <= i < n - 1 && i + 1 < rest.len() implies !(#[trigger] rest[i]
            == c && rest[i + 1] == c) by {
            assert(rest[i] == s[i + 1] && rest[i + 1] == s[i + 2]);
        }
        lemma_before_pair(rest, c, n - 1);
    }
}

/// How many characters stand before the first two `c` in a row.
pub fn pair_place(line: &[char], c: char) -> (n: usize)
    ensures
        n == before_pair(line@, c),
        n <= line@.len(),
        n < line@.len() ==> n + 2 <= line@.len(),
{
    let mut i: usize = 0;
    assert(line@.len() == line.len());
    while line.len() - i >= 2 && !(line[i] == c && line[i + 1] == c)
        invariant
            i <= line@.len(),
            line@.len() == line.len(),
            forall|j: int|
                0 <= j < i ==> !(#[trigger] line@[j] == c && line@[j + 1] == c),
        decreases line@.len() - i,
    {
        i = i + 1;
    }
    if line.len() - i >= 2 {
        proof {
            lemma_before_pair(line@, c, i as int);
        }
        i
    } else {
        proof {
            lemma_before_pair(line@, c, line@.len() as int);
        }
        line.len()
    }
}

} // verus!
