//! Timestamps of directory entries: the committer date of the last commit that touched
//! a path, as git prints it.

use vstd::prelude::*;

use crate::text;
use crate::text::{chars_of, utf8_text};
use crate::text_laws;

verus! {

/// The earliest year that a FAT timestamp can hold.
pub const MIN_YEAR: u16 = 1980;

/// The latest year that a FAT timestamp can hold.
pub const MAX_YEAR: u16 = 2107;

/// A broken-down wall-clock timestamp, its year already clamped to FAT's range.
#[derive(Debug, Clone, Copy, PartialEq, Eq)]
pub struct Stamp {
    pub year: u16,
    pub month: u16,
    pub day: u16,
    pub hour: u16,
    pub min: u16,
    pub sec: u16,
}

/// 1980-01-01 00:00:00, the earliest representable FAT timestamp.
pub open spec fn earliest() -> Stamp {
    Stamp { year: 1980, month: 1, day: 1, hour: 0, min: 0, sec: 0 }
}

/// The timestamp of entries with no git history.
pub fn fallback() -> (stamp: Stamp)
    ensures
        stamp == earliest(),
{
    Stamp { year: 1980, month: 1, day: 1, hour: 0, min: 0, sec: 0 }
}

/// A number of a field in decimal: `+` may stand before it.
pub open spec fn field_value(field: Seq<char>) -> Option<u16> {
    let digits = if field.len() > 0 && field[0] == '+' {
        field.skip(1)
    } else {
        field
    };
    if digits.len() > 0 && text::all_digits(digits) && text::value(digits) <= u16::MAX {
        Some(text::value(digits) as u16)
    } else {
        None
    }
}

/// The number in word `i` of a text.
pub open spec fn nth_value(words: Seq<Seq<char>>, i: int) -> Option<u16> {
    if i < words.len() {
        field_value(words[i])
    } else {
        None
    }
}

/// A year, clamped to FAT's representable range.
pub open spec fn clamped(year: u16) -> u16 {
    if year < MIN_YEAR {
        MIN_YEAR
    } else if year > MAX_YEAR {
        MAX_YEAR
    } else {
        year
    }
}

/// The timestamp that a text begins with: year, month, day, hour, minute and second, set
/// apart by white space.
pub open spec fn parsed(s: Seq<char>) -> Option<Stamp> {
    let words = text::words(s);
    match (
        nth_value(words, 0),
        nth_value(words, 1),
        nth_value(words, 2),
        nth_value(words, 3),
        nth_value(words, 4),
        nth_value(words, 5),
    ) {
        (Some(year), Some(month), Some(day), Some(hour), Some(min), Some(sec)) => Some(
            Stamp { year: clamped(year), month, day, hour, min, sec },
        ),
        _ => None,
    }
}

/// The number that a field holds.
fn parse_field(field: &[char]) -> (value: Option<u16>)
    ensures
        value == field_value(field@),
{
    let start: usize = if field.len() > 0 && field[0] == '+' {
        1
    } else {
        0
    };
    let digits = &field[start..field.len()];
    proof {
        if start == 0 {
            assert(digits@ =~= field@);
        } else {
            assert(digits@ =~= field@.skip(1));
        }
    }
    match text::parse_decimal(digits, 65535) {
        Some(value) => Some(value as u16),
        None => None,
    }
}

/// The number in the next word of a text, and where that word ends.
fn next_field(chars: &[char], from: usize) -> (field: Option<(u16, usize)>)
    requires
        from <= chars@.len(),
    ensures
        match field {
            Some((value, end)) => {
                let words = text::words(chars@.skip(from as int));
                &&& end <= chars@.len()
                &&& words.len() > 0
                &&& field_value(words[0]) == Some(value)
                &&& text::words(chars@.skip(end as int)) == words.skip(1)
            },
            None => nth_value(text::words(chars@.skip(from as int)), 0) is None,
        },
{
    match text::next_word(chars, from) {
        Some((start, end)) => match parse_field(&chars[start..end]) {
            Some(value) => Some((value, end)),
            None => None,
        },
        None => None,
    }
}

/// Parse `"YYYY MM DD HH MM SS"` into a [`Stamp`], clamping the year to FAT's
/// representable range.
pub fn parse_stamp(s: &str) -> (stamp: Option<Stamp>)
    ensures
        stamp == parsed(s@),
        stamp matches Some(t) ==> MIN_YEAR <= t.year <= MAX_YEAR,
{
    let chars: Vec<char> = chars_of(s);
    let text: &[char] = chars.as_slice();
    let ghost words = text::words(s@);
    assert(text@.skip(0) =~= s@);
    let (year, at): (u16, usize) = match next_field(text, 0) {
        Some(field) => field,
        None => {
            return None;
        },
    };
    let (month, at): (u16, usize) = match next_field(text, at) {
        Some(field) => field,
        None => {
            assert(words.skip(1).len() > 0 ==> words[1] == words.skip(1)[0]);
            return None;
        },
    };
    assert(words[1] == words.skip(1)[0]);
    assert(words.skip(1).skip(1) =~= words.skip(2));
    let (day, at): (u16, usize) = match next_field(text, at) {
        Some(field) => field,
        None => {
            assert(words.skip(2).len() > 0 ==> words[2] == words.skip(2)[0]);
            return None;
        },
    };
    assert(words[2] == words.skip(2)[0]);
    assert(words.skip(2).skip(1) =~= words.skip(3));
    let (hour, at): (u16, usize) = match next_field(text, at) {
        Some(field) => field,
        None => {
            assert(words.skip(3).len() > 0 ==> words[3] == words.skip(3)[0]);
            return None;
        },
    };
    assert(words[3] == words.skip(3)[0]);
    assert(words.skip(3).skip(1) =~= words.skip(4));
    let (min, at): (u16, usize) = match next_field(text, at) {
        Some(field) => field,
        None => {
            assert(words.skip(4).len() > 0 ==> words[4] == words.skip(4)[0]);
            return None;
        },
    };
    assert(words[4] == words.skip(4)[0]);
    assert(words.skip(4).skip(1) =~= words.skip(5));
    let (sec, _at): (u16, usize) = match next_field(text, at) {
        Some(field) => field,
        None => {
            assert(words.skip(5).len() > 0 ==> words[5] == words.skip(5)[0]);
            return None;
        },
    };
    assert(words[5] == words.skip(5)[0]);
    let year: u16 = if year < MIN_YEAR {
        MIN_YEAR
    } else if year > MAX_YEAR {
        MAX_YEAR
    } else {
        year
    };
    Some(Stamp { year, month, day, hour, min, sec })
}

/// The timestamp in the output of `git log`: none if git failed, or printed none (a path
/// with no history).
pub fn git_stamp(success: bool, stdout: &[u8]) -> (stamp: Option<Stamp>)
    ensures
        stamp == if success && vstd::utf8::valid_utf8(stdout@) {
            parsed(vstd::utf8::decode_utf8(stdout@))
        } else {
            None
        },
        forall|printed: Seq<char>|
            success && stdout@ == #[trigger] vstd::utf8::encode_utf8(printed) ==> stamp == parsed(
                printed,
            ),
{
    proof {
        assert forall|printed: Seq<char>|
            stdout@ == #[trigger] vstd::utf8::encode_utf8(printed) implies vstd::utf8::valid_utf8(
            stdout@,
        ) && vstd::utf8::decode_utf8(stdout@) == printed by {
            vstd::utf8::encode_utf8_valid_utf8(printed);
            vstd::utf8::encode_utf8_decode_utf8(printed);
        }
    }
    if !success {
        return None;
    }
    match utf8_text(stdout) {
        Some(s) => parse_stamp(s),
        None => None,
    }
}

/// Six fields as git prints them: one space between two of them.
pub open spec fn printed(fields: Seq<Seq<char>>) -> Seq<char>
    decreases fields.len(),
{
    if fields.len() == 0 {
        Seq::empty()
    } else if fields.len() == 1 {
        fields[0]
    } else {
        fields[0] + seq![' '] + printed(fields.skip(1))
    }
}

/// A field that holds a number is a word of its own.
proof fn lemma_field_is_word(field: Seq<char>)
    requires
        field_value(field) is Some,
    ensures
        field.len() > 0,
        forall|i: int| 0 <= i < field.len() ==> !text::is_white(#[trigger] field[i]),
{
    if field[0] == '+' {
        let digits = field.skip(1);
        assert forall|i: int| 0 <= i < field.len() implies !text::is_white(#[trigger] field[i]) by {
            if i > 0 {
                assert(text::is_digit(digits[i - 1]));
                assert(digits[i - 1] == field[i]);
            }
        }
    } else {
        assert forall|i: int| 0 <= i < field.len() implies !text::is_white(#[trigger] field[i]) by {
            assert(text::is_digit(field[i]));
        }
    }
}

/// The words of printed fields are the fields.
proof fn lemma_words_of_fields(fields: Seq<Seq<char>>)
    requires
        forall|i: int| 0 <= i < fields.len() ==> field_value(#[trigger] fields[i]) is Some,
    ensures
        text::words(printed(fields)) == fields,
    decreases fields.len(),
{
    if fields.len() == 0 {
        assert(text::words(printed(fields)) =~= fields);
    } else {
        let first = fields[0];
        assert(field_value(fields[0]) is Some);
        lemma_field_is_word(first);
        let all = printed(fields);
        let n = first.len() as int;
        assert forall|i: int| 0 <= i < n implies !text::is_white(all[i]) by {
            assert(all[i] == first[i]);
        }
        text::lemma_word_len(all, n);
        assert(all.take(n) =~= first);
        if fields.len() == 1 {
            assert(all.skip(n) =~= Seq::<char>::empty());
            assert(seq![first] + text::words(all.skip(n)) =~= fields);
        } else {
            let rest = fields.skip(1);
            assert forall|i: int| 0 <= i < rest.len() implies field_value(
                #[trigger] rest[i],
            ) is Some by {
                assert(field_value(fields[i + 1]) is Some);
            }
            lemma_words_of_fields(rest);
            let tail = all.skip(n);
            assert(tail[0] == ' ');
            assert(tail.skip(1) =~= printed(rest));
            assert(text::words(tail) == text::words(tail.skip(1)));
            assert(seq![first] + rest =~= fields);
        }
    }
}

/// Six numbers as git prints them make up a timestamp: each is the field it stands for, the
/// year clamped.
pub proof fn printed_fields_make_a_stamp(fields: Seq<Seq<char>>)
    requires
        fields.len() == 6,
        forall|i: int| 0 <= i < fields.len() ==> field_value(#[trigger] fields[i]) is Some,
    ensures
        parsed(printed(fields)) == Some(
            Stamp {
                year: clamped(field_value(fields[0])->0),
                month: field_value(fields[1])->0,
                day: field_value(fields[2])->0,
                hour: field_value(fields[3])->0,
                min: field_value(fields[4])->0,
                sec: field_value(fields[5])->0,
            },
        ),
{
    lemma_words_of_fields(fields);
}

/// A field of git's: a number in decimal, with zeroes before it.
pub open spec fn field(n: nat, zeroes: nat) -> Seq<char> {
    text_laws::zeroes(zeroes) + text::decimal(n)
}

/// A field is the number it was made from.
proof fn lemma_field(n: nat, zeroes: nat)
    requires
        n <= 65535,
    ensures
        field_value(field(n, zeroes)) == Some(n as u16),
        field_value(seq!['+'] + field(n, zeroes)) == Some(n as u16),
{
    text_laws::numbers_read_back(n, zeroes);
    let f = field(n, zeroes);
    assert(f.len() > 0);
    assert(text::is_digit(f[0]));
    assert((seq!['+'] + f).skip(1) =~= f);
}

/// A number is a word of its own.
proof fn lemma_word(f: Seq<char>)
    requires
        field_value(f) is Some,
    ensures
        text::words(f) == seq![f],
{
    lemma_field_is_word(f);
    text_laws::white_space_parts_words(f, ' ', f);
}

/// A number behind a space is one more word.
proof fn lemma_next_word(front: Seq<char>, words: Seq<Seq<char>>, f: Seq<char>)
    requires
        text::words(front) == words,
        field_value(f) is Some,
    ensures
        text::words(front + seq![' '] + f) == words.push(f),
{
    lemma_word(f);
    text_laws::white_space_parts_words(front, ' ', f);
    assert(words + seq![f] =~= words.push(f));
}

/// Six numbers with spaces between them are the first six words of a text.
proof fn lemma_six_words(
    a: Seq<char>,
    b: Seq<char>,
    c: Seq<char>,
    d: Seq<char>,
    e: Seq<char>,
    f: Seq<char>,
    rest: Seq<char>,
)
    requires
        field_value(a) is Some,
        field_value(b) is Some,
        field_value(c) is Some,
        field_value(d) is Some,
        field_value(e) is Some,
        field_value(f) is Some,
        rest.len() > 0 ==> text::is_white(rest[0]),
    ensures
        ({
            let words = text::words(
                a + seq![' '] + b + seq![' '] + c + seq![' '] + d + seq![' '] + e + seq![' '] + f
                    + rest,
            );
            &&& words.len() >= 6
            &&& words[0] == a
            &&& words[1] == b
            &&& words[2] == c
            &&& words[3] == d
            &&& words[4] == e
            &&& words[5] == f
        }),
{
    let two = a + seq![' '] + b;
    let three = two + seq![' '] + c;
    let four = three + seq![' '] + d;
    let five = four + seq![' '] + e;
    let line = five + seq![' '] + f;
    let none = Seq::<Seq<char>>::empty();
    lemma_word(a);
    assert(seq![a] == none.push(a));
    lemma_next_word(a, none.push(a), b);
    lemma_next_word(two, none.push(a).push(b), c);
    lemma_next_word(three, none.push(a).push(b).push(c), d);
    lemma_next_word(four, none.push(a).push(b).push(c).push(d), e);
    lemma_next_word(five, none.push(a).push(b).push(c).push(d).push(e), f);
    let fields = none.push(a).push(b).push(c).push(d).push(e).push(f);
    assert(text::words(line) == fields);
    if rest.len() == 0 {
        assert(line + rest =~= line);
    } else {
        text_laws::white_space_parts_words(line, rest[0], rest.skip(1));
        assert(seq![rest[0]] + rest.skip(1) =~= rest);
        assert(line + rest =~= line + seq![rest[0]] + rest.skip(1));
    }
}

/// A date that git prints is the date that the entry gets, whatever stands behind it: every
/// number is kept, but for a year that FAT cannot hold. One before 1980 becomes 1980, one
/// after 2107 becomes 2107, and every year between them stays.
pub proof fn dates_are_kept(
    year: nat,
    month: nat,
    day: nat,
    hour: nat,
    min: nat,
    sec: nat,
    zeroes: Seq<nat>,
    rest: Seq<char>,
)
    requires
        zeroes.len() == 6,
        year <= 65535 && month <= 65535 && day <= 65535,
        hour <= 65535 && min <= 65535 && sec <= 65535,
        rest.len() > 0 ==> text::is_white(rest[0]),
    ensures
        ({
            let line = field(year, zeroes[0]) + seq![' '] + field(month, zeroes[1]) + seq![' ']
                + field(day, zeroes[2]) + seq![' '] + field(hour, zeroes[3]) + seq![' '] + field(
                min,
                zeroes[4],
            ) + seq![' '] + field(sec, zeroes[5]);
            &&& parsed(line + rest) matches Some(stamp)
            &&& 1980 <= year <= 2107 ==> stamp.year == year
            &&& year < 1980 ==> stamp.year == 1980
            &&& year > 2107 ==> stamp.year == 2107
            &&& stamp.month == month
            &&& stamp.day == day
            &&& stamp.hour == hour
            &&& stamp.min == min
            &&& stamp.sec == sec
        }),
{
    let a = field(year, zeroes[0]);
    let b = field(month, zeroes[1]);
    let c = field(day, zeroes[2]);
    let d = field(hour, zeroes[3]);
    let e = field(min, zeroes[4]);
    let f = field(sec, zeroes[5]);
    lemma_field(year, zeroes[0]);
    lemma_field(month, zeroes[1]);
    lemma_field(day, zeroes[2]);
    lemma_field(hour, zeroes[3]);
    lemma_field(min, zeroes[4]);
    lemma_field(sec, zeroes[5]);
    lemma_six_words(a, b, c, d, e, f, rest);
}

/// A word that is a number of sixteen bits: digits, with or without a `+` before them.
pub open spec fn is_number(word: Seq<char>) -> bool {
    exists|n: nat, zeroes: nat|
        n <= 65535 && (word == field(n, zeroes) || word == seq!['+'] + field(n, zeroes))
}

/// What is taken for a number is one.
proof fn lemma_number(word: Seq<char>)
    ensures
        field_value(word) is Some <==> is_number(word),
{
    if field_value(word) is Some {
        let digits = if word[0] == '+' {
            word.skip(1)
        } else {
            word
        };
        let k = text_laws::digits_are_numbers(digits);
        let n = text::value(digits);
        if word[0] == '+' {
            assert(word =~= seq!['+'] + field(n, k));
        }
        assert(n <= 65535 && (word == field(n, k) || word == seq!['+'] + field(n, k)));
    }
    if is_number(word) {
        let (n, k) = choose|n: nat, zeroes: nat|
            n <= 65535 && (word == field(n, zeroes) || word == seq!['+'] + field(n, zeroes));
        lemma_field(n, k);
    }
}

/// A text is a date exactly if its first six words are numbers.
pub proof fn dates_are_six_numbers(s: Seq<char>)
    ensures
        parsed(s) is Some <==> text::words(s).len() >= 6 && forall|i: int|
            0 <= i < 6 ==> is_number(#[trigger] text::words(s)[i]),
{
    let words = text::words(s);
    if words.len() >= 6 {
        assert forall|i: int| 0 <= i < 6 implies (field_value(#[trigger] words[i]) is Some
            <==> is_number(words[i])) by {
            lemma_number(words[i]);
        }
        if parsed(s) is Some {
            assert forall|i: int| 0 <= i < 6 implies is_number(#[trigger] words[i]) by {
                assert(nth_value(words, i) is Some);
            }
        } else {
            if forall|i: int| 0 <= i < 6 ==> is_number(#[trigger] words[i]) {
                assert(is_number(words[0]) && is_number(words[1]) && is_number(words[2])
                    && is_number(words[3]) && is_number(words[4]) && is_number(words[5]));
            }
        }
    } else {
        assert(nth_value(words, 5) is None);
    }
}

/// The year of a date is the number in its first word, whatever stands behind it, as far as
/// FAT can hold it: a year from 1980 to 2107 is kept, an earlier one becomes 1980 and a later
/// one 2107.
pub proof fn years_are_kept(s: Seq<char>, year: nat, zeroes: nat)
    requires
        year <= 65535,
        text::words(s).len() > 0,
        text::words(s)[0] == field(year, zeroes) || text::words(s)[0] == seq!['+'] + field(
            year,
            zeroes,
        ),
    ensures
        parsed(s) matches Some(stamp) ==> {
            &&& 1980 <= year <= 2107 ==> stamp.year == year
            &&& year < 1980 ==> stamp.year == 1980
            &&& year > 2107 ==> stamp.year == 2107
        },
{
    lemma_field(year, zeroes);
}

/// All other numbers of a date are kept as they are.
pub proof fn months_to_seconds_are_kept(s: Seq<char>, i: int, n: nat, zeroes: nat)
    requires
        1 <= i < 6,
        n <= 65535,
        i < text::words(s).len(),
        text::words(s)[i] == field(n, zeroes) || text::words(s)[i] == seq!['+'] + field(n, zeroes),
    ensures
        parsed(s) matches Some(stamp) ==> {
            &&& i == 1 ==> stamp.month == n
            &&& i == 2 ==> stamp.day == n
            &&& i == 3 ==> stamp.hour == n
            &&& i == 4 ==> stamp.min == n
            &&& i == 5 ==> stamp.sec == n
        },
{
    lemma_field(n, zeroes);
}

} // verus!
