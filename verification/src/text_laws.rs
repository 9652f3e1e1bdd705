//! What holds of texts as a whole.

use vstd::prelude::*;

use crate::text;

verus! {

/// So many zeroes.
pub open spec fn zeroes(k: nat) -> Seq<char> {
    Seq::new(k, |i: int| '0')
}

/// The last digit of a number in decimal is its remainder.
proof fn lemma_digit(d: int)
    requires
        0 <= d < 10,
    ensures
        text::is_digit(text::digit(d)),
        text::digit(d) as int - '0' as int == d,
{
}

/// Leading zeroes are worth nothing.
proof fn lemma_zeroes(k: nat)
    ensures
        text::value(zeroes(k)) == 0,
    decreases k,
{
    if k > 0 {
        lemma_zeroes((k - 1) as nat);
        assert(zeroes(k).drop_last() =~= zeroes((k - 1) as nat));
    }
}

/// A number in decimal is read back as the number, with any zeroes before it; it has no
/// leading zero of its own, and digits only.
pub proof fn numbers_read_back(n: nat, k: nat)
    ensures
        text::value(zeroes(k) + text::decimal(n)) == n,
        text::all_digits(zeroes(k) + text::decimal(n)),
        text::decimal(n).len() > 0,
        text::decimal(n)[0] == '0' <==> n == 0,
        n >= 10 ==> text::decimal(n).len() == text::decimal(n / 10).len() + 1,
        n < 10 ==> text::decimal(n).len() == 1,
    decreases n,
{
    let all = zeroes(k) + text::decimal(n);
    if n < 10 {
        lemma_digit(n as int);
        lemma_zeroes(k);
        assert(all.drop_last() =~= zeroes(k));
    } else {
        numbers_read_back(n / 10, k);
        lemma_digit(n as int % 10);
        let front = zeroes(k) + text::decimal(n / 10);
        assert(all.drop_last() =~= front);
        assert forall|i: int| 0 <= i < all.len() implies text::is_digit(#[trigger] all[i]) by {
            if i < front.len() {
                assert(all[i] == front[i]);
            }
        }
    }
}

/// Every text of digits is a number in decimal with zeroes before it, but for the empty one.
pub proof fn digits_are_numbers(s: Seq<char>) -> (k: nat)
    requires
        s.len() > 0,
        text::all_digits(s),
    ensures
        s == zeroes(k) + text::decimal(text::value(s)),
    decreases s.len(),
{
    let last = s.last();
    let d = last as int - '0' as int;
    assert(text::is_digit(s[s.len() - 1]));
    assert(text::digit(d) == last);
    let front = s.drop_last();
    if front.len() == 0 {
        assert(text::value(front) == 0);
        assert(s =~= zeroes(0) + text::decimal(text::value(s)));
        0
    } else {
        assert forall|i: int| 0 <= i < front.len() implies text::is_digit(#[trigger] front[i]) by {
            assert(text::is_digit(s[i]));
        }
        let k = digits_are_numbers(front);
        let v = text::value(front);
        assert(text::value(s) == 10 * v + d);
        if v == 0 {
            assert(front =~= zeroes(k) + seq!['0']);
            assert(s =~= front.push(last));
            assert(text::decimal(text::value(s)) =~= seq![last]);
            assert(s =~= zeroes((k + 1) as nat) + text::decimal(text::value(s)));
            (k + 1) as nat
        } else {
            assert(text::value(s) / 10 == v && text::value(s) % 10 == d);
            assert(s =~= front.push(last));
            assert(text::decimal(text::value(s)) == text::decimal(v).push(last));
            assert(s =~= zeroes(k) + text::decimal(text::value(s)));
            k
        }
    }
}

/// White space is what Unicode says it is.
pub proof fn white_space_is_unicode(c: char)
    ensures
        text::is_white(c) <==> {
            let u = c as int;
            ||| 9 <= u <= 13
            ||| u == 32
            ||| u == 133
            ||| u == 160
            ||| u == 5760
            ||| 8192 <= u <= 8202
            ||| u == 8232
            ||| u == 8233
            ||| u == 8239
            ||| u == 8287
            ||| u == 12288
        },
{
}

/// A text of white space.
pub open spec fn all_white(s: Seq<char>) -> bool {
    forall|i: int| 0 <= i < s.len() ==> text::is_white(#[trigger] s[i])
}

/// A text without white space.
pub open spec fn no_white(s: Seq<char>) -> bool {
    forall|i: int| 0 <= i < s.len() ==> !text::is_white(#[trigger] s[i])
}

pub proof fn lemma_trim_start(pre: Seq<char>, rest: Seq<char>)
    requires
        all_white(pre),
        rest.len() > 0 ==> !text::is_white(rest[0]),
    ensures
        text::trim_start(pre + rest) == rest,
    decreases pre.len(),
{
    if pre.len() == 0 {
        assert(pre + rest =~= rest);
    } else {
        assert((pre + rest).skip(1) =~= pre.skip(1) + rest);
        assert((pre + rest)[0] == pre[0]);
        lemma_trim_start(pre.skip(1), rest);
    }
}

proof fn lemma_trim_end(front: Seq<char>, post: Seq<char>)
    requires
        all_white(post),
        front.len() > 0 ==> !text::is_white(front.last()),
    ensures
        text::trim_end(front + post) == front,
    decreases post.len(),
{
    if post.len() == 0 {
        assert(front + post =~= front);
    } else {
        assert((front + post).drop_last() =~= front + post.drop_last());
        assert((front + post).last() == post.last());
        lemma_trim_end(front, post.drop_last());
    }
}

/// Trimming takes away the white space around a text, all of it, and nothing else.
pub proof fn trimming_takes_white_space_away(pre: Seq<char>, inner: Seq<char>, post: Seq<char>)
    requires
        all_white(pre),
        all_white(post),
        inner.len() > 0 ==> !text::is_white(inner[0]) && !text::is_white(inner.last()),
    ensures
        text::trimmed(pre + inner + post) == inner,
{
    if inner.len() == 0 {
        let all = pre + post;
        assert(pre + inner + post =~= all + Seq::<char>::empty());
        lemma_trim_start(all, Seq::empty());
        assert(text::trimmed(pre + inner + post) =~= inner);
    } else {
        assert(pre + inner + post =~= pre + (inner + post));
        lemma_trim_start(pre, inner + post);
        lemma_trim_end(inner, post);
    }
}

/// A text parts at every `c`: what stands before one is parted by itself, and so is what
/// stands behind it; a text without any is one part.
pub proof fn texts_part_at_every_character(a: Seq<char>, b: Seq<char>, c: char)
    ensures
        text::split(a + seq![c] + b, c) == text::split(a, c) + text::split(b, c),
        !a.contains(c) ==> text::split(a, c) == seq![a],
    decreases a.len(),
{
    let all = a + seq![c] + b;
    text::lemma_until(a, c);
    let n = text::until(a, c) as int;
    if n >= a.len() {
        text::lemma_until_is(all, c, a.len() as int);
        assert(all.take(a.len() as int) =~= a);
        assert(all.skip(a.len() as int + 1) =~= b);
    } else {
        assert forall|i: int| 0 <= i < n implies all[i] != c by {
            assert(all[i] == a[i]);
        }
        assert(a[n] == c);
        assert(all[n] == a[n]);
        text::lemma_until_is(all, c, n);
        assert(all.take(n) =~= a.take(n));
        let rest = a.skip(n + 1);
        assert(all.skip(n + 1) =~= rest + seq![c] + b);
        texts_part_at_every_character(rest, b, c);
        assert(seq![a.take(n)] + (text::split(rest, c) + text::split(b, c)) =~= (seq![a.take(n)]
            + text::split(rest, c)) + text::split(b, c));
    }
}

/// White space parts a text into words: the words before it, and those behind it. A text
/// without any is one word, unless it is empty.
pub proof fn white_space_parts_words(a: Seq<char>, w: char, b: Seq<char>)
    requires
        text::is_white(w),
    ensures
        text::words(a + seq![w] + b) == text::words(a) + text::words(b),
        text::words(Seq::empty()) == Seq::<Seq<char>>::empty(),
        a.len() > 0 && no_white(a) ==> text::words(a) == seq![a],
    decreases a.len(),
{
    let all = a + seq![w] + b;
    if a.len() == 0 {
        assert(all.skip(1) =~= b);
        assert(all[0] == w);
        assert(text::words(a) =~= Seq::<Seq<char>>::empty());
        assert(text::words(a) + text::words(b) =~= text::words(b));
    } else if text::is_white(a[0]) {
        assert(all[0] == a[0]);
        assert(all.skip(1) =~= a.skip(1) + seq![w] + b);
        white_space_parts_words(a.skip(1), w, b);
    } else {
        text::lemma_word_len_bound(a);
        let n = text::word_len(a) as int;
        lemma_word_end(a);
        assert forall|i: int| 0 <= i < n implies !text::is_white(all[i]) by {
            assert(all[i] == a[i]);
        }
        assert(all[n] == if n < a.len() {
            a[n]
        } else {
            w
        });
        text::lemma_word_len(all, n);
        assert(all.take(n) =~= a.take(n));
        let rest = a.skip(n);
        assert(all.skip(n) =~= rest + seq![w] + b);
        white_space_parts_words(rest, w, b);
        assert(seq![a.take(n)] + (text::words(rest) + text::words(b)) =~= (seq![a.take(n)]
            + text::words(rest)) + text::words(b));
        if no_white(a) {
            assert(n == a.len());
            assert(rest =~= Seq::<char>::empty());
            assert(a.take(n) =~= a);
            assert(seq![a] + text::words(rest) =~= seq![a]);
        }
    }
}

/// A word ends at white space or with its text.
proof fn lemma_word_end(s: Seq<char>)
    ensures
        text::word_len(s) <= s.len(),
        s.len() > 0 && !text::is_white(s[0]) ==> text::word_len(s) > 0,
        forall|i: int| 0 <= i < text::word_len(s) ==> !text::is_white(#[trigger] s[i]),
        text::word_len(s) < s.len() ==> text::is_white(s[text::word_len(s) as int]),
    decreases s.len(),
{
    if s.len() > 0 && !text::is_white(s[0]) {
        let rest = s.skip(1);
        lemma_word_end(rest);
        assert forall|i: int| 0 <= i < text::word_len(s) implies !text::is_white(
            #[trigger] s[i],
        ) by {
            if i > 0 {
                assert(rest[i - 1] == s[i]);
            }
        }
        if text::word_len(s) < s.len() {
            assert(rest[text::word_len(rest) as int] == s[text::word_len(s) as int]);
        }
    }
}

/// Replacing a character changes it wherever it stands, and nothing else.
pub proof fn replacing_changes_one_character(s: Seq<char>, from: char, to: char, i: int)
    requires
        0 <= i < s.len(),
    ensures
        text::replaced(s, from, to).len() == s.len(),
        s[i] == from ==> text::replaced(s, from, to)[i] == to,
        s[i] != from ==> text::replaced(s, from, to)[i] == s[i],
{
}

/// Two characters `c` in a row are found at the first place where they stand.
pub proof fn the_first_pair_is_found(a: Seq<char>, b: Seq<char>, c: char)
    requires
        forall|i: int| 0 <= i < a.len() - 1 ==> !(#[trigger] a[i] == c && a[i + 1] == c),
        a.len() > 0 ==> a.last() != c,
    ensures
        text::before_pair(a + seq![c, c] + b, c) == a.len(),
        text::before_pair(a, c) == a.len(),
{
    let all = a + seq![c, c] + b;
    let n = a.len() as int;
    assert forall|i: int| 0 <= i < n && i + 1 < all.len() implies !(#[trigger] all[i] == c && all[i
        + 1] == c) by {
        assert(all[i] == a[i]);
        if i + 1 < n {
            assert(all[i + 1] == a[i + 1]);
        } else {
            assert(all[i] == a.last());
        }
    }
    text::lemma_before_pair(all, c, n);
    text::lemma_before_pair(a, c, n);
}

} // verus!
