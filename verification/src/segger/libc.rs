//! C string functions, on slices that hold NUL-terminated strings.

use vstd::prelude::*;

verus! {

/// The length of the string that a slice begins with: up to its first NUL.
pub open spec fn c_len(s: Seq<u8>) -> nat
    decreases s.len(),
{
    if s.len() == 0 || s[0] == 0 {
        0
    } else {
        c_len(s.skip(1)) + 1
    }
}

/// A slice holds a NUL-terminated string.
pub open spec fn terminated(s: Seq<u8>) -> bool {
    c_len(s) < s.len()
}

/// The string that a slice begins with, without its NUL.
pub open spec fn c_str(s: Seq<u8>) -> Seq<u8> {
    s.take(c_len(s) as int)
}

/// The first NUL ends the string.
pub proof fn lemma_c_len(s: Seq<u8>)
    ensures
        c_len(s) <= s.len(),
        forall|i: int| 0 <= i < c_len(s) ==> s[i] != 0,
        c_len(s) < s.len() ==> s[c_len(s) as int] == 0,
    decreases s.len(),
{
    if s.len() > 0 && s[0] != 0 {
        let rest = s.skip(1);
        lemma_c_len(rest);
        assert forall|i: int| 0 <= i < c_len(s) implies s[i] != 0 by {
            if i > 0 {
                assert(rest[i - 1] == s[i]);
            }
        }
        if c_len(s) < s.len() {
            assert(rest[c_len(rest) as int] == s[c_len(s) as int]);
        }
    }
}

/// The place where two strings part: the first at which they differ or end.
pub open spec fn parts_at(a: Seq<u8>, b: Seq<u8>, k: int) -> bool {
    &&& 0 <= k <= c_len(a)
    &&& k <= c_len(b)
    &&& forall|i: int| 0 <= i < k ==> a[i] == b[i]
    &&& a[k] != b[k] || a[k] == 0
}

/// The place where two NUL-terminated strings part.
fn parting_place(a: &[u8], b: &[u8]) -> (k: usize)
    requires
        terminated(a@),
        terminated(b@),
    ensures
        parts_at(a@, b@, k as int),
        k < a@.len(),
        k < b@.len(),
{
    let mut i: usize = 0;
    proof {
        lemma_c_len(a@);
        lemma_c_len(b@);
    }
    loop
        invariant
            terminated(a@),
            terminated(b@),
            i <= c_len(a@),
            i <= c_len(b@),
            forall|j: int| 0 <= j < c_len(a@) ==> a@[j] != 0,
            forall|j: int| 0 <= j < c_len(b@) ==> b@[j] != 0,
            a@[c_len(a@) as int] == 0,
            b@[c_len(b@) as int] == 0,
            forall|j: int| 0 <= j < i ==> a@[j] == b@[j],
        decreases c_len(a@) - i,
    {
        let ca: u8 = a[i];
        let cb: u8 = b[i];
        if ca != cb || ca == 0 {
            return i;
        }
        i = i + 1;
    }
}

fn difference(x: u8, y: u8) -> (d: i32)
    ensures
        d == x - y,
{
    x as i32 - y as i32
}

/// `strcmp`: lexicographic compare of two NUL-terminated strings. The result is the
/// difference of the bytes at which they part.
pub fn strcmp(a: &[u8], b: &[u8]) -> (order: i32)
    requires
        terminated(a@),
        terminated(b@),
    ensures
        exists|k: int| #[trigger] parts_at(a@, b@, k) && order == a@[k] - b@[k],
{
    let k: usize = parting_place(a, b);
    difference(a[k], b[k])
}

/// What a buffer holds once the first `n` bytes of a string have been copied to it, and
/// NULs up to `n` bytes in all.
pub open spec fn copied(dst: Seq<u8>, src: Seq<u8>, n: int) -> Seq<u8> {
    Seq::new(
        dst.len(),
        |i: int|
            if i >= n {
                dst[i]
            } else if i < c_len(src) {
                src[i]
            } else {
                0u8
            },
    )
}

/// `strncpy`: copy up to `n` bytes of `src` into `dst`, NUL-padding the remainder. `src`
/// is NUL-terminated, or holds `n` bytes.
pub fn strncpy(dst: &mut [u8], src: &[u8], n: usize)
    requires
        n <= old(dst)@.len(),
        terminated(src@) || n <= src@.len(),
    ensures
        final(dst)@ == copied(old(dst)@, src@, n as int),
{
    let mut i: usize = 0;
    let mut hit_nul = false;
    proof {
        lemma_c_len(src@);
    }
    while i < n
        invariant
            i <= n <= dst@.len(),
            dst@.len() == old(dst)@.len(),
            terminated(src@) || n <= src@.len(),
            c_len(src@) <= src@.len(),
            forall|j: int| 0 <= j < c_len(src@) ==> src@[j] != 0,
            c_len(src@) < src@.len() ==> src@[c_len(src@) as int] == 0,
            hit_nul == (i > c_len(src@)),
            dst@ == copied(old(dst)@, src@, i as int),
        decreases n - i,
    {
        let c: u8 = if hit_nul {
            0
        } else {
            src[i]
        };
        if c == 0 {
            hit_nul = true;
        }
        dst[i] = c;
        i = i + 1;
    }
}

/// `strrchr`: the index of the last occurrence of `c`, as a byte, in `s` (NUL included).
pub fn strrchr(s: &[u8], c: i32) -> (last: Option<usize>)
    requires
        terminated(s@),
    ensures
        match last {
            Some(i) => {
                &&& i <= c_len(s@)
                &&& s@[i as int] == c % 256
                &&& forall|j: int| i < j <= c_len(s@) ==> s@[j] != c % 256
            },
            None => forall|j: int| 0 <= j <= c_len(s@) ==> s@[j] != c % 256,
        },
{
    assert(c as u8 == (c & 0xff)) by (bit_vector);
    assert(0 <= (c & 0xff) < 256 && (c - (c & 0xff)) % 256 == 0) by (bit_vector);
    #[verifier::truncate]
    let needle: u8 = c as u8;
    assert(needle == c % 256);
    let mut i: usize = 0;
    let mut last: Option<usize> = None;
    proof {
        lemma_c_len(s@);
    }
    loop
        invariant
            terminated(s@),
            i <= c_len(s@),
            forall|j: int| 0 <= j < c_len(s@) ==> s@[j] != 0,
            s@[c_len(s@) as int] == 0,
            needle == c % 256,
            match last {
                Some(k) => {
                    &&& k < i
                    &&& s@[k as int] == needle
                    &&& forall|j: int| k < j < i ==> s@[j] != needle
                },
                None => forall|j: int| 0 <= j < i ==> s@[j] != needle,
            },
        decreases c_len(s@) - i,
    {
        let ch: u8 = s[i];
        if ch == needle {
            last = Some(i);
        }
        if ch == 0 {
            return last;
        }
        i = i + 1;
    }
}

/// Strings compare equal exactly when they are the same string, and comparing the other
/// way round gives the opposite sign.
pub proof fn comparison_is_faithful(a: Seq<u8>, b: Seq<u8>, k: int, l: int)
    requires
        terminated(a),
        terminated(b),
        parts_at(a, b, k),
        parts_at(b, a, l),
    ensures
        (a[k] - b[k] == 0) == (c_str(a) == c_str(b)),
        a[k] - b[k] == -(b[l] - a[l]),
{
    lemma_c_len(a);
    lemma_c_len(b);
    if k < l {
        assert(b[k] == a[k]);
    } else if l < k {
        assert(a[l] == b[l]);
    }
    if a[k] == b[k] {
        assert(c_str(a) =~= c_str(b));
    } else if c_str(a) == c_str(b) {
        if k < c_len(a) {
            assert(c_str(a)[k] == c_str(b)[k]);
        }
    }
}

/// If one string comes before a second, and that before a third, then the first comes
/// before the third.
pub proof fn comparison_is_transitive(a: Seq<u8>, b: Seq<u8>, c: Seq<u8>, k: int, l: int, m: int)
    requires
        terminated(a),
        terminated(b),
        terminated(c),
        parts_at(a, b, k),
        parts_at(b, c, l),
        parts_at(a, c, m),
        a[k] - b[k] < 0,
        b[l] - c[l] < 0,
    ensures
        a[m] - c[m] < 0,
{
    lemma_c_len(a);
    lemma_c_len(b);
    lemma_c_len(c);
    let first = if k < l { k } else { l };
    if m < first {
        assert(a[m] == b[m] && b[m] == c[m]);
    } else if first < m {
        assert(a[first] == c[first]);
    }
}

/// A string without a NUL.
pub open spec fn no_nul(t: Seq<u8>) -> bool {
    forall|i: int| 0 <= i < t.len() ==> #[trigger] t[i] != 0
}

/// A slice with a NUL behind a string holds that string, whatever stands behind the NUL.
pub proof fn strings_end_at_their_nul(t: Seq<u8>, rest: Seq<u8>)
    requires
        no_nul(t),
    ensures
        c_len(t + seq![0u8] + rest) == t.len(),
        terminated(t + seq![0u8] + rest),
        c_str(t + seq![0u8] + rest) == t,
        c_len(t) == t.len(),
    decreases t.len(),
{
    let s = t + seq![0u8] + rest;
    if t.len() > 0 {
        let inner = t.skip(1);
        assert forall|i: int| 0 <= i < inner.len() implies #[trigger] inner[i] != 0 by {
            assert(inner[i] == t[i + 1]);
        }
        strings_end_at_their_nul(inner, rest);
        assert(s.skip(1) =~= inner + seq![0u8] + rest);
        assert(s[0] == t[0]);
    } else {
        assert(s[0] == 0);
    }
    assert(s.take(t.len() as int) =~= t);
}

/// Two strings part at their first difference, behind whatever they have in common: there
/// they are compared. A string that is the beginning of the other parts from it at its NUL.
pub proof fn strings_part_at_their_first_difference(
    common: Seq<u8>,
    x: u8,
    y: u8,
    a: Seq<u8>,
    b: Seq<u8>,
    k: int,
)
    requires
        no_nul(common),
        x != y || x == 0,
        parts_at(common + seq![x] + a, common + seq![y] + b, k),
    ensures
        k == common.len(),
        (common + seq![x] + a)[k] - (common + seq![y] + b)[k] == x - y,
{
    let s = common + seq![x] + a;
    let t = common + seq![y] + b;
    let n = common.len() as int;
    assert(s[n] == x && t[n] == y);
    lemma_c_len(s);
    lemma_c_len(t);
    if k < n {
        assert(s[k] == common[k] && t[k] == common[k]);
    } else if k > n {
        assert(s[n] == t[n]);
    }
}

/// Copying a string into a buffer gives the string, then NULs up to `n` bytes, and what was
/// there behind them; a string of more than `n` bytes is cut, and gets no NUL.
pub proof fn strings_are_copied(dst: Seq<u8>, t: Seq<u8>, rest: Seq<u8>, n: nat)
    requires
        no_nul(t),
        n <= dst.len(),
    ensures
        t.len() <= n ==> copied(dst, t + seq![0u8] + rest, n as int) == t + Seq::new(
            (n - t.len()) as nat,
            |i: int| 0u8,
        ) + dst.skip(n as int),
        t.len() >= n ==> copied(dst, t, n as int) == t.take(n as int) + dst.skip(n as int)
            && copied(dst, t + seq![0u8] + rest, n as int) == t.take(n as int) + dst.skip(n as int),
{
    let s = t + seq![0u8] + rest;
    strings_end_at_their_nul(t, rest);
    if t.len() <= n {
        assert(copied(dst, s, n as int) =~= t + Seq::new((n - t.len()) as nat, |i: int| 0u8)
            + dst.skip(n as int));
    }
    if t.len() >= n {
        assert(copied(dst, t, n as int) =~= t.take(n as int) + dst.skip(n as int));
        assert(copied(dst, s, n as int) =~= t.take(n as int) + dst.skip(n as int));
    }
}

} // verus!
