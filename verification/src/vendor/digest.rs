//! Digests of files, in hexadecimal.

use vstd::prelude::*;

verus! {

/// What `sha2::Sha256` makes of these bytes.
pub uninterp spec fn sha256_digest(data: Seq<u8>) -> Seq<u8>;

/// What `md5::Md5` makes of these bytes.
pub uninterp spec fn md5_digest(data: Seq<u8>) -> Seq<u8>;

/// `sha2::Sha256::digest`: the SHA-256 digest, 32 bytes. Which bytes those are is not
/// stated, only that they are a function of the data.
#[verifier::external_body]
fn sha256(data: &[u8]) -> (digest: [u8; 32])
    ensures
        digest@ == sha256_digest(data@),
{
    <sha2::Sha256 as sha2::Digest>::digest(data).into()
}

/// `md5::Md5::digest`: the MD5 digest, 16 bytes. Which bytes those are is not stated,
/// only that they are a function of the data.
#[verifier::external_body]
fn md5(data: &[u8]) -> (digest: [u8; 16])
    ensures
        digest@ == md5_digest(data@),
{
    <md5::Md5 as md5::Digest>::digest(data).into()
}

/// The hexadecimal digit of `d`.
pub open spec fn hex_digit(d: int) -> char {
    if d < 10 {
        (d + '0' as int) as char
    } else {
        (d - 10 + 'a' as int) as char
    }
}

/// Bytes in hexadecimal, two lower-case digits each.
pub open spec fn hex_text(bytes: Seq<u8>) -> Seq<char> {
    Seq::new(
        2 * bytes.len(),
        |i: int|
            hex_digit(
                if i % 2 == 0 {
                    bytes[i / 2] as int / 16
                } else {
                    bytes[i / 2] as int % 16
                },
            ),
    )
}

fn hex_char(d: u8) -> (c: char)
    requires
        d < 16,
    ensures
        c == hex_digit(d as int),
{
    if d < 10 {
        (d + 0x30) as char
    } else {
        (d - 10 + 0x61) as char
    }
}

/// Bytes in hexadecimal, two lower-case digits each.
pub fn hex(bytes: &[u8]) -> (s: String)
    ensures
        s@ == hex_text(bytes@),
{
    let mut s = String::new();
    let mut i: usize = 0;
    while i < bytes.len()
        invariant
            i <= bytes@.len(),
            s@ == hex_text(bytes@.take(i as int)),
        decreases bytes@.len() - i,
    {
        let b: u8 = bytes[i];
        s.push(hex_char(b / 16));
        s.push(hex_char(b % 16));
        assert(s@ =~= hex_text(bytes@.take(i + 1)));
        i = i + 1;
    }
    assert(bytes@.take(i as int) =~= bytes@);
    s
}

/// The SHA-256 of a file, in hexadecimal.
pub fn sha256_file(contents: &[u8]) -> (s: String)
    ensures
        s@ == hex_text(sha256_digest(contents@)),
        s@.len() == 64,
{
    let digest: [u8; 32] = sha256(contents);
    assert(digest@.len() == 32);
    hex(digest.as_slice())
}

/// The MD5 of a file, in hexadecimal.
pub fn md5_file(contents: &[u8]) -> (s: String)
    ensures
        s@ == hex_text(md5_digest(contents@)),
        s@.len() == 32,
{
    let digest: [u8; 16] = md5(contents);
    assert(digest@.len() == 16);
    hex(digest.as_slice())
}

/// Hexadecimal digits are neither white space nor `#`.
pub proof fn lemma_hex_chars(bytes: Seq<u8>)
    ensures
        forall|i: int|
            0 <= i < hex_text(bytes).len() ==> {
                let c = #[trigger] hex_text(bytes)[i];
                ('0' <= c <= '9') || ('a' <= c <= 'f')
            },
{
}

/// The two digits of byte `k`.
proof fn lemma_hex_at(bytes: Seq<u8>, k: int)
    requires
        0 <= k < bytes.len(),
    ensures
        hex_text(bytes)[2 * k] == hex_digit(bytes[k] as int / 16),
        hex_text(bytes)[2 * k + 1] == hex_digit(bytes[k] as int % 16),
{
    let even = 2 * k;
    let odd = 2 * k + 1;
    assert(even / 2 == k && even % 2 == 0);
    assert(odd / 2 == k && odd % 2 == 1);
}

/// Different digits have different characters.
proof fn lemma_digits_differ(x: int, y: int)
    requires
        0 <= x < 16,
        0 <= y < 16,
        hex_digit(x) == hex_digit(y),
    ensures
        x == y,
{
}

/// Different bytes have different hexadecimal texts.
pub proof fn hex_is_faithful(a: Seq<u8>, b: Seq<u8>)
    requires
        hex_text(a) == hex_text(b),
    ensures
        a == b,
{
    assert(hex_text(a).len() == 2 * a.len() && hex_text(b).len() == 2 * b.len());
    assert forall|k: int| 0 <= k < a.len() implies a[k] == b[k] by {
        lemma_hex_at(a, k);
        lemma_hex_at(b, k);
        lemma_digits_differ(a[k] as int / 16, b[k] as int / 16);
        lemma_digits_differ(a[k] as int % 16, b[k] as int % 16);
    }
    assert(a =~= b);
}

/// The place of a character among the hexadecimal digits.
pub open spec fn hex_value(c: char) -> int {
    if '0' <= c <= '9' {
        c as int - 48
    } else {
        c as int - 97 + 10
    }
}

/// Hexadecimal reads back: two digits for every byte, the upper half first, the letters in
/// lower case.
pub proof fn hex_reads_back(bytes: Seq<u8>, k: int)
    requires
        0 <= k < bytes.len(),
    ensures
        hex_text(bytes).len() == 2 * bytes.len(),
        hex_value(hex_text(bytes)[2 * k]) * 16 + hex_value(hex_text(bytes)[2 * k + 1]) == bytes[k],
        forall|i: int|
            0 <= i < hex_text(bytes).len() ==> {
                let c = #[trigger] hex_text(bytes)[i];
                ('0' <= c <= '9') || ('a' <= c <= 'f')
            },
{
    lemma_hex_at(bytes, k);
    lemma_hex_chars(bytes);
}

} // verus!
