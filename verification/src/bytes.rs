//! Copying and filling byte slices.

use vstd::prelude::*;

verus! {

/// `dst` with `src` written over it from index `at` on.
pub open spec fn written(dst: Seq<u8>, at: int, src: Seq<u8>) -> Seq<u8> {
    Seq::new(
        dst.len(),
        |i: int|
            if at <= i < at + src.len() {
                src[i - at]
            } else {
                dst[i]
            },
    )
}

/// Copy `src` into `dst` from index `at` on.
pub fn copy_at(dst: &mut [u8], at: usize, src: &[u8])
    requires
        at + src@.len() <= old(dst)@.len(),
    ensures
        final(dst)@ == written(old(dst)@, at as int, src@),
{
    let mut i: usize = 0;
    while i < src.len()
        invariant
            i <= src@.len(),
            dst@.len() == dst.len(),
            dst@.len() == old(dst)@.len(),
            at + src@.len() <= dst@.len(),
            dst@ == written(old(dst)@, at as int, src@.take(i as int)),
        decreases src@.len() - i,
    {
        dst[at + i] = src[i];
        i = i + 1;
    }
    assert(src@.take(i as int) == src@);
}

/// Set every byte of `dst` from index `from` on to zero.
pub fn zero_from(dst: &mut [u8], from: usize)
    requires
        from <= old(dst)@.len(),
    ensures
        final(dst)@ == written(
            old(dst)@,
            from as int,
            Seq::new((old(dst)@.len() - from) as nat, |i: int| 0u8),
        ),
{
    let mut i: usize = from;
    while i < dst.len()
        invariant
            from <= i <= dst@.len(),
            dst@.len() == old(dst)@.len(),
            dst@ == written(old(dst)@, from as int, Seq::new((i - from) as nat, |j: int| 0u8)),
        decreases dst@.len() - i,
    {
        dst[i] = 0;
        i = i + 1;
    }
}

/// Whether two byte slices hold the same bytes.
pub fn equal(a: &[u8], b: &[u8]) -> (same: bool)
    ensures
        same == (a@ == b@),
{
    if a.len() != b.len() {
        return false;
    }
    let mut i: usize = 0;
    while i < a.len()
        invariant
            a@.len() == b@.len(),
            i <= a@.len(),
            forall|j: int| 0 <= j < i ==> a@[j] == b@[j],
        decreases a@.len() - i,
    {
        if a[i] != b[i] {
            assert(a@[i as int] != b@[i as int]);
            return false;
        }
        i = i + 1;
    }
    assert(a@ =~= b@);
    true
}

/// Writing over bytes puts the new ones in place, and keeps all others.
pub proof fn writing_keeps_the_rest(dst: Seq<u8>, at: int, src: Seq<u8>)
    requires
        0 <= at,
        at + src.len() <= dst.len(),
    ensures
        written(dst, at, src) == dst.take(at) + src + dst.skip(at + src.len()),
{
    assert(written(dst, at, src) =~= dst.take(at) + src + dst.skip(at + src.len()));
}

} // verus!
