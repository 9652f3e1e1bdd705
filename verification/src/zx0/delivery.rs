//! What a decoder of a bounded window leaves in the window and hands to its
//! callback, as a function of the bytes it produces.

use vstd::prelude::*;
use vstd::arithmetic::div_mod::{
    lemma_fundamental_div_mod, lemma_fundamental_div_mod_converse, lemma_mod_bound,
};

verus! {

/// One call of an output callback: the bytes it was given and what it returned.
pub type Delivery<E> = (Seq<u8>, Result<(), E>);

/// The output position whose byte lies at index `i` of a window of `n` bytes once
/// `len > i` bytes have been written round it: the last one that is `i` modulo `n`.
pub open spec fn latest(i: int, len: nat, n: nat) -> int {
    i + (n as int) * ((len - 1 - i) / (n as int))
}

/// The contents of a window that held `init` and through which `out` was written,
/// starting at index 0 and wrapping round at its end.
pub open spec fn ring(init: Seq<u8>, out: Seq<u8>) -> Seq<u8> {
    Seq::new(
        init.len(),
        |i: int|
            if i < out.len() {
                out[latest(i, out.len(), init.len())]
            } else {
                init[i]
            },
    )
}

/// The bytes `out[k * n .. (k + 1) * n]`, or up to the end of `out` where that is less.
pub open spec fn chunk(out: Seq<u8>, n: nat, k: int) -> Seq<u8> {
    out.subrange(
        k * (n as int),
        if (k + 1) * (n as int) <= out.len() {
            (k + 1) * (n as int)
        } else {
            out.len() as int
        },
    )
}

/// The chunks in which a window of `n` bytes hands on `out`: every `n` bytes, and
/// what is left over once the stream has ended.
pub open spec fn chunks(out: Seq<u8>, n: nat, ended: bool) -> Seq<Seq<u8>> {
    Seq::new(
        if ended && out.len() % n != 0 {
            out.len() / n + 1
        } else {
            out.len() / n
        },
        |k: int| chunk(out, n, k),
    )
}

/// Every one of these chunks was handed on, in order, and accepted.
pub open spec fn all_accepted<E>(chunks: Seq<Seq<u8>>) -> Seq<Delivery<E>> {
    Seq::new(chunks.len(), |k: int| (chunks[k], Ok::<(), E>(())))
}

/// A callback given these bytes may return this.
pub open spec fn may_answer<E, F: FnMut(&[u8]) -> Result<(), E>>(
    output: F,
    bytes: Seq<u8>,
    answer: Result<(), E>,
) -> bool {
    exists|c: &[u8]| c@ == bytes && #[trigger] call_ensures(output, (c,), answer)
}

/// A callback may have returned all that this log says it returned.
pub open spec fn log_of<E, F: FnMut(&[u8]) -> Result<(), E>>(
    output: F,
    log: Seq<Delivery<E>>,
) -> bool {
    forall|k: int|
        0 <= k < log.len() ==> may_answer(output, (#[trigger] log[k]).0, log[k].1)
}

/// A callback can be called with any chunk of a window of `n` bytes.
pub open spec fn callable<E, F: FnMut(&[u8]) -> Result<(), E>>(output: F, n: nat) -> bool {
    forall|c: &[u8]| c@.len() <= n ==> #[trigger] call_requires(output, (c,))
}

/// The last `n` bytes written lie in the window, each at its position modulo `n`.
pub proof fn lemma_ring_index(init: Seq<u8>, out: Seq<u8>, j: int)
    requires
        0 < init.len(),
        0 <= j < out.len(),
        out.len() - init.len() <= j,
    ensures
        0 <= j % (init.len() as int) < init.len(),
        ring(init, out)[j % (init.len() as int)] == out[j],
{
    let n = init.len() as int;
    let i = j % n;
    let q = j / n;
    lemma_fundamental_div_mod(j, n);
    lemma_mod_bound(j, n);
    assert(n * q == q * n) by (nonlinear_arith);
    assert(i <= j) by (nonlinear_arith)
        requires
            j == n * q + i,
            n > 0,
            j >= 0,
            0 <= i < n,
    ;
    lemma_fundamental_div_mod_converse(out.len() - 1 - i, n, q, out.len() - 1 - j);
}

/// Output that fits the window lies at its front, from the first byte on.
pub proof fn lemma_ring_prefix(init: Seq<u8>, out: Seq<u8>)
    requires
        0 < init.len(),
        out.len() <= init.len(),
    ensures
        ring(init, out).subrange(0, out.len() as int) == out,
{
    assert forall|j: int| 0 <= j < out.len() implies #[trigger] ring(init, out)[j] == out[j] by {
        lemma_ring_index(init, out, j);
        vstd::arithmetic::div_mod::lemma_small_mod(j as nat, init.len());
    }
}

/// Writing one more byte changes the window at one index.
pub proof fn lemma_ring_push(init: Seq<u8>, out: Seq<u8>, byte: u8)
    requires
        0 < init.len(),
    ensures
        ring(init, out.push(byte)) == ring(init, out).update(
            (out.len() % init.len()) as int,
            byte,
        ),
{
    let n = init.len() as int;
    let len = out.len() as int;
    let idx = len % n;
    lemma_mod_bound(len, n);
    let new = ring(init, out.push(byte));
    let upd = ring(init, out).update(idx, byte);
    assert forall|i: int| 0 <= i < n implies new[i] == upd[i] by {
        if i == idx {
            lemma_ring_index(init, out.push(byte), len);
        } else if i < len {
            let a = len - 1 - i;
            lemma_fundamental_div_mod(a, n);
            lemma_mod_bound(a, n);
            if a % n == n - 1 {
                // then `len - i` is a multiple of `n`, and `i` is `len % n`
                assert(n * (a / n) + n == n * (a / n + 1)) by (nonlinear_arith);
                assert(n * (a / n + 1) == (a / n + 1) * n) by (nonlinear_arith);
                lemma_fundamental_div_mod_converse(len, n, a / n + 1, i);
            } else {
                assert(n * (a / n) == (a / n) * n) by (nonlinear_arith);
                lemma_fundamental_div_mod_converse(a + 1, n, a / n, a % n + 1);
            }
            assert(latest(i, len as nat, n as nat) == latest(i, (len + 1) as nat, n as nat));
            assert(0 <= latest(i, len as nat, n as nat) < len) by {
                assert(0 <= n * (a / n)) by (nonlinear_arith)
                    requires
                        0 <= a / n,
                        0 < n,
                ;
            }
        } else if i == len {
            lemma_fundamental_div_mod_converse(len, n, 0, len);
        }
    }
    assert(new =~= upd);
}

/// Between two multiples of `n` the quotient stays; the next multiple is one up.
pub proof fn lemma_next_multiple(len: nat, n: nat)
    requires
        0 < n,
    ensures
        len % n + 1 < n ==> (len + 1) % n == len % n + 1 && (len + 1) / n == len / n,
        len % n + 1 == n ==> (len + 1) % n == 0 && (len + 1) / n == len / n + 1 && (len + 1) == (
        len / n + 1) * n,
        len == (len / n) * n + len % n,
        0 <= len % n < n,
{
    let a = len as int;
    let m = n as int;
    lemma_fundamental_div_mod(a, m);
    lemma_mod_bound(a, m);
    assert(m * (a / m) == (a / m) * m) by (nonlinear_arith);
    if a % m + 1 < m {
        lemma_fundamental_div_mod_converse(a + 1, m, a / m, a % m + 1);
    } else {
        assert((a / m) * m + m == (a / m + 1) * m) by (nonlinear_arith);
        lemma_fundamental_div_mod_converse(a + 1, m, a / m + 1, 0);
    }
}

/// The full chunks of `out` are those of any extension of it.
pub proof fn lemma_chunk_prefix(out: Seq<u8>, whole: Seq<u8>, n: nat, k: int)
    requires
        0 < n,
        0 <= k,
        out.is_prefix_of(whole),
        (k + 1) * n <= out.len(),
    ensures
        chunk(out, n, k) == chunk(whole, n, k),
        0 <= k * n,
        k * n + n == (k + 1) * n,
{
    assert(0 <= k * n) by (nonlinear_arith)
        requires
            0 <= k,
    ;
    assert(k * n + n == (k + 1) * n) by (nonlinear_arith);
    assert forall|i: int| 0 <= i < out.len() implies out[i] == whole[i] by {
        assert(whole.subrange(0, out.len() as int)[i] == whole[i]);
    }
    assert(chunk(out, n, k) =~= chunk(whole, n, k));
}

/// A chunk below the quotient is a full one.
pub proof fn lemma_full_chunk(len: nat, n: nat, k: int)
    requires
        0 < n,
        0 <= k < len / n,
    ensures
        (k + 1) * n <= len,
{
    lemma_next_multiple(len, n);
    assert((k + 1) * n <= (len / n) * n) by (nonlinear_arith)
        requires
            k + 1 <= len / n,
            0 < n,
    ;
}

} // verus!
