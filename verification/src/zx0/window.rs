//! The sliding window over already-decompressed output.

use vstd::arithmetic::div_mod::{lemma_mod_sub_multiples_vanish, lemma_small_mod};
use vstd::prelude::*;

use super::delivery;
use super::delivery::Delivery;
use super::error::Zx0Error;
use super::stream;
use super::stream::{MAX_OFFSET, MIN_WINDOW_LEN};

verus! {

/// Sliding window over already-decompressed output that flushes through a callback.
///
/// Bytes are appended at `write_idx`; once the window fills it is flushed in full
/// and `write_idx` wraps to `0`, reusing the storage. Flushing does not clear the
/// bytes, so back-references keep reading them via modular indexing -- valid as
/// long as every offset is strictly less than the window length, which
/// [`MIN_WINDOW_LEN`] guarantees.
#[verifier::reject_recursive_types(E)]
#[verifier::reject_recursive_types(F)]
pub struct Window<'a, E, F: FnMut(&[u8]) -> Result<(), E>> {
    pub buf: &'a mut [u8],
    /// Next write position, in `0..buf.len()`.
    pub write_idx: usize,
    /// Number of bytes produced so far (used to validate offsets); it stays at the
    /// largest `usize` once it has reached it.
    pub produced: usize,
    /// Number of calls of `output` that it accepted; it stays at the largest `u32`
    /// once it has reached it.
    pub flushes: u32,
    pub output: F,
    /// What the storage held at first.
    pub init: Ghost<Seq<u8>>,
    /// All bytes produced so far.
    pub out: Ghost<Seq<u8>>,
    /// All calls of `output` so far.
    pub log: Ghost<Seq<Delivery<E>>>,
}

/// `a`, or `limit` where `a` is larger.
pub open spec fn capped(a: nat, limit: int) -> int {
    if a <= limit {
        a as int
    } else {
        limit
    }
}

impl<'a, E, F: FnMut(&[u8]) -> Result<(), E>> Window<'a, E, F> {
    /// The contents of the storage.
    pub open spec fn held(&self) -> Seq<u8> {
        self.buf@
    }

    /// The storage holds the latest output, whatever became of its last flush.
    pub open spec fn holds_output(&self) -> bool {
        &&& self.buf@.len() >= MIN_WINDOW_LEN
        &&& self.init@.len() == self.buf@.len()
        &&& self.buf@ == delivery::ring(self.init@, self.out@)
        &&& delivery::log_of(self.output, self.log@)
        &&& delivery::callable(self.output, self.buf@.len())
    }

    /// Every full window of output has been accepted, and the rest is waiting.
    pub open spec fn wf(&self) -> bool {
        let n = self.buf@.len();
        &&& self.holds_output()
        &&& self.write_idx == self.out@.len() % n
        &&& self.produced == capped(self.out@.len(), usize::MAX as int)
        &&& self.flushes == capped(self.out@.len() / n, u32::MAX as int)
        &&& self.log@ == delivery::all_accepted::<E>(delivery::chunks(self.out@, n, false))
    }

    /// Every byte of output has been accepted, the last window of it included.
    pub open spec fn drained(&self) -> bool {
        let all = delivery::chunks(self.out@, self.buf@.len(), true);
        &&& self.holds_output()
        &&& self.write_idx == 0
        &&& self.produced == capped(self.out@.len(), usize::MAX as int)
        &&& self.flushes == capped(all.len(), u32::MAX as int)
        &&& self.log@ == delivery::all_accepted::<E>(all)
    }

    /// The callback has refused the last of the chunks that were due.
    pub open spec fn refused(&self, ended: bool, err: Zx0Error<E>) -> bool {
        let due = delivery::chunks(self.out@, self.buf@.len(), ended);
        &&& self.holds_output()
        &&& self.write_idx < self.buf@.len()
        &&& self.produced == capped(self.out@.len(), usize::MAX as int)
        &&& due.len() > 0
        &&& !ended ==> self.out@.len() % self.buf@.len() == 0
        &&& err matches Zx0Error::CallbackError(e) && self.log@ == delivery::all_accepted::<E>(
            due.drop_last(),
        ).push((due.last(), Err(e)))
    }

    /// The same window and the same callback, at another time.
    pub open spec fn continues(&self, before: &Self) -> bool {
        &&& self.buf@.len() == before.buf@.len()
        &&& self.init@ == before.init@
        &&& self.output == before.output
    }

    pub fn new(buf: &'a mut [u8], output: F) -> (res: Result<Self, Zx0Error<E>>)
        requires
            delivery::callable(output, old(buf)@.len()),
        ensures
            match res {
                Ok(win) => {
                    &&& old(buf)@.len() >= MIN_WINDOW_LEN
                    &&& win.wf()
                    &&& win.init@ == old(buf)@
                    &&& win.out@ == Seq::<u8>::empty()
                    &&& win.output == output
                    &&& final(win.buf)@ == final(buf)@
                },
                Err(e) => {
                    &&& old(buf)@.len() < MIN_WINDOW_LEN
                    &&& e == Zx0Error::<E>::WindowTooSmall
                    &&& final(buf)@ == old(buf)@
                },
            },
    {
        if buf.len() < MIN_WINDOW_LEN {
            return Err(Zx0Error::WindowTooSmall);
        }
        let ghost held = buf@;
        proof {
            lemma_small_mod(0, held.len());
            delivery::lemma_next_multiple(0, held.len());
            assert(held =~= delivery::ring(held, Seq::empty()));
            assert(Seq::<Delivery<E>>::empty() =~= delivery::all_accepted::<E>(
                delivery::chunks(Seq::empty(), held.len(), false),
            ));
            assert(0nat / held.len() == 0) by (nonlinear_arith)
                requires
                    held.len() > 0,
            ;
        }
        Ok(
            Self {
                buf,
                write_idx: 0,
                produced: 0,
                flushes: 0,
                output,
                init: Ghost(held),
                out: Ghost(Seq::empty()),
                log: Ghost(Seq::empty()),
            },
        )
    }

    /// Hands the first `len` bytes of the storage to the callback.
    fn flush(&mut self, len: usize) -> (res: Result<(), Zx0Error<E>>)
        requires
            old(self).holds_output(),
            len <= old(self).buf@.len(),
        ensures
            final(self).holds_output(),
            final(self).continues(old(self)),
            final(final(self).buf)@ == final(old(self).buf)@,
            final(self).out@ == old(self).out@,
            final(self).write_idx == old(self).write_idx,
            final(self).produced == old(self).produced,
            match res {
                Ok(()) => {
                    &&& final(self).log@ == old(self).log@.push(
                        (old(self).buf@.subrange(0, len as int), Ok(())),
                    )
                    &&& final(self).flushes == capped(
                        (old(self).flushes + 1) as nat,
                        u32::MAX as int,
                    )
                },
                Err(err) => err matches Zx0Error::CallbackError(e) && final(self).log@ == old(
                    self,
                ).log@.push((old(self).buf@.subrange(0, len as int), Err(e))),
            },
    {
        let ghost sent = self.buf@.subrange(0, len as int);
        let answer = (self.output)(&self.buf[0..len]);
        proof {
            assert(delivery::may_answer(self.output, sent, answer));
            self.log@ = self.log@.push((sent, answer));
        }
        match answer {
            Ok(unit) => {
                self.flushes = self.flushes.saturating_add(1);
                assert(unit == ());
                Ok(())
            },
            Err(e) => Err(Zx0Error::CallbackError(e)),
        }
    }

    /// Appends one byte, flushing the full window through the callback when it fills.
    pub fn write_byte(&mut self, byte: u8) -> (res: Result<(), Zx0Error<E>>)
        requires
            old(self).wf(),
        ensures
            final(self).continues(old(self)),
            final(final(self).buf)@ == final(old(self).buf)@,
            final(self).out@ == old(self).out@.push(byte),
            final(self).write_idx < final(self).buf@.len(),
            final(self).produced == capped(final(self).out@.len(), usize::MAX as int),
            match res {
                Ok(()) => final(self).wf(),
                Err(e) => final(self).refused(false, e),
            },
            if old(self).write_idx + 1 < old(self).buf@.len() {
                res is Ok && final(self).log@ == old(self).log@
            } else {
                final(self).log@ == old(self).log@.push(
                    (
                        final(self).buf@,
                        match res {
                            Err(Zx0Error::CallbackError(e)) => Err(e),
                            _ => Ok(()),
                        },
                    ),
                )
            },
    {
        let ghost n = self.buf@.len();
        let ghost before = self.out@;
        proof {
            delivery::lemma_next_multiple(self.out@.len(), n);
            delivery::lemma_ring_push(self.init@, self.out@, byte);
        }
        self.buf[self.write_idx] = byte;
        self.write_idx += 1;
        self.produced = self.produced.saturating_add(1);
        proof {
            self.out@ = self.out@.push(byte);
        }
        proof {
            lemma_chunks_push(before, byte, n);
        }
        if self.write_idx == self.buf.len() {
            proof {
                let k = before.len() / n;
                assert(self.buf@.subrange(0, n as int) =~= delivery::chunk(self.out@, n, k as int))
                    by {
                    lemma_window_chunk(self.init@, self.out@, k as int);
                }
                assert(self.buf@.subrange(0, n as int) =~= self.buf@);
            }
            let len = self.buf.len();
            match self.flush(len) {
                Ok(()) => {},
                Err(e) => {
                    proof {
                        let due = delivery::chunks(self.out@, n, false);
                        assert(due.drop_last() =~= delivery::chunks(before, n, false));
                    }
                    self.write_idx = 0;
                    return Err(e);
                },
            }
            self.write_idx = 0;
            proof {
                assert(self.log@ =~= delivery::all_accepted::<E>(
                    delivery::chunks(self.out@, n, false),
                ));
            }
        } else {
            proof {
                assert(delivery::chunks(self.out@, n, false) =~= delivery::chunks(before, n, false));
            }
        }
        Ok(())
    }

    /// Copies `length` bytes from `offset` bytes back in the output.
    ///
    /// Copies byte-by-byte so overlapping matches (`offset < length`, i.e. RLE
    /// runs) reuse freshly written bytes, matching LZ semantics.
    pub fn copy_match(&mut self, offset: usize, length: u64) -> (res: Result<(), Zx0Error<E>>)
        requires
            old(self).wf(),
        ensures
            final(self).continues(old(self)),
            final(final(self).buf)@ == final(old(self).buf)@,
            if stream::offset_ok(offset as nat, old(self).out@.len()) {
                let whole = stream::lz_copy(old(self).out@, offset as nat, length as nat);
                match res {
                    Ok(()) => final(self).wf() && final(self).out@ == whole,
                    Err(e) => final(self).refused(false, e) && final(self).out@.is_prefix_of(whole),
                }
            } else {
                &&& res == Err::<(), Zx0Error<E>>(Zx0Error::InvalidOffset)
                &&& final(self).wf()
                &&& final(self).out@ == old(self).out@
            },
    {
        if offset == 0 || offset > MAX_OFFSET || offset > self.produced {
            return Err(Zx0Error::InvalidOffset);
        }
        let n: usize = self.buf.len();
        let ghost base = self.out@;
        let ghost whole = stream::lz_copy(base, offset as nat, length as nat);
        let mut done: u64 = 0;
        proof {
            assert(base =~= stream::lz_copy(base, offset as nat, 0));
        }
        while done < length
            invariant
                done <= length,
                n == self.buf@.len(),
                1 <= offset <= MAX_OFFSET,
                offset <= base.len(),
                base == old(self).out@,
                self.wf(),
                self.continues(old(self)),
                final(self.buf)@ == final(old(self).buf)@,
                self.out@ == stream::lz_copy(base, offset as nat, done as nat),
                whole == stream::lz_copy(base, offset as nat, length as nat),
            decreases length - done,
        {
            // `offset <= MAX_OFFSET < n`, so this stays non-negative and lands on
            // a byte that has not yet been overwritten this pass.
            let src: usize = if self.write_idx >= offset {
                self.write_idx - offset
            } else {
                n - (offset - self.write_idx)
            };
            proof {
                lemma_source(self.init@, self.out@, offset as int);
                lemma_lz_copy_step(base, offset as nat, done as nat);
                lemma_lz_copy_prefix(base, offset as nat, (done + 1) as nat, length as nat);
            }
            let byte = self.buf[src];
            match self.write_byte(byte) {
                Ok(()) => {},
                Err(e) => {
                    return Err(e);
                },
            }
            done += 1;
        }
        Ok(())
    }

    /// Flushes any bytes written since the last full-window flush.
    pub fn flush_remainder(&mut self) -> (res: Result<(), Zx0Error<E>>)
        requires
            old(self).wf(),
        ensures
            final(self).continues(old(self)),
            final(final(self).buf)@ == final(old(self).buf)@,
            final(self).out@ == old(self).out@,
            match res {
                Ok(()) => final(self).drained(),
                Err(e) => final(self).refused(true, e),
            },
    {
        let ghost n = self.buf@.len();
        let ghost k = (self.out@.len() / n) as int;
        proof {
            delivery::lemma_next_multiple(self.out@.len(), n);
            assert(k * n + n == (k + 1) * n) by (nonlinear_arith);
        }
        if self.write_idx > 0 {
            proof {
                assert(self.buf@.subrange(0, self.write_idx as int) =~= delivery::chunk(
                    self.out@,
                    n,
                    k,
                )) by {
                    lemma_window_chunk(self.init@, self.out@, k);
                }
            }
            let len = self.write_idx;
            let ghost due = delivery::chunks(self.out@, n, true);
            match self.flush(len) {
                Ok(()) => {},
                Err(e) => {
                    proof {
                        assert(due.drop_last() =~= delivery::chunks(self.out@, n, false));
                    }
                    return Err(e);
                },
            }
            self.write_idx = 0;
            proof {
                assert(self.log@ =~= delivery::all_accepted::<E>(due));
            }
        } else {
            proof {
                assert(delivery::chunks(self.out@, n, true) =~= delivery::chunks(
                    self.out@,
                    n,
                    false,
                ));
            }
        }
        Ok(())
    }
}

/// The window holds the chunk that it is filling, or has just filled.
proof fn lemma_window_chunk(init: Seq<u8>, out: Seq<u8>, k: int)
    requires
        0 < init.len(),
        0 <= k,
        k * init.len() < out.len() <= (k + 1) * init.len(),
    ensures
        delivery::chunk(out, init.len(), k) =~= delivery::ring(init, out).subrange(
            0,
            out.len() - k * init.len(),
        ),
{
    let n = init.len() as int;
    assert(k * n + n == (k + 1) * n) by (nonlinear_arith);
    assert(0 <= k * n) by (nonlinear_arith)
        requires
            0 <= k,
            0 < n,
    ;
    assert forall|i: int| 0 <= i < out.len() - k * n implies delivery::ring(init, out)[i]
        == out[k * n + i] by {
        vstd::arithmetic::div_mod::lemma_fundamental_div_mod_converse(k * n + i, n, k, i);
        delivery::lemma_ring_index(init, out, k * n + i);
    }
}

/// One more byte leaves the chunks before it as they are.
proof fn lemma_chunks_push(out: Seq<u8>, byte: u8, n: nat)
    requires
        0 < n,
    ensures
        forall|k: int|
            0 <= k < out.len() / n ==> delivery::chunk(out, n, k) == #[trigger] delivery::chunk(
                out.push(byte),
                n,
                k,
            ),
{
    assert(out.is_prefix_of(out.push(byte)));
    assert forall|k: int| 0 <= k < out.len() / n implies delivery::chunk(out, n, k)
        == #[trigger] delivery::chunk(out.push(byte), n, k) by {
        delivery::lemma_full_chunk(out.len(), n, k);
        delivery::lemma_chunk_prefix(out, out.push(byte), n, k);
    }
}

/// The byte `offset` back in the output is still in the window.
proof fn lemma_source(init: Seq<u8>, out: Seq<u8>, offset: int)
    requires
        0 < init.len(),
        1 <= offset <= init.len(),
        offset <= out.len(),
    ensures
        ({
            let n = init.len() as int;
            let idx = out.len() as int % n;
            let src = if idx >= offset {
                idx - offset
            } else {
                idx + n - offset
            };
            0 <= src < n && delivery::ring(init, out)[src] == out[out.len() - offset]
        }),
{
    let n = init.len() as int;
    let len = out.len() as int;
    let idx = len % n;
    let q = len / n;
    delivery::lemma_next_multiple(out.len(), init.len());
    if idx >= offset {
        vstd::arithmetic::div_mod::lemma_fundamental_div_mod_converse(
            len - offset,
            n,
            q,
            idx - offset,
        );
    } else {
        assert((q - 1) * n + n == q * n) by (nonlinear_arith);
        vstd::arithmetic::div_mod::lemma_fundamental_div_mod_converse(
            len - offset,
            n,
            q - 1,
            idx + n - offset,
        );
    }
    delivery::lemma_ring_index(init, out, len - offset);
}

/// A match grows by the byte that lies its offset back.
pub proof fn lemma_lz_copy_step(out: Seq<u8>, offset: nat, length: nat)
    requires
        1 <= offset <= out.len(),
    ensures
        ({
            let so_far = stream::lz_copy(out, offset, length);
            stream::lz_copy(out, offset, length + 1) == so_far.push(so_far[so_far.len() - offset])
        }),
{
    let so_far = stream::lz_copy(out, offset, length);
    let i = length as int;
    let o = offset as int;
    if i < o {
        lemma_small_mod(length, offset);
    } else {
        lemma_mod_sub_multiples_vanish(i, o);
        vstd::arithmetic::div_mod::lemma_mod_bound(i - o, o);
    }
    assert(stream::lz_copy(out, offset, length + 1) =~= so_far.push(
        so_far[so_far.len() - offset],
    ));
}

/// A shorter match is a prefix of a longer one.
proof fn lemma_lz_copy_prefix(out: Seq<u8>, offset: nat, shorter: nat, longer: nat)
    requires
        shorter <= longer,
    ensures
        stream::lz_copy(out, offset, shorter).is_prefix_of(stream::lz_copy(out, offset, longer)),
{
    let a = stream::lz_copy(out, offset, shorter);
    let b = stream::lz_copy(out, offset, longer);
    assert(a =~= b.subrange(0, a.len() as int));
}

} // verus!
