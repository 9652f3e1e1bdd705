//! ZX0 decompressor (v2 format).
//!
//! ZX0 emits back-references that copy bytes from earlier in the decompressed
//! output, so the decoder needs random read access to recent output. Instead of
//! buffering the entire output, this implementation uses a caller-provided
//! sliding window that doubles as a flush buffer: as the window fills it is
//! handed to an output callback in chunks, then reused. Because ZX0's maximum
//! back-reference distance is [`MAX_OFFSET`], a window of [`MIN_WINDOW_LEN`] bytes
//! is enough to keep every live back-reference reachable.
//!
//! What a stream means is the spec function [`stream::decode`]; in which chunks
//! its bytes reach the callback, and what the window holds afterwards, are the spec
//! functions of [`delivery`].

pub mod delivery;
pub mod encoding;
pub mod error;
pub mod laws;
pub mod reader;
pub mod stream;
pub mod window;

use core::convert::Infallible;

use vstd::prelude::*;

use delivery::Delivery;
use reader::BitReader;
use stream::{State, END_MARKER};
use window::Window;

pub use error::Zx0Error;
pub use stream::{MAX_OFFSET, MIN_WINDOW_LEN};

verus! {

/// The stream has come to its end marker.
pub open spec fn ended(run: stream::Run) -> bool {
    run.end is Ok || run.end == Err::<(), stream::StreamError>(stream::StreamError::TrailingData)
}

/// The chunks in which the meaning of a stream is handed on by a window of `n` bytes.
pub open spec fn due(input: Seq<u8>, n: nat) -> Seq<Seq<u8>> {
    delivery::chunks(stream::decode(input).out, n, ended(stream::decode(input)))
}

/// How far into the output the chunks before chunk `k`, and it, reach.
pub open spec fn end_of_chunk(out: Seq<u8>, n: nat, k: int) -> int {
    if (k + 1) * n <= out.len() {
        (k + 1) * n
    } else {
        out.len() as int
    }
}

/// A decompression that the callback broke off at chunk `k` with the error `e`: the
/// chunks before it were accepted, and the window holds what was produced till then.
pub open spec fn broken_off<E>(
    input: Seq<u8>,
    before: Seq<u8>,
    after: Seq<u8>,
    log: Seq<Delivery<E>>,
    k: int,
    e: E,
) -> bool {
    let n = before.len();
    let out = stream::decode(input).out;
    &&& 0 <= k < due(input, n).len()
    &&& log == delivery::all_accepted::<E>(due(input, n).take(k)).push((due(input, n)[k], Err(e)))
    &&& after == delivery::ring(before, out.take(end_of_chunk(out, n, k)))
}

/// All that a decompression does: what it returns, what it hands to the callback and
/// in which order, and how it leaves a window that held `before`.
pub open spec fn decompressed<E>(
    input: Seq<u8>,
    before: Seq<u8>,
    after: Seq<u8>,
    log: Seq<Delivery<E>>,
    res: Result<(), Zx0Error<E>>,
) -> bool {
    let run = stream::decode(input);
    let n = before.len();
    if n < MIN_WINDOW_LEN {
        &&& res == Err::<(), Zx0Error<E>>(Zx0Error::WindowTooSmall)
        &&& log == Seq::<Delivery<E>>::empty()
        &&& after == before
    } else {
        match res {
            Err(Zx0Error::CallbackError(e)) => exists|k: int| #[trigger]
                broken_off(input, before, after, log, k, e),
            _ => {
                &&& res == match run.end {
                    Ok(()) => Ok(()),
                    Err(e) => Err(error::stream_error::<E>(e)),
                }
                &&& log == delivery::all_accepted::<E>(due(input, n))
                &&& after == delivery::ring(before, run.out)
            },
        }
    }
}

/// The output of a decoder only grows.
proof fn lemma_decode_grows(input: Seq<u8>, p: stream::Progress)
    requires
        stream::bits_wf(input, p.bits),
    ensures
        p.out.is_prefix_of(stream::decode_from(input, p).out),
    decreases stream::bits_left(input, p.bits),
{
    stream::lemma_step_advances(input, p);
    let run = stream::decode_from(input, p);
    match stream::step(input, p) {
        stream::Step::End(_) => {
            assert(p.out =~= run.out.subrange(0, p.out.len() as int));
        },
        stream::Step::Next(next) => {
            lemma_decode_grows(input, next);
            assert(p.out =~= next.out.subrange(0, p.out.len() as int));
            assert(p.out =~= run.out.subrange(0, p.out.len() as int));
        },
    }
}

/// A refusal in the midst of the output is one at the same chunk of the whole.
proof fn lemma_refused_early<'a, E, F: FnMut(&[u8]) -> Result<(), E>>(
    input: Seq<u8>,
    win: &Window<'a, E, F>,
    err: Zx0Error<E>,
)
    requires
        win.refused(false, err),
        win.out@.is_prefix_of(stream::decode(input).out),
    ensures
        decompressed(input, win.init@, win.held(), win.log@, Err(err)),
{
    let n = win.buf@.len();
    let out = stream::decode(input).out;
    let part = delivery::chunks(win.out@, n, false);
    let all = due(input, n);
    let k = part.len() - 1;
    delivery::lemma_next_multiple(win.out@.len(), n);
    delivery::lemma_next_multiple(out.len(), n);
    assert(win.out@.len() / n <= out.len() / n) by {
        vstd::arithmetic::div_mod::lemma_div_is_ordered(
            win.out@.len() as int,
            out.len() as int,
            n as int,
        );
    }
    assert forall|j: int| 0 <= j < part.len() implies part[j] == all[j] by {
        delivery::lemma_full_chunk(win.out@.len(), n, j);
        delivery::lemma_chunk_prefix(win.out@, out, n, j);
    }
    assert(part.drop_last() =~= all.take(k));
    assert(win.out@ =~= out.take((k + 1) * n));
    if let Zx0Error::CallbackError(e) = err {
        assert(broken_off(input, win.init@, win.buf@, win.log@, k, e));
    }
}

/// The output behind a block.
spec fn out_of(step: stream::Step) -> Seq<u8> {
    match step {
        stream::Step::Next(p) => p.out,
        stream::Step::End(run) => run.out,
    }
}

/// Reading a block has failed: the stream is at fault and ends there, or the callback
/// has refused a part of the block's output.
spec fn block_failed<'a, E, F: FnMut(&[u8]) -> Result<(), E>>(
    step: stream::Step,
    win: &Window<'a, E, F>,
    err: Zx0Error<E>,
) -> bool {
    if err is CallbackError {
        win.refused(false, err) && win.out@.is_prefix_of(out_of(step))
    } else {
        &&& win.wf()
        &&& step matches stream::Step::End(run)
        &&& run.out == win.out@
        &&& !ended(run)
        &&& run.end matches Err(e)
        &&& err == error::stream_error::<E>(e)
    }
}

/// Reads the bit that tells the next block.
fn read_next<'a, E>(reader: &mut BitReader<'a>, otherwise: State) -> (res: Result<
    State,
    Zx0Error<E>,
>)
    requires
        old(reader).wf(),
    ensures
        final(reader).wf(),
        final(reader).input() == old(reader).input(),
        match stream::next_bit(old(reader).input(), old(reader)@) {
            Some((bit, bits)) => {
                &&& final(reader)@ == bits
                &&& res == Ok::<State, Zx0Error<E>>(
                    if bit == 1 {
                        State::CopyFromNewOffset
                    } else {
                        otherwise
                    },
                )
            },
            None => res == Err::<State, Zx0Error<E>>(Zx0Error::TruncatedInput),
        },
{
    match reader.read_bit() {
        Ok(bit) => if bit == 1 {
            Ok(State::CopyFromNewOffset)
        } else {
            Ok(otherwise)
        },
        Err(e) => Err(e),
    }
}

/// Reads a literal run.
fn literal_block<'a, 'b, E, F>(
    reader: &mut BitReader<'a>,
    win: &mut Window<'b, E, F>,
    Ghost(p): Ghost<stream::Progress>,
) -> (res: Result<State, Zx0Error<E>>) where F: FnMut(&[u8]) -> Result<(), E>
    requires
        old(reader).wf(),
        old(win).wf(),
        p.state is CopyLiterals,
        p.bits == old(reader)@,
        p.out == old(win).out@,
    ensures
        final(reader).wf(),
        final(reader).input() == old(reader).input(),
        final(win).continues(old(win)),
        final(final(win).buf)@ == final(old(win).buf)@,
        match res {
            Ok(state) => {
                &&& final(win).wf()
                &&& stream::step(old(reader).input(), p) == stream::Step::Next(
                    (stream::Progress { bits: final(reader)@, state, out: final(win).out@, ..p }),
                )
            },
            Err(e) => block_failed(stream::step(old(reader).input(), p), final(win), e),
        },
{
    let ghost input = reader.input();
    let ghost step = stream::step(input, p);
    proof {
        stream::lemma_gamma_from(input, p.bits, false, 1);
    }
    let length: u32 = match reader.read_elias_gamma(false) {
        Ok(length) => length,
        Err(e) => {
            return Err(e);
        },
    };
    let ghost b = reader@;
    proof {
        assert(input.subrange(b.pos as int, b.pos as int) =~= Seq::empty());
        assert(p.out + input.subrange(b.pos as int, b.pos as int) =~= p.out);
    }
    let mut done: u32 = 0;
    while done < length
        invariant
            done <= length,
            reader.wf(),
            reader.input() == input,
            input == old(reader).input(),
            stream::gamma(input, p.bits, false) == Ok::<(nat, stream::Bits), stream::StreamError>(
                (length as nat, b),
            ),
            stream::bits_wf(input, b),
            step == stream::literals(input, p),
            step == stream::step(old(reader).input(), p),
            b.pos + done <= input.len(),
            reader@ == (stream::Bits { pos: b.pos + done as nat, ..b }),
            win.wf(),
            win.continues(old(win)),
            final(win.buf)@ == final(old(win).buf)@,
            win.out@ == p.out + input.subrange(b.pos as int, b.pos + done),
        decreases length - done,
    {
        let byte: u8 = match reader.read_byte() {
            Ok(byte) => byte,
            Err(e) => {
                return Err(e);
            },
        };
        proof {
            assert(input.subrange(b.pos as int, b.pos + done).push(byte) =~= input.subrange(
                b.pos as int,
                b.pos + done + 1,
            ));
            assert(win.out@.push(byte) =~= p.out + input.subrange(b.pos as int, b.pos + done + 1));
            let whole = out_of(step);
            assert(win.out@.push(byte) =~= whole.subrange(0, (win.out@.len() + 1) as int));
        }
        match win.write_byte(byte) {
            Ok(()) => {},
            Err(e) => {
                return Err(e);
            },
        }
        done += 1;
    }
    // A literal run is never followed by another literal run, so the next bit
    // chooses between reusing the last offset and a new one.
    read_next(reader, State::CopyFromLastOffset)
}

/// Copies a match whose offset and length have been read, and reads what follows it.
fn match_block<'a, 'b, E, F>(
    reader: &mut BitReader<'a>,
    win: &mut Window<'b, E, F>,
    offset: usize,
    length: u64,
) -> (res: Result<State, Zx0Error<E>>) where F: FnMut(&[u8]) -> Result<(), E>
    requires
        old(reader).wf(),
        old(win).wf(),
    ensures
        final(reader).wf(),
        final(reader).input() == old(reader).input(),
        final(win).continues(old(win)),
        final(final(win).buf)@ == final(old(win).buf)@,
        ({
            let step = stream::copy_match(
                old(reader).input(),
                old(reader)@,
                offset as nat,
                length as nat,
                old(win).out@,
            );
            match res {
                Ok(state) => {
                    &&& final(win).wf()
                    &&& step == stream::Step::Next(
                        (stream::Progress {
                            bits: final(reader)@,
                            state,
                            out: final(win).out@,
                            last_offset: offset as nat,
                        }),
                    )
                },
                Err(e) => block_failed(step, final(win), e),
            }
        }),
{
    match win.copy_match(offset, length) {
        Ok(()) => {},
        Err(e) => {
            return Err(e);
        },
    }
    read_next(reader, State::CopyLiterals)
}

/// What the place of a new offset may hold.
enum NewOffset {
    /// The end marker.
    End,
    /// An offset; its match has been copied and is followed by this block.
    Match { offset: usize, next: State },
}

/// Reads a new offset and its match, or the end marker.
fn new_offset_block<'a, 'b, E, F>(
    reader: &mut BitReader<'a>,
    win: &mut Window<'b, E, F>,
    Ghost(p): Ghost<stream::Progress>,
) -> (res: Result<NewOffset, Zx0Error<E>>) where F: FnMut(&[u8]) -> Result<(), E>
    requires
        old(reader).wf(),
        old(win).wf(),
        p.state is CopyFromNewOffset,
        p.bits == old(reader)@,
        p.out == old(win).out@,
    ensures
        final(reader).wf(),
        final(reader).input() == old(reader).input(),
        final(win).continues(old(win)),
        final(final(win).buf)@ == final(old(win).buf)@,
        ({
            let step = stream::step(old(reader).input(), p);
            match res {
                Ok(NewOffset::End) => {
                    &&& final(win).wf()
                    &&& final(win).out@ == p.out
                    &&& step == stream::Step::End(
                        (stream::Run {
                            out: p.out,
                            end: if final(reader)@.pos < final(reader).input().len() {
                                Err(stream::StreamError::TrailingData)
                            } else {
                                Ok(())
                            },
                        }),
                    )
                },
                Ok(NewOffset::Match { offset, next }) => {
                    &&& final(win).wf()
                    &&& step == stream::Step::Next(
                        (stream::Progress {
                            bits: final(reader)@,
                            state: next,
                            out: final(win).out@,
                            last_offset: offset as nat,
                        }),
                    )
                },
                Err(e) => block_failed(step, final(win), e),
            }
        }),
{
    proof {
        stream::lemma_gamma_from(reader.input(), p.bits, true, 1);
    }
    let msb: u32 = match reader.read_elias_gamma(true) {
        Ok(msb) => msb,
        Err(e) => {
            return Err(e);
        },
    };
    if msb == END_MARKER {
        return Ok(NewOffset::End);
    }
    if msb > END_MARKER {
        // Only reachable on corrupt input; keeps the offset math from
        // overflowing and the result within the valid range.
        return Err(Zx0Error::InvalidOffset);
    }
    let lsb: usize = match reader.read_offset_lsb() {
        Ok(lsb) => lsb,
        Err(e) => {
            return Err(e);
        },
    };
    // msb in 1..=255 and lsb in 0..=127, so this is always in 1..=MAX_OFFSET.
    let offset: usize = msb as usize * 128 - lsb;
    proof {
        stream::lemma_gamma_from(reader.input(), reader@, false, 1);
    }
    let length: u32 = match reader.read_elias_gamma(false) {
        Ok(length) => length,
        Err(e) => {
            return Err(e);
        },
    };
    match match_block(reader, win, offset, length as u64 + 1) {
        Ok(next) => Ok(NewOffset::Match { offset, next }),
        Err(e) => Err(e),
    }
}

/// A refusal of the last chunk of all output is one at the last chunk that is due.
proof fn lemma_refused_last<'a, E, F: FnMut(&[u8]) -> Result<(), E>>(
    input: Seq<u8>,
    win: &Window<'a, E, F>,
    err: Zx0Error<E>,
)
    requires
        win.refused(true, err),
        ended(stream::decode(input)),
        win.out@ == stream::decode(input).out,
    ensures
        decompressed(input, win.init@, win.held(), win.log@, Err(err)),
{
    let n = win.buf@.len();
    let all = due(input, n);
    let out = win.out@;
    let k = all.len() - 1;
    delivery::lemma_next_multiple(out.len(), n);
    assert(all.drop_last() =~= all.take(k));
    assert((k + 1) * n >= out.len()) by (nonlinear_arith)
        requires
            k == if out.len() % n != 0 {
                (out.len() / n) as int
            } else {
                out.len() / n - 1
            },
            out.len() == (out.len() / n) * n + out.len() % n,
            out.len() % n < n,
            n > 0,
    ;
    assert(out.take(out.len() as int) =~= out);
    if let Zx0Error::CallbackError(e) = err {
        assert(broken_off(input, win.init@, win.buf@, win.log@, k, e));
    }
}

/// Reads all blocks of a stream into a window.
fn decode_blocks<'a, E, F>(input: &[u8], win: &mut Window<'a, E, F>) -> (res: Result<
    (),
    Zx0Error<E>,
>) where F: FnMut(&[u8]) -> Result<(), E>
    requires
        old(win).wf(),
        old(win).out@ == Seq::<u8>::empty(),
    ensures
        final(win).continues(old(win)),
        final(final(win).buf)@ == final(old(win).buf)@,
        decompressed(input@, final(win).init@, final(win).buf@, final(win).log@, res),
        delivery::log_of(final(win).output, final(win).log@),
        res is Ok ==> final(win).drained() && final(win).out@ == stream::decode(input@).out,
{
    let mut reader = BitReader::new(input);
    let mut last_offset: usize = 1;
    let mut state = State::CopyLiterals;
    loop
        invariant
            reader.wf(),
            reader.input() == input@,
            win.wf(),
            win.continues(old(win)),
            final(win.buf)@ == final(old(win).buf)@,
            stream::bits_wf(input@, reader@),
            stream::decode(input@) == stream::decode_from(
                input@,
                (stream::Progress {
                    bits: reader@,
                    state,
                    last_offset: last_offset as nat,
                    out: win.out@,
                }),
            ),
        decreases stream::bits_left(input@, reader@),
    {
        let ghost p = stream::Progress {
            bits: reader@,
            state,
            last_offset: last_offset as nat,
            out: win.out@,
        };
        let ghost step = stream::step(input@, p);
        proof {
            stream::lemma_step_advances(input@, p);
            stream::lemma_gamma_from(input@, p.bits, false, 1);
            if let stream::Step::Next(next) = step {
                lemma_decode_grows(input@, next);
            }
        }
        let next: Result<State, Zx0Error<E>> = match state {
            State::CopyLiterals => literal_block(&mut reader, win, Ghost(p)),
            State::CopyFromLastOffset => match reader.read_elias_gamma(false) {
                Ok(length) => match_block(&mut reader, win, last_offset, length as u64),
                Err(e) => Err(e),
            },
            State::CopyFromNewOffset => match new_offset_block(&mut reader, win, Ghost(p)) {
                Ok(NewOffset::End) => {
                    match win.flush_remainder() {
                        Ok(()) => {},
                        Err(e) => {
                            proof {
                                lemma_refused_last(input@, win, e);
                            }
                            return Err(e);
                        },
                    }
                    if reader.has_trailing_data() {
                        return Err(Zx0Error::TrailingData);
                    }
                    return Ok(());
                },
                Ok(NewOffset::Match { offset, next }) => {
                    last_offset = offset;
                    Ok(next)
                },
                Err(e) => Err(e),
            },
        };
        match next {
            Ok(s) => {
                state = s;
            },
            Err(e) => {
                proof {
                    if e is CallbackError {
                        lemma_refused_early(input@, win, e);
                    }
                }
                return Err(e);
            },
        }
    }
}

/// Decompresses a ZX0 v2 stream, and tells which calls of `output` were made.
///
/// This is [`decompress`] with the calls of the callback as a second, ghost result:
/// the chunks that it was given, in that order, each with what it returned.
pub fn decompress_logged<E, F>(input: &[u8], window: &mut [u8], output: F) -> (res: (
    Result<(), Zx0Error<E>>,
    Ghost<Seq<Delivery<E>>>,
)) where F: FnMut(&[u8]) -> Result<(), E>
    requires
        delivery::callable(output, old(window)@.len()),
    ensures
        decompressed(input@, old(window)@, final(window)@, res.1@, res.0),
        delivery::log_of(output, res.1@),
{
    let mut win = match Window::new(window, output) {
        Ok(win) => win,
        Err(e) => {
            return (Err(e), Ghost(Seq::empty()));
        },
    };
    let res = decode_blocks(input, &mut win);
    (res, Ghost(win.log@))
}

/// Decompresses a ZX0 v2 stream.
///
/// `input` is the compressed data, `window` is reusable scratch storage of at
/// least [`MIN_WINDOW_LEN`] bytes, and `output` receives the decompressed bytes
/// in order, in chunks. If `output` returns an error, decompression stops and
/// the error is returned as [`Zx0Error::CallbackError`].
pub fn decompress<E, F>(input: &[u8], window: &mut [u8], output: F) -> (res: Result<
    (),
    Zx0Error<E>,
>) where F: FnMut(&[u8]) -> Result<(), E>
    requires
        delivery::callable(output, old(window)@.len()),
    ensures
        exists|log: Seq<Delivery<E>>|
            {
                &&& #[trigger] decompressed(input@, old(window)@, final(window)@, log, res)
                &&& delivery::log_of(output, log)
            },
{
    let (res, _log) = decompress_logged(input, window, output);
    res
}

/// A single chunk is enough exactly for an output that fits the window, and then the
/// window holds all of it, from its start.
proof fn lemma_single_chunk(init: Seq<u8>, out: Seq<u8>)
    requires
        0 < init.len(),
    ensures
        delivery::chunks(out, init.len(), true).len() <= 1 <==> out.len() <= init.len(),
        out.len() <= init.len() ==> delivery::ring(init, out).subrange(0, out.len() as int) == out,
{
    let n = init.len() as int;
    let len = out.len() as int;
    let q = len / n;
    delivery::lemma_next_multiple(out.len(), init.len());
    assert(q <= 0 ==> q * n <= 0) by (nonlinear_arith)
        requires
            n > 0,
    ;
    assert(q == 1 ==> q * n == n) by (nonlinear_arith);
    assert(q >= 2 ==> q * n >= 2 * n) by (nonlinear_arith)
        requires
            n > 0,
    ;
    if len <= n {
        delivery::lemma_ring_prefix(init, out);
    }
}

/// A callback that accepts everything breaks nothing off.
proof fn lemma_never_broken_off<'a, E, F: FnMut(&[u8]) -> Result<(), E>>(
    input: Seq<u8>,
    win: &Window<'a, E, F>,
    err: Zx0Error<E>,
)
    requires
        win.init@.len() >= MIN_WINDOW_LEN,
        decompressed(input, win.init@, win.held(), win.log@, Err(err)),
        delivery::log_of(win.output, win.log@),
        forall|c: &[u8], answer: Result<(), E>| #[trigger]
            call_ensures(win.output, (c,), answer) ==> answer is Ok,
    ensures
        err !is CallbackError,
{
    if let Zx0Error::CallbackError(e) = err {
        let k = choose|k: int| #[trigger]
            broken_off(input, win.init@, win.held(), win.log@, k, e);
        assert(broken_off(input, win.init@, win.held(), win.log@, k, e));
        let last = win.log@[win.log@.len() - 1];
        assert(last.1 is Err);
        assert(delivery::may_answer(win.output, last.0, last.1));
    }
}

/// Decompresses a ZX0 v2 stream whose entire output fits in `buffer`, returning
/// the decompressed bytes as a sub-slice of `buffer`.
///
/// Unlike [`decompress`] -- which streams output through a callback and only needs
/// a [`MIN_WINDOW_LEN`]-sized scratch window -- this leaves the whole decompressed
/// block sitting in `buffer`, so the decode window *is* the destination: no
/// separate output storage is required. This is the entry point for random-access
/// use such as serving fixed-size blocks: decode a block once into `buffer`, then
/// read any byte range of the returned slice as many times as you like.
///
/// `buffer` serves double duty as the back-reference window and the output, so it
/// must be both at least [`MIN_WINDOW_LEN`] bytes *and* large enough to hold the
/// decompressed output. The result borrows `buffer` for as long as it is read.
///
/// # Errors
///
/// - [`Zx0Error::WindowTooSmall`] if `buffer` is shorter than [`MIN_WINDOW_LEN`].
/// - [`Zx0Error::OutputTooLarge`] if the decompressed output exceeds `buffer`.
/// - the same input/format errors as [`decompress`] for a malformed stream.
pub fn decompress_into<'b>(input: &[u8], buffer: &'b mut [u8]) -> (res: Result<
    &'b [u8],
    Zx0Error<Infallible>,
>)
    ensures
        ({
            let run = stream::decode(input@);
            if old(buffer)@.len() < MIN_WINDOW_LEN {
                &&& res == Err::<&'b [u8], Zx0Error<Infallible>>(Zx0Error::WindowTooSmall)
                &&& final(buffer)@ == old(buffer)@
            } else {
                &&& final(buffer)@ == delivery::ring(old(buffer)@, run.out)
                &&& match run.end {
                    Err(e) => res == Err::<&'b [u8], Zx0Error<Infallible>>(error::stream_error(e)),
                    Ok(()) => if run.out.len() > old(buffer)@.len() {
                        res == Err::<&'b [u8], Zx0Error<Infallible>>(Zx0Error::OutputTooLarge)
                    } else {
                        res matches Ok(decoded) && decoded@ == run.out
                    },
                }
            }
        }),
        forall|blocks: Seq<encoding::Block>|
            encoding::valid(blocks) && input@ == #[trigger] encoding::encode(blocks) && old(
                buffer,
            )@.len() > MAX_OFFSET ==> {
                let data = encoding::expand(blocks);
                if data.len() <= old(buffer)@.len() {
                    res matches Ok(decoded) && decoded@ == data
                } else {
                    res == Err::<&'b [u8], Zx0Error<Infallible>>(Zx0Error::OutputTooLarge)
                }
            },
{
    proof {
        assert forall|blocks: Seq<encoding::Block>|
            encoding::valid(blocks) && input@ == #[trigger] encoding::encode(
                blocks,
            ) implies stream::decode(input@).out == encoding::expand(blocks) && stream::decode(
            input@,
        ).end is Ok by {
            encoding::decoding_inverts_encoding(blocks);
        }
    }
    let output = |_chunk: &[u8]| -> (answer: Result<(), Infallible>)
        ensures
            answer is Ok,
        { Ok(()) };
    let produced: usize;
    {
        let mut win = match Window::new(&mut *buffer, output) {
            Ok(win) => win,
            Err(e) => {
                return Err(e);
            },
        };
        match decode_blocks(input, &mut win) {
            Ok(()) => {},
            Err(e) => {
                proof {
                    lemma_never_broken_off(input@, &win, e);
                }
                return Err(e);
            },
        }
        proof {
            lemma_single_chunk(win.init@, win.out@);
        }
        // The window flushes (and wraps) exactly when it fills, so a *single* flush
        // means the output never wrapped and is laid out linearly at `buffer[..produced]`.
        // More than one flush means the output is larger than `buffer` and its start
        // has already been overwritten -- unusable, so report it rather than return
        // corrupt data.
        if win.flushes > 1 {
            return Err(Zx0Error::OutputTooLarge);
        }
        produced = win.produced;
    }
    proof {
        assert(buffer@ == delivery::ring(old(buffer)@, stream::decode(input@).out));
        assert(buffer@.len() == buffer.len());
    }
    Ok(&buffer[0..produced])
}

} // verus!
