//! The ZX0 v2 stream format, as a mathematical model.
//!
//! A stream is read through a [`Bits`] cursor. Decoding is a sequence of blocks:
//! [`step`] reads one block, [`decode_from`] runs blocks to the end of the stream
//! and [`decode`] is the meaning of a whole stream: the bytes that it produces and
//! how it ends.

use vstd::prelude::*;

verus! {

/// Maximum back-reference distance the ZX0 v2 format can encode.
///
/// The offset is `msb * 128 - (lsb >> 1)` with `msb` in `1..=255` and the low
/// 7 bits in `0..=127`, so the largest representable offset is `255 * 128 = 32640`.
pub const MAX_OFFSET: usize = 32640;

/// Minimum length of the window slice passed to [`decompress`](super::decompress).
///
/// The window must be strictly larger than [`MAX_OFFSET`] so that a byte a live
/// back-reference still needs is never overwritten before it is read. `0x8000`
/// (32768) is a convenient size that satisfies this.
pub const MIN_WINDOW_LEN: usize = MAX_OFFSET + 1;

/// The ZX0 end-of-stream marker, encoded as the offset MSB value `256`.
pub const END_MARKER: u32 = 256;

/// Why a stream is not a complete, well-formed ZX0 stream.
pub enum StreamError {
    /// The input ends before the stream does.
    TruncatedInput,
    /// A back-reference reaches before the first byte of the output, or a number
    /// in the stream is larger than the format allows.
    InvalidOffset,
    /// Whole input bytes remain after the end marker.
    TrailingData,
}

/// The block the decoder is about to read next.
#[derive(Clone, Copy)]
pub enum State {
    /// Copy a run of literal bytes straight from the input.
    CopyLiterals,
    /// Copy a match reusing the previous offset.
    CopyFromLastOffset,
    /// Read a new offset, then copy a match from it.
    CopyFromNewOffset,
}

/// A position in the input: the next whole byte, and the bits of an earlier byte
/// that have not been read yet.
pub struct Bits {
    /// Index of the next unread input byte.
    pub pos: nat,
    /// The byte being read bit by bit.
    pub value: u8,
    /// How many of the low bits of `value` are still unread.
    pub left: nat,
    /// A bit that comes before those of `value`.
    pub pending: Option<u8>,
}

/// The cursor of a stream that has not been read from.
pub open spec fn start() -> Bits {
    Bits { pos: 0, value: 0, left: 0, pending: None }
}

/// A cursor lies inside its input.
pub open spec fn bits_wf(input: Seq<u8>, b: Bits) -> bool {
    &&& b.pos <= input.len()
    &&& b.left <= 8
    &&& b.pending matches Some(bit) ==> bit <= 1
}

/// How many bits are left to read, those of whole bytes included.
pub open spec fn bits_left(input: Seq<u8>, b: Bits) -> nat {
    (8 * (input.len() - b.pos) + b.left + if b.pending is Some {
        1int
    } else {
        0
    }) as nat
}

/// `2^k`, for the eight bit positions of a byte.
pub open spec fn bit_weight(k: nat) -> int {
    if k == 0 {
        1
    } else if k == 1 {
        2
    } else if k == 2 {
        4
    } else if k == 3 {
        8
    } else if k == 4 {
        16
    } else if k == 5 {
        32
    } else if k == 6 {
        64
    } else {
        128
    }
}

/// Bit `k` of a byte, counted from the least significant one.
pub open spec fn bit_of(value: u8, k: nat) -> u8 {
    ((value as int / bit_weight(k)) % 2) as u8
}

/// The next whole byte, and the cursor behind it.
pub open spec fn next_byte(input: Seq<u8>, b: Bits) -> Option<(u8, Bits)> {
    if b.pos < input.len() {
        Some((input[b.pos as int], Bits { pos: b.pos + 1, ..b }))
    } else {
        None
    }
}

/// The next bit, most significant first, and the cursor behind it.
pub open spec fn next_bit(input: Seq<u8>, b: Bits) -> Option<(u8, Bits)> {
    match b.pending {
        Some(bit) => Some((bit, Bits { pending: None, ..b })),
        None => if b.left > 0 {
            let k = (b.left - 1) as nat;
            Some((bit_of(b.value, k), Bits { left: k, ..b }))
        } else {
            match next_byte(input, b) {
                Some((value, b1)) => Some((bit_of(value, 7), Bits { value, left: 7, ..b1 })),
                None => None,
            }
        },
    }
}

/// The byte that holds the low bits of an offset: its top seven bits are returned, and its
/// last bit is fed back as the next bit of the stream.
pub open spec fn offset_lsb(input: Seq<u8>, b: Bits) -> Option<(nat, Bits)> {
    match next_byte(input, b) {
        Some((byte, b1)) => Some(
            ((byte / 2) as nat, Bits { pending: Some((byte % 2) as u8), ..b1 }),
        ),
        None => None,
    }
}

/// A data bit of an interlaced number, flipped where the number is stored inverted.
pub open spec fn data_bit(bit: u8, inverted: bool) -> nat {
    if inverted {
        (1 - bit) as nat
    } else {
        bit as nat
    }
}

/// The rest of an interlaced Elias gamma number of which `value` has been read.
///
/// A control bit `1` ends the number, a control bit `0` announces one more data
/// bit. A number that does not fit 32 bits is refused.
pub open spec fn gamma_from(input: Seq<u8>, b: Bits, inverted: bool, value: nat) -> Result<
    (nat, Bits),
    StreamError,
>
    decreases 0x1_0000_0000 - value,
    when 1 <= value < 0x1_0000_0000 && bits_wf(input, b)
{
    match next_bit(input, b) {
        None => Err(StreamError::TruncatedInput),
        Some((control, b1)) => if control == 1 {
            Ok((value, b1))
        } else if value >= 0x8000_0000 {
            Err(StreamError::InvalidOffset)
        } else {
            match next_bit(input, b1) {
                None => Err(StreamError::TruncatedInput),
                Some((bit, b2)) => gamma_from(
                    input,
                    b2,
                    inverted,
                    2 * value + data_bit(bit, inverted),
                ),
            }
        },
    }
}

/// An interlaced Elias gamma number.
pub open spec fn gamma(input: Seq<u8>, b: Bits, inverted: bool) -> Result<
    (nat, Bits),
    StreamError,
> {
    gamma_from(input, b, inverted, 1)
}

/// `out` extended by `length` bytes that repeat its last `offset` bytes.
///
/// A match longer than its offset repeats the bytes it has just written, so the
/// added bytes have the period `offset`.
pub open spec fn lz_copy(out: Seq<u8>, offset: nat, length: nat) -> Seq<u8> {
    out + Seq::new(length, |i: int| out[out.len() - offset + i % (offset as int)])
}

/// A match of this offset can be copied after `produced` bytes of output.
pub open spec fn offset_ok(offset: nat, produced: nat) -> bool {
    1 <= offset <= MAX_OFFSET && offset <= produced
}

/// What the decoder knows between two blocks.
pub struct Progress {
    pub bits: Bits,
    pub state: State,
    pub last_offset: nat,
    pub out: Seq<u8>,
}

/// The meaning of a stream: the bytes it produces, and how it ends. A stream that
/// ends with an error may have produced bytes before it.
pub struct Run {
    pub out: Seq<u8>,
    pub end: Result<(), StreamError>,
}

/// One block of a stream.
pub enum Step {
    Next(Progress),
    End(Run),
}

/// The bit behind a block: `1` announces a new offset, `0` the block `otherwise`.
pub open spec fn choose_next(
    input: Seq<u8>,
    b: Bits,
    otherwise: State,
    last_offset: nat,
    out: Seq<u8>,
) -> Step {
    match next_bit(input, b) {
        None => Step::End(Run { out, end: Err(StreamError::TruncatedInput) }),
        Some((bit, bits)) => Step::Next(
            Progress {
                bits,
                state: if bit == 1 {
                    State::CopyFromNewOffset
                } else {
                    otherwise
                },
                last_offset,
                out,
            },
        ),
    }
}

/// A literal run: a length, then that many bytes. A literal run is never followed
/// by another one, so what comes next is a match.
pub open spec fn literals(input: Seq<u8>, p: Progress) -> Step {
    match gamma(input, p.bits, false) {
        Err(e) => Step::End(Run { out: p.out, end: Err(e) }),
        Ok((length, b)) => if length > input.len() - b.pos {
            Step::End(
                Run {
                    out: p.out + input.subrange(b.pos as int, input.len() as int),
                    end: Err(StreamError::TruncatedInput),
                },
            )
        } else {
            choose_next(
                input,
                Bits { pos: b.pos + length, ..b },
                State::CopyFromLastOffset,
                p.last_offset,
                p.out + input.subrange(b.pos as int, (b.pos + length) as int),
            )
        },
    }
}

/// The copy of a match whose offset and length have been read.
pub open spec fn copy_match(
    input: Seq<u8>,
    b: Bits,
    offset: nat,
    length: nat,
    out: Seq<u8>,
) -> Step {
    if offset_ok(offset, out.len()) {
        choose_next(input, b, State::CopyLiterals, offset, lz_copy(out, offset, length))
    } else {
        Step::End(Run { out, end: Err(StreamError::InvalidOffset) })
    }
}

/// A match that reuses the previous offset: only its length is in the stream.
pub open spec fn last_offset_match(input: Seq<u8>, p: Progress) -> Step {
    match gamma(input, p.bits, false) {
        Err(e) => Step::End(Run { out: p.out, end: Err(e) }),
        Ok((length, b)) => copy_match(input, b, p.last_offset, length, p.out),
    }
}

/// A match with a new offset, or the end marker in the place of one.
///
/// The offset comes as an inverted number (its MSB) and a byte whose top seven
/// bits are its LSB and whose last bit is the next bit of the stream. The length
/// is one more than the number that follows.
pub open spec fn new_offset_match(input: Seq<u8>, p: Progress) -> Step {
    match gamma(input, p.bits, true) {
        Err(e) => Step::End(Run { out: p.out, end: Err(e) }),
        Ok((msb, b)) => if msb == END_MARKER {
            Step::End(
                Run {
                    out: p.out,
                    end: if b.pos < input.len() {
                        Err(StreamError::TrailingData)
                    } else {
                        Ok(())
                    },
                },
            )
        } else if msb > END_MARKER {
            Step::End(Run { out: p.out, end: Err(StreamError::InvalidOffset) })
        } else {
            match offset_lsb(input, b) {
                None => Step::End(Run { out: p.out, end: Err(StreamError::TruncatedInput) }),
                Some((lsb, b1)) => match gamma(input, b1, false) {
                    Err(e) => Step::End(Run { out: p.out, end: Err(e) }),
                    Ok((length, b2)) => copy_match(
                        input,
                        b2,
                        (msb * 128 - lsb) as nat,
                        length + 1,
                        p.out,
                    ),
                },
            }
        },
    }
}

/// Reads one block.
pub open spec fn step(input: Seq<u8>, p: Progress) -> Step {
    match p.state {
        State::CopyLiterals => literals(input, p),
        State::CopyFromLastOffset => last_offset_match(input, p),
        State::CopyFromNewOffset => new_offset_match(input, p),
    }
}

/// Reads blocks until the stream ends.
pub open spec fn decode_from(input: Seq<u8>, p: Progress) -> Run
    decreases bits_left(input, p.bits),
    when bits_wf(input, p.bits)
{
    proof {
        lemma_step_advances(input, p);
    }
    match step(input, p) {
        Step::End(run) => run,
        Step::Next(next) => decode_from(input, next),
    }
}

/// A stream starts with a literal run; the offset before the first new one is 1.
pub open spec fn initial() -> Progress {
    Progress {
        bits: start(),
        state: State::CopyLiterals,
        last_offset: 1,
        out: Seq::empty(),
    }
}

/// The meaning of a whole stream.
pub open spec fn decode(input: Seq<u8>) -> Run {
    decode_from(input, initial())
}

/// Reading a bit uses up exactly one.
pub proof fn lemma_next_bit(input: Seq<u8>, b: Bits)
    requires
        bits_wf(input, b),
    ensures
        next_bit(input, b) matches Some((bit, b1)) ==> {
            &&& bit <= 1
            &&& bits_wf(input, b1)
            &&& bits_left(input, b1) == bits_left(input, b) - 1
            &&& b1.pos >= b.pos
            &&& b1.pending is None
        },
        next_bit(input, b) is None <==> bits_left(input, b) == 0,
{
}

/// Reading a number uses up at least one bit.
pub proof fn lemma_gamma_from(input: Seq<u8>, b: Bits, inverted: bool, value: nat)
    requires
        1 <= value < 0x1_0000_0000,
        bits_wf(input, b),
    ensures
        gamma_from(input, b, inverted, value) matches Ok((v, b1)) ==> {
            &&& value <= v < 0x1_0000_0000
            &&& bits_wf(input, b1)
            &&& bits_left(input, b1) < bits_left(input, b)
            &&& b1.pos >= b.pos
            &&& b1.pending is None
        },
        gamma_from(input, b, inverted, value) matches Err(e) ==> e !is TrailingData,
    decreases 0x1_0000_0000 - value,
{
    lemma_next_bit(input, b);
    if let Some((control, b1)) = next_bit(input, b) {
        lemma_next_bit(input, b1);
        if control != 1 && value < 0x8000_0000 {
            if let Some((bit, b2)) = next_bit(input, b1) {
                lemma_gamma_from(input, b2, inverted, 2 * value + data_bit(bit, inverted));
            }
        }
    }
}

/// Reading a block that does not end the stream uses up at least one bit, and only
/// adds to the output.
pub proof fn lemma_step_advances(input: Seq<u8>, p: Progress)
    requires
        bits_wf(input, p.bits),
    ensures
        step(input, p) matches Step::Next(next) ==> {
            &&& bits_wf(input, next.bits)
            &&& bits_left(input, next.bits) < bits_left(input, p.bits)
        },
{
    match p.state {
        State::CopyLiterals => {
            lemma_gamma_from(input, p.bits, false, 1);
            if let Ok((length, b)) = gamma(input, p.bits, false) {
                if length <= input.len() - b.pos {
                    lemma_next_bit(input, Bits { pos: b.pos + length, ..b });
                }
            }
        },
        State::CopyFromLastOffset => {
            lemma_gamma_from(input, p.bits, false, 1);
            if let Ok((length, b)) = gamma(input, p.bits, false) {
                lemma_next_bit(input, b);
            }
        },
        State::CopyFromNewOffset => {
            lemma_gamma_from(input, p.bits, true, 1);
            if let Ok((msb, b)) = gamma(input, p.bits, true) {
                if let Some((lsb, b1)) = offset_lsb(input, b) {
                    lemma_gamma_from(input, b1, false, 1);
                    if let Ok((length, b2)) = gamma(input, b1, false) {
                        lemma_next_bit(input, b2);
                    }
                }
            }
        },
    }
}

} // verus!
