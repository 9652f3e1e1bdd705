//! Writing ZX0 v2 streams, as a mathematical model: what the format is for.
//!
//! A stream is made of blocks, and what blocks stand for is [`expand`]. [`encode`] writes
//! blocks down: bits fill bytes from the most significant one on, and whole bytes stand
//! between them. The laws say that decoding reads back what was written.

use vstd::prelude::*;

use super::delivery::Delivery;
use super::error::Zx0Error;
use super::laws;
use super::stream;
use super::stream::{Bits, Progress, Run, State, StreamError};

verus! {

/// A block of a stream.
pub enum Block {
    /// These bytes.
    Literals(Seq<u8>),
    /// So many bytes, each equal to the one as far back as in the match before.
    Repeat(nat),
    /// So many bytes, each equal to the one `offset` before it.
    Match { offset: nat, len: nat },
}

/// `out` extended by `n` bytes, each equal to the one `offset` before it.
pub open spec fn grow(out: Seq<u8>, offset: nat, n: nat) -> Seq<u8>
    decreases n,
{
    if n == 0 {
        out
    } else {
        let before = grow(out, offset, (n - 1) as nat);
        before.push(before[before.len() - offset])
    }
}

/// What blocks stand for behind the output `out`; the match before them had the offset
/// `last`.
pub open spec fn expand_from(out: Seq<u8>, last: nat, blocks: Seq<Block>) -> Seq<u8>
    decreases blocks.len(),
{
    if blocks.len() == 0 {
        out
    } else {
        match blocks[0] {
            Block::Literals(bytes) => expand_from(out + bytes, last, blocks.skip(1)),
            Block::Repeat(n) => expand_from(grow(out, last, n), last, blocks.skip(1)),
            Block::Match { offset, len } => expand_from(
                grow(out, offset, len),
                offset,
                blocks.skip(1),
            ),
        }
    }
}

/// What the blocks of a stream stand for.
pub open spec fn expand(blocks: Seq<Block>) -> Seq<u8> {
    expand_from(Seq::empty(), 1, blocks)
}

/// Blocks can stand in a stream behind `produced` bytes: literals do not follow literals,
/// a match that reuses its offset follows literals, and matches do not reach before the
/// first byte.
pub open spec fn valid_from(
    behind_literals: bool,
    last: nat,
    produced: nat,
    blocks: Seq<Block>,
) -> bool
    decreases blocks.len(),
{
    if blocks.len() == 0 {
        true
    } else {
        match blocks[0] {
            Block::Literals(bytes) => {
                &&& !behind_literals
                &&& 1 <= bytes.len() < 0x1_0000_0000
                &&& valid_from(true, last, produced + bytes.len(), blocks.skip(1))
            },
            Block::Repeat(n) => {
                &&& behind_literals
                &&& 1 <= n < 0x1_0000_0000
                &&& 1 <= last <= 32640
                &&& last <= produced
                &&& valid_from(false, last, produced + n, blocks.skip(1))
            },
            Block::Match { offset, len } => {
                &&& 1 <= offset <= 32640
                &&& offset <= produced
                &&& 2 <= len <= 0x1_0000_0000
                &&& valid_from(false, offset, produced + len, blocks.skip(1))
            },
        }
    }
}

/// Blocks make up a stream: it begins with literals.
pub open spec fn valid(blocks: Seq<Block>) -> bool {
    &&& blocks.len() > 0
    &&& blocks[0] is Literals
    &&& valid_from(false, 1, 0, blocks)
}

/// A stream that is being written.
pub struct Writer {
    pub bytes: Seq<u8>,
    /// Where the byte is that bits are written to.
    pub at: int,
    /// How many of its low bits are free.
    pub free: nat,
    /// The next bit goes to the low bit of the last byte instead.
    pub back: bool,
}

/// `2^k`.
pub open spec fn weight(k: nat) -> int
    decreases k,
{
    if k == 0 {
        1
    } else {
        2 * weight((k - 1) as nat)
    }
}

/// Nothing written.
pub open spec fn blank() -> Writer {
    Writer { bytes: Seq::empty(), at: 0, free: 0, back: false }
}

/// Write a bit, the most significant free one first.
pub open spec fn put_bit(w: Writer, bit: int) -> Writer {
    if w.back {
        Writer {
            bytes: w.bytes.update(w.bytes.len() - 1, (w.bytes.last() + bit) as u8),
            back: false,
            ..w
        }
    } else if w.free == 0 {
        Writer {
            bytes: w.bytes.push((128 * bit) as u8),
            at: w.bytes.len() as int,
            free: 7,
            back: false,
        }
    } else {
        let rest = (w.free - 1) as nat;
        Writer {
            bytes: w.bytes.update(w.at, (w.bytes[w.at] + bit * weight(rest)) as u8),
            free: rest,
            ..w
        }
    }
}

/// Write whole bytes.
pub open spec fn put_bytes(w: Writer, bytes: Seq<u8>) -> Writer {
    Writer { bytes: w.bytes + bytes, ..w }
}

/// Write the binary digits of a number behind the first one, each after a zero.
pub open spec fn put_digits(w: Writer, v: nat, inverted: bool) -> Writer
    decreases v,
{
    if v <= 1 {
        w
    } else {
        let digit = if inverted {
            1 - v % 2
        } else {
            (v % 2) as int
        };
        put_bit(put_bit(put_digits(w, v / 2, inverted), 0), digit)
    }
}

/// Write a number: its digits, and a one.
pub open spec fn put_number(w: Writer, v: nat, inverted: bool) -> Writer {
    put_bit(put_digits(w, v, inverted), 1)
}

/// Write an offset: how many times 128 it takes, rounded up, and a byte with what these
/// are more; the low bit of the byte is left for the next bit.
pub open spec fn put_offset(w: Writer, offset: nat) -> Writer {
    let high = (offset + 127) / 128;
    let low = (high * 128 - offset) as nat;
    let w1 = put_number(w, high, true);
    Writer { bytes: w1.bytes.push((2 * low) as u8), back: true, ..w1 }
}

/// Write a block.
pub open spec fn put_block(w: Writer, block: Block) -> Writer {
    match block {
        Block::Literals(bytes) => put_bytes(put_number(w, bytes.len(), false), bytes),
        Block::Repeat(n) => put_number(w, n, false),
        Block::Match { offset, len } => put_number(
            put_offset(w, offset),
            (len - 1) as nat,
            false,
        ),
    }
}

/// The bit before the first of these blocks: a one before a match with its own offset, or
/// before the end.
pub open spec fn announced(blocks: Seq<Block>) -> int {
    if blocks.len() == 0 || blocks[0] is Match {
        1
    } else {
        0
    }
}

/// Write blocks, each with the bit that announces what follows it.
pub open spec fn put_blocks(w: Writer, blocks: Seq<Block>) -> Writer
    decreases blocks.len(),
{
    if blocks.len() == 0 {
        w
    } else {
        let rest = blocks.skip(1);
        put_blocks(put_bit(put_block(w, blocks[0]), announced(rest)), rest)
    }
}

/// Write a stream: its blocks, and the end marker in the place of an offset.
pub open spec fn encode(blocks: Seq<Block>) -> Seq<u8> {
    put_number(put_blocks(blank(), blocks), 256, true).bytes
}

/// A writer is in order: the free bits are zero.
spec fn writer_ok(w: Writer) -> bool {
    &&& w.free <= 7
    &&& w.bytes.len() > 0 ==> 0 <= w.at < w.bytes.len() && w.bytes[w.at] as int % weight(w.free)
        == 0
    &&& w.bytes.len() == 0 ==> w.free == 0 && !w.back
    &&& w.back ==> w.at < w.bytes.len() - 1 && w.bytes.last() % 2 == 0
}

/// `all` is what has been written, with more behind it and in the free bits.
spec fn written_to(w: Writer, all: Seq<u8>) -> bool {
    &&& w.bytes.len() <= all.len()
    &&& forall|i: int|
        0 <= i < w.bytes.len() && i != w.at && !(w.back && i == w.bytes.len() - 1)
            ==> #[trigger] all[i] == w.bytes[i]
    &&& w.bytes.len() > 0 ==> all[w.at] as int / weight(w.free) == w.bytes[w.at] as int / weight(
        w.free,
    )
    &&& w.back ==> all[w.bytes.len() - 1] / 2 == w.bytes.last() / 2
}

/// Where a reader of `all` is that has read what has been written.
spec fn reader_at(w: Writer, all: Seq<u8>) -> Bits {
    Bits {
        pos: w.bytes.len(),
        value: if w.bytes.len() == 0 {
            0
        } else {
            all[w.at]
        },
        left: w.free,
        pending: if w.back {
            Some((all[w.bytes.len() - 1] % 2) as u8)
        } else {
            None
        },
    }
}

proof fn lemma_reader_wf(w: Writer, all: Seq<u8>)
    requires
        writer_ok(w),
        written_to(w, all),
    ensures
        stream::bits_wf(all, reader_at(w, all)),
{
}

proof fn lemma_weights()
    ensures
        weight(0) == 1,
        weight(1) == 2,
        weight(2) == 4,
        weight(3) == 8,
        weight(4) == 16,
        weight(5) == 32,
        weight(6) == 64,
        weight(7) == 128,
{
    reveal_with_fuel(weight, 8);
}

/// A bit that is added to a byte whose low bits are free can be read from it, and leaves the
/// bits above it as they are.
proof fn lemma_add_bit(byte: int, f: nat, bit: int, x: int)
    requires
        f <= 6,
        0 <= byte <= 255,
        byte % weight(f + 1) == 0,
        bit == 0 || bit == 1,
        0 <= x <= 255,
    ensures
        0 <= byte + bit * weight(f) <= 255,
        (byte + bit * weight(f)) % weight(f) == 0,
        x / weight(f) == (byte + bit * weight(f)) / weight(f) ==> x / weight(f + 1) == byte / weight(
            f + 1,
        ) && x / weight(f) % 2 == bit,
{
    lemma_weights();
    let w = weight(f);
    assert(bit * w == if bit == 0 {
        0
    } else {
        w
    }) by (nonlinear_arith)
        requires
            bit == 0 || bit == 1,
    ;
    if f == 0 {
    } else if f == 1 {
    } else if f == 2 {
    } else if f == 3 {
    } else if f == 4 {
    } else if f == 5 {
    } else {
    }
}

/// A bit that was written is read.
proof fn lemma_bit(w: Writer, bit: int, all: Seq<u8>)
    requires
        writer_ok(w),
        bit == 0 || bit == 1,
        written_to(put_bit(w, bit), all),
    ensures
        writer_ok(put_bit(w, bit)),
        written_to(w, all),
        stream::next_bit(all, reader_at(w, all)) == Some(
            (bit as u8, reader_at(put_bit(w, bit), all)),
        ),
        !put_bit(w, bit).back,
        put_bit(w, bit).bytes.len() > 0,
{
    lemma_weights();
    let w1 = put_bit(w, bit);
    let last = w.bytes.len() - 1;
    if w.back {
        assert(w1.bytes[last] == w.bytes[last] + bit);
        assert(all[last] == w1.bytes[last]);
        assert forall|i: int|
            0 <= i < w.bytes.len() && i != w.at && i != last implies #[trigger] all[i]
            == w.bytes[i] by {
            assert(all[i] == w1.bytes[i]);
        }
    } else if w.free == 0 {
        let n = w.bytes.len() as int;
        assert(w1.bytes[n] == 128 * bit);
        assert forall|i: int| 0 <= i < n implies #[trigger] all[i] == w.bytes[i] by {
            assert(all[i] == w1.bytes[i]);
        }
    } else {
        let f = (w.free - 1) as nat;
        let old_byte = w.bytes[w.at] as int;
        lemma_add_bit(old_byte, f, bit, all[w.at] as int);
        assert(w1.bytes[w.at] == old_byte + bit * weight(f));
        assert(stream::bit_weight(f) == weight(f));
        assert forall|i: int| 0 <= i < w.bytes.len() && i != w.at implies #[trigger] all[i]
            == w.bytes[i] by {
            assert(all[i] == w1.bytes[i]);
        }
    }
}

/// Bytes that were written are read.
proof fn lemma_bytes(w: Writer, bytes: Seq<u8>, all: Seq<u8>)
    requires
        writer_ok(w),
        !w.back,
        w.bytes.len() > 0,
        written_to(put_bytes(w, bytes), all),
    ensures
        writer_ok(put_bytes(w, bytes)),
        written_to(w, all),
        w.bytes.len() + bytes.len() <= all.len(),
        all.subrange(w.bytes.len() as int, (w.bytes.len() + bytes.len()) as int) == bytes,
        reader_at(put_bytes(w, bytes), all) == (Bits {
            pos: w.bytes.len() + bytes.len(),
            ..reader_at(w, all)
        }),
{
    let w1 = put_bytes(w, bytes);
    let n = w.bytes.len() as int;
    assert forall|i: int| 0 <= i < n && i != w.at implies #[trigger] all[i] == w.bytes[i] by {
        assert(all[i] == w1.bytes[i]);
    }
    assert forall|i: int| 0 <= i < bytes.len() implies #[trigger] all[n + i] == bytes[i] by {
        assert(all[n + i] == w1.bytes[n + i]);
    }
    assert(all.subrange(n, n + bytes.len()) =~= bytes);
}

/// The digits of a number that were written are read.
proof fn lemma_digits(w: Writer, v: nat, inverted: bool, all: Seq<u8>)
    requires
        writer_ok(w),
        1 <= v < 0x1_0000_0000,
        written_to(put_digits(w, v, inverted), all),
    ensures
        writer_ok(put_digits(w, v, inverted)),
        written_to(w, all),
        stream::gamma_from(all, reader_at(w, all), inverted, 1) == stream::gamma_from(
            all,
            reader_at(put_digits(w, v, inverted), all),
            inverted,
            v,
        ),
    decreases v,
{
    if v > 1 {
        let half = put_digits(w, v / 2, inverted);
        let digit = if inverted {
            1 - v % 2
        } else {
            (v % 2) as int
        };
        let w1 = put_bit(half, 0);
        lemma_digits_ok(w, v / 2, inverted);
        lemma_bit_ok(half, 0);
        lemma_bit(w1, digit, all);
        lemma_bit(half, 0, all);
        lemma_digits(w, v / 2, inverted, all);
        lemma_reader_wf(half, all);
        lemma_reader_wf(put_bit(w1, digit), all);
        assert(2 * (v / 2) + stream::data_bit(digit as u8, inverted) == v);
    }
}

/// Writing a bit keeps a writer in order.
proof fn lemma_bit_ok(w: Writer, bit: int)
    requires
        writer_ok(w),
        bit == 0 || bit == 1,
    ensures
        writer_ok(put_bit(w, bit)),
        !put_bit(w, bit).back,
        put_bit(w, bit).bytes.len() > 0,
{
    lemma_weights();
    let w1 = put_bit(w, bit);
    if w.free > 0 && !w.back {
        let f = (w.free - 1) as nat;
        lemma_add_bit(w.bytes[w.at] as int, f, bit, 0);
        assert(w1.bytes[w.at] == w.bytes[w.at] + bit * weight(f));
    }
}

/// Writing digits keeps a writer in order.
proof fn lemma_digits_ok(w: Writer, v: nat, inverted: bool)
    requires
        writer_ok(w),
    ensures
        writer_ok(put_digits(w, v, inverted)),
    decreases v,
{
    if v > 1 {
        lemma_digits_ok(w, v / 2, inverted);
        let half = put_digits(w, v / 2, inverted);
        lemma_bit_ok(half, 0);
        lemma_bit_ok(
            put_bit(half, 0),
            if inverted {
                1 - v % 2
            } else {
                (v % 2) as int
            },
        );
    }
}

/// Writing a number keeps a writer in order.
proof fn lemma_number_ok(w: Writer, v: nat, inverted: bool)
    requires
        writer_ok(w),
    ensures
        writer_ok(put_number(w, v, inverted)),
        !put_number(w, v, inverted).back,
        put_number(w, v, inverted).bytes.len() > 0,
{
    lemma_digits_ok(w, v, inverted);
    lemma_bit_ok(put_digits(w, v, inverted), 1);
}

/// A number that was written is read.
proof fn lemma_number(w: Writer, v: nat, inverted: bool, all: Seq<u8>)
    requires
        writer_ok(w),
        1 <= v < 0x1_0000_0000,
        written_to(put_number(w, v, inverted), all),
    ensures
        writer_ok(put_number(w, v, inverted)),
        !put_number(w, v, inverted).back,
        put_number(w, v, inverted).bytes.len() > 0,
        written_to(w, all),
        stream::gamma(all, reader_at(w, all), inverted) == Ok::<(nat, Bits), StreamError>(
            (v, reader_at(put_number(w, v, inverted), all)),
        ),
{
    let digits = put_digits(w, v, inverted);
    lemma_digits_ok(w, v, inverted);
    lemma_bit(digits, 1, all);
    lemma_digits(w, v, inverted, all);
    lemma_reader_wf(digits, all);
}

/// The parts of a new offset that were written are read.
proof fn lemma_offset(w: Writer, offset: nat, all: Seq<u8>)
    requires
        writer_ok(w),
        1 <= offset <= 32640,
        written_to(put_offset(w, offset), all),
    ensures
        writer_ok(put_offset(w, offset)),
        written_to(w, all),
        ({
            let high = (offset + 127) / 128;
            let low = (high * 128 - offset) as nat;
            let b = reader_at(put_number(w, high, true), all);
            &&& 1 <= high <= 255
            &&& stream::gamma(all, reader_at(w, all), true) == Ok::<(nat, Bits), StreamError>(
                (high, b),
            )
            &&& stream::offset_lsb(all, b) == Some((low, reader_at(put_offset(w, offset), all)))
        }),
{
    let high = (offset + 127) / 128;
    let low = (high * 128 - offset) as nat;
    let w1 = put_number(w, high, true);
    let w2 = put_offset(w, offset);
    lemma_number_ok(w, high, true);
    let n = w1.bytes.len() as int;
    assert(w2.bytes[n] == 2 * low);
    assert(w2.bytes[w1.at] == w1.bytes[w1.at]);
    assert forall|i: int| 0 <= i < n && i != w1.at implies #[trigger] all[i] == w1.bytes[i] by {
        assert(all[i] == w2.bytes[i]);
    }
    lemma_number(w, high, true, all);
}

/// Copying a match byte by byte is copying it at once.
proof fn lemma_grow(out: Seq<u8>, offset: nat, n: nat)
    requires
        1 <= offset <= out.len(),
    ensures
        grow(out, offset, n) == stream::lz_copy(out, offset, n),
        grow(out, offset, n).len() == out.len() + n,
    decreases n,
{
    if n == 0 {
        assert(stream::lz_copy(out, offset, 0) =~= out);
    } else {
        lemma_grow(out, offset, (n - 1) as nat);
        super::window::lemma_lz_copy_step(out, offset, (n - 1) as nat);
    }
}

/// The block that a decoder is about to read.
spec fn expected(blocks: Seq<Block>) -> State {
    if blocks.len() == 0 {
        State::CopyFromNewOffset
    } else {
        match blocks[0] {
            Block::Literals(_) => State::CopyLiterals,
            Block::Repeat(_) => State::CopyFromLastOffset,
            Block::Match { .. } => State::CopyFromNewOffset,
        }
    }
}

/// What a decoder knows that has come to what has been written.
spec fn progress(w: Writer, all: Seq<u8>, blocks: Seq<Block>, last: nat, out: Seq<u8>) -> Progress {
    Progress { bits: reader_at(w, all), state: expected(blocks), last_offset: last, out }
}

/// Writing blocks keeps a writer in order.
proof fn lemma_block_ok(w: Writer, behind_literals: bool, last: nat, produced: nat, blocks: Seq<Block>)
    requires
        writer_ok(w),
        blocks.len() > 0,
        valid_from(behind_literals, last, produced, blocks),
    ensures
        writer_ok(put_block(w, blocks[0])),
{
    match blocks[0] {
        Block::Literals(bytes) => {
            lemma_number_ok(w, bytes.len(), false);
            let w1 = put_number(w, bytes.len(), false);
            assert(put_bytes(w1, bytes).bytes[w1.at] == w1.bytes[w1.at]);
        },
        Block::Repeat(n) => {
            lemma_number_ok(w, n, false);
        },
        Block::Match { offset, len } => {
            let high = (offset + 127) / 128;
            lemma_number_ok(w, high, true);
            let w1 = put_number(w, high, true);
            let w2 = put_offset(w, offset);
            assert(w2.bytes[w1.at] == w1.bytes[w1.at]);
            lemma_number_ok(w2, (len - 1) as nat, false);
        },
    }
}

/// A block that was written, and the bit behind it, are read.
proof fn lemma_block(
    w: Writer,
    all: Seq<u8>,
    behind_literals: bool,
    last: nat,
    out: Seq<u8>,
    blocks: Seq<Block>,
)
    requires
        writer_ok(w),
        blocks.len() > 0,
        valid_from(behind_literals, last, out.len(), blocks),
        written_to(put_bit(put_block(w, blocks[0]), announced(blocks.skip(1))), all),
        expected(blocks.skip(1)) == (if announced(blocks.skip(1)) == 1 {
            State::CopyFromNewOffset
        } else if blocks[0] is Literals {
            State::CopyFromLastOffset
        } else {
            State::CopyLiterals
        }),
    ensures
        written_to(w, all),
        ({
            let w1 = put_bit(put_block(w, blocks[0]), announced(blocks.skip(1)));
            let (last1, out1) = match blocks[0] {
                Block::Literals(bytes) => (last, out + bytes),
                Block::Repeat(n) => (last, grow(out, last, n)),
                Block::Match { offset, len } => (offset, grow(out, offset, len)),
            };
            stream::step(all, progress(w, all, blocks, last, out)) == stream::Step::Next(
                progress(w1, all, blocks.skip(1), last1, out1),
            )
        }),
{
    let block = blocks[0];
    let body = put_block(w, block);
    let bit = announced(blocks.skip(1));
    lemma_block_ok(w, behind_literals, last, out.len(), blocks);
    lemma_bit(body, bit, all);
    match block {
        Block::Literals(bytes) => {
            let w1 = put_number(w, bytes.len(), false);
            lemma_number_ok(w, bytes.len(), false);
            lemma_bytes(w1, bytes, all);
            lemma_number(w, bytes.len(), false, all);
        },
        Block::Repeat(n) => {
            lemma_number(w, n, false, all);
            lemma_grow(out, last, n);
        },
        Block::Match { offset, len } => {
            let high = (offset + 127) / 128;
            lemma_number_ok(w, high, true);
            let w1 = put_number(w, high, true);
            let w2 = put_offset(w, offset);
            assert(w2.bytes[w1.at] == w1.bytes[w1.at]);
            lemma_number(w2, (len - 1) as nat, false, all);
            lemma_offset(w, offset, all);
            lemma_grow(out, offset, len);
        },
    }
}

/// Blocks that were written are read, and leave the decoder where an offset or the end
/// marker is due.
proof fn lemma_blocks(
    w: Writer,
    all: Seq<u8>,
    behind_literals: bool,
    last: nat,
    out: Seq<u8>,
    blocks: Seq<Block>,
) -> (end: nat)
    requires
        writer_ok(w),
        valid_from(behind_literals, last, out.len(), blocks),
        written_to(put_blocks(w, blocks), all),
        1 <= last <= 32640,
    ensures
        writer_ok(put_blocks(w, blocks)),
        written_to(w, all),
        1 <= end <= 32640,
        stream::decode_from(all, progress(w, all, blocks, last, out)) == stream::decode_from(
            all,
            progress(
                put_blocks(w, blocks),
                all,
                Seq::empty(),
                end,
                expand_from(out, last, blocks),
            ),
        ),
    decreases blocks.len(),
{
    if blocks.len() == 0 {
        last
    } else {
        let rest = blocks.skip(1);
        let block = blocks[0];
        let w1 = put_bit(put_block(w, block), announced(rest));
        let (last1, out1) = match block {
            Block::Literals(bytes) => (last, out + bytes),
            Block::Repeat(n) => (last, grow(out, last, n)),
            Block::Match { offset, len } => (offset, grow(out, offset, len)),
        };
        match block {
            Block::Literals(_) => {},
            Block::Repeat(n) => {
                lemma_grow(out, last, n);
            },
            Block::Match { offset, len } => {
                lemma_grow(out, offset, len);
            },
        }
        lemma_block_ok(w, behind_literals, last, out.len(), blocks);
        lemma_bit_ok(put_block(w, block), announced(rest));
        reveal_with_fuel(valid_from, 2);
        let end = lemma_blocks(w1, all, block is Literals, last1, out1, rest);
        lemma_block(w, all, behind_literals, last, out, blocks);
        lemma_reader_wf(w, all);
        end
    }
}

/// What a stream comes to that begins with these blocks, and then holds `more` in the
/// place of an offset.
proof fn lemma_opening(blocks: Seq<Block>, all: Seq<u8>) -> (end: nat)
    requires
        valid(blocks),
        written_to(put_blocks(blank(), blocks), all),
    ensures
        writer_ok(put_blocks(blank(), blocks)),
        1 <= end <= 32640,
        stream::decode(all) == stream::decode_from(
            all,
            progress(put_blocks(blank(), blocks), all, Seq::empty(), end, expand(blocks)),
        ),
{
    lemma_weights();
    let end = lemma_blocks(blank(), all, false, 1, Seq::empty(), blocks);
    assert(progress(blank(), all, blocks, 1, Seq::empty()) == stream::initial());
    end
}

/// What was written is there, whatever stands behind it.
proof fn lemma_written(w: Writer, tail: Seq<u8>)
    requires
        writer_ok(w),
        !w.back,
    ensures
        written_to(w, w.bytes + tail),
{
    let all = w.bytes + tail;
    assert forall|i: int| 0 <= i < w.bytes.len() implies #[trigger] all[i] == w.bytes[i] by {}
}

/// Decoding reads back what was written: the stream of any blocks produces what the blocks
/// stand for, byte for byte, and ends well.
pub proof fn decoding_inverts_encoding(blocks: Seq<Block>)
    requires
        valid(blocks),
    ensures
        stream::decode(encode(blocks)) == (Run { out: expand(blocks), end: Ok(()) }),
{
    bytes_behind_the_end_are_told(blocks, Seq::empty());
    assert(encode(blocks) + Seq::<u8>::empty() =~= encode(blocks));
}

/// A stream with bytes behind its end produces the same, and ends with
/// [`StreamError::TrailingData`] if there are any.
pub proof fn bytes_behind_the_end_are_told(blocks: Seq<Block>, tail: Seq<u8>)
    requires
        valid(blocks),
    ensures
        stream::decode(encode(blocks) + tail) == (Run {
            out: expand(blocks),
            end: if tail.len() == 0 {
                Ok(())
            } else {
                Err(StreamError::TrailingData)
            },
        }),
{
    let w = put_blocks(blank(), blocks);
    let w1 = put_number(w, 256, true);
    let all = encode(blocks) + tail;
    lemma_weights();
    lemma_blocks_ok(blank(), false, 1, 0, blocks);
    lemma_number_ok(w, 256, true);
    lemma_written(w1, tail);
    lemma_number(w, 256, true, all);
    let end = lemma_opening(blocks, all);
    lemma_reader_wf(w, all);
}

/// Writing blocks keeps a writer in order.
proof fn lemma_blocks_ok(w: Writer, behind_literals: bool, last: nat, produced: nat, blocks: Seq<Block>)
    requires
        writer_ok(w),
        valid_from(behind_literals, last, produced, blocks),
    ensures
        writer_ok(put_blocks(w, blocks)),
    decreases blocks.len(),
{
    if blocks.len() > 0 {
        let rest = blocks.skip(1);
        lemma_block_ok(w, behind_literals, last, produced, blocks);
        lemma_bit_ok(put_block(w, blocks[0]), announced(rest));
        let w1 = put_bit(put_block(w, blocks[0]), announced(rest));
        match blocks[0] {
            Block::Literals(bytes) => {
                lemma_blocks_ok(w1, true, last, produced + bytes.len(), rest);
            },
            Block::Repeat(n) => {
                lemma_blocks_ok(w1, false, last, produced + n, rest);
            },
            Block::Match { offset, len } => {
                lemma_blocks_ok(w1, false, offset, produced + len, rest);
            },
        }
    }
}

/// A number that takes more than 32 bits is refused.
proof fn lemma_big_number(w: Writer, v: nat, inverted: bool, all: Seq<u8>)
    requires
        writer_ok(w),
        v >= 0x1_0000_0000,
        written_to(put_digits(w, v, inverted), all),
    ensures
        written_to(w, all),
        stream::gamma(all, reader_at(w, all), inverted) == Err::<(nat, Bits), StreamError>(
            StreamError::InvalidOffset,
        ),
    decreases v,
{
    let half = put_digits(w, v / 2, inverted);
    let digit = if inverted {
        1 - v % 2
    } else {
        (v % 2) as int
    };
    lemma_digits_ok(w, v / 2, inverted);
    lemma_bit_ok(half, 0);
    lemma_bit(put_bit(half, 0), digit, all);
    lemma_bit(half, 0, all);
    if v / 2 >= 0x1_0000_0000 {
        lemma_big_number(w, v / 2, inverted, all);
    } else {
        lemma_digits(w, v / 2, inverted, all);
        lemma_reader_wf(half, all);
    }
}

/// A match that reaches before the first byte is refused: nothing of it is produced,
/// whatever follows.
pub proof fn matches_before_the_first_byte_are_refused(
    blocks: Seq<Block>,
    offset: nat,
    len: nat,
    tail: Seq<u8>,
)
    requires
        valid(blocks),
        expand(blocks).len() < offset <= 32640,
        2 <= len <= 0x1_0000_0000,
    ensures
        stream::decode(
            put_block(put_blocks(blank(), blocks), Block::Match { offset, len }).bytes + tail,
        ) == (Run { out: expand(blocks), end: Err(StreamError::InvalidOffset) }),
{
    let w = put_blocks(blank(), blocks);
    let w1 = put_offset(w, offset);
    let w2 = put_number(w1, (len - 1) as nat, false);
    let all = w2.bytes + tail;
    let high = (offset + 127) / 128;
    lemma_weights();
    lemma_blocks_ok(blank(), false, 1, 0, blocks);
    lemma_number_ok(w, high, true);
    let w0 = put_number(w, high, true);
    assert(w1.bytes[w0.at] == w0.bytes[w0.at]);
    lemma_number_ok(w1, (len - 1) as nat, false);
    lemma_written(w2, tail);
    lemma_number(w1, (len - 1) as nat, false, all);
    lemma_offset(w, offset, all);
    let end = lemma_opening(blocks, all);
    lemma_reader_wf(w, all);
}

/// An offset that the format does not have, one that would take more than 255 times 128, is
/// refused, whatever follows.
pub proof fn offsets_beyond_the_format_are_refused(blocks: Seq<Block>, high: nat, tail: Seq<u8>)
    requires
        valid(blocks),
        high > 256,
    ensures
        stream::decode(put_number(put_blocks(blank(), blocks), high, true).bytes + tail) == (Run {
            out: expand(blocks),
            end: Err(StreamError::InvalidOffset),
        }),
{
    let w = put_blocks(blank(), blocks);
    let w1 = put_number(w, high, true);
    let all = w1.bytes + tail;
    lemma_weights();
    lemma_blocks_ok(blank(), false, 1, 0, blocks);
    lemma_number_ok(w, high, true);
    lemma_written(w1, tail);
    lemma_digits_ok(w, high, true);
    lemma_bit(put_digits(w, high, true), 1, all);
    if high < 0x1_0000_0000 {
        lemma_number(w, high, true, all);
    } else {
        lemma_big_number(w, high, true, all);
    }
    let end = lemma_opening(blocks, all);
    lemma_reader_wf(w, all);
}

/// A literal run that does not fit 32 bits is refused.
pub proof fn endless_literals_are_refused(len: nat, tail: Seq<u8>)
    requires
        len >= 0x1_0000_0000,
    ensures
        stream::decode(put_number(blank(), len, false).bytes + tail) == (Run {
            out: Seq::empty(),
            end: Err(StreamError::InvalidOffset),
        }),
{
    let w1 = put_number(blank(), len, false);
    let all = w1.bytes + tail;
    lemma_weights();
    lemma_number_ok(blank(), len, false);
    lemma_written(w1, tail);
    lemma_digits_ok(blank(), len, false);
    lemma_bit(put_digits(blank(), len, false), 1, all);
    lemma_big_number(blank(), len, false, all);
    assert(reader_at(blank(), all) == stream::start());
}

/// The bytes that a callback was given, one chunk behind another.
pub open spec fn delivered<E>(log: Seq<Delivery<E>>) -> Seq<u8>
    decreases log.len(),
{
    if log.len() == 0 {
        Seq::empty()
    } else {
        delivered(log.drop_last()) + log.last().0
    }
}

/// Accepted chunks were delivered one behind another.
proof fn lemma_delivered<E>(chunks: Seq<Seq<u8>>)
    ensures
        delivered(super::delivery::all_accepted::<E>(chunks)) == chunks.flatten_alt(),
    decreases chunks.len(),
{
    let log = super::delivery::all_accepted::<E>(chunks);
    if chunks.len() > 0 {
        assert(log.drop_last() =~= super::delivery::all_accepted::<E>(chunks.drop_last()));
        lemma_delivered::<E>(chunks.drop_last());
    }
}

/// Decompressing the stream of any blocks, through any window that is large enough and to a
/// callback that accepts everything, succeeds and delivers what the blocks stand for: in
/// order, in chunks that fill the window, but for the last.
pub proof fn decompression_inverts_encoding<E>(
    blocks: Seq<Block>,
    before: Seq<u8>,
    after: Seq<u8>,
    log: Seq<Delivery<E>>,
    res: Result<(), Zx0Error<E>>,
)
    requires
        valid(blocks),
        before.len() > 32640,
        super::decompressed(encode(blocks), before, after, log, res),
        forall|k: int| 0 <= k < log.len() ==> (#[trigger] log[k]).1 is Ok,
    ensures
        res == Ok::<(), Zx0Error<E>>(()),
        delivered(log) == expand(blocks),
        forall|k: int|
            0 <= k < log.len() ==> {
                &&& 0 < (#[trigger] log[k]).0.len() <= before.len()
                &&& k < log.len() - 1 ==> log[k].0.len() == before.len()
            },
{
    decoding_inverts_encoding(blocks);
    let n = before.len();
    let out = expand(blocks);
    let chunks = super::due(encode(blocks), n);
    if let Err(Zx0Error::CallbackError(e)) = res {
        let k = choose|k: int| #[trigger]
            super::broken_off(encode(blocks), before, after, log, k, e);
        assert(log[log.len() - 1].1 is Err);
    }
    laws::chunks_are_the_output(out, n);
    chunks.lemma_flatten_and_flatten_alt_are_equivalent();
    lemma_delivered::<E>(chunks);
    assert forall|k: int| 0 <= k < log.len() implies {
        &&& 0 < (#[trigger] log[k]).0.len() <= before.len()
        &&& k < log.len() - 1 ==> log[k].0.len() == before.len()
    } by {
        laws::chunks_fill_the_window(out, n, true, k);
        assert(log[k].0 == chunks[k]);
    }
}

/// A callback that refuses a chunk ends the decompression: its error is what is returned,
/// and what it had accepted is how the output begins.
pub proof fn refusals_end_decompression<E>(
    blocks: Seq<Block>,
    before: Seq<u8>,
    after: Seq<u8>,
    log: Seq<Delivery<E>>,
    res: Result<(), Zx0Error<E>>,
    k: int,
    e: E,
)
    requires
        valid(blocks),
        before.len() > 32640,
        super::decompressed(encode(blocks), before, after, log, res),
        0 <= k < log.len(),
        log[k].1 == Err::<(), E>(e),
    ensures
        res == Err::<(), Zx0Error<E>>(Zx0Error::CallbackError(e)),
        k == log.len() - 1,
        forall|j: int| 0 <= j < k ==> (#[trigger] log[j]).1 is Ok,
        delivered(log).is_prefix_of(expand(blocks)),
{
    decoding_inverts_encoding(blocks);
    let input = encode(blocks);
    let n = before.len();
    let out = expand(blocks);
    let all = super::due(input, n);
    match res {
        Err(Zx0Error::CallbackError(f)) => {
            let m = choose|m: int| #[trigger] super::broken_off(input, before, after, log, m, f);
            let accepted = super::delivery::all_accepted::<E>(all.take(m));
            assert(log == accepted.push((all[m], Err(f))));
            if k < m {
                assert(log[k] == accepted[k]);
            }
            assert(log.drop_last() =~= accepted);
            lemma_delivered::<E>(all.take(m));
            laws::chunks_are_the_output(out, n);
            all.lemma_flatten_and_flatten_alt_are_equivalent();
            lemma_flatten_prefix(all, m + 1);
            assert(all.take(m + 1).drop_last() =~= all.take(m));
            assert(all.take(m + 1).last() == all[m]);
            assert forall|j: int| 0 <= j < k implies (#[trigger] log[j]).1 is Ok by {
                assert(log[j] == accepted[j]);
            }
        },
        _ => {
            assert(log[k] == super::delivery::all_accepted::<E>(all)[k]);
        },
    }
}

/// The first chunks are how all of them begin.
proof fn lemma_flatten_prefix(chunks: Seq<Seq<u8>>, m: int)
    requires
        0 <= m <= chunks.len(),
    ensures
        chunks.take(m).flatten_alt().is_prefix_of(chunks.flatten_alt()),
    decreases chunks.len(),
{
    if m == chunks.len() {
        assert(chunks.take(m) =~= chunks);
        let all = chunks.flatten_alt();
        assert(all =~= all.subrange(0, all.len() as int));
    } else {
        let rest = chunks.drop_last();
        lemma_flatten_prefix(rest, m);
        assert(rest.take(m) =~= chunks.take(m));
        let a = chunks.take(m).flatten_alt();
        let b = rest.flatten_alt();
        let all = chunks.flatten_alt();
        assert(all == b + chunks.last());
        assert(a =~= all.subrange(0, a.len() as int)) by {
            assert forall|i: int| 0 <= i < a.len() implies a[i] == all[i] by {
                assert(b.subrange(0, a.len() as int)[i] == b[i]);
            }
        }
    }
}

/// A window of no more than 32640 bytes is refused, and nothing is delivered.
pub proof fn small_windows_are_refused<E>(
    input: Seq<u8>,
    before: Seq<u8>,
    after: Seq<u8>,
    log: Seq<Delivery<E>>,
    res: Result<(), Zx0Error<E>>,
)
    requires
        super::decompressed(input, before, after, log, res),
    ensures
        before.len() <= 32640 <==> res == Err::<(), Zx0Error<E>>(Zx0Error::WindowTooSmall),
        before.len() <= 32640 ==> log.len() == 0 && after == before,
{
}

/// How a stream ends is what a decompression returns that no callback broke off.
pub proof fn streams_end_as_they_are<E>(
    input: Seq<u8>,
    before: Seq<u8>,
    after: Seq<u8>,
    log: Seq<Delivery<E>>,
    res: Result<(), Zx0Error<E>>,
)
    requires
        before.len() > 32640,
        super::decompressed(input, before, after, log, res),
        !(res matches Err(Zx0Error::CallbackError(_))),
    ensures
        res is Ok <==> stream::decode(input).end is Ok,
        res == Err::<(), Zx0Error<E>>(Zx0Error::TruncatedInput) <==> stream::decode(input).end
            == Err::<(), StreamError>(StreamError::TruncatedInput),
        res == Err::<(), Zx0Error<E>>(Zx0Error::InvalidOffset) <==> stream::decode(input).end
            == Err::<(), StreamError>(StreamError::InvalidOffset),
        res == Err::<(), Zx0Error<E>>(Zx0Error::TrailingData) <==> stream::decode(input).end
            == Err::<(), StreamError>(StreamError::TrailingData),
{
}

} // verus!
