//! What holds of decompression as a whole.

use vstd::prelude::*;

use super::delivery;
use super::stream;
use super::stream::StreamError;
use super::MAX_OFFSET;
use super::MIN_WINDOW_LEN;

verus! {

/// The callback receives the decompressed bytes in order: the chunks of a stream that
/// has ended, one behind the other, are its whole output.
pub proof fn chunks_are_the_output(out: Seq<u8>, n: nat)
    requires
        0 < n,
    ensures
        delivery::chunks(out, n, true).flatten() == out,
{
    let all = delivery::chunks(out, n, true);
    let q = out.len() / n;
    delivery::lemma_next_multiple(out.len(), n);
    lemma_full_chunks(out, n, q);
    all.lemma_flatten_and_flatten_alt_are_equivalent();
    let full = Seq::new(q, |k: int| delivery::chunk(out, n, k));
    if out.len() % n != 0 {
        assert(all.drop_last() =~= full);
        assert(q * n + n == (q + 1) * n) by (nonlinear_arith);
        assert(out =~= out.take((q * n) as int) + delivery::chunk(out, n, q as int));
    } else {
        assert(all =~= full);
        assert(out =~= out.take((q * n) as int));
    }
}

/// The first `m` full chunks are the first `m * n` bytes.
proof fn lemma_full_chunks(out: Seq<u8>, n: nat, m: nat)
    requires
        0 < n,
        m <= out.len() / n,
    ensures
        m * n <= out.len(),
        Seq::new(m, |k: int| delivery::chunk(out, n, k)).flatten_alt() == out.take((m * n) as int),
    decreases m,
{
    let part = Seq::new(m, |k: int| delivery::chunk(out, n, k));
    if m == 0 {
        assert(out.take(0) =~= part.flatten_alt());
    } else {
        let before = (m - 1) as nat;
        lemma_full_chunks(out, n, before);
        delivery::lemma_full_chunk(out.len(), n, m - 1);
        assert(before * n + n == m * n) by (nonlinear_arith)
            requires
                before == m - 1,
        ;
        assert(part.drop_last() =~= Seq::new(before, |k: int| delivery::chunk(out, n, k)));
        assert(out.take((m * n) as int) =~= out.take((before * n) as int) + delivery::chunk(
            out,
            n,
            m - 1,
        ));
    }
}

/// Every chunk fills the window but the last, and no chunk is empty.
pub proof fn chunks_fill_the_window(out: Seq<u8>, n: nat, ended: bool, k: int)
    requires
        0 < n,
        0 <= k < delivery::chunks(out, n, ended).len(),
    ensures
        0 < delivery::chunks(out, n, ended)[k].len() <= n,
        k < delivery::chunks(out, n, ended).len() - 1 ==> delivery::chunks(out, n, ended)[k].len()
            == n,
{
    delivery::lemma_next_multiple(out.len(), n);
    assert(k * n + n == (k + 1) * n) by (nonlinear_arith);
    assert(0 <= k * n) by (nonlinear_arith)
        requires
            0 <= k,
    ;
    if k < out.len() / n {
        delivery::lemma_full_chunk(out.len(), n, k);
    }
}

/// The bytes that reach the callback do not depend on the size of the window.
pub proof fn output_does_not_depend_on_the_window(input: Seq<u8>, n: nat, m: nat)
    requires
        n >= MIN_WINDOW_LEN,
        m >= MIN_WINDOW_LEN,
        super::ended(stream::decode(input)),
    ensures
        super::due(input, n).flatten() == super::due(input, m).flatten(),
        super::due(input, n).flatten() == stream::decode(input).out,
{
    chunks_are_the_output(stream::decode(input).out, n);
    chunks_are_the_output(stream::decode(input).out, m);
}

/// A window longer than [`MAX_OFFSET`] still holds every byte that a back-reference
/// can reach, each at its position modulo the length of the window.
pub proof fn back_references_stay_in_the_window(init: Seq<u8>, out: Seq<u8>, offset: int)
    requires
        init.len() >= MIN_WINDOW_LEN,
        1 <= offset <= MAX_OFFSET,
        offset <= out.len(),
    ensures
        delivery::ring(init, out)[(out.len() - offset) % (init.len() as int)] == out[out.len()
            - offset],
{
    delivery::lemma_ring_index(init, out, out.len() - offset);
}

/// Every offset that the format can encode lies in `1..=MAX_OFFSET`.
pub proof fn new_offsets_are_in_range(msb: int, lsb: u8)
    requires
        1 <= msb < stream::END_MARKER,
    ensures
        1 <= msb * 128 - lsb / 2 <= MAX_OFFSET,
{
}

/// The next `n` bits of a stream, or as many as there are.
pub open spec fn bits_from(input: Seq<u8>, b: stream::Bits, n: nat) -> Seq<u8>
    decreases n,
{
    if n == 0 {
        Seq::empty()
    } else {
        match stream::next_bit(input, b) {
            Some((bit, after)) => seq![bit] + bits_from(input, after, (n - 1) as nat),
            None => Seq::empty(),
        }
    }
}

/// A byte that has been passed over does not change the bits behind it.
proof fn lemma_bits_without(input: Seq<u8>, at: int, b: stream::Bits, n: nat)
    requires
        0 <= at < input.len(),
        at <= b.pos,
    ensures
        bits_from(input, stream::Bits { pos: b.pos + 1, ..b }, n) == bits_from(
            input.remove(at),
            b,
            n,
        ),
    decreases n,
{
    if n > 0 {
        if let Some((bit, after)) = stream::next_bit(input.remove(at), b) {
            lemma_bits_without(input, at, after, (n - 1) as nat);
        }
    }
}

/// The byte that holds the low bits of an offset gives its top seven bits; its last bit is
/// the next bit of the stream, and reading that consumes no input. The bits behind it are
/// those that would have been read had the byte not stood in the input: the byte that was
/// half read goes on where it was.
pub proof fn offset_bits_are_fed_back(input: Seq<u8>, b: stream::Bits, n: nat)
    requires
        stream::bits_wf(input, b),
        b.pending is None,
        b.pos < input.len(),
    ensures
        ({
            let byte = input[b.pos as int];
            let behind = stream::Bits { pos: b.pos + 1, ..b };
            &&& stream::offset_lsb(input, b) matches Some((lsb, after))
            &&& lsb == byte >> 1
            &&& after.pos == b.pos + 1
            &&& stream::next_bit(input, after) == Some((byte & 1, behind))
            &&& bits_from(input, behind, n) == bits_from(input.remove(b.pos as int), b, n)
        }),
{
    let byte = input[b.pos as int];
    assert(byte >> 1 == byte / 2 && byte & 1 == byte % 2) by (bit_vector);
    lemma_bits_without(input, b.pos as int, b, n);
}

/// A match of `length` bytes continues the output with the period `offset`: each new
/// byte equals the one `offset` before it, which may itself be new.
pub proof fn matches_repeat_their_offset(out: Seq<u8>, offset: nat, length: nat, i: int)
    requires
        1 <= offset <= out.len(),
        out.len() <= i < out.len() + length,
    ensures
        stream::lz_copy(out, offset, length)[i] == stream::lz_copy(out, offset, length)[i
            - offset],
{
    let j = i - out.len();
    let o = offset as int;
    if j < o {
        vstd::arithmetic::div_mod::lemma_small_mod(j as nat, offset);
    } else {
        vstd::arithmetic::div_mod::lemma_mod_sub_multiples_vanish(j, o);
    }
}

/// A number that is read to its end reads the same with more input behind it.
proof fn lemma_gamma_extends(
    input: Seq<u8>,
    more: Seq<u8>,
    b: stream::Bits,
    inverted: bool,
    value: nat,
)
    requires
        1 <= value < 0x1_0000_0000,
        stream::bits_wf(input, b),
    ensures
        ({
            let short = stream::gamma_from(input, b, inverted, value);
            short != Err::<(nat, stream::Bits), StreamError>(StreamError::TruncatedInput)
                ==> stream::gamma_from(input + more, b, inverted, value) == short
        }),
    decreases 0x1_0000_0000 - value,
{
    stream::lemma_next_bit(input, b);
    if let Some((control, b1)) = stream::next_bit(input, b) {
        assert(stream::next_bit(input + more, b) == stream::next_bit(input, b));
        stream::lemma_next_bit(input, b1);
        if control != 1 && value < 0x8000_0000 {
            if let Some((bit, b2)) = stream::next_bit(input, b1) {
                assert(stream::next_bit(input + more, b1) == stream::next_bit(input, b1));
                lemma_gamma_extends(
                    input,
                    more,
                    b2,
                    inverted,
                    2 * value + stream::data_bit(bit, inverted),
                );
            }
        }
    }
}

/// What a block becomes when input is added behind it: the same, unless it ran out
/// of input, or was the end marker with nothing behind it.
spec fn step_extended(short: stream::Step, long: stream::Step, added: bool) -> bool {
    match short {
        stream::Step::Next(_) => long == short,
        stream::Step::End(run) => {
            ||| run.end == Err::<(), StreamError>(StreamError::TruncatedInput)
            ||| super::ended(run) && long == stream::Step::End(
                (stream::Run {
                    out: run.out,
                    end: if added {
                        Err(StreamError::TrailingData)
                    } else {
                        run.end
                    },
                }),
            )
            ||| !super::ended(run) && long == short
        },
    }
}

proof fn lemma_step_extends(input: Seq<u8>, more: Seq<u8>, p: stream::Progress)
    requires
        stream::bits_wf(input, p.bits),
    ensures
        step_extended(
            stream::step(input, p),
            stream::step(input + more, p),
            more.len() > 0,
        ),
{
    let long = input + more;
    match p.state {
        stream::State::CopyLiterals => {
            lemma_gamma_extends(input, more, p.bits, false, 1);
            stream::lemma_gamma_from(input, p.bits, false, 1);
            if let Ok((length, b)) = stream::gamma(input, p.bits, false) {
                if length <= input.len() - b.pos {
                    let end = (b.pos + length) as int;
                    assert(input.subrange(b.pos as int, end) =~= long.subrange(b.pos as int, end));
                    stream::lemma_next_bit(input, stream::Bits { pos: b.pos + length, ..b });
                }
            }
        },
        stream::State::CopyFromLastOffset => {
            lemma_gamma_extends(input, more, p.bits, false, 1);
            stream::lemma_gamma_from(input, p.bits, false, 1);
            if let Ok((length, b)) = stream::gamma(input, p.bits, false) {
                stream::lemma_next_bit(input, b);
            }
        },
        stream::State::CopyFromNewOffset => {
            lemma_gamma_extends(input, more, p.bits, true, 1);
            stream::lemma_gamma_from(input, p.bits, true, 1);
            if let Ok((msb, b)) = stream::gamma(input, p.bits, true) {
                if let Some((lsb, b1)) = stream::offset_lsb(input, b) {
                    lemma_gamma_extends(input, more, b1, false, 1);
                    stream::lemma_gamma_from(input, b1, false, 1);
                    if let Ok((length, b2)) = stream::gamma(input, b1, false) {
                        stream::lemma_next_bit(input, b2);
                    }
                }
            }
        },
    }
}

proof fn lemma_decode_extends(input: Seq<u8>, more: Seq<u8>, p: stream::Progress)
    requires
        stream::bits_wf(input, p.bits),
    ensures
        ({
            let short = stream::decode_from(input, p);
            let long = stream::decode_from(input + more, p);
            step_extended(stream::Step::End(short), stream::Step::End(long), more.len() > 0)
        }),
    decreases stream::bits_left(input, p.bits),
{
    lemma_step_extends(input, more, p);
    stream::lemma_step_advances(input, p);
    stream::lemma_step_advances(input + more, p);
    if let stream::Step::Next(next) = stream::step(input, p) {
        lemma_decode_extends(input, more, next);
    }
}

/// Trailing data is always noticed: bytes behind a complete stream turn its success
/// into [`StreamError::TrailingData`], after the same output.
pub proof fn trailing_data_is_rejected(input: Seq<u8>, more: Seq<u8>)
    requires
        stream::decode(input).end is Ok,
        more.len() > 0,
    ensures
        stream::decode(input + more) == (stream::Run {
            out: stream::decode(input).out,
            end: Err(StreamError::TrailingData),
        }),
{
    lemma_decode_extends(input, more, stream::initial());
}

/// A prefix of a prefix is a prefix.
proof fn lemma_prefix_of_prefix(a: Seq<u8>, b: Seq<u8>, c: Seq<u8>)
    requires
        a.is_prefix_of(b),
        b.is_prefix_of(c),
    ensures
        a.is_prefix_of(c),
{
    assert(a =~= c.subrange(0, a.len() as int)) by {
        assert forall|i: int| 0 <= i < a.len() implies a[i] == c[i] by {
            assert(b.subrange(0, a.len() as int)[i] == b[i]);
            assert(c.subrange(0, b.len() as int)[i] == c[i]);
        }
    }
}

/// A block only adds to the output.
proof fn lemma_step_grows(input: Seq<u8>, p: stream::Progress)
    ensures
        p.out.is_prefix_of(super::out_of(stream::step(input, p))),
{
    let out = super::out_of(stream::step(input, p));
    assert(p.out =~= out.subrange(0, p.out.len() as int));
}

/// What a literal run produces starts with what it produces where the input ends earlier.
proof fn lemma_literals_prefix(input: Seq<u8>, more: Seq<u8>, p: stream::Progress)
    requires
        stream::bits_wf(input, p.bits),
        p.state is CopyLiterals,
    ensures
        super::out_of(stream::step(input, p)).is_prefix_of(
            super::out_of(stream::step(input + more, p)),
        ),
{
    let long = input + more;
    let short_out = super::out_of(stream::step(input, p));
    let long_out = super::out_of(stream::step(long, p));
    lemma_gamma_extends(input, more, p.bits, false, 1);
    stream::lemma_gamma_from(input, p.bits, false, 1);
    match stream::gamma(input, p.bits, false) {
        Ok((length, b)) => {
            let stop = if length <= input.len() - b.pos {
                (b.pos + length) as int
            } else {
                input.len() as int
            };
            let long_stop = if length <= long.len() - b.pos {
                (b.pos + length) as int
            } else {
                long.len() as int
            };
            assert(short_out == p.out + input.subrange(b.pos as int, stop));
            assert(long_out == p.out + long.subrange(b.pos as int, long_stop));
            assert(short_out =~= long_out.subrange(0, short_out.len() as int));
        },
        Err(_) => {
            lemma_step_grows(long, p);
        },
    }
}

/// What a match produces starts with what it produces where the input ends earlier.
proof fn lemma_match_prefix(input: Seq<u8>, more: Seq<u8>, p: stream::Progress)
    requires
        stream::bits_wf(input, p.bits),
        !(p.state is CopyLiterals),
    ensures
        super::out_of(stream::step(input, p)).is_prefix_of(
            super::out_of(stream::step(input + more, p)),
        ),
{
    let long = input + more;
    let short_out = super::out_of(stream::step(input, p));
    let long_out = super::out_of(stream::step(long, p));
    let inverted = p.state is CopyFromNewOffset;
    lemma_step_grows(long, p);
    lemma_gamma_extends(input, more, p.bits, inverted, 1);
    stream::lemma_gamma_from(input, p.bits, inverted, 1);
    if short_out != p.out {
        if let Ok((msb, b)) = stream::gamma(input, p.bits, inverted) {
            if inverted {
                if let Some((lsb, b1)) = stream::offset_lsb(input, b) {
                    lemma_gamma_extends(input, more, b1, false, 1);
                    stream::lemma_gamma_from(input, b1, false, 1);
                }
            }
        }
        assert(long_out == short_out);
        assert(short_out =~= long_out.subrange(0, short_out.len() as int));
    }
}

/// What a block produces starts with what it produces where the input ends earlier.
proof fn lemma_step_prefix(input: Seq<u8>, more: Seq<u8>, p: stream::Progress)
    requires
        stream::bits_wf(input, p.bits),
    ensures
        super::out_of(stream::step(input, p)).is_prefix_of(
            super::out_of(stream::step(input + more, p)),
        ),
{
    if p.state is CopyLiterals {
        lemma_literals_prefix(input, more, p);
    } else {
        lemma_match_prefix(input, more, p);
    }
}

/// A stream produces at first what it produces where the input ends earlier.
proof fn lemma_decode_prefix(input: Seq<u8>, more: Seq<u8>, p: stream::Progress)
    requires
        stream::bits_wf(input, p.bits),
    ensures
        stream::decode_from(input, p).out.is_prefix_of(
            stream::decode_from(input + more, p).out,
        ),
    decreases stream::bits_left(input, p.bits),
{
    let long = input + more;
    lemma_step_extends(input, more, p);
    lemma_step_prefix(input, more, p);
    stream::lemma_step_advances(input, p);
    stream::lemma_step_advances(long, p);
    match stream::step(input, p) {
        stream::Step::Next(next) => {
            lemma_decode_prefix(input, more, next);
        },
        stream::Step::End(run) => {
            let whole = stream::decode_from(long, p).out;
            let part = super::out_of(stream::step(long, p));
            match stream::step(long, p) {
                stream::Step::Next(next) => {
                    super::lemma_decode_grows(long, next);
                },
                stream::Step::End(_) => {
                    assert(part =~= whole.subrange(0, part.len() as int));
                },
            }
            lemma_prefix_of_prefix(run.out, part, whole);
        },
    }
}

/// What a stream that was cut short has delivered by its end, to a callback that accepts
/// everything, is how the delivery of the complete stream begins: a prefix of its output,
/// made of whole windows.
pub proof fn truncated_output_is_whole_windows(input: Seq<u8>, keep: int, n: nat, k: int)
    requires
        stream::decode(input).end is Ok,
        0 <= keep < input.len(),
        n >= MIN_WINDOW_LEN,
    ensures
        ({
            let part = super::due(input.take(keep), n);
            &&& part.len() <= super::due(input, n).len()
            &&& 0 <= k < part.len() ==> part[k].len() == n && part[k] == super::due(input, n)[k]
            &&& part.flatten().is_prefix_of(stream::decode(input).out)
        }),
{
    truncated_input_is_rejected(input, keep);
    let short = stream::decode(input.take(keep)).out;
    let whole = stream::decode(input).out;
    let part = super::due(input.take(keep), n);
    let q = short.len() / n;
    delivery::lemma_next_multiple(short.len(), n);
    delivery::lemma_next_multiple(whole.len(), n);
    vstd::arithmetic::div_mod::lemma_div_is_ordered(
        short.len() as int,
        whole.len() as int,
        n as int,
    );
    if 0 <= k < part.len() {
        delivery::lemma_full_chunk(short.len(), n, k);
        delivery::lemma_chunk_prefix(short, whole, n, k);
    }
    lemma_full_chunks(short, n, q);
    part.lemma_flatten_and_flatten_alt_are_equivalent();
    assert(part =~= Seq::new(q, |j: int| delivery::chunk(short, n, j)));
    assert(short.take((q * n) as int).is_prefix_of(short)) by {
        assert(short.take((q * n) as int) =~= short.subrange(0, (q * n) as int));
    }
    lemma_prefix_of_prefix(part.flatten(), short, whole);
}

/// Truncation is always noticed: no proper prefix of a complete stream is complete,
/// every one of them runs out of input, and has produced no more than the beginning of
/// what the complete stream produces.
pub proof fn truncated_input_is_rejected(input: Seq<u8>, keep: int)
    requires
        stream::decode(input).end is Ok,
        0 <= keep < input.len(),
    ensures
        stream::decode(input.take(keep)).end == Err::<(), StreamError>(
            StreamError::TruncatedInput,
        ),
        stream::decode(input.take(keep)).out.is_prefix_of(stream::decode(input).out),
{
    let more = input.skip(keep);
    assert(input.take(keep) + more =~= input);
    lemma_decode_extends(input.take(keep), more, stream::initial());
    lemma_decode_prefix(input.take(keep), more, stream::initial());
}

} // verus!
