//! The bit-level reader of the compressed input.

use vstd::prelude::*;

use super::error;
use super::error::Zx0Error;
use super::stream;
use super::stream::Bits;

verus! {

/// MSB-first bit reader over the compressed input.
///
/// Most of the stream is read bit-by-bit, MSB first, refilling a byte at a time.
/// The one exception is the offset LSB of a "copy from new offset" block: it is
/// a raw byte whose top 7 bits are the LSB value and whose bit 0 is fed back
/// into the bitstream as the next bit. [`BitReader::read_offset_lsb`] stashes
/// that bit in `pending_bit` and the next [`BitReader::read_bit`] pops it, so
/// the decode loop never has to reason about it.
pub struct BitReader<'a> {
    input: &'a [u8],
    /// Index of the next unread input byte.
    pos: usize,
    /// Mask selecting the current bit within `bit_value`; `0` means "refill".
    bit_mask: u8,
    /// The byte currently being read bit-by-bit.
    bit_value: u8,
    /// A bit split off from an offset LSB byte that the next [`BitReader::read_bit`]
    /// must return before reading from the bitstream again.
    pending_bit: Option<u8>,
}

/// How many bits a mask has yet to select, its own included.
spec fn mask_left(mask: u8) -> nat {
    if mask == 0 {
        0
    } else if mask == 1 {
        1
    } else if mask == 2 {
        2
    } else if mask == 4 {
        3
    } else if mask == 8 {
        4
    } else if mask == 16 {
        5
    } else if mask == 32 {
        6
    } else if mask == 64 {
        7
    } else {
        8
    }
}

/// A mask selects one bit, or none.
spec fn mask_ok(mask: u8) -> bool {
    mask == 0 || mask == 1 || mask == 2 || mask == 4 || mask == 8 || mask == 16 || mask == 32
        || mask == 64 || mask == 128
}

/// A one-bit mask selects the bit that it stands for, and halving it moves on to
/// the next lower bit.
proof fn lemma_mask(value: u8, mask: u8)
    requires
        mask_ok(mask),
        mask != 0,
    ensures
        (value & mask != 0) == (stream::bit_of(value, (mask_left(mask) - 1) as nat) == 1),
        (value & mask == 0) == (stream::bit_of(value, (mask_left(mask) - 1) as nat) == 0),
        mask_ok(mask >> 1),
        mask_left(mask >> 1) == mask_left(mask) - 1,
{
    assert(value & 1 == value % 2) by (bit_vector);
    assert(value & 2 == 2 * ((value / 2) % 2)) by (bit_vector);
    assert(value & 4 == 4 * ((value / 4) % 2)) by (bit_vector);
    assert(value & 8 == 8 * ((value / 8) % 2)) by (bit_vector);
    assert(value & 16 == 16 * ((value / 16) % 2)) by (bit_vector);
    assert(value & 32 == 32 * ((value / 32) % 2)) by (bit_vector);
    assert(value & 64 == 64 * ((value / 64) % 2)) by (bit_vector);
    assert(value & 128 == 128 * ((value / 128) % 2)) by (bit_vector);
    assert(1u8 >> 1 == 0 && 2u8 >> 1 == 1 && 4u8 >> 1 == 2 && 8u8 >> 1 == 4 && 16u8 >> 1 == 8
        && 32u8 >> 1 == 16 && 64u8 >> 1 == 32 && 128u8 >> 1 == 64) by (bit_vector);
}

impl<'a> View for BitReader<'a> {
    type V = Bits;

    closed spec fn view(&self) -> Bits {
        Bits {
            pos: self.pos as nat,
            value: self.bit_value,
            left: mask_left(self.bit_mask),
            pending: self.pending_bit,
        }
    }
}

impl<'a> BitReader<'a> {
    /// The whole input, read and unread.
    pub closed spec fn input(self) -> Seq<u8> {
        self.input@
    }

    pub closed spec fn selects_a_bit(self) -> bool {
        mask_ok(self.bit_mask)
    }

    pub open spec fn wf(self) -> bool {
        &&& stream::bits_wf(self.input(), self@)
        &&& self.selects_a_bit()
    }

    pub fn new(input: &'a [u8]) -> (reader: Self)
        ensures
            reader.wf(),
            reader.input() == input@,
            reader@ == stream::start(),
    {
        Self { input, pos: 0, bit_mask: 0, bit_value: 0, pending_bit: None }
    }

    /// Reads the next whole input byte.
    pub fn read_byte<E>(&mut self) -> (res: Result<u8, Zx0Error<E>>)
        requires
            old(self).wf(),
        ensures
            final(self).wf(),
            final(self).input() == old(self).input(),
            match stream::next_byte(old(self).input(), old(self)@) {
                Some((byte, bits)) => res == Ok::<u8, Zx0Error<E>>(byte) && final(self)@ == bits,
                None => res == Err::<u8, Zx0Error<E>>(Zx0Error::TruncatedInput) && final(self)@
                    == old(self)@,
            },
    {
        if self.pos >= self.input.len() {
            return Err(Zx0Error::TruncatedInput);
        }
        let byte = self.input[self.pos];
        self.pos += 1;
        Ok(byte)
    }

    /// Reads a single bit, MSB first.
    pub fn read_bit<E>(&mut self) -> (res: Result<u8, Zx0Error<E>>)
        requires
            old(self).wf(),
        ensures
            final(self).wf(),
            final(self).input() == old(self).input(),
            match stream::next_bit(old(self).input(), old(self)@) {
                Some((bit, bits)) => res == Ok::<u8, Zx0Error<E>>(bit) && final(self)@ == bits,
                None => res == Err::<u8, Zx0Error<E>>(Zx0Error::TruncatedInput) && final(self)@
                    == old(self)@,
            },
    {
        if let Some(bit) = self.pending_bit.take() {
            return Ok(bit);
        }
        if self.bit_mask == 0 {
            self.bit_value = match self.read_byte() {
                Ok(byte) => byte,
                Err(e) => {
                    return Err(e);
                },
            };
            self.bit_mask = 0x80;
        }
        proof {
            lemma_mask(self.bit_value, self.bit_mask);
        }
        let bit: u8 = if self.bit_value & self.bit_mask != 0 {
            1
        } else {
            0
        };
        self.bit_mask = self.bit_mask >> 1;
        Ok(bit)
    }

    /// Reads an interlaced Elias gamma value.
    ///
    /// When `inverted` is set, every data bit is flipped (ZX0 stores the offset
    /// MSB with inverted bits in the v2 format).
    pub fn read_elias_gamma<E>(&mut self, inverted: bool) -> (res: Result<u32, Zx0Error<E>>)
        requires
            old(self).wf(),
        ensures
            final(self).wf(),
            final(self).input() == old(self).input(),
            match stream::gamma(old(self).input(), old(self)@, inverted) {
                Ok((value, bits)) => res matches Ok(v) && v == value && final(self)@ == bits,
                Err(e) => res == Err::<u32, Zx0Error<E>>(error::stream_error(e)),
            },
    {
        let inv: u8 = if inverted {
            1
        } else {
            0
        };
        let mut value: u32 = 1;
        loop
            invariant
                self.wf(),
                self.input() == old(self).input(),
                inv == if inverted {
                    1u8
                } else {
                    0u8
                },
                1 <= value,
                stream::gamma(old(self).input(), old(self)@, inverted) == stream::gamma_from(
                    self.input(),
                    self@,
                    inverted,
                    value as nat,
                ),
            decreases 0x1_0000_0000 - value,
        {
            proof {
                stream::lemma_next_bit(self.input(), self@);
            }
            let control: u8 = match self.read_bit() {
                Ok(bit) => bit,
                Err(e) => {
                    return Err(e);
                },
            };
            if control != 0 {
                return Ok(value);
            }
            // A corrupt stream could keep this loop going indefinitely; bail out
            // before the shift would overflow rather than panic.
            assert((value & 0x8000_0000 != 0) == (value >= 0x8000_0000)) by (bit_vector);
            if value & 0x8000_0000 != 0 {
                return Err(Zx0Error::InvalidOffset);
            }
            proof {
                stream::lemma_next_bit(self.input(), self@);
            }
            let bit: u8 = match self.read_bit() {
                Ok(bit) => bit,
                Err(e) => {
                    return Err(e);
                },
            };
            let data: u8 = bit ^ inv;
            proof {
                assert(bit <= 1 && inv <= 1 ==> (bit ^ inv) == (if inv == 1u8 {
                    (1 - bit) as u8
                } else {
                    bit
                })) by (bit_vector);
                let d: u32 = data as u32;
                assert(value < 0x8000_0000 && d <= 1 ==> ((value << 1) | d) == 2 * value + d)
                    by (bit_vector);
            }
            value = (value << 1) | (data as u32);
        }
    }

    /// Reads the offset LSB byte of a "copy from new offset" block.
    ///
    /// The top 7 bits are returned as the LSB value (`0..=127`); bit 0 is stashed
    /// as the pending bit for the next [`BitReader::read_bit`].
    pub fn read_offset_lsb<E>(&mut self) -> (res: Result<usize, Zx0Error<E>>)
        requires
            old(self).wf(),
        ensures
            final(self).wf(),
            final(self).input() == old(self).input(),
            match stream::offset_lsb(old(self).input(), old(self)@) {
                Some((value, bits)) => res matches Ok(lsb) && lsb == value && final(self)@ == bits,
                None => res == Err::<usize, Zx0Error<E>>(Zx0Error::TruncatedInput) && final(self)@
                    == old(self)@,
            },
    {
        let byte: u8 = match self.read_byte() {
            Ok(byte) => byte,
            Err(e) => {
                return Err(e);
            },
        };
        assert(byte & 1 == byte % 2 && byte >> 1 == byte / 2) by (bit_vector);
        self.pending_bit = Some(byte & 1);
        Ok((byte >> 1) as usize)
    }

    /// Returns `true` if whole input bytes remain unread.
    pub fn has_trailing_data(&self) -> (res: bool)
        requires
            self.wf(),
        ensures
            res == (self@.pos < self.input().len()),
    {
        self.pos < self.input.len()
    }
}

} // verus!
