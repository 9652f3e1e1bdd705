//! On-demand decompression of the embedded image.

use vstd::prelude::*;

use crate::bytes;
use crate::bytes::{copy_at, zero_from};
use crate::image;
use crate::image::{Image, Layout, IMAGE_BLOCK_SIZE};
use crate::zx0;
use crate::zx0::decompress_into;

verus! {

/// Serves the read-only image by decompressing one ZX0 chunk at a time into a
/// single reusable buffer that doubles as the decode window and the chunk cache.
/// Sequential reads stay within a cached chunk; crossing a chunk boundary
/// triggers exactly one decompression.
pub struct ImageStore<'a> {
    image: Image<'a>,
    /// Decode window + resident copy of the currently cached chunk.
    buf: &'a mut [u8],
    /// Index of the chunk currently held in `buf`, if any.
    cached: Option<usize>,
    /// Decompressed length of the cached chunk (the chunk size, or less for a short
    /// final chunk).
    cached_len: usize,
    /// Core clock, used to report each decompression's wall-clock time.
    clock_hz: u32,
    /// How many chunks have been decompressed.
    decodes: Ghost<nat>,
}

/// A read of `len` bytes from `start` on leaves the last chunk that it touched in the cache,
/// and has decompressed each chunk that it touched once, but for the first one where that
/// was cached already. A read that touches no chunk changes neither.
pub open spec fn served(before: ImageStore, after: ImageStore, start: int, len: nat) -> bool {
    let image = before.image();
    let end = if start + len <= image.image_len {
        start + len
    } else {
        image.image_len as int
    };
    if start < end {
        &&& after.cached() == Some(image.chunk_of(end - 1))
        &&& after.decodes() == before.decodes() + image.chunk_of(end - 1) - image.chunk_of(start)
            + if before.cached() == Some(image.chunk_of(start)) {
            0int
        } else {
            1int
        }
    } else {
        &&& after.cached() == before.cached()
        &&& after.decodes() == before.decodes()
    }
}

impl<'a> ImageStore<'a> {
    /// The image that is served.
    pub closed spec fn image(self) -> Layout {
        self.image@
    }

    /// The chunk that is cached, if any.
    pub closed spec fn cached(self) -> Option<int> {
        match self.cached {
            Some(index) => Some(index as int),
            None => None,
        }
    }

    /// How many chunks have been decompressed so far.
    pub closed spec fn decodes(self) -> nat {
        self.decodes@
    }

    pub closed spec fn clock_hz(self) -> u32 {
        self.clock_hz
    }

    /// The buffer holds the chunk that it is said to hold.
    pub closed spec fn wf(self) -> bool {
        &&& self.image@.chunk_size_ok()
        &&& self.buf@.len() == self.image.chunk_size
        &&& self.cached matches Some(index) ==> {
            &&& self.image@.chunk_decodes(index as int)
            &&& self.cached_len == self.image@.chunk_bytes(index as int).len()
            &&& self.buf@.subrange(0, self.cached_len as int) == self.image@.chunk_bytes(
                index as int,
            )
        }
    }

    /// A store that has not decompressed anything yet.
    pub fn new(image: Image<'a>, buf: &'a mut [u8], clock_hz: u32) -> (store: Self)
        requires
            image@.chunk_size_ok(),
            old(buf)@.len() == image.chunk_size,
        ensures
            store.wf(),
            store.image() == image@,
            store.cached() is None,
            store.decodes() == 0,
            store.clock_hz() == clock_hz,
    {
        Self { image, buf, cached: None, cached_len: 0, clock_hz, decodes: Ghost(0nat) }
    }

    /// Returns the fully decompressed bytes of chunk `index`, decompressing it into
    /// the buffer first unless it is already cached. A cache hit does nothing.
    pub fn chunk<'s>(&'s mut self, index: usize) -> (bytes: &'s [u8])
        requires
            old(self).wf(),
            old(self).image().chunk_decodes(index as int),
        ensures
            bytes@ == old(self).image().chunk_bytes(index as int),
            final(self).wf(),
            final(self).image() == old(self).image(),
            final(self).clock_hz() == old(self).clock_hz(),
            final(self).cached() == Some(index as int),
            final(self).decodes() == old(self).decodes() + if old(self).cached() == Some(
                index as int,
            ) {
                0nat
            } else {
                1nat
            },
            old(self).cached() == Some(index as int) ==> *final(self) == *old(self),
    {
        let hit = match self.cached {
            Some(held) => held == index,
            None => false,
        };
        if !hit {
            let (offset, len) = self.image.chunk_table[index];
            assert(self.image.compressed@.len() == self.image.compressed.len());
            let compressed = &self.image.compressed[offset as usize..offset as usize + len as usize];
            match decompress_into(compressed, &mut *self.buf) {
                Ok(decoded) => {
                    proof {
                        zx0::delivery::lemma_ring_prefix(old(self).buf@, decoded@);
                    }
                    self.cached_len = decoded.len();
                    self.cached = Some(index);
                    proof {
                        self.decodes@ = self.decodes@ + 1;
                    }
                },
                Err(_) => {
                    assert(false);
                },
            }
        }
        &self.buf[0..self.cached_len]
    }

    /// Copy image bytes from `pos` on into `dst` at `off`, as many as `dst` has room for
    /// and the chunk of `pos` holds. Returns how many those were.
    fn read_piece(&mut self, pos: u64, dst: &mut [u8], off: usize) -> (n: usize)
        requires
            old(self).wf(),
            pos < old(self).image().image_len,
            old(self).image().byte_ok(pos as int),
            off < old(dst)@.len(),
        ensures
            final(self).wf(),
            final(self).image() == old(self).image(),
            final(self).clock_hz() == old(self).clock_hz(),
            ({
                let image = old(self).image();
                let chunk = image.chunk_of(pos as int);
                &&& 0 < n <= old(dst)@.len() - off
                &&& pos + n <= image.image_len
                &&& final(dst)@ == bytes::written(
                    old(dst)@,
                    off as int,
                    image.bytes().subrange(pos as int, pos + n),
                )
                &&& image.chunk_of(pos + n - 1) == chunk
                &&& n < old(dst)@.len() - off && pos + n < image.image_len ==> image.chunk_of(
                    pos + n,
                ) == chunk + 1
                &&& final(self).cached() == Some(chunk)
                &&& final(self).decodes() == old(self).decodes() + if old(self).cached() == Some(
                    chunk,
                ) {
                    0nat
                } else {
                    1nat
                }
            }),
    {
        let ghost image = self.image@;
        let ghost cs = image.chunk_size as int;
        proof {
            image::lemma_byte_place(image, pos as int);
            assert(dst@.len() == dst.len());
        }
        let chunk_index: usize = (pos / self.image.chunk_size as u64) as usize;
        let in_chunk: usize = (pos % self.image.chunk_size as u64) as usize;
        let wanted: usize = dst.len() - off;
        let chunk = self.chunk(chunk_index);
        let available: usize = chunk.len() - in_chunk;
        let n: usize = if wanted < available {
            wanted
        } else {
            available
        };
        copy_at(dst, off, &chunk[in_chunk..in_chunk + n]);
        proof {
            let c = image.chunk_of(pos as int);
            let src = chunk@.subrange(in_chunk as int, in_chunk + n);
            assert forall|i: int| 0 <= i < n implies #[trigger] src[i] == image.bytes()[pos
                + i] by {
                image::lemma_same_chunk(cs, c, in_chunk + i);
            }
            assert(src =~= image.bytes().subrange(pos as int, pos + n));
            image::lemma_same_chunk(cs, c, in_chunk + n - 1);
            if in_chunk + n == cs {
                image::lemma_same_chunk(cs, c + 1, 0);
                assert((c + 1) * cs == c * cs + cs) by (nonlinear_arith);
            }
        }
        n
    }

    /// Fill `dst` with the image bytes starting at sector `sector_index`, decompressing
    /// chunks on demand and crossing chunk boundaries as needed. Reads past the end of
    /// the image are zero-filled (defensive; the host should never request them given
    /// the reported capacity).
    pub fn read_sectors(&mut self, sector_index: u32, dst: &mut [u8])
        requires
            old(self).wf(),
            old(self).image().readable(sector_index * IMAGE_BLOCK_SIZE, old(dst)@.len()),
        ensures
            final(dst)@ == old(self).image().read_at(
                sector_index * IMAGE_BLOCK_SIZE,
                old(dst)@.len(),
            ),
            final(self).wf(),
            final(self).image() == old(self).image(),
            final(self).clock_hz() == old(self).clock_hz(),
            served(
                *old(self),
                *final(self),
                sector_index * IMAGE_BLOCK_SIZE,
                old(dst)@.len(),
            ),
    {
        let ghost image = self.image@;
        let ghost start: int = sector_index * IMAGE_BLOCK_SIZE;
        let ghost cs = image.chunk_size as int;
        let ghost want = image.read_at(start, dst@.len());
        let ghost first_cost: int = if self.cached() == Some(image.chunk_of(start)) { 0 } else { 1 };
        let mut pos: u64 = sector_index as u64 * IMAGE_BLOCK_SIZE as u64;
        let mut off: usize = 0;
        while off < dst.len()
            invariant_except_break
                off <= dst@.len(),
                pos == start + off,
                off > 0 ==> pos <= image.image_len && self.cached() == Some(image.chunk_of(pos - 1))
                    && self.decodes() == old(self).decodes() + image.chunk_of(pos - 1)
                    - image.chunk_of(start) + first_cost,
                off == 0 ==> self.cached() == old(self).cached() && self.decodes() == old(
                    self,
                ).decodes(),
                0 < off < dst@.len() && pos < image.image_len ==> image.chunk_of(pos as int)
                    == image.chunk_of(pos - 1) + 1,
                forall|i: int| 0 <= i < off ==> #[trigger] dst@[i] == want[i],
            invariant
                dst@.len() == old(dst)@.len(),
                self.wf(),
                self.image@ == image,
                self.clock_hz == old(self).clock_hz,
                image == old(self).image@,
                image.chunk_size_ok(),
                cs == image.chunk_size as int,
                start == sector_index * IMAGE_BLOCK_SIZE,
                image.readable(start, dst@.len()),
                want == image.read_at(start, dst@.len()),
                first_cost == if old(self).cached() == Some(image.chunk_of(start)) {
                    0int
                } else {
                    1int
                },
            ensures
                served(*old(self), *self, start, dst@.len()),
                dst@ == want,
            decreases dst@.len() - off,
        {
            assert(dst@.len() == dst.len());
            if pos >= self.image.image_len as u64 {
                zero_from(dst, off);
                break;
            }
            assert(image.byte_ok(pos as int));
            let n: usize = self.read_piece(pos, dst, off);
            off = off + n;
            pos = pos + n as u64;
        }
    }

    /// How many microseconds `cycles` cycles of the core clock take, in 32 bits.
    pub fn decode_micros(&self, cycles: u32) -> (us: u32)
        requires
            self.clock_hz() > 0,
        ensures
            us == (cycles * 1_000_000 / self.clock_hz() as int) % 0x1_0000_0000,
            cycles * 1_000_000 < 0x1_0000_0000 * self.clock_hz() ==> us * self.clock_hz() <= cycles
                * 1_000_000 < us * self.clock_hz() + self.clock_hz(),
    {
        proof {
            assert(cycles * 1_000_000 <= u64::MAX);
            lemma_quotient(cycles * 1_000_000, self.clock_hz as int);
        }
        let us: u64 = cycles as u64 * 1_000_000 / self.clock_hz as u64;
        assert(us as u32 == us % 0x1_0000_0000) by (bit_vector);
        #[verifier::truncate]
        (us as u32)
    }

    /// How many bytes of the image a chunk holds.
    pub fn chunk_size(&self) -> (size: usize)
        requires
            self.wf(),
        ensures
            size == self.image().chunk_size,
            size > 0,
    {
        self.image.chunk_size
    }

    /// The chunk that is cached, if any.
    pub fn cached_chunk(&self) -> (index: Option<usize>)
        ensures
            self.cached() == match index {
                Some(i) => Some(i as int),
                None => None,
            },
    {
        self.cached
    }
}

/// A read that reaches from chunk `first` into chunk `last` decompresses each of them once,
/// but for the first where that was cached, and leaves the last one cached; so a read within
/// the cached chunk decompresses nothing. A read behind the image changes nothing.
pub proof fn chunks_are_decompressed_once(
    before: ImageStore,
    after: ImageStore,
    start: int,
    len: nat,
    first: int,
    last: int,
)
    requires
        before.image().chunk_size > 0,
        served(before, after, start, len),
        0 <= start,
    ensures
        ({
            let size = before.image().chunk_size;
            let image_len = before.image().image_len;
            let end = if start + len <= image_len {
                start + len
            } else {
                image_len as int
            };
            &&& start < end && first * size <= start < first * size + size && last * size < end
                <= last * size + size ==> {
                &&& after.cached() == Some(last)
                &&& before.cached() == Some(first) ==> after.decodes() == before.decodes() + last
                    - first
                &&& before.cached() != Some(first) ==> after.decodes() == before.decodes() + last
                    - first + 1
            }
            &&& len == 0 || start >= image_len ==> after.cached() == before.cached()
                && after.decodes() == before.decodes()
        }),
{
    let size = before.image().chunk_size as int;
    let image_len = before.image().image_len;
    let end = if start + len <= image_len {
        start + len
    } else {
        image_len as int
    };
    if first * size <= start < first * size + size {
        image::lemma_same_chunk(size, first, start - first * size);
    }
    if last * size < end <= last * size + size {
        image::lemma_same_chunk(size, last, end - 1 - last * size);
    }
}

/// A quotient of 32 bits is what its divisor fits into the dividend.
proof fn lemma_quotient(x: int, d: int)
    requires
        0 <= x,
        0 < d,
    ensures
        x < 0x1_0000_0000 * d ==> 0 <= x / d < 0x1_0000_0000,
        (x / d) * d <= x < (x / d) * d + d,
{
    vstd::arithmetic::div_mod::lemma_fundamental_div_mod(x, d);
    vstd::arithmetic::div_mod::lemma_mod_bound(x, d);
    vstd::arithmetic::div_mod::lemma_div_pos_is_pos(x, d);
    assert((x / d) * d == d * (x / d)) by (nonlinear_arith);
    let q = x / d;
    assert(x < 0x1_0000_0000 * d ==> q < 0x1_0000_0000) by (nonlinear_arith)
        requires
            q * d <= x,
            0 < d,
    ;
}

} // verus!
