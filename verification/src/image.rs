//! The embedded image: a disk image split into fixed-size chunks that are each
//! ZX0-compressed independently.

use vstd::arithmetic::div_mod::{
    lemma_div_pos_is_pos, lemma_fundamental_div_mod, lemma_fundamental_div_mod_converse,
    lemma_mod_bound,
};
use vstd::prelude::*;

use crate::zx0;
use crate::zx0::{decompress_into, MIN_WINDOW_LEN};

verus! {

/// Size of the disk image in bytes (4 MiB).
pub const IMAGE_SIZE: usize = 4 * 1024 * 1024;

/// Size of a block (a sector) of the disk in bytes.
pub const IMAGE_BLOCK_SIZE: u32 = 512;

/// Number of blocks of the disk: [`IMAGE_SIZE`] is this many blocks exactly.
pub const IMAGE_BLOCKS_NUM: u32 = 8192;

/// How many bytes of the image each chunk holds: enough for the decompressor's window.
pub const CHUNK_SIZE: usize = 0x8000;

/// How many chunks the image has.
pub const CHUNK_COUNT: usize = 128;

/// A compressed disk image: the blob of all compressed chunks, and where in it each
/// chunk lies.
#[derive(Clone, Copy)]
pub struct Image<'a> {
    /// All compressed chunks.
    pub compressed: &'a [u8],
    /// For each chunk, its offset into `compressed` and its compressed length.
    pub chunk_table: &'a [(u32, u32)],
    /// How many bytes of the image a chunk holds; the last chunk may hold less.
    pub chunk_size: usize,
    /// Length of the image in bytes.
    pub image_len: usize,
}

/// A compressed disk image as a mathematical value.
pub struct Layout {
    pub compressed: Seq<u8>,
    pub chunk_table: Seq<(u32, u32)>,
    pub chunk_size: nat,
    pub image_len: nat,
}

impl<'a> View for Image<'a> {
    type V = Layout;

    open spec fn view(&self) -> Layout {
        Layout {
            compressed: self.compressed@,
            chunk_table: self.chunk_table@,
            chunk_size: self.chunk_size as nat,
            image_len: self.image_len as nat,
        }
    }
}

impl Layout {
    /// The table tells where chunk `index` lies, and the blob reaches that far.
    pub open spec fn has_chunk(self, index: int) -> bool {
        &&& 0 <= index < self.chunk_table.len()
        &&& self.chunk_table[index].0 + self.chunk_table[index].1 <= self.compressed.len()
    }

    /// The compressed bytes of chunk `index`.
    pub open spec fn compressed_chunk(self, index: int) -> Seq<u8> {
        self.compressed.subrange(
            self.chunk_table[index].0 as int,
            self.chunk_table[index].0 + self.chunk_table[index].1,
        )
    }

    /// The bytes of chunk `index`.
    pub open spec fn chunk_bytes(self, index: int) -> Seq<u8> {
        zx0::stream::decode(self.compressed_chunk(index)).out
    }

    /// Chunk `index` is there, and decompresses into a buffer of one chunk.
    pub open spec fn chunk_decodes(self, index: int) -> bool {
        &&& self.has_chunk(index)
        &&& zx0::stream::decode(self.compressed_chunk(index)).end is Ok
        &&& self.chunk_bytes(index).len() <= self.chunk_size
    }

    /// How many bytes of the image chunk `index` holds.
    pub open spec fn chunk_len(self, index: int) -> int {
        if (index + 1) * self.chunk_size <= self.image_len {
            self.chunk_size as int
        } else {
            self.image_len - index * self.chunk_size
        }
    }

    /// Chunk `index` decompresses to as many bytes as its place in the image asks for.
    pub open spec fn chunk_ok(self, index: int) -> bool {
        &&& self.chunk_decodes(index)
        &&& self.chunk_bytes(index).len() == self.chunk_len(index)
    }

    /// A chunk can serve as the decompressor's window.
    pub open spec fn chunk_size_ok(self) -> bool {
        self.chunk_size >= MIN_WINDOW_LEN
    }

    /// Every byte of the image can be had.
    pub open spec fn wf(self) -> bool {
        &&& self.chunk_size_ok()
        &&& forall|i: int| 0 <= i < self.image_len ==> #[trigger] self.byte_ok(i)
    }

    /// The chunk that holds byte `i` of the image is in order.
    pub open spec fn byte_ok(self, i: int) -> bool {
        self.chunk_ok(self.chunk_of(i))
    }

    /// The image, decompressed.
    pub open spec fn bytes(self) -> Seq<u8> {
        Seq::new(
            self.image_len,
            |i: int|
                self.chunk_bytes(i / (self.chunk_size as int))[i % (self.chunk_size as int)],
        )
    }

    /// The `len` bytes of a disk that holds the image, from `start` on: zeroes past the
    /// end of the image.
    pub open spec fn read_at(self, start: int, len: nat) -> Seq<u8> {
        Seq::new(
            len,
            |i: int|
                if start + i < self.image_len {
                    self.bytes()[start + i]
                } else {
                    0u8
                },
        )
    }

    /// Every chunk that a read of `len` bytes from `start` on touches is in order.
    pub open spec fn readable(self, start: int, len: nat) -> bool {
        forall|i: int|
            start <= i < start + len && i < self.image_len ==> #[trigger] self.byte_ok(i)
    }

    /// The chunk that holds byte `i`.
    pub open spec fn chunk_of(self, i: int) -> int {
        i / (self.chunk_size as int)
    }
}

/// Where byte `i` lies in its chunk: before the end of the chunk, and as far into it
/// as the chunk starts before it.
pub proof fn lemma_byte_place(image: Layout, i: int)
    requires
        image.chunk_size > 0,
        0 <= i < image.image_len,
    ensures
        ({
            let cs = image.chunk_size as int;
            let c = i / cs;
            &&& 0 <= c
            &&& c * cs <= i
            &&& i == c * cs + i % cs
            &&& 0 <= i % cs < image.chunk_len(c) <= cs
            &&& c * cs + image.chunk_len(c) <= image.image_len
        }),
{
    let cs = image.chunk_size as int;
    let c = i / cs;
    lemma_fundamental_div_mod(i, cs);
    lemma_mod_bound(i, cs);
    assert(cs * c == c * cs) by (nonlinear_arith);
    assert(c * cs + cs == (c + 1) * cs) by (nonlinear_arith);
    lemma_div_pos_is_pos(i, cs);
}

/// Bytes of one chunk share its quotient.
pub proof fn lemma_same_chunk(cs: int, c: int, off: int)
    requires
        cs > 0,
        0 <= off < cs,
    ensures
        (c * cs + off) / cs == c,
        (c * cs + off) % cs == off,
{
    lemma_fundamental_div_mod_converse(c * cs + off, cs, c, off);
}

impl<'a> Image<'a> {
    /// Whether every byte of the image can be had: a chunk can serve as the
    /// decompressor's window, and each chunk decompresses to its share of the image.
    /// `scratch` is a buffer of one chunk.
    pub fn is_intact(&self, scratch: &mut [u8]) -> (intact: bool)
        requires
            old(scratch)@.len() == self.chunk_size,
        ensures
            intact == self@.wf(),
            final(scratch)@.len() == old(scratch)@.len(),
    {
        if self.chunk_size < MIN_WINDOW_LEN {
            return false;
        }
        let ghost cs = self.chunk_size as int;
        let mut index: usize = 0;
        let mut left: usize = self.image_len;
        while left > 0
            invariant
                scratch@.len() == old(scratch)@.len(),
                scratch@.len() == self.chunk_size,
                self.chunk_size >= MIN_WINDOW_LEN,
                cs == self.chunk_size as int,
                left <= self.image_len,
                left > 0 ==> index * cs == self.image_len - left,
                forall|i: int| 0 <= i < self.image_len - left ==> #[trigger] self@.byte_ok(i),
            decreases left,
        {
            let expected: usize = if left < self.chunk_size {
                left
            } else {
                self.chunk_size
            };
            proof {
                let i = self.image_len - left;
                lemma_same_chunk(cs, index as int, 0);
                assert(self@.chunk_of(i) == index);
                assert((index + 1) * cs == index * cs + cs) by (nonlinear_arith);
                assert(self@.chunk_len(index as int) == expected);
                assert(self@.chunk_ok(index as int) == self@.byte_ok(i));
            }
            if !self.chunk_is_ok(index, expected, scratch) {
                return false;
            }
            proof {
                assert forall|i: int|
                    self.image_len - left <= i < self.image_len - left
                        + expected implies #[trigger] self@.byte_ok(i) by {
                    lemma_same_chunk(cs, index as int, i - index * cs);
                }
                assert(index <= index * cs) by (nonlinear_arith)
                    requires
                        index >= 0,
                        cs >= 1,
                ;
            }
            left = left - expected;
            index = index + 1;
        }
        true
    }

    /// Whether chunk `index` decompresses to `expected` bytes.
    fn chunk_is_ok(&self, index: usize, expected: usize, scratch: &mut [u8]) -> (ok: bool)
        requires
            old(scratch)@.len() == self.chunk_size,
            self.chunk_size >= MIN_WINDOW_LEN,
            self@.chunk_len(index as int) == expected,
        ensures
            ok == self@.chunk_ok(index as int),
            final(scratch)@.len() == old(scratch)@.len(),
    {
        assert(self.compressed@.len() == self.compressed.len());
        if index >= self.chunk_table.len() {
            return false;
        }
        let (offset, len) = self.chunk_table[index];
        if offset as u64 + len as u64 > self.compressed.len() as u64 {
            return false;
        }
        let compressed = &self.compressed[offset as usize..offset as usize + len as usize];
        match decompress_into(compressed, scratch) {
            Ok(decoded) => decoded.len() == expected,
            Err(_) => false,
        }
    }
}

/// The blocks make up the image exactly, and so do the chunks; a buffer of one chunk can
/// serve as the decompressor's window.
pub proof fn sizes_agree()
    ensures
        IMAGE_BLOCKS_NUM * IMAGE_BLOCK_SIZE == IMAGE_SIZE,
        CHUNK_COUNT * CHUNK_SIZE == IMAGE_SIZE,
        CHUNK_SIZE >= MIN_WINDOW_LEN,
{
}

/// What is read of a disk is the image byte for byte, and zeroes behind its end, however
/// much is read at once.
pub proof fn reads_are_the_image(image: Layout, start: int, len: nat, i: int)
    requires
        0 <= start,
        0 <= i < len,
    ensures
        image.read_at(start, len).len() == len,
        start + i < image.image_len ==> image.read_at(start, len)[i] == image.bytes()[start + i],
        start + i >= image.image_len ==> image.read_at(start, len)[i] == 0,
{
}

/// An image in order is its chunks, decompressed one behind another: byte `off` of chunk
/// `index` is that many chunks and bytes into the image. Every chunk holds a full share but
/// the last.
pub proof fn the_image_is_its_chunks(image: Layout, index: int, off: int)
    requires
        image.wf(),
        0 <= index,
        0 <= off < image.chunk_size,
        index * image.chunk_size + off < image.image_len,
    ensures
        image.bytes().len() == image.image_len,
        index < image.chunk_table.len(),
        ({
            let (offset, len) = image.chunk_table[index];
            let run = zx0::stream::decode(image.compressed.subrange(offset as int, offset + len));
            &&& offset + len <= image.compressed.len()
            &&& run.end is Ok
            &&& off < run.out.len()
            &&& image.bytes()[index * image.chunk_size + off] == run.out[off]
            &&& run.out.len() == if (index + 1) * image.chunk_size <= image.image_len {
                image.chunk_size as int
            } else {
                image.image_len - index * image.chunk_size
            }
        }),
{
    let cs = image.chunk_size as int;
    let i = index * cs + off;
    lemma_same_chunk(cs, index, off);
    assert(0 <= i) by (nonlinear_arith)
        requires
            i == index * cs + off,
            0 <= index,
            0 <= off,
            0 < cs,
    ;
    assert(image.byte_ok(i));
    lemma_byte_place(image, i);
}

/// The disk has 4 MiB in 8192 blocks of 512 bytes, and is cut into 128 chunks of 32 KiB; a
/// window has room for all that a back-reference reaches and one byte more.
pub proof fn sizes_are_those_of_the_disk()
    ensures
        IMAGE_SIZE == 4194304,
        IMAGE_BLOCK_SIZE == 512,
        IMAGE_BLOCKS_NUM == 8192,
        CHUNK_SIZE == 32768,
        CHUNK_COUNT == 128,
        MIN_WINDOW_LEN == 32641,
{
}

/// An image is in order exactly if a chunk can serve as a window, and every chunk that the
/// image reaches into is there and decompresses to its share.
pub proof fn images_of_sound_chunks_are_in_order(image: Layout)
    ensures
        image.wf() <==> image.chunk_size >= 32641 && forall|index: int|
            0 <= index && index * image.chunk_size < image.image_len ==> #[trigger] is_sound(
                image,
                index,
            ),
{
    let cs = image.chunk_size as int;
    if image.wf() {
        assert forall|index: int| 0 <= index && index * image.chunk_size < image.image_len implies
            #[trigger] is_sound(image, index) by {
            the_image_is_its_chunks(image, index, 0);
        }
    }
    if image.chunk_size >= 32641 && forall|index: int|
        0 <= index && index * image.chunk_size < image.image_len ==> #[trigger] is_sound(
            image,
            index,
        ) {
        assert forall|i: int| 0 <= i < image.image_len implies #[trigger] image.byte_ok(i) by {
            lemma_byte_place(image, i);
            assert(is_sound(image, i / cs));
        }
    }
}

/// Chunk `index` lies within the blob, and decompresses to its share of the image.
pub open spec fn is_sound(image: Layout, index: int) -> bool {
    &&& index < image.chunk_table.len()
    &&& {
        let (offset, len) = image.chunk_table[index];
        let run = zx0::stream::decode(image.compressed.subrange(offset as int, offset + len));
        &&& offset + len <= image.compressed.len()
        &&& run.end is Ok
        &&& run.out.len() == if (index + 1) * image.chunk_size <= image.image_len {
            image.chunk_size as int
        } else {
            image.image_len - index * image.chunk_size
        }
    }
}

} // verus!
