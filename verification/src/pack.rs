//! Packing a disk image for embedding: it is split into fixed-size chunks that are
//! each ZX0-compressed independently.

use vstd::arithmetic::div_mod::{lemma_fundamental_div_mod, lemma_mod_bound};
use vstd::prelude::*;

use crate::bytes::equal;
use crate::image;
use crate::image::{Image, Layout};
use crate::zx0;
use crate::zx0::{decompress_into, MIN_WINDOW_LEN};

verus! {

/// The most bytes that are handed to the compressor at once: the cost of any stream
/// for so many bytes, in bits, fits the 32 bits that the compressor counts it in.
pub const MAX_CHUNK_SIZE: usize = 0x1000_0000;

/// What `zx0::compress` returns.
pub uninterp spec fn zx0_compressed(data: Seq<u8>) -> Seq<u8>;

/// `zx0::compress`, the ZX0 compressor with its default settings. Which of the many
/// streams for its input it picks is not stated, nor that the stream decodes to the
/// input: only that it is a function of the input. It does not accept an empty input,
/// and counts the bits of its output in 32 bits.
#[verifier::external_body]
fn compress(data: &[u8]) -> (stream: Vec<u8>)
    requires
        0 < data@.len() <= MAX_CHUNK_SIZE,
    ensures
        stream@ == zx0_compressed(data@),
{
    ::zx0::compress(data)
}

/// Why an image could not be packed.
#[derive(Debug, Clone, Copy, PartialEq, Eq)]
pub enum PackError {
    /// A chunk is smaller than the decompressor's window, or larger than
    /// [`MAX_CHUNK_SIZE`].
    ChunkSize,
    /// The compressor's stream for this chunk does not decode to the chunk.
    NotReproduced(usize),
    /// The blob is too large for the 32-bit offsets of the chunk table.
    TooLarge,
}

/// A packed image.
pub struct Packed {
    /// All compressed chunks.
    pub compressed: Vec<u8>,
    /// For each chunk, its offset into `compressed` and its compressed length.
    pub chunk_table: Vec<(u32, u32)>,
    /// How many bytes of the image a chunk holds; the last chunk may hold less.
    pub chunk_size: usize,
    /// Length of the image in bytes.
    pub image_len: usize,
}

impl View for Packed {
    type V = Layout;

    open spec fn view(&self) -> Layout {
        Layout {
            compressed: self.compressed@,
            chunk_table: self.chunk_table@,
            chunk_size: self.chunk_size as nat,
            image_len: self.image_len as nat,
        }
    }
}

impl Packed {
    /// The packed image, as a store serves it.
    pub fn image(&self) -> (image: Image<'_>)
        ensures
            image@ == self@,
    {
        Image {
            compressed: self.compressed.as_slice(),
            chunk_table: self.chunk_table.as_slice(),
            chunk_size: self.chunk_size,
            image_len: self.image_len,
        }
    }
}

/// The chunks of an image.
pub open spec fn pieces(data: Seq<u8>, chunk_size: nat) -> Seq<Seq<u8>> {
    zx0::delivery::chunks(data, chunk_size, true)
}

/// The compressor's streams for the first `k` of these pieces, one behind another.
pub open spec fn blob(pieces: Seq<Seq<u8>>, k: int) -> Seq<u8>
    decreases k,
{
    if k <= 0 {
        Seq::empty()
    } else {
        blob(pieces, k - 1) + zx0_compressed(pieces[k - 1])
    }
}

/// The compressor's stream for these bytes decodes to them.
pub open spec fn reproduced(piece: Seq<u8>) -> bool {
    decodes_to(zx0_compressed(piece), piece)
}

/// The table of the first `k` of these pieces.
pub open spec fn table(pieces: Seq<Seq<u8>>, k: int) -> Seq<(u32, u32)> {
    Seq::new(
        k as nat,
        |i: int|
            (blob(pieces, i).len() as u32, zx0_compressed(pieces[i]).len() as u32),
    )
}

/// The first `k` pieces are reproduced, and lie within reach of the table.
pub open spec fn packable(pieces: Seq<Seq<u8>>, k: int) -> bool {
    forall|i: int|
        0 <= i < k ==> reproduced(#[trigger] pieces[i]) && blob(pieces, i + 1).len() <= u32::MAX
}

/// The blob only grows.
proof fn lemma_blob_grows(pieces: Seq<Seq<u8>>, j: int, k: int)
    requires
        0 <= j <= k,
    ensures
        blob(pieces, j).is_prefix_of(blob(pieces, k)),
    decreases k - j,
{
    if j < k {
        lemma_blob_grows(pieces, j, k - 1);
        assert(blob(pieces, j) =~= blob(pieces, k).subrange(0, blob(pieces, j).len() as int));
    }
}

/// This is the packed form of these data.
spec fn is_packed(data: Seq<u8>, chunk_size: nat, layout: Layout) -> bool {
    let pieces = pieces(data, chunk_size);
    &&& packable(pieces, pieces.len() as int)
    &&& layout.compressed == blob(pieces, pieces.len() as int)
    &&& layout.chunk_table == table(pieces, pieces.len() as int)
    &&& layout.chunk_size == chunk_size
    &&& layout.image_len == data.len()
}

/// What the table of packed data says of a piece leads to the piece.
proof fn lemma_packed_piece(data: Seq<u8>, chunk_size: nat, layout: Layout, c: int)
    requires
        is_packed(data, chunk_size, layout),
        0 <= c < pieces(data, chunk_size).len(),
    ensures
        layout.has_chunk(c),
        layout.compressed_chunk(c) == zx0_compressed(pieces(data, chunk_size)[c]),
{
    let pieces = pieces(data, chunk_size);
    let full = blob(pieces, pieces.len() as int);
    let piece = pieces[c];
    assert(reproduced(piece));
    lemma_blob_grows(pieces, c + 1, pieces.len() as int);
    let upto = blob(pieces, c + 1);
    assert(upto == full.subrange(0, upto.len() as int));
    assert(upto == blob(pieces, c) + zx0_compressed(piece));
    assert(layout.chunk_table[c].0 == blob(pieces, c).len());
    assert(layout.chunk_table[c].1 == zx0_compressed(piece).len());
    let part = layout.compressed_chunk(c);
    assert forall|j: int| 0 <= j < part.len() implies part[j] == zx0_compressed(piece)[j] by {
        assert(part[j] == upto[blob(pieces, c).len() + j]);
    }
    assert(part =~= zx0_compressed(piece));
}

/// Every byte of packed data can be read back.
proof fn lemma_packed_byte(data: Seq<u8>, chunk_size: nat, layout: Layout, i: int)
    requires
        MIN_WINDOW_LEN <= chunk_size,
        is_packed(data, chunk_size, layout),
        0 <= i < data.len(),
    ensures
        layout.byte_ok(i),
        layout.bytes()[i] == data[i],
{
    let c = layout.chunk_of(i);
    image::lemma_byte_place(layout, i);
    lemma_piece_in(data, chunk_size, c);
    lemma_packed_piece(data, chunk_size, layout, c);
    assert(reproduced(pieces(data, chunk_size)[c]));
    reveal(decodes_to);
}

/// Packed data can be read back.
proof fn lemma_packed(data: Seq<u8>, chunk_size: nat, layout: Layout)
    requires
        MIN_WINDOW_LEN <= chunk_size,
        is_packed(data, chunk_size, layout),
    ensures
        layout.wf(),
        layout.bytes() == data,
{
    assert forall|i: int| 0 <= i < data.len() implies #[trigger] layout.byte_ok(i) by {
        lemma_packed_byte(data, chunk_size, layout, i);
    }
    assert forall|i: int| 0 <= i < data.len() implies layout.bytes()[i] == data[i] by {
        lemma_packed_byte(data, chunk_size, layout, i);
    }
    assert(layout.bytes() =~= data);
}

/// This stream decodes to these bytes.
#[verifier::opaque]
pub open spec fn decodes_to(stream: Seq<u8>, piece: Seq<u8>) -> bool {
    let run = zx0::stream::decode(stream);
    run.end is Ok && run.out == piece
}

/// Append `stream` to a blob and its table, as the next chunk, provided that it decodes
/// to `piece`. `scratch` is a buffer that `piece` fits in.
pub fn append_chunk(
    compressed: &mut Vec<u8>,
    chunk_table: &mut Vec<(u32, u32)>,
    piece: &[u8],
    stream: &[u8],
    scratch: &mut [u8],
) -> (res: Result<(), PackError>)
    requires
        old(compressed)@.len() <= u32::MAX,
        MIN_WINDOW_LEN <= old(scratch)@.len(),
        piece@.len() <= old(scratch)@.len(),
    ensures
        final(scratch)@.len() == old(scratch)@.len(),
        if !decodes_to(stream@, piece@) {
            res == Err::<(), PackError>(
                PackError::NotReproduced(old(chunk_table)@.len() as usize),
            )
        } else if old(compressed)@.len() + stream@.len() > u32::MAX {
            res == Err::<(), PackError>(PackError::TooLarge)
        } else {
            res is Ok
        },
        match res {
            Ok(()) => {
                &&& final(compressed)@ == old(compressed)@ + stream@
                &&& final(chunk_table)@ == old(chunk_table)@.push(
                    (old(compressed)@.len() as u32, stream@.len() as u32),
                )
            },
            Err(_) => {
                &&& final(compressed)@ == old(compressed)@
                &&& final(chunk_table)@ == old(chunk_table)@
            },
        },
{
    reveal(decodes_to);
    let same = match decompress_into(stream, scratch) {
        Ok(decoded) => equal(decoded, piece),
        Err(_) => false,
    };
    if !same {
        return Err(PackError::NotReproduced(chunk_table.len()));
    }
    assert(stream@.len() == stream.len());
    if stream.len() as u64 > (u32::MAX - compressed.len() as u32) as u64 {
        return Err(PackError::TooLarge);
    }
    chunk_table.push((compressed.len() as u32, stream.len() as u32));
    compressed.extend_from_slice(stream);
    Ok(())
}

/// Pack an image into chunks of `chunk_size` bytes. Every chunk is decoded again, so
/// that an image that packs is known to read back.
pub fn pack(data: &[u8], chunk_size: usize) -> (res: Result<Packed, PackError>)
    ensures
        ({
            let pieces = pieces(data@, chunk_size as nat);
            let n = pieces.len() as int;
            if !(MIN_WINDOW_LEN <= chunk_size <= MAX_CHUNK_SIZE) {
                res == Err::<Packed, PackError>(PackError::ChunkSize)
            } else if packable(pieces, n) {
                &&& res matches Ok(packed)
                &&& packed.compressed@ == blob(pieces, n)
                &&& packed.chunk_table@ == table(pieces, n)
                &&& packed.chunk_size == chunk_size
                &&& packed.image_len == data@.len()
                &&& packed@.wf()
                &&& packed@.bytes() == data@
            } else {
                match res {
                    Ok(_) => false,
                    Err(PackError::ChunkSize) => false,
                    Err(PackError::NotReproduced(k)) => k < n && packable(pieces, k as int)
                        && !reproduced(pieces[k as int]),
                    Err(PackError::TooLarge) => exists|k: int|
                        0 <= k < n && packable(pieces, k) && reproduced(#[trigger] pieces[k])
                            && blob(pieces, k + 1).len() > u32::MAX,
                }
            }
        }),
{
    if chunk_size < MIN_WINDOW_LEN || chunk_size > MAX_CHUNK_SIZE {
        return Err(PackError::ChunkSize);
    }
    let ghost cs = chunk_size as int;
    let ghost all = pieces(data@, chunk_size as nat);
    let mut scratch: Vec<u8> = vec![0u8; chunk_size];
    let mut compressed: Vec<u8> = Vec::new();
    let mut chunk_table: Vec<(u32, u32)> = Vec::new();
    let mut start: usize = 0;
    let mut k: usize = 0;
    proof {
        assert(data@.len() == data.len());
        zx0::delivery::lemma_next_multiple(data@.len(), chunk_size as nat);
    }
    while start < data.len()
        invariant
            MIN_WINDOW_LEN <= chunk_size <= MAX_CHUNK_SIZE,
            cs == chunk_size as int,
            all == pieces(data@, chunk_size as nat),
            scratch@.len() == chunk_size,
            data@.len() == data.len(),
            start <= data@.len(),
            start < data@.len() ==> start == k * cs,
            start == data@.len() ==> k == all.len(),
            k <= all.len(),
            k <= start,
            packable(all, k as int),
            compressed@ == blob(all, k as int),
            chunk_table@ == table(all, k as int),
            compressed@.len() <= u32::MAX,
        decreases data@.len() - start,
    {
        let end: usize = if data.len() - start < chunk_size {
            data.len()
        } else {
            start + chunk_size
        };
        let piece = &data[start..end];
        proof {
            lemma_piece_in(data@, chunk_size as nat, k as int);
        }
        let stream = compress(piece);
        assert(blob(all, k + 1) == blob(all, k as int) + zx0_compressed(all[k as int]));
        match append_chunk(
            &mut compressed,
            &mut chunk_table,
            piece,
            stream.as_slice(),
            scratch.as_mut_slice(),
        ) {
            Ok(()) => {},
            Err(e) => {
                assert(reproduced(all[k as int]) == decodes_to(stream@, piece@));
                return Err(e);
            },
        }
        assert(reproduced(all[k as int]));
        start = end;
        k = k + 1;
        assert(chunk_table@ =~= table(all, k as int));
    }
    let packed = Packed { compressed, chunk_table, chunk_size, image_len: data.len() };
    proof {
        lemma_packed(data@, chunk_size as nat, packed@);
    }
    Ok(packed)
}

/// Data that the compressor's stream reproduces come back from it through any window: the
/// stream is complete, and its chunks, one behind the other, are the data.
pub proof fn reproduced_data_come_back(data: Seq<u8>, n: nat)
    requires
        reproduced(data),
        n >= MIN_WINDOW_LEN,
    ensures
        zx0::stream::decode(zx0_compressed(data)).end is Ok,
        zx0::due(zx0_compressed(data), n).flatten() == data,
{
    reveal(decodes_to);
    zx0::laws::chunks_are_the_output(data, n);
}

/// The piece from byte `k * chunk_size` on is piece `k`, and the last one if the data
/// end in it.
proof fn lemma_piece_in(data: Seq<u8>, chunk_size: nat, k: int)
    requires
        0 < chunk_size,
        0 <= k,
        k * chunk_size < data.len(),
    ensures
        k < pieces(data, chunk_size).len(),
        k * chunk_size + chunk_size >= data.len() ==> k + 1 == pieces(data, chunk_size).len(),
        (k + 1) * chunk_size == k * chunk_size + chunk_size,
        pieces(data, chunk_size)[k] == data.subrange(
            k * chunk_size,
            if k * chunk_size + chunk_size <= data.len() {
                k * chunk_size + chunk_size
            } else {
                data.len() as int
            },
        ),
{
    let cs = chunk_size as int;
    let q = data.len() as int / cs;
    let r = data.len() as int % cs;
    lemma_fundamental_div_mod(data.len() as int, cs);
    lemma_mod_bound(data.len() as int, cs);
    assert((k + 1) * cs == k * cs + cs) by (nonlinear_arith);
    assert(cs * q == q * cs) by (nonlinear_arith);
    assert(k < q || (k == q && r != 0)) by (nonlinear_arith)
        requires
            k * cs < data.len(),
            data.len() == q * cs + r,
            0 <= r < cs,
    ;
    if k * cs + cs >= data.len() {
        assert(k == q || (k + 1 == q && r == 0)) by (nonlinear_arith)
            requires
                k * cs + cs >= data.len(),
                data.len() == q * cs + r,
                0 <= r < cs,
                k < q || (k == q && r != 0),
        ;
    }
}

/// The streams of these pieces stand one behind another in the blob, and the table tells
/// where each begins and how long it is.
pub proof fn streams_stand_in_a_row(pieces: Seq<Seq<u8>>, i: int, k: int)
    requires
        0 <= i < k,
    ensures
        blob(pieces, k).len() <= 0xFFFF_FFFF ==> {
            let (offset, len) = table(pieces, k)[i];
            &&& offset + len <= blob(pieces, k).len()
            &&& blob(pieces, k).subrange(offset as int, offset + len) == zx0_compressed(pieces[i])
            &&& i == 0 ==> offset == 0
            &&& i > 0 ==> offset == table(pieces, k)[i - 1].0 + table(pieces, k)[i - 1].1
            &&& i == k - 1 ==> offset + len == blob(pieces, k).len()
        },
        table(pieces, k).len() == k,
{
    lemma_blob_grows(pieces, i + 1, k);
    lemma_blob_grows(pieces, i, k);
    let upto = blob(pieces, i + 1);
    let all = blob(pieces, k);
    let one = zx0_compressed(pieces[i]);
    let n = blob(pieces, i).len() as int;
    assert(upto == blob(pieces, i) + one);
    assert(upto == all.subrange(0, upto.len() as int));
    assert(all.subrange(n, n + one.len()) =~= upto.subrange(n, n + one.len()));
    assert(upto.subrange(n, n + one.len()) =~= one);
    if i > 0 {
        lemma_blob_grows(pieces, i - 1, k);
        assert(blob(pieces, i) == blob(pieces, i - 1) + zx0_compressed(pieces[i - 1]));
    }
}

/// An image packs exactly if the stream of each of its chunks decodes to the chunk, and all
/// streams together are within reach of 32 bits.
pub proof fn images_pack_if_their_chunks_do(pieces: Seq<Seq<u8>>, n: int)
    requires
        0 <= n,
    ensures
        packable(pieces, n) <==> blob(pieces, n).len() <= 0xFFFF_FFFF && forall|i: int|
            0 <= i < n ==> zx0::stream::decode(zx0_compressed(#[trigger] pieces[i])).end is Ok
                && zx0::stream::decode(zx0_compressed(pieces[i])).out == pieces[i],
{
    reveal(decodes_to);
    if packable(pieces, n) {
        if n > 0 {
            assert(reproduced(pieces[n - 1]));
        }
        assert forall|i: int| 0 <= i < n implies zx0::stream::decode(
            zx0_compressed(#[trigger] pieces[i]),
        ).end is Ok && zx0::stream::decode(zx0_compressed(pieces[i])).out == pieces[i] by {
            assert(reproduced(pieces[i]));
        }
    }
    if blob(pieces, n).len() <= 0xFFFF_FFFF && forall|i: int|
        0 <= i < n ==> zx0::stream::decode(zx0_compressed(#[trigger] pieces[i])).end is Ok
            && zx0::stream::decode(zx0_compressed(pieces[i])).out == pieces[i] {
        assert forall|i: int| 0 <= i < n implies reproduced(#[trigger] pieces[i]) && blob(
            pieces,
            i + 1,
        ).len() <= u32::MAX by {
            lemma_blob_grows(pieces, i + 1, n);
        }
    }
}

/// The chunks of an image are its bytes, cut every `chunk_size`: chunk `k` begins that many
/// chunks into the image, and only the last may be short.
pub proof fn chunks_are_cut_from_the_image(data: Seq<u8>, chunk_size: nat, k: int)
    requires
        0 < chunk_size,
        0 <= k,
    ensures
        k < pieces(data, chunk_size).len() <==> k * chunk_size < data.len(),
        k * chunk_size + chunk_size <= data.len() ==> pieces(data, chunk_size)[k] == data.subrange(
            k * chunk_size,
            k * chunk_size + chunk_size,
        ),
        k * chunk_size < data.len() < k * chunk_size + chunk_size ==> pieces(data, chunk_size)[k]
            == data.skip(k * chunk_size),
{
    let cs = chunk_size as int;
    if k * cs < data.len() {
        lemma_piece_in(data, chunk_size, k);
        if data.len() < k * cs + cs {
            assert(data.skip(k * cs) =~= data.subrange(k * cs, data.len() as int));
        }
    } else {
        let q = data.len() as int / cs;
        let r = data.len() as int % cs;
        lemma_fundamental_div_mod(data.len() as int, cs);
        lemma_mod_bound(data.len() as int, cs);
        assert(k >= q && (r != 0 ==> k >= q + 1)) by (nonlinear_arith)
            requires
                k * cs >= data.len(),
                data.len() == cs * q + r,
                0 <= r < cs,
        ;
    }
}

/// Chunks of up to 256 MiB are packed.
pub proof fn large_chunks_are_packed()
    ensures
        MAX_CHUNK_SIZE == 268435456,
{
}

} // verus!
