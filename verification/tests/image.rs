use stm32_mass_storage::image::{
    Image, CHUNK_COUNT, CHUNK_SIZE, IMAGE_BLOCKS_NUM, IMAGE_BLOCK_SIZE, IMAGE_SIZE,
};
use stm32_mass_storage::pack::{append_chunk, pack, PackError, MAX_CHUNK_SIZE};
use stm32_mass_storage::store::ImageStore;

/// A ZX0 v2 stream for `n > 1` times the byte `value`.
fn run_stream(value: u8, n: usize) -> Vec<u8> {
    let mut bits = vec![1u8];
    let mut out = vec![0u8, value];
    bits.push(0);
    gamma(&mut bits, n - 1, false);
    bits.push(1);
    gamma(&mut bits, 256, true);
    // The first eight bits go into the byte in front of the literal, the others behind it.
    for (i, bit) in bits.iter().enumerate() {
        let at = if i < 8 { 0 } else { 2 + (i - 8) / 8 };
        if at == out.len() {
            out.push(0);
        }
        out[at] |= bit << (7 - i % 8);
    }
    out
}

fn gamma(bits: &mut Vec<u8>, value: usize, invert: bool) {
    let mut i = 2;
    while i <= value {
        i <<= 1;
    }
    i >>= 1;
    while i > 1 {
        i >>= 1;
        bits.push(0);
        bits.push(((value & i != 0) != invert) as u8);
    }
    bits.push(1);
}

/// Chunks of runs: their blob, their table and the image they make up.
fn runs(values: &[u8], last_len: usize) -> (Vec<u8>, Vec<(u32, u32)>, Vec<u8>) {
    let (mut blob, mut table, mut image) = (Vec::new(), Vec::new(), Vec::new());
    for (i, &value) in values.iter().enumerate() {
        let len = if i + 1 == values.len() { last_len } else { CHUNK_SIZE };
        let stream = run_stream(value, len);
        table.push((blob.len() as u32, stream.len() as u32));
        blob.extend_from_slice(&stream);
        image.extend(vec![value; len]);
    }
    (blob, table, image)
}

fn sample(len: usize) -> Vec<u8> {
    (0..len).map(|i| (i * i / 7 % 251) as u8).collect()
}

#[test]
fn sizes_make_up_the_image() {
    assert_eq!(IMAGE_SIZE, 4_194_304);
    assert_eq!((IMAGE_BLOCKS_NUM * IMAGE_BLOCK_SIZE) as usize, IMAGE_SIZE);
    assert_eq!(CHUNK_COUNT * CHUNK_SIZE, IMAGE_SIZE);
}

#[test]
fn packed_image_reads_back() {
    let data = sample(3000);
    let packed = pack(&data, CHUNK_SIZE).unwrap();
    assert_eq!(packed.chunk_table.len(), 1);
    assert_eq!(packed.image_len, 3000);
    assert_eq!(packed.compressed, zx0::compress(&data));
    assert_ne!(packed.compressed, data);

    let mut scratch = vec![0u8; CHUNK_SIZE];
    assert!(packed.image().is_intact(&mut scratch));
    let mut buf = vec![0u8; CHUNK_SIZE];
    let mut store = ImageStore::new(packed.image(), &mut buf, 48_000_000);
    assert_eq!(store.cached_chunk(), None);
    let mut dst = vec![0xEE; 4096];
    store.read_sectors(0, &mut dst);
    assert_eq!(dst[..3000], data[..]);
    assert!(dst[3000..].iter().all(|&b| b == 0));
    assert_eq!(store.cached_chunk(), Some(0));
}

#[test]
fn empty_image_packs_to_nothing() {
    let packed = pack(&[], CHUNK_SIZE).unwrap();
    assert!(packed.compressed.is_empty() && packed.chunk_table.is_empty());
    let mut scratch = vec![0u8; CHUNK_SIZE];
    assert!(packed.image().is_intact(&mut scratch));
}

#[test]
fn chunk_sizes_out_of_range_do_not_pack() {
    assert!(matches!(pack(&[1, 2, 3], 32_640), Err(PackError::ChunkSize)));
    assert!(matches!(pack(&[1, 2, 3], MAX_CHUNK_SIZE + 1), Err(PackError::ChunkSize)));
    assert!(pack(&[1, 2, 3], 32_641).is_ok());
}

#[test]
fn chunks_are_appended_if_they_decode() {
    let mut scratch = vec![0u8; CHUNK_SIZE];
    let (mut blob, mut table) = (vec![9u8; 5], vec![(0u32, 5u32)]);
    let stream = run_stream(7, 100);
    let res = append_chunk(&mut blob, &mut table, &[7; 100], &stream, &mut scratch);
    assert_eq!(res, Ok(()));
    assert_eq!(table, vec![(0, 5), (5, stream.len() as u32)]);
    assert_eq!(blob[5..], stream[..]);

    let res = append_chunk(&mut blob, &mut table, &[8; 100], &stream, &mut scratch);
    assert_eq!(res, Err(PackError::NotReproduced(2)));
    let res = append_chunk(&mut blob, &mut table, &[7; 99], &stream, &mut scratch);
    assert_eq!(res, Err(PackError::NotReproduced(2)));
    let res = append_chunk(&mut blob, &mut table, &[7; 100], &stream[1..], &mut scratch);
    assert_eq!(res, Err(PackError::NotReproduced(2)));
    assert_eq!(table.len(), 2);
}

#[test]
fn reads_cross_chunk_boundaries() {
    let (blob, table, data) = runs(&[0x11, 0x22, 0x33], 1024);
    let image =
        Image { compressed: &blob, chunk_table: &table, chunk_size: CHUNK_SIZE, image_len: data.len() };
    let mut buf = vec![0u8; CHUNK_SIZE];
    assert!(image.is_intact(&mut buf));
    let mut store = ImageStore::new(image, &mut buf, 48_000_000);

    let mut dst = vec![0u8; 2048];
    store.read_sectors(62, &mut dst);
    assert_eq!(dst[..], data[62 * 512..62 * 512 + 2048]);
    assert_eq!(store.cached_chunk(), Some(1));

    let mut all = vec![0u8; data.len() + 700];
    store.read_sectors(0, &mut all);
    assert_eq!(all[..data.len()], data[..]);
    assert_eq!(all[data.len()..], vec![0u8; 700][..]);
    assert_eq!(store.cached_chunk(), Some(2));

    // Far past the end: zeroes, and nothing is decompressed.
    let mut dst = vec![0xAA; 512];
    store.read_sectors(u32::MAX, &mut dst);
    assert_eq!(dst, vec![0; 512]);
    assert_eq!(store.cached_chunk(), Some(2));
}

#[test]
fn chunks_come_out_whole() {
    let (blob, table, data) = runs(&[1, 2], 600);
    let image =
        Image { compressed: &blob, chunk_table: &table, chunk_size: CHUNK_SIZE, image_len: data.len() };
    let mut buf = vec![0u8; CHUNK_SIZE];
    let mut store = ImageStore::new(image, &mut buf, 1);
    assert_eq!(store.chunk(1), &[2u8; 600][..]);
    assert_eq!(store.chunk(1), &[2u8; 600][..]);
    assert_eq!(store.chunk(0), &vec![1u8; CHUNK_SIZE][..]);
    assert_eq!(store.chunk_size(), CHUNK_SIZE);
}

#[test]
fn cycles_are_told_in_microseconds() {
    let (blob, table, data) = runs(&[1], 600);
    let image =
        Image { compressed: &blob, chunk_table: &table, chunk_size: CHUNK_SIZE, image_len: data.len() };
    let mut buf = vec![0u8; CHUNK_SIZE];
    let store = ImageStore::new(image, &mut buf, 48_000_000);
    assert_eq!(store.decode_micros(48_000), 1000);
    assert_eq!(store.decode_micros(u32::MAX), 89_478_485);
    let mut buf = vec![0u8; CHUNK_SIZE];
    let slow = ImageStore::new(image, &mut buf, 1);
    assert_eq!(slow.decode_micros(5000), 705_032_704);
}

#[test]
fn damaged_images_are_found_out() {
    let (blob, table, data) = runs(&[1, 2], 600);
    let mut buf = vec![0u8; CHUNK_SIZE];
    let len = data.len();
    let whole = Image { compressed: &blob, chunk_table: &table, chunk_size: CHUNK_SIZE, image_len: len };
    assert!(whole.is_intact(&mut buf));
    // A chunk too few, a chunk too short, and a blob that is cut off.
    assert!(!Image { chunk_table: &table[..1], ..whole }.is_intact(&mut buf));
    assert!(!Image { image_len: len + 1, ..whole }.is_intact(&mut buf));
    assert!(!Image { compressed: &blob[..blob.len() - 1], ..whole }.is_intact(&mut buf));
    // A table that points elsewhere.
    let wrong = vec![(0, 1), table[1]];
    assert!(!Image { chunk_table: &wrong, ..whole }.is_intact(&mut buf));
    // A chunk that cannot serve as the window.
    let mut small = vec![0u8; 32_640];
    assert!(!Image { chunk_size: 32_640, ..whole }.is_intact(&mut small));
}
