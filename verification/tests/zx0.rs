use core::convert::Infallible;

use stm32_mass_storage::zx0::reader::BitReader;
use stm32_mass_storage::zx0::window::Window;
use stm32_mass_storage::zx0::{decompress, decompress_into, Zx0Error, MIN_WINDOW_LEN};

/// Decompresses `compressed` into a `Vec` using a default-sized window.
fn decompress_to_vec(compressed: &[u8]) -> Result<Vec<u8>, Zx0Error<Infallible>> {
    let mut window = [0u8; 0x8000];
    let mut out = Vec::new();
    decompress(compressed, &mut window, |chunk| {
        out.extend_from_slice(chunk);
        Ok(())
    })?;
    Ok(out)
}

/// Compresses `data` with the reference compressor. Its quick mode looks for matches in
/// a shorter window and writes the same format.
fn quick(data: &[u8]) -> Vec<u8> {
    zx0::Compressor::new().quick_mode(true).compress(data).output
}

/// Writes a ZX0 v2 stream.
struct Encoder {
    out: Vec<u8>,
    bit_mask: u8,
    bit_index: usize,
    backtrack: bool,
}

impl Encoder {
    fn bit(&mut self, value: u8) {
        if self.backtrack {
            if value != 0 {
                let last = self.out.len() - 1;
                self.out[last] |= 1;
            }
            self.backtrack = false;
            return;
        }
        if self.bit_mask == 0 {
            self.bit_mask = 128;
            self.bit_index = self.out.len();
            self.out.push(0);
        }
        if value != 0 {
            self.out[self.bit_index] |= self.bit_mask;
        }
        self.bit_mask >>= 1;
    }

    fn gamma(&mut self, value: usize, invert: bool) {
        let mut i = 2;
        while i <= value {
            i <<= 1;
        }
        i >>= 1;
        while i > 1 {
            i >>= 1;
            self.bit(0);
            self.bit(((value & i != 0) != invert) as u8);
        }
        self.bit(1);
    }

    fn literals(&mut self, bytes: &[u8]) {
        self.bit(0);
        self.gamma(bytes.len(), false);
        self.out.extend_from_slice(bytes);
    }
}

/// Compresses `data` greedily, with matches as far back as the format allows.
fn encode(data: &[u8]) -> Vec<u8> {
    let mut e = Encoder { out: Vec::new(), bit_mask: 0, bit_index: 0, backtrack: true };
    let mut seen = std::collections::HashMap::new();
    let mut last_offset = 1;
    let (mut from, mut i) = (0, 0);
    while i < data.len() {
        let mut length = 0;
        let mut offset = 0;
        if i + 3 <= data.len() {
            if let Some(j) = seen.insert([data[i], data[i + 1], data[i + 2]], i) {
                offset = i - j;
                while offset <= 32640 && i + length < data.len() && data[j + length] == data[i + length] {
                    length += 1;
                }
            }
        }
        if length < 3 {
            i += 1;
            continue;
        }
        if from < i {
            e.literals(&data[from..i]);
        }
        if from < i && offset == last_offset {
            e.bit(0);
            e.gamma(length, false);
        } else {
            e.bit(1);
            e.gamma((offset - 1) / 128 + 1, true);
            e.out.push(((127 - (offset - 1) % 128) << 1) as u8);
            e.backtrack = true;
            e.gamma(length - 1, false);
            last_offset = offset;
        }
        i += length;
        from = i;
    }
    if from < data.len() {
        e.literals(&data[from..]);
    }
    e.bit(1);
    e.gamma(256, true);
    e.out
}

/// Compresses `original`, then asserts the decompressor reproduces it exactly. The
/// reference compressor takes minutes on large inputs, so those are only encoded greedily,
/// with matches as long and as far back as the format allows.
fn assert_roundtrips(original: &[u8]) {
    let mut streams = vec![encode(original)];
    if original.len() <= 20_000 {
        streams.push(zx0::compress(original));
    }
    if original.len() <= 5_000 {
        streams.push(quick(original));
    }
    for compressed in streams {
        let decompressed = decompress_to_vec(&compressed).expect("decompression failed");
        assert_eq!(decompressed, original);
    }
}

/// Deterministic data mixing random bytes with repeated runs, so the stream
/// exercises both literal blocks and (overlapping) matches.
fn pseudo_random_mixed(len: usize) -> Vec<u8> {
    let mut state: u32 = 0x1234_5678;
    let mut next = move || {
        state ^= state << 13;
        state ^= state >> 17;
        state ^= state << 5;
        state
    };
    let mut out = Vec::with_capacity(len);
    while out.len() < len {
        if next() & 1 == 0 {
            let run = (next() % 50 + 1) as usize;
            for _ in 0..run {
                out.push(next() as u8);
            }
        } else {
            let byte = next() as u8;
            let run = (next() % 200 + 1) as usize;
            for _ in 0..run {
                out.push(byte);
            }
        }
    }
    out.truncate(len);
    out
}

#[test]
fn tiny_string() {
    assert_roundtrips(b"Hello, ZX0 world! Hello, ZX0 world!");
}

#[test]
fn single_byte() {
    assert_roundtrips(b"X");
}

#[test]
fn run_length_offset_one() {
    // A single repeated byte compresses to an offset-1 overlapping run.
    assert_roundtrips(&[b'A'; 5000]);
}

#[test]
fn repeated_pattern() {
    let data: Vec<u8> = b"abcd".iter().copied().cycle().take(16_000).collect();
    assert_roundtrips(&data);
}

#[test]
fn crosses_window_boundary() {
    // Larger than the 0x8000 window, exercising the ring wrap and the
    // multi-chunk flush path.
    assert_roundtrips(&pseudo_random_mixed(120_000));
}

#[test]
fn sizes_around_window_boundary() {
    for &n in &[1usize, 127, 128, 255, 256, 32767, 32768, 32769, 65535, 65536] {
        assert_roundtrips(&pseudo_random_mixed(n));
    }
}

/// Asserts that the reference compressor's stream for `len` bytes is reproduced exactly.
fn assert_quick_roundtrips(len: usize) {
    let data = pseudo_random_mixed(len);
    assert_eq!(decompress_to_vec(&quick(&data)).expect("decompression failed"), data);
}

#[test]
fn reference_stream_just_below_the_window() {
    assert_quick_roundtrips(32767);
}

#[test]
fn reference_stream_of_exactly_the_window() {
    assert_quick_roundtrips(32768);
}

#[test]
fn reference_stream_just_above_the_window() {
    assert_quick_roundtrips(32769);
}

#[test]
fn reference_stream_of_several_chunks() {
    assert_quick_roundtrips(50_000);
}

#[test]
fn window_too_small_is_rejected() {
    let mut window = [0u8; MIN_WINDOW_LEN - 1];
    let result =
        decompress::<Infallible, _>(&[0, 0, 0, 0], &mut window, |_| Ok(()));
    assert_eq!(result, Err(Zx0Error::WindowTooSmall));
}

#[test]
fn truncated_input_is_rejected() {
    let compressed = quick(&pseudo_random_mixed(50_000));
    let truncated = &compressed[..compressed.len() - 2];
    let mut window = [0u8; 0x8000];
    let result = decompress::<Infallible, _>(truncated, &mut window, |_| Ok(()));
    // A truncated stream runs out of input mid-decode.
    assert!(matches!(
        result,
        Err(Zx0Error::TruncatedInput) | Err(Zx0Error::InvalidOffset)
    ));
}

#[test]
fn trailing_data_is_rejected() {
    let mut compressed = zx0::compress(b"payload payload payload payload");
    compressed.push(0xFF);
    let mut window = [0u8; 0x8000];
    let result = decompress::<Infallible, _>(&compressed, &mut window, |_| Ok(()));
    assert_eq!(result, Err(Zx0Error::TrailingData));
}

#[test]
fn into_buffer_roundtrips_when_it_fits() {
    // Outputs smaller than and exactly equal to the buffer (the exact-fit
    // case is where the window flushes once and wraps on the final byte).
    for &n in &[1usize, 100, 4096, 32_767, 32_768] {
        let data = pseudo_random_mixed(n);
        let compressed = if n <= 4096 { zx0::compress(&data) } else { quick(&data) };
        let mut buf = [0u8; 32_768];
        let out = decompress_into(&compressed, &mut buf).expect("output fits");
        assert_eq!(out, &data[..], "mismatch for n={n}");
    }
}

#[test]
fn into_buffer_rejects_output_larger_than_buffer() {
    // Buffer is >= MIN_WINDOW_LEN (so not WindowTooSmall) but smaller than the
    // 40 KiB output.
    let data = pseudo_random_mixed(40_000);
    let compressed = quick(&data);
    let mut buf = [0u8; 32_768];
    assert_eq!(
        decompress_into(&compressed, &mut buf),
        Err(Zx0Error::OutputTooLarge)
    );
}

#[test]
fn into_buffer_rejects_window_below_minimum() {
    let compressed = zx0::compress(b"hello");
    let mut buf = [0u8; MIN_WINDOW_LEN - 1];
    assert_eq!(
        decompress_into(&compressed, &mut buf),
        Err(Zx0Error::WindowTooSmall)
    );
}

#[test]
fn callback_error_propagates() {
    let compressed = zx0::compress(b"data the callback will refuse to accept");
    let mut window = [0u8; 0x8000];
    let result = decompress(&compressed, &mut window, |_| Err(42u32));
    assert_eq!(result, Err(Zx0Error::CallbackError(42)));
}

#[test]
fn truncated_streams_deliver_whole_windows() {
    let data = pseudo_random_mixed(120_000);
    let compressed = encode(&data);
    for keep in [0, 1, compressed.len() / 2, compressed.len() - 1] {
        let mut window = [0u8; 0x8000];
        let mut chunks: Vec<Vec<u8>> = Vec::new();
        let result = decompress::<Infallible, _>(&compressed[..keep], &mut window, |chunk| {
            chunks.push(chunk.to_vec());
            Ok(())
        });
        assert_eq!(result, Err(Zx0Error::TruncatedInput));
        assert!(chunks.iter().all(|c| c.len() == 0x8000));
        assert_eq!(chunks.concat()[..], data[..chunks.len() * 0x8000]);
    }
}

#[test]
fn offset_bits_are_fed_back_to_the_reader() {
    // Three bits of the first byte, an offset byte, and the rest of the first byte.
    let mut reader = BitReader::new(&[0b1010_0110, 0b0110_0011, 0b1000_0000]);
    let mut bits = |reader: &mut BitReader, n: usize| -> Vec<u8> {
        (0..n).map(|_| reader.read_bit::<Infallible>().unwrap()).collect()
    };
    assert_eq!(bits(&mut reader, 3), [1, 0, 1]);
    assert_eq!(reader.read_offset_lsb::<Infallible>(), Ok(0b011_0001));
    assert_eq!(bits(&mut reader, 1), [1]);
    assert_eq!(bits(&mut reader, 5), [0, 0, 1, 1, 0]);
    assert!(reader.has_trailing_data());
    assert_eq!(bits(&mut reader, 8), [1, 0, 0, 0, 0, 0, 0, 0]);
    assert_eq!(reader.read_bit::<Infallible>(), Err(Zx0Error::TruncatedInput));
}

#[test]
fn refused_windows_start_over() {
    let mut buf = vec![0u8; MIN_WINDOW_LEN];
    let mut calls = 0;
    let mut window = Window::new(&mut buf, |chunk: &[u8]| {
        calls += 1;
        assert_eq!(chunk.len(), MIN_WINDOW_LEN);
        Err(7u8)
    })
    .unwrap_or_else(|_| panic!("large enough"));
    for i in 0..MIN_WINDOW_LEN - 1 {
        assert_eq!(window.write_byte(i as u8), Ok(()));
        assert_eq!((window.write_idx, window.produced), (i + 1, i + 1));
    }
    assert_eq!(window.write_byte(1), Err(Zx0Error::CallbackError(7)));
    assert_eq!((window.write_idx, window.produced), (0, MIN_WINDOW_LEN));
    drop(window);
    assert_eq!(calls, 1);
}
