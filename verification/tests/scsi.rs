use stm32_mass_storage::image::{Image, CHUNK_COUNT, CHUNK_SIZE, IMAGE_SIZE};
use stm32_mass_storage::scsi::{
    answered, drained, process_command, sent, Action, ScsiCommand, ScsiState, USB_PID, USB_VID,
};
use stm32_mass_storage::store::ImageStore;

/// A ZX0 v2 stream for a chunk of the byte `value`.
fn chunk_of(value: u8) -> Vec<u8> {
    let mut bits = vec![1u8, 0];
    let mut out = vec![0u8, value];
    gamma(&mut bits, CHUNK_SIZE - 1, false);
    bits.push(1);
    gamma(&mut bits, 256, true);
    for (i, bit) in bits.iter().enumerate() {
        let at = if i < 8 { 0 } else { 2 + (i - 8) / 8 };
        if at == out.len() {
            out.push(0);
        }
        out[at] |= bit << (7 - i % 8);
    }
    out
}

fn gamma(bits: &mut Vec<u8>, value: usize, invert: bool) {
    let mut i = 2;
    while i <= value {
        i <<= 1;
    }
    i >>= 1;
    while i > 1 {
        i >>= 1;
        bits.push(0);
        bits.push(((value & i != 0) != invert) as u8);
    }
    bits.push(1);
}

/// The blob and the table of an image whose chunk `i` holds the byte `i`.
fn striped() -> (Vec<u8>, Vec<(u32, u32)>) {
    let (mut blob, mut table) = (Vec::new(), Vec::new());
    for i in 0..CHUNK_COUNT {
        let stream = chunk_of(i as u8);
        table.push((blob.len() as u32, stream.len() as u32));
        blob.extend_from_slice(&stream);
    }
    (blob, table)
}

/// What a command that is answered at once is answered.
fn answer(command: ScsiCommand, state: &mut ScsiState, store: &mut ImageStore) -> Vec<u8> {
    match process_command(command, state, store) {
        Action::Answer(data) => {
            answered(command, state);
            data
        }
        _ => panic!("no answer"),
    }
}

fn pending(state: &ScsiState) -> (Option<u8>, Option<u8>, Option<u8>) {
    (state.sense_key, state.sense_key_code, state.sense_qualifier)
}

#[test]
fn data_replies_are_exact() {
    let (blob, table) = striped();
    let mut buf = vec![0u8; CHUNK_SIZE];
    let image = Image {
        compressed: &blob,
        chunk_table: &table,
        chunk_size: CHUNK_SIZE,
        image_len: IMAGE_SIZE,
    };
    let mut store = ImageStore::new(image, &mut buf, 48_000_000);
    let mut state = ScsiState::default();

    let inquiry = answer(ScsiCommand::Inquiry, &mut state, &mut store);
    assert_eq!(inquiry.len(), 36);
    assert_eq!(inquiry[..8], [0x00, 0x80, 0x04, 0x02, 0x20, 0, 0, 0]);
    assert_eq!(&inquiry[8..], b"SCHUWI  STM32 Archive    0.1");

    assert_eq!(
        answer(ScsiCommand::ReadCapacity10, &mut state, &mut store),
        [0, 0, 0x1F, 0xFF, 0, 0, 2, 0]
    );
    assert_eq!(
        answer(ScsiCommand::ReadCapacity16, &mut state, &mut store),
        [0, 0, 0, 0, 0, 0, 0x1F, 0xFF, 0, 0, 0, 0, 0, 0, 2, 0]
    );
    assert_eq!(
        answer(ScsiCommand::ReadFormatCapacities, &mut state, &mut store),
        [0, 0, 0, 8, 0, 0, 0x20, 0, 1, 0, 2, 0]
    );
    assert_eq!(answer(ScsiCommand::ModeSense6, &mut state, &mut store), [3, 0, 0x80, 0]);
    assert_eq!(
        answer(ScsiCommand::ModeSense10, &mut state, &mut store),
        [0, 6, 0, 0x80, 0, 0, 0, 0]
    );
    assert!(matches!(
        process_command(ScsiCommand::TestUnitReady, &mut state, &mut store),
        Action::Pass
    ));
    assert_eq!(pending(&state), (None, None, None));
    assert_eq!((USB_VID, USB_PID), (0x1209, 0x0001));
}

#[test]
fn reads_are_served_piece_by_piece() {
    let (blob, table) = striped();
    let mut buf = vec![0u8; CHUNK_SIZE];
    let image = Image {
        compressed: &blob,
        chunk_table: &table,
        chunk_size: CHUNK_SIZE,
        image_len: IMAGE_SIZE,
    };
    let mut store = ImageStore::new(image, &mut buf, 48_000_000);
    let mut state = ScsiState::default();
    // Blocks 60 to 69 lie on both sides of the first chunk boundary.
    let read = ScsiCommand::Read { lba: 60, len: 10 };
    let mut received = Vec::new();
    let mut polls = 0;
    loop {
        let n = match process_command(read, &mut state, &mut store) {
            Action::Send(data) => {
                let n = data.len().min(700);
                received.extend_from_slice(&data[..n]);
                n
            }
            Action::Pass => break,
            _ => panic!("neither data nor success"),
        };
        sent(&mut state, n);
        polls += 1;
    }
    let mut expected = vec![0u8; 4 * 512];
    expected.extend(vec![1u8; 6 * 512]);
    assert_eq!(received, expected);
    assert_eq!(polls, 8);
    assert_eq!(state.storage_offset, 0);
    assert_eq!(store.cached_chunk(), Some(1));
}

#[test]
fn the_last_block_can_be_read_and_no_further() {
    let (blob, table) = striped();
    let mut buf = vec![0u8; CHUNK_SIZE];
    let image = Image {
        compressed: &blob,
        chunk_table: &table,
        chunk_size: CHUNK_SIZE,
        image_len: IMAGE_SIZE,
    };
    let mut store = ImageStore::new(image, &mut buf, 48_000_000);
    let mut state = ScsiState::default();
    match process_command(ScsiCommand::Read { lba: 8191, len: 1 }, &mut state, &mut store) {
        Action::Send(data) => assert_eq!(data, &[127u8; 512][..]),
        _ => panic!("no data"),
    }
    for read in [
        ScsiCommand::Read { lba: 8192, len: 1 },
        ScsiCommand::Read { lba: 8191, len: 2 },
        ScsiCommand::Read { lba: u64::MAX, len: u32::MAX },
    ] {
        let mut state = ScsiState { storage_offset: 512, ..ScsiState::default() };
        assert!(matches!(process_command(read, &mut state, &mut store), Action::Fail));
        assert_eq!(pending(&state), (Some(0x05), Some(0x21), Some(0x00)));
        assert_eq!(state.storage_offset, 0);
    }
    // Nothing to read, at the very end.
    let nothing = ScsiCommand::Read { lba: 8192, len: 0 };
    assert!(matches!(process_command(nothing, &mut state, &mut store), Action::Pass));
}

#[test]
fn writes_are_drained_and_then_refused() {
    let (blob, table) = striped();
    let mut buf = vec![0u8; CHUNK_SIZE];
    let image = Image {
        compressed: &blob,
        chunk_table: &table,
        chunk_size: CHUNK_SIZE,
        image_len: IMAGE_SIZE,
    };
    let mut store = ImageStore::new(image, &mut buf, 48_000_000);
    let mut state = ScsiState::default();
    let write = ScsiCommand::Write { len: 2 };
    for (count, refused) in [(512, false), (0, false), (300, false), (212, true)] {
        assert!(matches!(process_command(write, &mut state, &mut store), Action::Drain));
        assert_eq!(drained(2, &mut state, count), refused);
    }
    assert_eq!(pending(&state), (Some(0x07), Some(0x27), Some(0x00)));
    assert_eq!(state.storage_offset, 0);
    // A write of nothing has nothing to drain.
    let mut state = ScsiState::default();
    let write = ScsiCommand::Write { len: 0 };
    assert!(matches!(process_command(write, &mut state, &mut store), Action::Fail));
    assert_eq!(pending(&state), (Some(0x07), Some(0x27), Some(0x00)));
}

#[test]
fn errors_are_reported_once() {
    let (blob, table) = striped();
    let mut buf = vec![0u8; CHUNK_SIZE];
    let image = Image {
        compressed: &blob,
        chunk_table: &table,
        chunk_size: CHUNK_SIZE,
        image_len: IMAGE_SIZE,
    };
    let mut store = ImageStore::new(image, &mut buf, 48_000_000);
    let mut state = ScsiState { storage_offset: 77, ..ScsiState::default() };
    assert!(matches!(
        process_command(ScsiCommand::Unknown, &mut state, &mut store),
        Action::Fail
    ));
    assert_eq!(state.storage_offset, 77);
    let mut expected = [0u8; 18];
    expected[0] = 0x70;
    expected[2] = 0x05;
    expected[12] = 0x20;
    assert_eq!(answer(ScsiCommand::RequestSense, &mut state, &mut store), expected);
    assert_eq!(pending(&state), (None, None, None));
    assert_eq!(state.storage_offset, 0);
    let mut clear = [0u8; 18];
    clear[0] = 0x70;
    assert_eq!(answer(ScsiCommand::RequestSense, &mut state, &mut store), clear);
    // An answer that was not sent leaves the error pending.
    state.sense_key = Some(0x07);
    assert!(matches!(
        process_command(ScsiCommand::RequestSense, &mut state, &mut store),
        Action::Answer(_)
    ));
    assert_eq!(state.sense_key, Some(0x07));
    state.reset();
    assert_eq!(pending(&state), (None, None, None));
}
