//! The SCSI side of the device: what each command of the host is answered.
//!
//! A command may take several polls of the transport. At each poll
//! [`process_command`] says what to do; once the transport has done it, [`answered`],
//! [`sent`] or [`drained`] says how the state goes on.

pub mod laws;

use vstd::prelude::*;

use crate::image;
use crate::image::{Layout, IMAGE_BLOCKS_NUM, IMAGE_BLOCK_SIZE, IMAGE_SIZE};
use crate::store::ImageStore;

verus! {

/// The vendor of the device, from pid.codes.
pub const USB_VID: u16 = 0x1209;

/// Test PID - MUST NOT be used on any device that will be redistributed, sold, or
/// manufactured.
pub const USB_PID: u16 = 0x0001;

/// A command of the host, as far as the device tells them apart.
#[derive(Debug, Clone, Copy, PartialEq, Eq)]
pub enum ScsiCommand {
    TestUnitReady,
    Inquiry,
    RequestSense,
    ReadCapacity10,
    ReadCapacity16,
    ReadFormatCapacities,
    /// Read `len` blocks from block `lba` on.
    Read { lba: u64, len: u32 },
    /// Write `len` blocks.
    Write { len: u32 },
    ModeSense6,
    ModeSense10,
    /// Any other command.
    Unknown,
}

/// What is remembered from poll to poll.
#[derive(Debug, Clone, Copy)]
pub struct ScsiState {
    /// How many bytes of the current command's data have been transferred.
    pub storage_offset: u64,
    pub sense_key: Option<u8>,
    pub sense_key_code: Option<u8>,
    pub sense_qualifier: Option<u8>,
}

/// What the transport is to do next.
pub enum Action<'s> {
    /// Report success.
    Pass,
    /// Report failure; the host then asks for the sense data.
    Fail,
    /// Send all of this; then see [`answered`], and report success.
    Answer(Vec<u8>),
    /// Send as much of this as fits now; then see [`sent`].
    Send(&'s [u8]),
    /// Receive up to a block of data and discard it; then see [`drained`].
    Drain,
}

/// The state in which nothing has been transferred and no error is pending.
pub open spec fn idle() -> ScsiState {
    ScsiState { storage_offset: 0, sense_key: None, sense_key_code: None, sense_qualifier: None }
}

/// A state with this error pending.
pub open spec fn failed(offset: u64, key: u8, code: u8, qualifier: u8) -> ScsiState {
    ScsiState {
        storage_offset: offset,
        sense_key: Some(key),
        sense_key_code: Some(code),
        sense_qualifier: Some(qualifier),
    }
}

/// ILLEGAL REQUEST / LBA OUT OF RANGE.
pub open spec fn out_of_range() -> ScsiState {
    failed(0, 0x05, 0x21, 0x00)
}

/// DATA PROTECT / WRITE PROTECTED.
pub open spec fn write_protected() -> ScsiState {
    failed(0, 0x07, 0x27, 0x00)
}

/// ILLEGAL REQUEST / INVALID COMMAND OPERATION CODE, with nothing said of a transfer.
pub open spec fn invalid_command(state: ScsiState) -> ScsiState {
    failed(state.storage_offset, 0x05, 0x20, 0x00)
}

/// How many bytes `len` blocks are.
pub open spec fn byte_count(len: u32) -> int {
    len * IMAGE_BLOCK_SIZE
}

/// A read that stays on the medium.
pub open spec fn in_range(lba: u64, len: u32) -> bool {
    lba + len <= IMAGE_BLOCKS_NUM
}

/// `n` as four bytes, the most significant first.
pub open spec fn be32(n: u32) -> Seq<u8> {
    seq![
        (n / 0x100_0000) as u8,
        (n / 0x1_0000 % 0x100) as u8,
        (n / 0x100 % 0x100) as u8,
        (n % 0x100) as u8,
    ]
}

/// A byte of sense data; zero where nothing is pending.
pub open spec fn or_zero(sense: Option<u8>) -> u8 {
    match sense {
        Some(byte) => byte,
        None => 0,
    }
}

/// The INQUIRY data: a removable SPC-2 disk, "SCHUWI", "STM32 Archive", revision 0.1.
pub open spec fn inquiry_data() -> Seq<u8> {
    seq![
        0x00u8, 0x80, 0x04, 0x02, 0x20, 0x00, 0x00, 0x00, 
        0x53, 0x43, 0x48, 0x55, 0x57, 0x49, 0x20, 0x20, 
        0x53, 0x54, 0x4d, 0x33, 0x32, 0x20, 0x41, 0x72, 0x63, 0x68, 0x69, 0x76, 0x65, 0x20, 0x20, 0x20,
        0x20, 0x30, 0x2e, 0x31,
    ]
}

/// The sense data: current error, with the pending key, code and qualifier.
pub open spec fn sense_data(state: ScsiState) -> Seq<u8> {
    seq![
        0x70u8, 0x00, or_zero(state.sense_key), 0x00, 0x00, 0x00, 0x00, 0x00, 0x00, 0x00, 0x00, 0x00,
        or_zero(state.sense_key_code), or_zero(state.sense_qualifier), 0x00, 0x00, 0x00, 0x00,
    ]
}

/// What a command is answered that has its answer at once.
pub open spec fn answer(command: ScsiCommand, state: ScsiState) -> Option<Seq<u8>> {
    let last_block = (IMAGE_BLOCKS_NUM - 1) as u32;
    match command {
        ScsiCommand::Inquiry => Some(inquiry_data()),
        ScsiCommand::RequestSense => Some(sense_data(state)),
        ScsiCommand::ReadCapacity10 => Some(be32(last_block) + be32(IMAGE_BLOCK_SIZE)),
        ScsiCommand::ReadCapacity16 => Some(
            be32(0) + be32(last_block) + be32(0) + be32(IMAGE_BLOCK_SIZE),
        ),
        ScsiCommand::ReadFormatCapacities => Some(
            seq![0x00u8, 0x00, 0x00, 0x08] + be32(IMAGE_BLOCKS_NUM) + seq![0x01u8] + be32(
                IMAGE_BLOCK_SIZE,
            ).skip(1),
        ),
        ScsiCommand::ModeSense6 => Some(seq![0x03u8, 0x00, 0x80, 0x00]),
        ScsiCommand::ModeSense10 => Some(
            seq![0x00u8, 0x06, 0x00, 0x80, 0x00, 0x00, 0x00, 0x00],
        ),
        _ => None,
    }
}

/// The bytes that a read offers once `offset` of its bytes have been sent: what is left
/// of the read, up to the end of the chunk that it has come to.
pub open spec fn offered(image: Layout, lba: u64, len: u32, offset: int) -> Seq<u8> {
    let from = lba * IMAGE_BLOCK_SIZE + offset;
    let end = lba * IMAGE_BLOCK_SIZE + byte_count(len);
    let chunk_end = (image.chunk_of(from) + 1) * image.chunk_size;
    image.bytes().subrange(
        from,
        if chunk_end < end {
            chunk_end
        } else {
            end
        },
    )
}

/// A store that serves an image of the size that the device reports.
pub open spec fn serves(store: ImageStore) -> bool {
    &&& store.wf()
    &&& store.image().wf()
    &&& store.image().image_len == IMAGE_SIZE
}

/// A poll of `command` does this, and leaves the state so.
pub open spec fn processed(
    command: ScsiCommand,
    before: ScsiState,
    image: Layout,
    after: ScsiState,
    action: Action,
) -> bool {
    match command {
        ScsiCommand::TestUnitReady => action is Pass && after == before,
        ScsiCommand::Read { lba, len } => if !in_range(lba, len) {
            action is Fail && after == out_of_range()
        } else if before.storage_offset == byte_count(len) {
            action is Pass && after == (ScsiState { storage_offset: 0, ..before })
        } else {
            &&& action matches Action::Send(data)
            &&& data@ == offered(image, lba, len, before.storage_offset as int)
            &&& after == before
        },
        ScsiCommand::Write { len } => if before.storage_offset == byte_count(len) {
            action is Fail && after == write_protected()
        } else {
            action is Drain && after == before
        },
        ScsiCommand::Unknown => action is Fail && after == invalid_command(before),
        _ => {
            &&& action matches Action::Answer(data)
            &&& answer(command, before) == Some(data@)
            &&& after == before
        },
    }
}

/// The state once `count` more bytes of a command's data have been transferred.
pub open spec fn advanced(state: ScsiState, count: int) -> ScsiState {
    ScsiState { storage_offset: (state.storage_offset + count) as u64, ..state }
}

/// The state once `count` bytes of a write of `len` blocks have been discarded.
pub open spec fn after_drain(len: u32, state: ScsiState, count: int) -> ScsiState {
    if state.storage_offset + count == byte_count(len) {
        write_protected()
    } else {
        advanced(state, count)
    }
}

/// The state once the answer to `command` has been sent.
pub open spec fn after_answer(command: ScsiCommand, state: ScsiState) -> ScsiState {
    if command is RequestSense {
        idle()
    } else {
        state
    }
}

impl ScsiState {
    /// Forget the transfer and the pending error.
    pub fn reset(&mut self)
        ensures
            *final(self) == idle(),
    {
        *self = ScsiState::default();
    }

    fn fail(&mut self, key: u8, code: u8, qualifier: u8)
        ensures
            *final(self) == failed(old(self).storage_offset, key, code, qualifier),
    {
        self.sense_key = Some(key);
        self.sense_key_code = Some(code);
        self.sense_qualifier = Some(qualifier);
    }
}

impl Default for ScsiState {
    fn default() -> (state: ScsiState)
        ensures
            state == idle(),
    {
        ScsiState {
            storage_offset: 0,
            sense_key: None,
            sense_key_code: None,
            sense_qualifier: None,
        }
    }
}

/// Append `n`, most significant byte first.
fn push_be32(data: &mut Vec<u8>, n: u32)
    ensures
        final(data)@ == old(data)@ + be32(n),
{
    data.push((n / 0x100_0000) as u8);
    data.push((n / 0x1_0000 % 0x100) as u8);
    data.push((n / 0x100 % 0x100) as u8);
    data.push((n % 0x100) as u8);
}

fn or_none(sense: Option<u8>) -> (byte: u8)
    ensures
        byte == or_zero(sense),
{
    match sense {
        Some(byte) => byte,
        None => 0,
    }
}

/// The data that a command is answered at once; nothing for the others.
fn answer_data(command: ScsiCommand, state: &ScsiState) -> (data: Vec<u8>)
    ensures
        answer(command, *state) matches Some(bytes) ==> data@ == bytes,
{
    let mut data: Vec<u8> = Vec::new();
    match command {
        ScsiCommand::Inquiry => {
            data = vec![
                0x00, // periph qualifier, periph device type
                0x80, // Removable
                0x04, // SPC-2 compliance
                0x02, // NormACA, HiSu, Response data format
                0x20, // 36 bytes in total
                0x00, // additional fields, none set
                0x00, // additional fields, none set
                0x00, // additional fields, none set
                0x53, 0x43, 0x48, 0x55, 0x57, 0x49, 0x20, 0x20, // 8-byte T-10 vendor id
                0x53, 0x54, 0x4d, 0x33, 0x32, 0x20, 0x41, 0x72, 0x63, 0x68, 0x69, 0x76, 0x65, 
                0x20, 0x20, 0x20, // 16-byte product identification
                0x20, 0x30, 0x2e, 0x31, // 4-byte product revision
            ];
        },
        ScsiCommand::RequestSense => {
            data = vec![
                0x70, // RESPONSE CODE. Set to 70h for information on current errors
                0x00, // obsolete
                or_none(state.sense_key), // Bits 3..0: SENSE KEY.
                0x00,
                0x00,
                0x00,
                0x00, // INFORMATION. Device-specific or command-specific information.
                0x00, // ADDITIONAL SENSE LENGTH.
                0x00,
                0x00,
                0x00,
                0x00, // COMMAND-SPECIFIC INFORMATION
                or_none(state.sense_key_code), // ASC
                or_none(state.sense_qualifier), // ASCQ
                0x00,
                0x00,
                0x00,
                0x00,
            ];
        },
        ScsiCommand::ReadCapacity10 => {
            push_be32(&mut data, IMAGE_BLOCKS_NUM - 1);
            push_be32(&mut data, IMAGE_BLOCK_SIZE);
        },
        ScsiCommand::ReadCapacity16 => {
            push_be32(&mut data, 0);
            push_be32(&mut data, IMAGE_BLOCKS_NUM - 1);
            push_be32(&mut data, 0);
            push_be32(&mut data, IMAGE_BLOCK_SIZE);
        },
        ScsiCommand::ReadFormatCapacities => {
            push_be32(&mut data, 8); // capacity list length
            push_be32(&mut data, IMAGE_BLOCKS_NUM); // number of blocks
            data.push(0x01); // unformatted media
            data.push((IMAGE_BLOCK_SIZE / 0x1_0000 % 0x100) as u8);
            data.push((IMAGE_BLOCK_SIZE / 0x100 % 0x100) as u8);
            data.push((IMAGE_BLOCK_SIZE % 0x100) as u8);
        },
        ScsiCommand::ModeSense6 => {
            data = vec![
                0x03, // number of bytes that follow
                0x00, // the media type is SBC
                0x80, // write-protected, no cache-control bytes support
                0x00, // no mode-parameter block descriptors
            ];
        },
        ScsiCommand::ModeSense10 => {
            data = vec![
                0x00, // number of bytes that follow (MSB)
                0x06, // number of bytes that follow (LSB)
                0x00, // the media type is SBC
                0x80, // write-protected, no cache-control bytes support
                0x00, // reserved
                0x00, // reserved
                0x00, // no mode-parameter block descriptors (MSB)
                0x00, // no mode-parameter block descriptors (LSB)
            ];
        },
        _ => {},
    }
    data
}

/// The next data of a read that is in range and not complete.
fn read_data<'s>(lba: u64, len: u32, offset: u64, store: &'s mut ImageStore<'_>) -> (data: &'s [u8])
    requires
        serves(*old(store)),
        in_range(lba, len),
        offset < byte_count(len),
    ensures
        data@ == offered(old(store).image(), lba, len, offset as int),
        serves(*final(store)),
        final(store).image() == old(store).image(),
        final(store).clock_hz() == old(store).clock_hz(),
        final(store).cached() == Some(
            old(store).image().chunk_of(lba * IMAGE_BLOCK_SIZE + offset),
        ),
        final(store).decodes() == old(store).decodes() + if old(store).cached() == Some(
            old(store).image().chunk_of(lba * IMAGE_BLOCK_SIZE + offset),
        ) {
            0nat
        } else {
            1nat
        },
{
    let ghost image = store.image();
    let ghost cs = image.chunk_size as int;
    let total: u64 = len as u64 * IMAGE_BLOCK_SIZE as u64;
    // Absolute byte offset into the decompressed image for the next byte to send. The
    // transport calls us repeatedly, advancing the offset until the whole request is
    // served.
    let abs: u64 = lba * IMAGE_BLOCK_SIZE as u64 + offset;
    proof {
        image::lemma_byte_place(image, abs as int);
        assert(image.byte_ok(abs as int));
        let c = image.chunk_of(abs as int);
        assert((c + 1) * cs == c * cs + cs) by (nonlinear_arith);
    }
    let chunk_size: u64 = store.chunk_size() as u64;
    let chunk_index: usize = (abs / chunk_size) as usize;
    let offset_in_chunk: usize = (abs % chunk_size) as usize;
    // Decompress (or reuse the cached) chunk, then serve at most up to the chunk
    // boundary so we never read past the cached buffer in a single call; the next call
    // continues into the next chunk.
    let chunk = store.chunk(chunk_index);
    let available: usize = chunk.len() - offset_in_chunk;
    let remaining: u64 = total - offset;
    let n: usize = if remaining < available as u64 {
        remaining as usize
    } else {
        available
    };
    let data = &chunk[offset_in_chunk..offset_in_chunk + n];
    proof {
        let c = image.chunk_of(abs as int);
        let want = offered(image, lba, len, offset as int);
        assert(want.len() == n);
        assert forall|i: int| 0 <= i < n implies #[trigger] data@[i] == want[i] by {
            image::lemma_same_chunk(cs, c, offset_in_chunk + i);
            assert(want[i] == image.bytes()[abs + i]);
        }
        assert(data@ =~= want);
    }
    data
}

/// Decide on a poll of `command`. A read that is in range must not have sent more than
/// it asks for.
pub fn process_command<'s>(
    command: ScsiCommand,
    state: &mut ScsiState,
    store: &'s mut ImageStore<'_>,
) -> (action: Action<'s>)
    requires
        serves(*old(store)),
        command matches ScsiCommand::Read { lba, len } ==> in_range(lba, len)
            ==> old(state).storage_offset <= byte_count(len),
    ensures
        processed(command, *old(state), old(store).image(), *final(state), action),
        serves(*final(store)),
        final(store).image() == old(store).image(),
        final(store).clock_hz() == old(store).clock_hz(),
        match command {
            ScsiCommand::Read { lba, len } if action is Send => {
                let chunk = old(store).image().chunk_of(
                    lba * IMAGE_BLOCK_SIZE + old(state).storage_offset,
                );
                &&& final(store).cached() == Some(chunk)
                &&& final(store).decodes() == old(store).decodes() + if old(store).cached() == Some(
                    chunk,
                ) {
                    0nat
                } else {
                    1nat
                }
            },
            _ => *final(store) == *old(store),
        },
{
    match command {
        ScsiCommand::TestUnitReady => Action::Pass,
        ScsiCommand::Read { lba, len } => {
            let total: u64 = len as u64 * IMAGE_BLOCK_SIZE as u64;
            // Reject reads that run past the end of the medium before they can index a
            // chunk that does not exist, without a sum that could wrap.
            if lba > IMAGE_BLOCKS_NUM as u64 || len as u64 > IMAGE_BLOCKS_NUM as u64 - lba {
                state.fail(0x05, 0x21, 0x00); // ILLEGAL REQUEST, LBA OUT OF RANGE
                state.storage_offset = 0;
                Action::Fail
            } else if state.storage_offset != total {
                Action::Send(read_data(lba, len, state.storage_offset, store))
            } else {
                state.storage_offset = 0;
                Action::Pass
            }
        },
        ScsiCommand::Write { len } => {
            // The medium is write-protected, but the host's entire data-out phase must
            // be consumed before reporting status: failing the command while bytes
            // remain untransferred would stall the bulk-OUT endpoint, and the host would
            // need a reset before the device is usable again. So drain and discard the
            // payload across successive polls, then fail with DATA PROTECT / WRITE
            // PROTECTED so the host learns the medium is read-only and stops retrying.
            let total: u64 = len as u64 * IMAGE_BLOCK_SIZE as u64;
            if state.storage_offset != total {
                Action::Drain
            } else {
                refuse_write(state);
                Action::Fail
            }
        },
        ScsiCommand::Unknown => {
            state.fail(0x05, 0x20, 0x00); // ILLEGAL REQUEST, INVALID COMMAND OPERATION CODE
            Action::Fail
        },
        ScsiCommand::Inquiry
        | ScsiCommand::RequestSense
        | ScsiCommand::ReadCapacity10
        | ScsiCommand::ReadCapacity16
        | ScsiCommand::ReadFormatCapacities
        | ScsiCommand::ModeSense6
        | ScsiCommand::ModeSense10 => Action::Answer(answer_data(command, state)),
    }
}

fn refuse_write(state: &mut ScsiState)
    ensures
        *final(state) == write_protected(),
{
    state.fail(0x07, 0x27, 0x00); // DATA PROTECT, WRITE PROTECTED
    state.storage_offset = 0;
}

/// The whole answer to `command` has been sent: the sense data are reported once.
pub fn answered(command: ScsiCommand, state: &mut ScsiState)
    ensures
        *final(state) == after_answer(command, *old(state)),
        !(command is RequestSense) ==> *final(state) == *old(state),
        command is RequestSense ==> final(state).storage_offset == 0 && final(state).sense_key
            is None && final(state).sense_key_code is None && final(state).sense_qualifier is None,
{
    match command {
        ScsiCommand::RequestSense => {
            state.reset();
        },
        _ => {},
    }
}

/// `count` bytes of what a read offered have been sent.
pub fn sent(state: &mut ScsiState, count: usize)
    requires
        old(state).storage_offset + count <= u64::MAX,
    ensures
        *final(state) == advanced(*old(state), count as int),
        final(state).storage_offset == old(state).storage_offset + count,
        final(state).sense_key == old(state).sense_key,
        final(state).sense_key_code == old(state).sense_key_code,
        final(state).sense_qualifier == old(state).sense_qualifier,
{
    state.storage_offset = state.storage_offset + count as u64;
}

/// `count` bytes of a write of `len` blocks have been received and discarded. Returns
/// whether the command is to be failed now.
///
/// This happens in the same poll that drains the final byte: once the data-out phase is
/// empty there may be no further USB activity to drive another poll.
pub fn drained(len: u32, state: &mut ScsiState, count: usize) -> (refused: bool)
    requires
        old(state).storage_offset + count <= u64::MAX,
    ensures
        refused == (old(state).storage_offset + count == byte_count(len)),
        *final(state) == after_drain(len, *old(state), count as int),
        refused <==> old(state).storage_offset + count == len * 512,
        refused ==> final(state).storage_offset == 0 && final(state).sense_key == Some(0x07u8)
            && final(state).sense_key_code == Some(0x27u8) && final(state).sense_qualifier == Some(
            0x00u8,
        ),
        !refused ==> final(state).storage_offset == old(state).storage_offset + count
            && final(state).sense_key == old(state).sense_key && final(state).sense_key_code == old(
            state,
        ).sense_key_code && final(state).sense_qualifier == old(state).sense_qualifier,
{
    let total: u64 = len as u64 * IMAGE_BLOCK_SIZE as u64;
    state.storage_offset = state.storage_offset + count as u64;
    if state.storage_offset == total {
        refuse_write(state);
        true
    } else {
        false
    }
}

} // verus!
