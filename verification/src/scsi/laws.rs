//! What holds of commands over all their polls.

use vstd::prelude::*;

use super::{Action, ScsiCommand, ScsiState};
use crate::image;
use crate::image::{Layout, IMAGE_BLOCKS_NUM, IMAGE_BLOCK_SIZE, IMAGE_SIZE};
use crate::scsi;

verus! {

/// How many bytes polls that transferred so many bytes each have transferred together.
pub open spec fn total(counts: Seq<nat>) -> nat
    decreases counts.len(),
{
    if counts.len() == 0 {
        0
    } else {
        total(counts.drop_last()) + counts.last()
    }
}

/// Polls of a read can have sent so many bytes each: never more than was offered.
pub open spec fn sendable(image: Layout, lba: u64, len: u32, counts: Seq<nat>) -> bool
    decreases counts.len(),
{
    counts.len() > 0 ==> {
        &&& sendable(image, lba, len, counts.drop_last())
        &&& total(counts.drop_last()) < scsi::byte_count(len)
        &&& counts.last() <= scsi::offered(
            image,
            lba,
            len,
            total(counts.drop_last()) as int,
        ).len()
    }
}

/// The bytes that polls of a read have sent, in order.
pub open spec fn stream_of(image: Layout, lba: u64, len: u32, counts: Seq<nat>) -> Seq<u8>
    decreases counts.len(),
{
    if counts.len() == 0 {
        Seq::empty()
    } else {
        stream_of(image, lba, len, counts.drop_last()) + scsi::offered(
            image,
            lba,
            len,
            total(counts.drop_last()) as int,
        ).take(counts.last() as int)
    }
}

/// A read that is not complete is offered at least one byte and never more than it
/// asked for: the bytes of the image that it has come to.
pub proof fn reads_make_progress(image: Layout, lba: u64, len: u32, offset: int)
    requires
        image.wf(),
        image.image_len == IMAGE_SIZE,
        scsi::in_range(lba, len),
        0 <= offset < scsi::byte_count(len),
    ensures
        0 < scsi::offered(image, lba, len, offset).len() <= scsi::byte_count(len) - offset,
        ({
            let from = lba * IMAGE_BLOCK_SIZE + offset;
            let data = scsi::offered(image, lba, len, offset);
            from + data.len() <= image.bytes().len() && data == image.bytes().subrange(
                from,
                from + data.len(),
            )
        }),
{
    let from = lba * IMAGE_BLOCK_SIZE + offset;
    let c = image.chunk_of(from);
    let cs = image.chunk_size as int;
    image::lemma_byte_place(image, from);
    assert((c + 1) * cs == c * cs + cs) by (nonlinear_arith);
}

/// However the transport splits a read into polls, the host receives the bytes of the
/// image from the first block asked for on, in order and without a gap; once the read
/// is complete, exactly the blocks asked for.
pub proof fn reads_deliver_the_image(image: Layout, lba: u64, len: u32, counts: Seq<nat>)
    requires
        image.wf(),
        image.image_len == IMAGE_SIZE,
        scsi::in_range(lba, len),
        sendable(image, lba, len, counts),
    ensures
        total(counts) <= scsi::byte_count(len),
        stream_of(image, lba, len, counts) == image.bytes().subrange(
            lba * IMAGE_BLOCK_SIZE,
            lba * IMAGE_BLOCK_SIZE + total(counts),
        ),
        total(counts) == scsi::byte_count(len) ==> stream_of(image, lba, len, counts)
            == image.bytes().subrange(lba * IMAGE_BLOCK_SIZE, (lba + len) * IMAGE_BLOCK_SIZE),
    decreases counts.len(),
{
    let start = lba * IMAGE_BLOCK_SIZE;
    if counts.len() > 0 {
        let before = counts.drop_last();
        reads_deliver_the_image(image, lba, len, before);
        reads_make_progress(image, lba, len, total(before) as int);
        let n = counts.last() as int;
        let offered = scsi::offered(image, lba, len, total(before) as int);
        let part = offered.take(n);
        assert(part =~= image.bytes().subrange(
            start + total(before),
            start + total(before) + n,
        ));
        assert(image.bytes().subrange(start, start + total(before)) + part
            =~= image.bytes().subrange(start, start + total(counts)));
    } else {
        assert(image.bytes().subrange(start, start + 0) =~= Seq::<u8>::empty());
    }
}

/// A host that reads blocks of a device that serves a packed image receives the bytes of
/// the image that was packed.
pub proof fn hosts_read_what_was_packed(
    data: Seq<u8>,
    image: Layout,
    lba: u64,
    len: u32,
    counts: Seq<nat>,
)
    requires
        image.wf(),
        image.bytes() == data,
        data.len() == IMAGE_SIZE,
        scsi::in_range(lba, len),
        sendable(image, lba, len, counts),
        total(counts) == scsi::byte_count(len),
    ensures
        stream_of(image, lba, len, counts) == data.subrange(
            lba * IMAGE_BLOCK_SIZE,
            (lba + len) * IMAGE_BLOCK_SIZE,
        ),
{
    reads_deliver_the_image(image, lba, len, counts);
}

/// The state after polls of a write have discarded so many bytes each.
pub open spec fn after_drains(len: u32, state: ScsiState, counts: Seq<nat>) -> ScsiState
    decreases counts.len(),
{
    if counts.len() == 0 {
        state
    } else {
        scsi::after_drain(len, after_drains(len, state, counts.drop_last()), counts.last() as int)
    }
}

/// A write is not refused before its last byte has been consumed.
pub proof fn writes_are_drained_first(len: u32, state: ScsiState, counts: Seq<nat>)
    requires
        state.storage_offset == 0,
        total(counts) < scsi::byte_count(len),
    ensures
        after_drains(len, state, counts) == scsi::advanced(state, total(counts) as int),
    decreases counts.len(),
{
    if counts.len() > 0 {
        writes_are_drained_first(len, state, counts.drop_last());
    }
}

/// However the transport splits a write into polls, the poll that consumes its last byte
/// refuses it as write-protected, and leaves nothing of the transfer.
pub proof fn writes_are_refused(len: u32, state: ScsiState, counts: Seq<nat>)
    requires
        state.storage_offset == 0,
        counts.len() > 0,
        counts.last() > 0,
        total(counts) == scsi::byte_count(len),
    ensures
        after_drains(len, state, counts) == scsi::write_protected(),
{
    writes_are_drained_first(len, state, counts.drop_last());
}

/// A command that fails leaves an error pending: the sense data that the host asks for
/// next report it, and it is reported once.
pub proof fn failures_are_reported_once(
    command: ScsiCommand,
    before: ScsiState,
    image: Layout,
    after: ScsiState,
    action: Action,
)
    requires
        scsi::processed(command, before, image, after, action),
        action is Fail,
    ensures
        after.sense_key matches Some(key) && key != 0 && scsi::sense_data(after)[2] == key,
        after.sense_key_code matches Some(code) && scsi::sense_data(after)[12] == code,
        after.sense_qualifier matches Some(qualifier) && scsi::sense_data(after)[13] == qualifier,
        scsi::after_answer(ScsiCommand::RequestSense, after) == scsi::idle(),
        scsi::sense_data(scsi::idle())[2] == 0,
        scsi::sense_data(scsi::idle())[12] == 0,
        scsi::sense_data(scsi::idle())[13] == 0,
{
}

/// The capacity reports name the last block that can be read: a block can be read exactly
/// if it does not come behind that one.
pub proof fn capacity_is_what_can_be_read(state: ScsiState, lba: u64)
    ensures
        ({
            let last = (IMAGE_BLOCKS_NUM - 1) as u32;
            &&& scsi::answer(ScsiCommand::ReadCapacity10, state) == Some(
                scsi::be32(last) + scsi::be32(IMAGE_BLOCK_SIZE),
            )
            &&& scsi::answer(ScsiCommand::ReadCapacity16, state) == Some(
                scsi::be32(0) + scsi::be32(last) + scsi::be32(0) + scsi::be32(IMAGE_BLOCK_SIZE),
            )
            &&& scsi::in_range(lba, 1) <==> lba <= last
        }),
{
}

/// A read is refused exactly if it runs past the medium. While bytes of it are left, it is
/// sent the bytes of the image that it has come to, up to its end or the end of the chunk;
/// once they have all been sent, it passes, and nothing is left of the transfer.
pub proof fn reads_are_refused_only_past_the_medium(
    lba: u64,
    len: u32,
    before: ScsiState,
    image: Layout,
    after: ScsiState,
    action: Action,
)
    requires
        image.wf(),
        image.image_len == 0x40_0000,
        lba + len <= 8192 ==> before.storage_offset <= len * 512,
        scsi::processed(ScsiCommand::Read { lba, len }, before, image, after, action),
    ensures
        action is Fail <==> lba + len > 8192,
        action is Pass <==> lba + len <= 8192 && before.storage_offset == len * 512,
        action is Send <==> lba + len <= 8192 && before.storage_offset < len * 512,
        lba + len > 8192 ==> {
            &&& after.storage_offset == 0
            &&& after.sense_key == Some(0x05u8)
            &&& after.sense_key_code == Some(0x21u8)
            &&& after.sense_qualifier == Some(0x00u8)
        },
        lba + len <= 8192 ==> {
            &&& after.storage_offset == if before.storage_offset == len * 512 {
                0
            } else {
                before.storage_offset
            }
            &&& after.sense_key == before.sense_key
            &&& after.sense_key_code == before.sense_key_code
            &&& after.sense_qualifier == before.sense_qualifier
        },
        action matches Action::Send(data) ==> {
            let from = lba * 512 + before.storage_offset;
            let left = len * 512 - before.storage_offset;
            let in_chunk = image.chunk_size - from % image.chunk_size as int;
            &&& data@.len() == if left < in_chunk {
                left
            } else {
                in_chunk
            }
            &&& data@.len() > 0
            &&& from + data@.len() <= image.bytes().len()
            &&& forall|i: int|
                0 <= i < data@.len() ==> #[trigger] data@[i] == image.bytes()[from + i]
        },
{
    if lba + len <= 8192 && before.storage_offset < len * 512 {
        let from = lba * 512 + before.storage_offset;
        let cs = image.chunk_size as int;
        let c = image.chunk_of(from);
        image::lemma_byte_place(image, from);
        assert((c + 1) * cs == c * cs + cs) by (nonlinear_arith);
    }
}

/// A write is never passed. Until all its bytes have been received, it goes on receiving;
/// a write of nothing, or one whose bytes have all been received, fails as
/// write-protected.
pub proof fn writes_are_never_passed(
    len: u32,
    before: ScsiState,
    image: Layout,
    after: ScsiState,
    action: Action,
)
    requires
        scsi::processed(ScsiCommand::Write { len }, before, image, after, action),
    ensures
        action is Fail <==> before.storage_offset == len * 512,
        action is Drain <==> before.storage_offset != len * 512,
        action is Drain ==> after == before,
        action is Fail ==> {
            &&& after.storage_offset == 0
            &&& after.sense_key == Some(0x07u8)
            &&& after.sense_key_code == Some(0x27u8)
            &&& after.sense_qualifier == Some(0x00u8)
        },
{
}

/// The sense data are 18 bytes that report whatever is pending, and zero where nothing is:
/// the key in the third byte, the code and the qualifier in the thirteenth and fourteenth.
pub proof fn sense_data_report_what_is_pending(
    before: ScsiState,
    image: Layout,
    after: ScsiState,
    action: Action,
)
    requires
        scsi::processed(ScsiCommand::RequestSense, before, image, after, action),
    ensures
        action matches Action::Answer(data) && {
            &&& data@.len() == 18
            &&& data@[0] == 0x70
            &&& before.sense_key matches Some(key) ==> data@[2] == key
            &&& before.sense_key is None ==> data@[2] == 0
            &&& before.sense_key_code matches Some(code) ==> data@[12] == code
            &&& before.sense_key_code is None ==> data@[12] == 0
            &&& before.sense_qualifier matches Some(qualifier) ==> data@[13] == qualifier
            &&& before.sense_qualifier is None ==> data@[13] == 0
            &&& forall|i: int|
                0 <= i < 18 && i != 0 && i != 2 && i != 12 && i != 13 ==> #[trigger] data@[i] == 0
        },
        after == before,
{
}

/// Commands other than reads and writes do not depend on what has been transferred or is
/// pending, but for the sense data, and leave it as it is; only an unknown command fails,
/// and leaves its error pending.
pub proof fn other_commands_keep_the_state(
    command: ScsiCommand,
    before: ScsiState,
    image: Layout,
    after: ScsiState,
    action: Action,
)
    requires
        !(command is Read),
        !(command is Write),
        scsi::processed(command, before, image, after, action),
    ensures
        action is Fail <==> command is Unknown,
        action is Pass <==> command is TestUnitReady,
        action is Answer <==> !(command is Unknown) && !(command is TestUnitReady),
        after.storage_offset == before.storage_offset,
        !(command is Unknown) ==> after == before,
        command is Unknown ==> {
            &&& after.sense_key == Some(0x05u8)
            &&& after.sense_key_code == Some(0x20u8)
            &&& after.sense_qualifier == Some(0x00u8)
        },
        forall|other: ScsiState| !(command is RequestSense) ==> #[trigger] scsi::answer(
            command,
            other,
        ) == scsi::answer(command, before),
{
}

/// What a capacity report says, most significant byte first: the last block, 8191, and the
/// size of a block, 512.
pub proof fn capacity_reports_read_as_numbers(state: ScsiState)
    ensures
        scsi::answer(ScsiCommand::ReadCapacity10, state) matches Some(data) && {
            &&& data.len() == 8
            &&& big_endian(data.take(4)) == 8191
            &&& big_endian(data.skip(4)) == 512
        },
        scsi::answer(ScsiCommand::ReadCapacity16, state) matches Some(data) && {
            &&& data.len() == 16
            &&& big_endian(data.take(8)) == 8191
            &&& big_endian(data.skip(8)) == 512
        },
        scsi::answer(ScsiCommand::ReadFormatCapacities, state) matches Some(data) && {
            &&& data.len() == 12
            &&& big_endian(data.take(4)) == 8
            &&& big_endian(data.subrange(4, 8)) == 8192
            &&& data[8] == 1
            &&& big_endian(data.skip(9)) == 512
        },
{
    reveal_with_fuel(big_endian, 9);
}

/// The number that bytes stand for, the most significant first.
pub open spec fn big_endian(bytes: Seq<u8>) -> int
    decreases bytes.len(),
{
    if bytes.len() == 0 {
        0
    } else {
        big_endian(bytes.drop_last()) * 256 + bytes.last()
    }
}

/// A device introduces itself as a removable disk, by its names padded with spaces, and
/// tells how much it says of itself.
pub proof fn inquiries_name_the_device(state: ScsiState, i: int)
    ensures
        ({
            let data = scsi::answer(ScsiCommand::Inquiry, state)->0;
            &&& scsi::answer(ScsiCommand::Inquiry, state) is Some
            &&& data.len() == 36
            &&& data[0] == 0
            &&& data[1] == 0x80
            &&& data[4] == data.len() - 4
            &&& 0 <= i < 28 ==> data[8 + i] as char == "SCHUWI  STM32 Archive    0.1"@[i]
        }),
        "SCHUWI  STM32 Archive    0.1"@.len() == 28,
{
    reveal_strlit("SCHUWI  STM32 Archive    0.1");
}

/// The device says that it is write-protected, in both forms of the mode parameters, and
/// how long these are.
pub proof fn modes_tell_the_write_protection(state: ScsiState)
    ensures
        ({
            let short = scsi::answer(ScsiCommand::ModeSense6, state)->0;
            let long = scsi::answer(ScsiCommand::ModeSense10, state)->0;
            &&& scsi::answer(ScsiCommand::ModeSense6, state) is Some
            &&& scsi::answer(ScsiCommand::ModeSense10, state) is Some
            &&& short.len() == 4 && short[0] == short.len() - 1
            &&& short[2] == 0x80
            &&& long.len() == 8 && 256 * long[0] + long[1] == long.len() - 2
            &&& long[3] == 0x80
            &&& short[1] == 0 && short[3] == 0
            &&& long[2] == 0 && long[4] == 0 && long[5] == 0 && long[6] == 0 && long[7] == 0
        }),
{
}

/// Only the sense data end what is pending, and the transfer with it: any other answer leaves
/// the state as it is.
pub proof fn only_sense_data_clear_errors(command: ScsiCommand, state: ScsiState)
    ensures
        ({
            let after = scsi::after_answer(command, state);
            &&& command is RequestSense ==> {
                &&& after.storage_offset == 0
                &&& after.sense_key is None
                &&& after.sense_key_code is None
                &&& after.sense_qualifier is None
            }
            &&& !(command is RequestSense) ==> after == state
        }),
{
}

/// Bytes that have been transferred are counted, and nothing else changes; the last one of a
/// write leaves it refused as write-protected, with nothing of it counted.
pub proof fn transfers_are_counted(len: u32, state: ScsiState, count: int)
    requires
        0 <= count,
        state.storage_offset + count <= u64::MAX,
    ensures
        ({
            let after = scsi::advanced(state, count);
            &&& after.storage_offset == state.storage_offset + count
            &&& after.sense_key == state.sense_key
            &&& after.sense_key_code == state.sense_key_code
            &&& after.sense_qualifier == state.sense_qualifier
            &&& state.storage_offset + count != 512 * len ==> scsi::after_drain(len, state, count)
                == after
        }),
        state.storage_offset + count == 512 * len ==> {
            let after = scsi::after_drain(len, state, count);
            &&& after.storage_offset == 0
            &&& after.sense_key == Some(7u8)
            &&& after.sense_key_code == Some(0x27u8)
            &&& after.sense_qualifier == Some(0u8)
        },
{
}

} // verus!
