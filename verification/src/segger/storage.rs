//! The storage backend of the MSD class: a read-only block device served from the
//! embedded image.
//!
//! All hooks run synchronously from the MSD task, never from interrupt context.

use vstd::prelude::*;

use crate::image::{IMAGE_BLOCKS_NUM, IMAGE_BLOCK_SIZE};
use crate::store;
use crate::store::ImageStore;

verus! {

/// What the hooks hold: the store once it is installed, and the transfer buffer that
/// the class has handed over.
pub struct Storage<'a> {
    pub store: Option<ImageStore<'a>>,
    /// Whether there is a transfer buffer.
    pub has_buffer: bool,
    /// How many sectors the transfer buffer holds.
    pub buffer_sectors: u32,
}

/// What the class wants to know of the medium.
pub struct MediumInfo {
    pub num_sectors: u32,
    pub sector_size: u16,
}

impl<'a> Storage<'a> {
    /// Nothing installed, no transfer buffer.
    pub fn new() -> (storage: Self)
        ensures
            storage.store is None,
            !storage.has_buffer,
            storage.buffer_sectors == 0,
    {
        Storage { store: None, has_buffer: false, buffer_sectors: 0 }
    }
}

/// Hand the storage backend its store. Call once before the stack is started.
pub fn install<'a>(storage: &mut Storage<'a>, store: ImageStore<'a>)
    ensures
        *final(storage) == (Storage { store: Some(store), ..*old(storage) }),
{
    storage.store = Some(store);
}

/// The driver data that the class hands over once.
pub struct DriverData {
    /// Whether there is a transfer buffer.
    pub has_buffer: bool,
    /// Its size in bytes.
    pub num_bytes: u32,
}

/// The class hands over its transfer buffer, if it has any driver data.
pub fn pf_init(storage: &mut Storage<'_>, driver_data: Option<DriverData>)
    ensures
        *final(storage) == match driver_data {
            Some(data) => Storage {
                has_buffer: data.has_buffer,
                buffer_sectors: data.num_bytes / IMAGE_BLOCK_SIZE,
                ..*old(storage)
            },
            None => *old(storage),
        },
        driver_data matches Some(data) ==> final(storage).buffer_sectors * 512 <= data.num_bytes
            < final(storage).buffer_sectors * 512 + 512,
{
    if let Some(data) = driver_data {
        storage.has_buffer = data.has_buffer;
        storage.buffer_sectors = data.num_bytes / IMAGE_BLOCK_SIZE;
    }
}

/// How many of `num_sectors` sectors the class may transfer at once through the buffer.
pub fn pf_get_buffer(storage: &Storage<'_>, num_sectors: u32) -> (sectors: u32)
    ensures
        sectors == if !storage.has_buffer {
            0
        } else if num_sectors < storage.buffer_sectors {
            num_sectors
        } else {
            storage.buffer_sectors
        },
        sectors <= num_sectors,
        storage.has_buffer ==> sectors <= storage.buffer_sectors && (sectors == num_sectors
            || sectors == storage.buffer_sectors),
{
    if !storage.has_buffer || storage.buffer_sectors == 0 {
        return 0;
    }
    if num_sectors < storage.buffer_sectors {
        num_sectors
    } else {
        storage.buffer_sectors
    }
}

/// The size of the medium.
pub fn pf_get_info() -> (info: MediumInfo)
    ensures
        info.num_sectors == IMAGE_BLOCKS_NUM,
        info.sector_size == IMAGE_BLOCK_SIZE,
{
    MediumInfo { num_sectors: IMAGE_BLOCKS_NUM, sector_size: IMAGE_BLOCK_SIZE as u16 }
}

/// Read sectors into `dst`, which is as long as the sectors asked for; no `dst` and no
/// sectors are nothing to do. Returns 0, or -1 where no store is installed.
pub fn pf_read(storage: &mut Storage<'_>, sector_index: u32, dst: Option<&mut [u8]>) -> (status: i8)
    requires
        dst matches Some(d) ==> old(storage).store matches Some(store) ==> store.wf()
            && store.image().readable(sector_index * IMAGE_BLOCK_SIZE, d@.len()),
    ensures
        final(storage).has_buffer == old(storage).has_buffer,
        final(storage).buffer_sectors == old(storage).buffer_sectors,
        match dst {
            None => status == 0 && *final(storage) == *old(storage),
            Some(d) => match old(storage).store {
                None => {
                    &&& status == if d@.len() == 0 { 0int } else { -1 }
                    &&& *final(storage) == *old(storage)
                    &&& final(d)@ == d@
                },
                Some(store) => {
                    &&& status == 0
                    &&& final(d)@ == store.image().read_at(
                        sector_index * IMAGE_BLOCK_SIZE,
                        d@.len(),
                    )
                    &&& final(storage).store matches Some(after)
                    &&& after.wf()
                    &&& after.image() == store.image()
                    &&& after.clock_hz() == store.clock_hz()
                    &&& store::served(store, after, sector_index * IMAGE_BLOCK_SIZE, d@.len())
                },
            },
        },
{
    let d = match dst {
        Some(d) => d,
        None => {
            return 0;
        },
    };
    if d.len() == 0 {
        assert(d@.len() == 0);
        return 0;
    }
    match &mut storage.store {
        Some(store) => {
            store.read_sectors(sector_index, d);
            0
        },
        None => -1,  // store not installed -> report a read error
    }
}

/// The unit is write-protected: every write is refused.
pub fn pf_write() -> (status: i8)
    ensures
        status == -1,
{
    -1
}

/// The medium is always there.
pub fn pf_medium_is_present() -> (present: i8)
    ensures
        present == 1,
{
    1
}

/// Reading sectors one after another gives what reading them at once gives.
pub proof fn reads_can_be_split(image: crate::image::Layout, start: int, a: nat, b: nat)
    ensures
        image.read_at(start, a + b) == image.read_at(start, a) + image.read_at(
            start + a,
            b,
        ),
{
    assert(image.read_at(start, a + b) =~= image.read_at(start, a) + image.read_at(start + a, b));
}

} // verus!
