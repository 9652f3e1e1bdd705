//! The disk image: a partitioned disk whose one partition is a FAT16 volume that
//! mirrors a directory tree.
//!
//! [`tree`] says which entries a tree comes to, in which order and with which timestamps.
//! [`begin`] makes the empty volume, [`fill`] creates the entries, and [`finish`] brings
//! the volume into canonical form and puts it on a disk. [`build`] is all of it.

pub mod check;
pub mod dirs;
pub mod dots;
pub mod fill;
pub mod laws;
pub mod mbr;
pub mod stamp;
pub mod tree;
pub mod volume;
pub mod walk;

use vstd::prelude::*;

use dots::canonicalise;
use fill::populate;
use mbr::{assemble, partition_sectors};
use tree::{count_uncommitted, plan_tree, Entry, Item, PlanError, Source};
use volume::{format_volume, SECTOR_SIZE};

verus! {

/// Why an image cannot be made.
#[derive(Debug, Clone, Copy, PartialEq, Eq)]
pub enum ImageError {
    /// The size is no multiple of the sector size, or has no room for the partition.
    Size,
    /// So many sectors make no FAT16 volume with clusters of 512 bytes.
    Format,
    /// The entry at this place cannot be created: there is no room for it, or FAT has no
    /// such name.
    Entry(usize),
    /// The volume is not as long as its partition.
    Length,
    /// The volume is no FAT16 volume, its directory tree is broken, or a subdirectory does
    /// not begin with the entries `.` and `..`.
    Volume,
}

/// The empty volume for a disk of `size` bytes, or why there is none.
pub open spec fn begun(size: int) -> Result<Seq<u8>, ImageError> {
    match mbr::partition_room(size) {
        None => Err(ImageError::Size),
        Some(sectors) => match volume::empty_volume(sectors) {
            Some(v) => Ok(v),
            None => Err(ImageError::Format),
        },
    }
}

/// The disk of `size` bytes that holds a volume, its directories in canonical form, or why
/// there is none.
pub open spec fn finished(volume: Seq<u8>, size: int) -> Result<Seq<u8>, ImageError> {
    let g = volume::geometry(volume);
    match mbr::partition_room(size) {
        None => Err(ImageError::Size),
        Some(sectors) => if volume.len() != sectors * SECTOR_SIZE {
            Err(ImageError::Length)
        } else if !volume::is_fat16(volume) || dirs::is_broken(volume, g) || dots::lacks_dots(
            volume,
            g,
        ) {
            Err(ImageError::Volume)
        } else {
            Ok(mbr::disk_of(dots::canonical(volume, g)))
        },
    }
}

/// The bytes of a disk or volume, or why there is none.
pub open spec fn outcome(res: Result<Vec<u8>, ImageError>) -> Result<Seq<u8>, ImageError> {
    match res {
        Ok(bytes) => Ok(bytes@),
        Err(e) => Err(e),
    }
}

/// A disk of `size` bytes that the widest range of hosts can mount: it begins with the
/// partition table that fits it, and its partition is a FAT16 volume with clusters of 512
/// bytes whose subdirectories all begin with the bare entries `.` and `..`.
pub open spec fn is_archival(disk: Seq<u8>, size: int) -> bool {
    let partition = disk.skip(0x10_0000);
    &&& disk.len() == size
    &&& mbr::has_mbr(disk)
    &&& volume::is_fat16(partition)
    &&& dots::all_bare(partition, volume::geometry(partition))
}

/// An empty volume for a disk of `size` bytes.
pub fn begin(size: usize) -> (res: Result<Vec<u8>, ImageError>)
    ensures
        outcome(res) == begun(size as int),
        res matches Ok(v) ==> fill::is_grown(v@),
{
    match partition_sectors(size) {
        None => Err(ImageError::Size),
        Some(sectors) => {
            proof {
                fill::lemma_empty_is_grown(sectors as int);
            }
            match format_volume(sectors) {
                Some(v) => Ok(v),
                None => Err(ImageError::Format),
            }
        },
    }
}

/// The disk of `size` bytes that holds a volume, its directories in canonical form.
pub fn finish(volume: Vec<u8>, size: usize) -> (res: Result<Vec<u8>, ImageError>)
    ensures
        outcome(res) == finished(volume@, size as int),
        res matches Ok(disk) ==> is_archival(disk@, size as int) && volume::geometry(
            disk@.skip(0x10_0000),
        ) == volume::geometry(volume@),
{
    let sectors: u32 = match partition_sectors(size) {
        Some(sectors) => sectors,
        None => {
            return Err(ImageError::Size);
        },
    };
    if volume.len() as u64 != sectors as u64 * SECTOR_SIZE as u64 {
        return Err(ImageError::Length);
    }
    let ghost before = volume@;
    let mut volume: Vec<u8> = volume;
    if !canonicalise(volume.as_mut_slice()) {
        return Err(ImageError::Volume);
    }
    proof {
        dots::canonical_form_is_final(before, volume::geometry(before));
        mbr::disks_are_partitioned(volume@);
    }
    Ok(assemble(volume.as_slice()))
}

/// The disk of `size` bytes on whose volume these entries have been created, or why there
/// is none. An entry that cannot be created is told by its place.
pub open spec fn is_image(size: int, items: Seq<Item>, res: Result<Seq<u8>, ImageError>) -> bool {
    match begun(size) {
        Err(e) => res == Err::<Seq<u8>, ImageError>(e),
        Ok(empty) => match fill::populated(empty, items) {
            Some(filled) => res == finished(filled, size),
            None => res matches Err(ImageError::Entry(k)) && fill::fails_at(
                empty,
                items,
                k as int,
            ),
        },
    }
}

/// The disk of `size` bytes on whose volume these entries have been created, in order.
pub fn image(size: usize, entries: &Vec<Entry>) -> (res: Result<Vec<u8>, ImageError>)
    requires
        tree::dated(tree::items(entries@)),
    ensures
        is_image(size as int, tree::items(entries@), outcome(res)),
        res matches Ok(disk) ==> is_archival(disk@, size as int),
{
    let empty: Vec<u8> = match begin(size) {
        Ok(empty) => empty,
        Err(e) => {
            return Err(e);
        },
    };
    match populate(empty, entries) {
        Ok(filled) => finish(filled, size),
        Err(k) => Err(ImageError::Entry(k)),
    }
}

/// A disk that mirrors a tree.
pub struct Built {
    pub disk: Vec<u8>,
    /// How many entries of the tree have no commit time.
    pub uncommitted: usize,
}

/// Why a tree cannot be made into an image.
#[derive(Debug)]
pub enum BuildError {
    /// An entry of the tree has no place on a volume.
    Plan(PlanError),
    /// The entry with this path cannot be created.
    Create(String),
    /// The image cannot be made.
    Image(ImageError),
}

/// Build the disk of `size` bytes whose volume mirrors a tree.
pub fn build(root: &Vec<Source>, size: usize) -> (res: Result<Built, BuildError>)
    requires
        tree::dated_sources(root@),
    ensures
        match tree::laid_out(root@, Seq::empty()) {
            Err(refusal) => res matches Err(BuildError::Plan(e)) && e@ == refusal,
            Ok(items) => match res {
                Ok(built) => {
                    &&& is_image(size as int, items, Ok(built.disk@))
                    &&& is_archival(built.disk@, size as int)
                    &&& built.uncommitted == tree::uncommitted(items)
                },
                Err(BuildError::Plan(_)) => false,
                Err(BuildError::Create(path)) => exists|k: usize|
                    k < items.len() && #[trigger] items[k as int].path == path@ && is_image(
                        size as int,
                        items,
                        Err(ImageError::Entry(k)),
                    ),
                Err(BuildError::Image(e)) => !(e is Entry) && is_image(
                    size as int,
                    items,
                    Err(e),
                ),
            },
        },
{
    let entries: Vec<Entry> = match plan_tree(root) {
        Ok(entries) => entries,
        Err(e) => {
            return Err(BuildError::Plan(e));
        },
    };
    proof {
        tree::plans_keep_to_fat_time(root@);
    }
    match image(size, &entries) {
        Ok(disk) => Ok(Built { disk, uncommitted: count_uncommitted(&entries) }),
        Err(ImageError::Entry(k)) => {
            assert(tree::items(entries@)[k as int] == entries@[k as int]@);
            Err(BuildError::Create(entries[k].path.as_str().to_owned()))
        },
        Err(e) => Err(BuildError::Image(e)),
    }
}

} // verus!
