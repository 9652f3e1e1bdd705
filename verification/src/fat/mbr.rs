//! The partition table. The one partition is aligned to 1 MiB, as every modern
//! partitioner does it, and reaches to the end of the disk.

use vstd::prelude::*;

use crate::bytes::{copy_at, equal};

use super::volume::SECTOR_SIZE;

verus! {

/// The first sector of the partition.
pub const PARTITION_START: u32 = 2048;

/// Heads and sectors per track of the geometry that LBA disks are given.
pub const HEADS: u32 = 255;

pub const SECTORS_PER_TRACK: u32 = 63;

/// A sector address as cylinder, head and sector; the largest such address for sectors
/// that have none.
pub open spec fn chs(lba: int) -> Seq<u8> {
    let cylinder = lba / (HEADS * SECTORS_PER_TRACK);
    let head = lba / (SECTORS_PER_TRACK as int) % (HEADS as int);
    let sector = lba % (SECTORS_PER_TRACK as int) + 1;
    if cylinder > 1023 {
        seq![0xFEu8, 0xFF, 0xFF]
    } else {
        seq![head as u8, (sector + cylinder / 256 * 64) as u8, (cylinder % 256) as u8]
    }
}

/// A number as four bytes, the least significant first.
pub open spec fn le32_bytes(n: int) -> Seq<u8> {
    seq![
        (n % 256) as u8,
        (n / 0x100 % 256) as u8,
        (n / 0x1_0000 % 256) as u8,
        (n / 0x100_0000) as u8,
    ]
}

/// The type of a FAT16 partition: under 32 MiB, or not.
pub open spec fn partition_type(sectors: int) -> u8 {
    if sectors < 0x1_0000 {
        0x04
    } else {
        0x06
    }
}

/// The table entry of a partition of so many sectors: not bootable, its type, and where it
/// begins and ends.
pub open spec fn partition_entry(sectors: int) -> Seq<u8> {
    seq![0x00u8] + chs(PARTITION_START as int) + seq![partition_type(sectors)] + chs(
        PARTITION_START + sectors - 1,
    ) + le32_bytes(PARTITION_START as int) + le32_bytes(sectors)
}

/// The first sector of a disk whose partition has so many sectors: no boot code, one
/// partition, and the signature.
pub open spec fn mbr(sectors: int) -> Seq<u8> {
    Seq::new(
        SECTOR_SIZE as nat,
        |i: int|
            if 446 <= i < 462 {
                partition_entry(sectors)[i - 446]
            } else if i == 510 {
                0x55u8
            } else if i == 511 {
                0xAAu8
            } else {
                0u8
            },
    )
}

/// How many sectors a volume has.
pub open spec fn sector_count(volume: Seq<u8>) -> int {
    volume.len() as int / (SECTOR_SIZE as int)
}

/// A disk with this volume as its partition.
pub open spec fn disk_of(volume: Seq<u8>) -> Seq<u8> {
    mbr(sector_count(volume)) + Seq::new(
        ((PARTITION_START - 1) * SECTOR_SIZE) as nat,
        |i: int| 0u8,
    ) + volume
}

/// How many sectors are left for the partition of a disk of `size` bytes; none where the
/// size is no multiple of the sector size, leaves no partition, or is too large for the
/// partition table.
pub open spec fn partition_room(size: int) -> Option<int> {
    let sectors = size / (SECTOR_SIZE as int);
    if size % (SECTOR_SIZE as int) == 0 && PARTITION_START < sectors <= u32::MAX {
        Some(sectors - PARTITION_START)
    } else {
        None
    }
}

/// How many sectors are left for the partition of a disk of `size` bytes.
pub fn partition_sectors(size: usize) -> (sectors: Option<u32>)
    ensures
        match sectors {
            Some(n) => partition_room(size as int) == Some(n as int),
            None => partition_room(size as int) is None,
        },
{
    if size % SECTOR_SIZE != 0 {
        return None;
    }
    let sectors: u64 = (size / SECTOR_SIZE) as u64;
    if sectors <= PARTITION_START as u64 || sectors > u32::MAX as u64 {
        return None;
    }
    Some((sectors - PARTITION_START as u64) as u32)
}

/// Append a sector address as cylinder, head and sector.
fn push_chs(out: &mut Vec<u8>, lba: u32)
    ensures
        final(out)@ == old(out)@ + chs(lba as int),
{
    let cylinder: u32 = lba / (HEADS * SECTORS_PER_TRACK);
    if cylinder > 1023 {
        out.push(0xFE);
        out.push(0xFF);
        out.push(0xFF);
    } else {
        out.push((lba / SECTORS_PER_TRACK % HEADS) as u8);
        out.push((lba % SECTORS_PER_TRACK + 1 + cylinder / 256 * 64) as u8);
        out.push((cylinder % 256) as u8);
    }
    assert(out@ =~= old(out)@ + chs(lba as int));
}

/// Append a number, least significant byte first.
fn push_le32(out: &mut Vec<u8>, n: u32)
    ensures
        final(out)@ == old(out)@ + le32_bytes(n as int),
{
    out.push((n % 256) as u8);
    out.push((n / 0x100 % 256) as u8);
    out.push((n / 0x1_0000 % 256) as u8);
    out.push((n / 0x100_0000) as u8);
    assert(out@ =~= old(out)@ + le32_bytes(n as int));
}

/// The first sector of a disk whose partition has so many sectors.
pub fn build_mbr(sectors: u32) -> (sector: Vec<u8>)
    requires
        0 < sectors,
        PARTITION_START + sectors <= u32::MAX,
    ensures
        sector@ == mbr(sectors as int),
{
    let mut entry: Vec<u8> = Vec::new();
    entry.push(0x00);
    push_chs(&mut entry, PARTITION_START);
    entry.push(
        if sectors < 0x1_0000 {
            0x04
        } else {
            0x06
        },
    );
    push_chs(&mut entry, PARTITION_START + sectors - 1);
    push_le32(&mut entry, PARTITION_START);
    push_le32(&mut entry, sectors);
    assert(entry@ =~= partition_entry(sectors as int));
    let mut sector: Vec<u8> = vec![0u8; SECTOR_SIZE];
    copy_at(sector.as_mut_slice(), 446, entry.as_slice());
    sector.set(510, 0x55);
    sector.set(511, 0xAA);
    assert(sector@ =~= mbr(sectors as int));
    sector
}

/// A disk with this volume as its partition.
pub fn assemble(volume: &[u8]) -> (disk: Vec<u8>)
    requires
        0 < volume@.len(),
        volume@.len() % SECTOR_SIZE as nat == 0,
        PARTITION_START + sector_count(volume@) <= u32::MAX,
    ensures
        disk@ == disk_of(volume@),
{
    assert(volume@.len() == volume.len());
    let mut disk: Vec<u8> = build_mbr((volume.len() / SECTOR_SIZE) as u32);
    let gap: Vec<u8> = vec![0u8; (PARTITION_START as usize - 1) * SECTOR_SIZE];
    assert(gap@ =~= Seq::new(((PARTITION_START - 1) * SECTOR_SIZE) as nat, |i: int| 0u8));
    disk.extend_from_slice(gap.as_slice());
    disk.extend_from_slice(volume);
    disk
}

/// A disk begins with the partition table that fits it, byte for byte.
pub open spec fn has_mbr(disk: Seq<u8>) -> bool {
    partition_room(disk.len() as int) matches Some(sectors) && disk.subrange(
        0,
        SECTOR_SIZE as int,
    ) == mbr(sectors)
}

/// Check the partition table of a disk, byte for byte.
pub fn check_mbr(disk: &[u8]) -> (ok: bool)
    ensures
        ok == has_mbr(disk@),
{
    assert(disk@.len() == disk.len());
    match partition_sectors(disk.len()) {
        Some(sectors) => {
            let want: Vec<u8> = build_mbr(sectors);
            equal(&disk[0..SECTOR_SIZE], want.as_slice())
        },
        None => false,
    }
}

/// A disk that was put together begins with the partition table that fits it, and its
/// partition holds the volume: it begins at 1 MiB and ends with the disk.
pub proof fn disks_are_partitioned(volume: Seq<u8>)
    requires
        0 < volume.len(),
        volume.len() % SECTOR_SIZE as nat == 0,
        PARTITION_START + sector_count(volume) <= u32::MAX,
    ensures
        has_mbr(disk_of(volume)),
        disk_of(volume).len() == 0x10_0000 + volume.len(),
        disk_of(volume).skip(0x10_0000) == volume,
        partition_room(disk_of(volume).len() as int) == Some(sector_count(volume)),
{
    let disk = disk_of(volume);
    assert(disk.subrange(0, SECTOR_SIZE as int) =~= mbr(sector_count(volume)));
    assert(disk.skip(0x10_0000) =~= volume);
}

} // verus!
