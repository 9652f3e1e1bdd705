//! What holds of volumes and disks, byte by byte.

use vstd::arithmetic::div_mod::lemma_fundamental_div_mod;
use vstd::prelude::*;

use super::dirs;
use super::dots;
use super::fill;
use super::mbr;
use super::stamp::Stamp;
use super::tree;
use super::tree::{Body, Item, Source};
use super::volume;
use super::volume::Geometry;
use super::walk;
use super::{begun, finished, is_image, ImageError};

verus! {

/// The number in four bytes, the least significant first.
pub open spec fn number(v: Seq<u8>, at: int) -> int {
    v[at] + 256 * v[at + 1] + 65536 * v[at + 2] + 16777216 * v[at + 3]
}

/// The sector that an address of cylinder, head and sector stands for, on disks of 255
/// heads and 63 sectors per track: the head in the first byte, the sector in the lower six
/// bits of the second, and the cylinder in the rest.
pub open spec fn sector_at(v: Seq<u8>, at: int) -> int {
    let cylinder = v[at + 2] + 256 * (v[at + 1] as int / 64);
    let sector = v[at + 1] as int % 64;
    (cylinder * 255 + v[at]) * 63 + sector - 1
}

/// How many sectors have an address of cylinder, head and sector.
pub open spec fn addressable() -> int {
    16450560
}

/// Numbers of four bytes read back.
pub proof fn numbers_of_four_bytes_read_back(n: int)
    requires
        0 <= n < 0x1_0000_0000,
    ensures
        mbr::le32_bytes(n).len() == 4,
        number(mbr::le32_bytes(n), 0) == n,
{
    lemma_fundamental_div_mod(n, 256);
    lemma_fundamental_div_mod(n / 256, 256);
    lemma_fundamental_div_mod(n / 256 / 256, 256);
    assert(n / 0x100 / 256 == n / 0x1_0000);
    assert(n / 0x100 / 256 / 256 == n / 0x100_0000);
}

/// Sector addresses read back, as far as there are any; all others are the largest.
pub proof fn sector_addresses_read_back(lba: int)
    requires
        0 <= lba,
    ensures
        mbr::chs(lba).len() == 3,
        lba < addressable() ==> sector_at(mbr::chs(lba), 0) == lba && mbr::chs(lba)[0] < 255
            && 1 <= mbr::chs(lba)[1] as int % 64,
        lba >= addressable() ==> mbr::chs(lba) == seq![0xFEu8, 0xFF, 0xFF],
{
    let cylinder = lba / 16065;
    let head = lba / 63 % 255;
    let sector = lba % 63 + 1;
    lemma_fundamental_div_mod(lba, 63);
    lemma_fundamental_div_mod(lba / 63, 255);
    assert(lba / 63 / 255 == lba / 16065);
    assert((cylinder * 255 + head) * 63 + sector - 1 == lba);
    if lba < addressable() {
        assert(cylinder <= 1023);
        let b = sector + cylinder / 256 * 64;
        assert(b % 64 == sector && b / 64 == cylinder / 256);
    } else {
        assert(cylinder > 1023);
    }
}

/// What the partition table of a disk says is true of the disk: one partition, not
/// bootable, that begins at sector 2048 and has all sectors behind it, by either form of
/// address; its type tells whether it has less than 32 MiB. There is no boot code and no
/// other partition, and nothing stands between the table and the partition.
pub proof fn partition_tables_tell_the_truth(volume: Seq<u8>)
    requires
        0 < volume.len(),
        volume.len() % 512 == 0,
        2048 + volume.len() / 512 <= u32::MAX,
    ensures
        ({
            let disk = mbr::disk_of(volume);
            &&& disk.len() == 1048576 + volume.len()
            &&& disk.skip(1048576) == volume
            &&& disk[446] == 0
            &&& sector_at(disk, 447) == 2048
            &&& disk[450] == if volume.len() < 33554432 {
                4u8
            } else {
                6u8
            }
            &&& disk.len() <= addressable() * 512 ==> (sector_at(disk, 451) + 1) * 512 == disk.len()
            &&& disk.len() > addressable() * 512 ==> disk.subrange(451, 454) == seq![
                0xFEu8,
                0xFF,
                0xFF,
            ]
            &&& number(disk, 454) * 512 == 1048576
            &&& number(disk, 458) * 512 == volume.len()
            &&& disk[510] == 0x55 && disk[511] == 0xAA
            &&& forall|i: int|
                0 <= i < 446 || 462 <= i < 510 || 512 <= i < 1048576 ==> #[trigger] disk[i] == 0
        }),
{
    let n = volume.len() as int / 512;
    let disk = mbr::disk_of(volume);
    mbr::disks_are_partitioned(volume);
    let entry = mbr::partition_entry(n);
    sector_addresses_read_back(2048);
    sector_addresses_read_back(2048 + n - 1);
    numbers_of_four_bytes_read_back(2048);
    numbers_of_four_bytes_read_back(n);
    let first = mbr::chs(2048);
    let last = mbr::chs(2048 + n - 1);
    assert(entry.len() == 16);
    assert forall|i: int| 0 <= i < 16 implies #[trigger] disk[446 + i] == entry[i] by {
        assert(disk[446 + i] == mbr::mbr(n)[446 + i]);
    }
    assert(disk[446] == entry[0]);
    assert(disk[447] == entry[1] && disk[448] == entry[2] && disk[449] == entry[3]);
    assert(entry[1] == first[0] && entry[2] == first[1] && entry[3] == first[2]);
    assert(disk[450] == entry[4]);
    assert(disk[451] == entry[5] && disk[452] == entry[6] && disk[453] == entry[7]);
    assert(entry[5] == last[0] && entry[6] == last[1] && entry[7] == last[2]);
    let starts = mbr::le32_bytes(2048);
    assert(disk[454] == entry[8] && disk[455] == entry[9] && disk[456] == entry[10] && disk[457]
        == entry[11]);
    assert(entry[8] == starts[0] && entry[9] == starts[1] && entry[10] == starts[2] && entry[11]
        == starts[3]);
    let counts = mbr::le32_bytes(n);
    assert(disk[458] == entry[12] && disk[459] == entry[13] && disk[460] == entry[14] && disk[461]
        == entry[15]);
    assert(entry[12] == counts[0] && entry[13] == counts[1] && entry[14] == counts[2] && entry[15]
        == counts[3]);
    assert(disk.subrange(451, 454) =~= last);
    lemma_fundamental_div_mod(volume.len() as int, 512);
    assert(disk[510] == mbr::mbr(n)[510] && disk[511] == mbr::mbr(n)[511]);
    assert forall|i: int|
        0 <= i < 446 || 462 <= i < 510 || 512 <= i < 1048576 implies #[trigger] disk[i] == 0 by {
        if i < 512 {
            assert(disk[i] == mbr::mbr(n)[i]);
        }
    }
}

/// A disk passes for partitioned exactly if it begins as a disk of its length that was put
/// together.
pub proof fn partitioned_disks_begin_alike(disk: Seq<u8>, volume: Seq<u8>)
    requires
        0 < volume.len(),
        volume.len() % 512 == 0,
        2048 + volume.len() / 512 <= u32::MAX,
        disk.len() == 1048576 + volume.len(),
    ensures
        mbr::has_mbr(disk) <==> disk.take(512) == mbr::disk_of(volume).take(512),
{
    mbr::disks_are_partitioned(volume);
    assert(disk.take(512) =~= disk.subrange(0, 512));
    assert(mbr::disk_of(volume).take(512) =~= mbr::disk_of(volume).subrange(0, 512));
}

/// There is room for a partition exactly on disks of whole sectors that are larger than 1
/// MiB and not too large for the partition table. It is all that lies behind the first MiB.
pub proof fn partitions_take_the_rest(size: int)
    requires
        0 <= size,
    ensures
        mbr::partition_room(size) is Some <==> size % 512 == 0 && 1048576 < size <= 0xFFFF_FFFF
            * 512,
        mbr::partition_room(size) matches Some(sectors) ==> 1048576 + 512 * sectors == size,
{
    lemma_fundamental_div_mod(size, 512);
}

/// A volume is FAT16, with clusters of 512 bytes, exactly if its boot sector says so and
/// adds up: by the numbers there, its parts lie one behind the other, what is left for
/// clusters is between 4085 and 65524 of them, each copy of the FAT has room for them all,
/// and the volume is as long as it says.
pub proof fn fat16_volumes_add_up(v: Seq<u8>)
    ensures
        volume::is_fat16(v) <==> v.len() >= 512 && v[510] == 0x55 && v[511] == 0xAA && {
            let reserved = v[14] + 256 * v[15];
            let copies = v[16] as int;
            let root_entries = v[17] + 256 * v[18];
            let short_total = v[19] + 256 * v[20];
            let per_copy = v[22] + 256 * v[23];
            let total = if short_total != 0 {
                short_total
            } else {
                number(v, 32)
            };
            let clusters = total - reserved - copies * per_copy - root_entries / 16;
            &&& v[11] == 0 && v[12] == 2
            &&& v[13] == 1
            &&& reserved > 0 && copies > 0 && per_copy > 0 && root_entries > 0
            &&& root_entries % 16 == 0
            &&& 4085 <= clusters <= 65524
            &&& 2 * (clusters + 2) <= 512 * per_copy
            &&& total * 512 == v.len()
        },
{
    let g = volume::geometry(v);
    let before = g.reserved + g.fats * g.sectors_per_fat;
    assert(g.data_start() == before * 512 + g.root_entries * 32);
    lemma_fundamental_div_mod(g.root_entries as int, 16);
    if g.root_entries as int % 16 == 0 {
        assert(g.root_entries * 32 == g.root_entries as int / 16 * 512);
        assert(g.data_start() == (before + g.root_entries as int / 16) * 512);
        assert(g.data_start() / 512 == before + g.root_entries as int / 16);
    }
    assert(g.root_entries * 32 % 512 == 0 <==> g.root_entries as int % 16 == 0);
}

/// What the boot sector says of the layout is taken from it byte by byte.
pub proof fn layouts_are_read_from_the_boot_sector(v: Seq<u8>)
    ensures
        ({
            let g = volume::geometry(v);
            &&& g.reserved == v[14] + 256 * v[15]
            &&& g.fats == v[16]
            &&& g.root_entries == v[17] + 256 * v[18]
            &&& g.sectors_per_fat == v[22] + 256 * v[23]
            &&& v[19] + 256 * v[20] != 0 ==> g.total_sectors == v[19] + 256 * v[20]
            &&& v[19] + 256 * v[20] == 0 ==> g.total_sectors == number(v, 32)
        }),
{
}

/// The parts of a volume lie one behind the other, without a gap: the FAT behind the
/// reserved sectors, the root directory behind all copies of the FAT, the clusters behind
/// the root directory, and the last of them at the end of the volume.
pub proof fn parts_follow_one_another(g: Geometry, c: int)
    requires
        g.wf(),
    ensures
        g.fat_start() == 512 * g.reserved,
        g.root_start() == g.fat_start() + 512 * (g.fats * g.sectors_per_fat),
        g.cluster_start(2) == g.root_start() + 32 * g.root_entries,
        g.cluster_start(c + 1) == g.cluster_start(c) + 512,
        g.has_cluster(c) <==> g.cluster_start(2) <= g.cluster_start(c) && g.cluster_start(c) + 512
            <= 512 * g.total_sectors,
{
    dirs::lemma_places(g);
    let before = g.reserved + g.fats * g.sectors_per_fat;
    assert(g.root_start() == before * 512);
}

/// The clusters of a file or directory follow one another as the FAT says: each but the
/// last names the next, and what the last one names is no cluster, unless there are as many
/// as were asked for.
pub proof fn chains_follow_the_fat(v: Seq<u8>, g: Geometry, c: int, most: nat)
    ensures
        ({
            let all = dirs::chain(v, g, c, most);
            &&& all.len() <= most
            &&& all.len() == 0 <==> most == 0 || !g.has_cluster(c)
            &&& all.len() > 0 ==> all[0] == c
            &&& forall|i: int| 0 <= i < all.len() ==> g.has_cluster(#[trigger] all[i])
            &&& forall|i: int|
                0 <= i < all.len() - 1 ==> all[i + 1] == v[g.fat_start() + 2 * #[trigger] all[i]]
                    + 256 * v[g.fat_start() + 2 * all[i] + 1]
            &&& 0 < all.len() < most ==> !g.has_cluster(
                v[g.fat_start() + 2 * all.last()] + 256 * v[g.fat_start() + 2 * all.last() + 1],
            )
        }),
    decreases most,
{
    dirs::lemma_chain(v, g, c, most);
    if most > 0 && g.has_cluster(c) {
        let next = v[g.fat_start() + 2 * c] + 256 * v[g.fat_start() + 2 * c + 1];
        assert(next == volume::le16(v, g.fat_start() + 2 * c));
        chains_follow_the_fat(v, g, next, (most - 1) as nat);
        let rest = dirs::chain(v, g, next, (most - 1) as nat);
        let all = dirs::chain(v, g, c, most);
        assert(all == seq![c] + rest);
        assert forall|i: int| 0 <= i < all.len() - 1 implies all[i + 1] == v[g.fat_start() + 2
            * #[trigger] all[i]] + 256 * v[g.fat_start() + 2 * all[i] + 1] by {
            assert(all[i + 1] == rest[i]);
            if i > 0 {
                assert(all[i] == rest[i - 1]);
                assert(rest[i - 1 + 1] == v[g.fat_start() + 2 * rest[i - 1]] + 256
                    * v[g.fat_start() + 2 * rest[i - 1] + 1]);
            }
        }
        if rest.len() > 0 {
            assert(all.last() == rest.last());
        } else {
            assert(all.last() == c);
        }
    }
}

/// The entries of a directory lie one behind the other, 32 bytes each: those of the root in
/// the root directory, those of any other in its clusters, 16 in each.
pub proof fn entries_follow_one_another(v: Seq<u8>, g: Geometry, dir: int, k: int, j: int)
    requires
        g.wf(),
    ensures
        dirs::slots(v, g, 0).len() == g.root_entries,
        0 <= k < g.root_entries ==> dirs::slots(v, g, 0)[k] == g.root_start() + 32 * k,
        dir != 0 ==> dirs::slots(v, g, dir).len() == 16 * dirs::chain(
            v,
            g,
            dir,
            g.clusters() as nat,
        ).len(),
        dir != 0 && 0 <= j < 16 && 0 <= k < dirs::chain(v, g, dir, g.clusters() as nat).len()
            ==> dirs::slots(v, g, dir)[16 * k + j] == g.cluster_start(
            dirs::chain(v, g, dir, g.clusters() as nat)[k],
        ) + 32 * j,
{
    if 0 <= j < 16 {
        assert((16 * k + j) / 16 == k && (16 * k + j) % 16 == j);
    }
}

/// A directory ends with the first entry whose first byte is zero, or with its last one.
pub proof fn directories_end_at_a_zero(v: Seq<u8>, g: Geometry, dir: int, i: int)
    requires
        0 <= i < dirs::slots(v, g, dir).len(),
    ensures
        dirs::listed(v, g, dir, i) <==> v[dirs::slots(v, g, dir)[i]] != 0 && (i > 0
            ==> dirs::listed(v, g, dir, i - 1)),
{
    if dirs::listed(v, g, dir, i) {
        assert(v[dirs::slots(v, g, dir)[i]] != 0);
    }
}

/// The directory attribute is a bit of the attributes.
pub proof fn the_directory_attribute_is_a_bit(v: Seq<u8>, at: int)
    ensures
        dots::has_dir_attribute(v, at) <==> v[at + 11] & 0x10 != 0,
        dirs::is_subdir(v, at) <==> v[at] != 0xE5 && v[at] != 0x2E && v[at + 11] & 0x10 != 0,
        dirs::first_cluster(v, at) == v[at + 26] + 256 * v[at + 27],
{
    let b = v[at + 11];
    assert(b / 16u8 % 2u8 == 1u8 <==> b & 0x10u8 != 0u8) by (bit_vector);
}

/// A directory begins with dot entries behind long-name entries exactly if its first four
/// entries, byte by byte, are a long name, `.`, a long name and `..`; with bare ones exactly
/// if its first two are `.` and `..`.
pub proof fn dot_entries_are_told_by_their_bytes(v: Seq<u8>, at: int)
    requires
        0 <= at,
        at + 128 <= v.len(),
    ensures
        dots::has_long_dots(v, at) <==> {
            &&& v[at] != 0 && v[at + 11] == 0x0F
            &&& v.subrange(at + 32, at + 43) == one_dot()
            &&& v[at + 43] & 0x10 != 0
            &&& v[at + 64] != 0 && v[at + 75] == 0x0F
            &&& v.subrange(at + 96, at + 107) == two_dots()
            &&& v[at + 107] & 0x10 != 0
        },
        dots::has_bare_dots(v, at) <==> {
            &&& v.subrange(at, at + 11) == one_dot()
            &&& v[at + 11] & 0x10 != 0
            &&& v.subrange(at + 32, at + 43) == two_dots()
            &&& v[at + 43] & 0x10 != 0
        },
{
    the_directory_attribute_is_a_bit(v, at);
    the_directory_attribute_is_a_bit(v, at + 32);
    the_directory_attribute_is_a_bit(v, at + 96);
    lemma_dots(v, at);
    lemma_dots(v, at + 32);
    lemma_dots(v, at + 96);
}

/// The short name `.`, padded with spaces.
pub open spec fn one_dot() -> Seq<u8> {
    seq![0x2Eu8, 0x20, 0x20, 0x20, 0x20, 0x20, 0x20, 0x20, 0x20, 0x20, 0x20]
}

/// The short name `..`, padded with spaces.
pub open spec fn two_dots() -> Seq<u8> {
    seq![0x2Eu8, 0x2E, 0x20, 0x20, 0x20, 0x20, 0x20, 0x20, 0x20, 0x20, 0x20]
}

proof fn lemma_dots(v: Seq<u8>, at: int)
    requires
        0 <= at,
        at + 11 <= v.len(),
    ensures
        dots::is_dots(v, at, 1) <==> v.subrange(at, at + 11) == one_dot(),
        dots::is_dots(v, at, 2) <==> v.subrange(at, at + 11) == two_dots(),
{
    let name = v.subrange(at, at + 11);
    assert forall|i: int| 0 <= i < 11 implies name[i] == #[trigger] v[at + i] by {}
    if dots::is_dots(v, at, 1) {
        assert forall|i: int| 0 <= i < 11 implies name[i] == one_dot()[i] by {
            assert(name[i] == v[at + i]);
        }
        assert(name =~= one_dot());
    }
    if dots::is_dots(v, at, 2) {
        assert forall|i: int| 0 <= i < 11 implies name[i] == two_dots()[i] by {
            assert(name[i] == v[at + i]);
        }
        assert(name =~= two_dots());
    }
    if name == one_dot() {
        assert forall|i: int| 0 <= i < 11 implies #[trigger] v[at + i] == if i < 1 {
            0x2Eu8
        } else {
            0x20u8
        } by {
            assert(v[at + i] == one_dot()[i]);
        }
    }
    if name == two_dots() {
        assert forall|i: int| 0 <= i < 11 implies #[trigger] v[at + i] == if i < 2 {
            0x2Eu8
        } else {
            0x20u8
        } by {
            assert(v[at + i] == two_dots()[i]);
        }
    }
}

/// Bringing a volume into canonical form changes nothing but the first four entries of
/// subdirectories that begin with dot entries behind long-name entries: there the dot
/// entries come first, byte for byte, and of the two behind them only the first byte
/// changes, which marks them deleted.
pub proof fn canonical_form_moves_the_dot_entries(v: Seq<u8>, g: Geometry, dir: int, i: int)
    requires
        volume::is_fat16(v),
        g == volume::geometry(v),
        dirs::in_tree(v, g, dir),
        dir != 0,
        0 <= i < 512,
    ensures
        ({
            let at = g.cluster_start(dir);
            let after = dots::canonical(v, g);
            &&& after.len() == v.len()
            &&& !dots::has_long_dots(v, at) ==> after[at + i] == v[at + i]
            &&& dots::has_long_dots(v, at) ==> {
                &&& i < 32 ==> after[at + i] == v[at + 32 + i]
                &&& 32 <= i < 64 ==> after[at + i] == v[at + 96 + i - 32]
                &&& i == 64 || i == 96 ==> after[at + i] == 0xE5
                &&& i > 64 && i != 96 ==> after[at + i] == v[at + i]
            }
        }),
{
    let at = g.cluster_start(dir);
    lemma_canonical_byte(v, g, dir, at + i);
    let long = dots::has_long_dots(v, at);
    assert(!long ==> dots::rewritten(v, at, at + i) == v[at + i]);
    assert(long && i < 32 ==> dots::rewritten(v, at, at + i) == v[at + i + 32]);
    assert(long && 32 <= i < 64 ==> dots::rewritten(v, at, at + i) == v[at + i + 64]);
    assert(long && (i == 64 || i == 96) ==> dots::rewritten(v, at, at + i) == 0xE5);
    assert(long && i > 64 && i != 96 ==> dots::rewritten(v, at, at + i) == v[at + i]);
}

/// A byte in the first cluster of a subdirectory, in canonical form.
proof fn lemma_canonical_byte(v: Seq<u8>, g: Geometry, dir: int, j: int)
    requires
        volume::is_fat16(v),
        g == volume::geometry(v),
        dirs::in_tree(v, g, dir),
        dir != 0,
        g.cluster_start(dir) <= j < g.cluster_start(dir) + 512,
    ensures
        dots::canonical(v, g).len() == v.len(),
        dots::canonical(v, g)[j] == dots::rewritten(v, g.cluster_start(dir), j),
{
    dirs::lemma_tree_cluster(v, g, dir);
    dirs::lemma_places(g);
    dots::lemma_in_cluster(g, dir, j);
    assert(dots::in_head(v, g, j));
}

/// Bringing a volume into canonical form changes nothing outside the first clusters of
/// subdirectories.
pub proof fn canonical_form_keeps_the_rest(v: Seq<u8>, g: Geometry, i: int)
    requires
        volume::is_fat16(v),
        g == volume::geometry(v),
        0 <= i < v.len(),
        forall|dir: int| #[trigger]
            dirs::in_tree(v, g, dir) && dir != 0 ==> !(g.cluster_start(dir) <= i
                < g.cluster_start(dir) + 512),
    ensures
        dots::canonical(v, g)[i] == v[i],
{
    if dots::in_head(v, g, i) {
        dots::lemma_cluster_of(g, i);
    }
}

/// The label of a volume reads MASS STORE.
pub proof fn the_label_reads_mass_store(i: int)
    requires
        0 <= i < 11,
    ensures
        volume::padded_label().len() == 11,
        "MASS STORE "@.len() == 11,
        volume::padded_label()[i] as char == "MASS STORE "@[i],
{
    reveal_strlit("MASS STORE ");
}

/// So many zero bytes.
pub open spec fn zero_bytes(n: nat) -> Seq<u8> {
    Seq::new(n, |i: int| 0u8)
}

/// An empty volume is what the `fatfs` crate makes of a blank disk of so many sectors, with
/// two FATs, 512 root entries, and the fixed serial and label, provided that it is FAT16 with
/// clusters of 512 bytes. Up to 64 MiB nothing else is asked.
pub proof fn empty_volumes_are_formatted(sectors: int, v: Seq<u8>)
    requires
        0 <= sectors,
    ensures
        volume::empty_volume(sectors) == Some(v) <==> 512 * sectors <= 67108864
            && volume::is_fat16(v) && volume::fatfs_formatted(
            zero_bytes((512 * sectors) as nat),
            512,
            512,
            2,
            512,
            0x1234_5678,
            volume::padded_label(),
        ) == Some(v),
{
    assert(volume::blank((sectors * 512) as nat) =~= zero_bytes((512 * sectors) as nat));
}

/// Entries are created one after another, each on what those before it left: a file with its
/// path, all its contents and its timestamp, a directory with its path and its timestamp.
pub proof fn entries_are_created_in_order(
    volume: Seq<u8>,
    before: Seq<Item>,
    path: Seq<char>,
    contents: Seq<u8>,
    stamp: Stamp,
    committed: bool,
)
    ensures
        fill::populated(volume, Seq::empty()) == Some(volume),
        fill::populated(volume, before) matches Some(v) ==> fill::populated(
            volume,
            before.push(Item { path, contents: Some(contents), stamp, committed }),
        ) == fill::fatfs_with_file(v, path, contents, stamp),
        fill::populated(volume, before) matches Some(v) ==> fill::populated(
            volume,
            before.push(Item { path, contents: None, stamp, committed }),
        ) == fill::fatfs_with_dir(v, path, stamp),
        fill::populated(volume, before) is None ==> fill::populated(
            volume,
            before.push(Item { path, contents: Some(contents), stamp, committed }),
        ) is None && fill::populated(
            volume,
            before.push(Item { path, contents: None, stamp, committed }),
        ) is None,
{
    let file = before.push(Item { path, contents: Some(contents), stamp, committed });
    let dir = before.push(Item { path, contents: None, stamp, committed });
    assert(file.drop_last() =~= before);
    assert(dir.drop_last() =~= before);
}

/// An image has the size that was asked for. Its partition is the volume on which all
/// entries were created, in canonical form.
pub proof fn images_hold_their_volume(size: int, items: Seq<Item>, disk: Seq<u8>)
    requires
        0 <= size,
    ensures
        is_image(size, items, Ok(disk)) ==> disk.len() == size && (volume::empty_volume(
            (size - 1048576) / 512,
        ) matches Some(empty) && (fill::populated(empty, items) matches Some(filled) && disk.skip(
            1048576,
        ) == dots::canonical(filled, volume::geometry(filled)) && filled.len() == size - 1048576)),
{
    if is_image(size, items, Ok(disk)) {
        partitions_take_the_rest(size);
        let sectors = mbr::partition_room(size)->0;
        assert((size - 1048576) / 512 == sectors);
        let empty = begun(size)->Ok_0;
        let filled = fill::populated(empty, items)->0;
        let v = dots::canonical(filled, volume::geometry(filled));
        assert(v.len() == 512 * sectors);
        assert(v.len() as int / 512 == sectors);
        mbr::disks_are_partitioned(v);
    }
}

/// An image is made whenever there is room for the partition, its sectors make a volume,
/// every entry can be created, and the volume that comes of it is a sound one.
pub proof fn sound_volumes_become_images(
    size: int,
    items: Seq<Item>,
    res: Result<Seq<u8>, ImageError>,
)
    requires
        1048576 < size <= 0xFFFF_FFFF * 512,
        size % 512 == 0,
    ensures
        is_image(size, items, res) ==> match volume::empty_volume((size - 1048576) / 512) {
            None => res == Err::<Seq<u8>, ImageError>(ImageError::Format),
            Some(empty) => match fill::populated(empty, items) {
                None => res matches Err(ImageError::Entry(_)),
                Some(filled) => {
                    let g = volume::geometry(filled);
                    let sound = volume::is_fat16(filled) && !dirs::is_broken(filled, g)
                        && !dots::lacks_dots(filled, g);
                    &&& filled.len() != size - 1048576 ==> res == Err::<Seq<u8>, ImageError>(
                        ImageError::Length,
                    )
                    &&& filled.len() == size - 1048576 && sound ==> res is Ok
                    &&& filled.len() == size - 1048576 && !sound ==> res == Err::<
                        Seq<u8>,
                        ImageError,
                    >(ImageError::Volume)
                },
            },
        },
{
    partitions_take_the_rest(size);
    let sectors = mbr::partition_room(size)->0;
    assert((size - 1048576) / 512 == sectors);
}

/// A size that is no multiple of the sector size, or that leaves no partition, is refused
/// before anything is made.
pub proof fn odd_sizes_are_refused(
    size: int,
    items: Seq<Item>,
    volume: Seq<u8>,
    res: Result<Seq<u8>, ImageError>,
)
    requires
        0 <= size,
        size % 512 != 0 || size <= 1048576 || size > 0xFFFF_FFFF * 512,
    ensures
        is_image(size, items, res) ==> res == Err::<Seq<u8>, ImageError>(ImageError::Size),
        finished(volume, size) == Err::<Seq<u8>, ImageError>(ImageError::Size),
{
    partitions_take_the_rest(size);
}

/// The tree is the root, and whatever is a subdirectory of a directory in it, at any depth,
/// and nothing else.
pub proof fn the_tree_is_closed(v: Seq<u8>, g: Geometry, parent: int, dir: int)
    ensures
        dirs::in_tree(v, g, 0),
        dirs::in_tree(v, g, parent) && dirs::has_subdir(v, g, parent, dir) && g.has_cluster(dir)
            ==> dirs::in_tree(v, g, dir),
        dirs::in_tree(v, g, dir) && dir != 0 ==> g.has_cluster(dir) && exists|from: int|
            #[trigger] dirs::in_tree(v, g, from) && dirs::has_subdir(v, g, from, dir),
{
    dirs::lemma_root_in_tree(v, g);
    if dirs::in_tree(v, g, parent) && dirs::is_child(v, g, parent, dir) {
        dirs::lemma_in_tree(v, g, parent, dir);
    }
    if dirs::in_tree(v, g, dir) && dir != 0 {
        let path = choose|path: Seq<int>| #[trigger]
            dirs::is_path(v, g, path) && path.last() == dir;
        let front = path.drop_last();
        let last = path.len() - 1;
        assert(dirs::is_child(v, g, path[last - 1], path[last]));
        assert forall|i: int| 0 < i < front.len() implies dirs::is_child(
            v,
            g,
            front[i - 1],
            #[trigger] front[i],
        ) by {
            assert(dirs::is_child(v, g, path[i - 1], path[i]));
        }
        assert(dirs::is_path(v, g, front));
        assert(front.last() == path[last - 1]);
        assert(dirs::in_tree(v, g, front.last()));
    }
}

/// A directory has a subdirectory exactly if one of its entries, before its end, says so: it
/// is not deleted, does not begin with a dot, has the directory attribute, and names the
/// first cluster.
pub proof fn subdirectories_are_told_by_their_entries(v: Seq<u8>, g: Geometry, dir: int, i: int)
    requires
        dirs::listed(v, g, dir, i),
    ensures
        ({
            let at = dirs::slots(v, g, dir)[i];
            v[at] != 0xE5 && v[at] != 0x2E && v[at + 11] & 0x10 != 0 ==> dirs::has_subdir(
                v,
                g,
                dir,
                v[at + 26] + 256 * v[at + 27],
            )
        }),
{
    let at = dirs::slots(v, g, dir)[i];
    the_directory_attribute_is_a_bit(v, at);
    if dirs::is_subdir(v, at) {
        assert(dirs::lists(v, g, dir, i, v[at + 26] + 256 * v[at + 27]));
    }
}

/// And only then.
pub proof fn subdirectories_have_their_entry(v: Seq<u8>, g: Geometry, dir: int, c: int)
    requires
        dirs::has_subdir(v, g, dir, c),
    ensures
        exists|i: int|
            #[trigger] dirs::listed(v, g, dir, i) && {
                let at = dirs::slots(v, g, dir)[i];
                &&& v[at] != 0xE5
                &&& v[at] != 0x2E
                &&& v[at + 11] & 0x10 != 0
                &&& c == v[at + 26] + 256 * v[at + 27]
            },
{
    let i = choose|i: int| dirs::lists(v, g, dir, i, c);
    the_directory_attribute_is_a_bit(v, dirs::slots(v, g, dir)[i]);
    assert(dirs::listed(v, g, dir, i));
}

/// The entry that is told is the first that cannot be created: all those before it were, and
/// the `fatfs` crate would not create it on what they left.
pub proof fn the_first_failure_is_told(volume: Seq<u8>, items: Seq<Item>, k: int)
    requires
        0 <= k < items.len(),
    ensures
        fill::fails_at(volume, items, k) <==> (fill::populated(volume, items.take(k)) matches Some(v)
            && match items[k].contents {
            Some(contents) => fill::fatfs_with_file(v, items[k].path, contents, items[k].stamp)
                is None,
            None => fill::fatfs_with_dir(v, items[k].path, items[k].stamp) is None,
        }),
        fill::fails_at(volume, items, k) ==> fill::populated(volume, items) is None,
{
    let upto = items.take(k + 1);
    assert(upto.drop_last() =~= items.take(k));
    assert(upto.last() == items[k]);
    if fill::fails_at(volume, items, k) {
        fill::lemma_stays_refused(volume, items, k + 1);
    }
}

/// Where an image mirrors a tree, every file of the tree was written to its volume: under the
/// path that leads to it, with all of its contents.
pub proof fn every_file_is_written_whole(
    root: Seq<Source>,
    way: Seq<int>,
    contents: Seq<u8>,
    size: int,
    disk: Seq<u8>,
)
    requires
        root.len() <= usize::MAX,
        walk::named(root, way),
        walk::source_at(root, way) matches Some(source) && (source.body matches Body::File(bytes)
            && bytes@ == contents),
        tree::laid_out(root, Seq::empty()) is Ok,
        0 <= size,
    ensures
        ({
            let items = tree::laid_out(root, Seq::empty())->Ok_0;
            let empty = volume::empty_volume((size - 1048576) / 512)->0;
            is_image(size, items, Ok(disk)) ==> exists|k: int|
                0 <= k < items.len() && {
                    let before = fill::populated(empty, #[trigger] items.take(k));
                    &&& before is Some
                    &&& fill::populated(empty, items.take(k + 1)) is Some
                    &&& fill::populated(empty, items.take(k + 1)) == fill::fatfs_with_file(
                        before->0,
                        walk::path_at(root, way),
                        contents,
                        items[k].stamp,
                    )
                }
        }),
{
    let items = tree::laid_out(root, Seq::empty())->Ok_0;
    if is_image(size, items, Ok(disk)) {
        let empty = begun(size)->Ok_0;
        images_hold_their_volume(size, items, disk);
        partitions_take_the_rest(size);
        assert((size - 1048576) / 512 == mbr::partition_room(size)->0);
        walk::every_source_has_its_entry(root, way);
        let source = walk::source_at(root, way)->0;
        let path = walk::path_at(root, way);
        let k = choose|k: int|
            0 <= k < items.len() && #[trigger] walk::stands_for(items[k], source, path);
        let upto = items.take(k + 1);
        assert(upto.drop_last() =~= items.take(k));
        assert(upto.last() == items[k]);
        if fill::populated(empty, upto) is None {
            fill::lemma_stays_refused(empty, items, k + 1);
        }
        let before = fill::populated(empty, items.take(k))->0;
        assert(fill::populated(empty, upto) == fill::fatfs_with_file(
            before,
            path,
            contents,
            items[k].stamp,
        ));
    }
}

} // verus!
