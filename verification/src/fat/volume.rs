//! The FAT16 volume: how it is laid out, and how an empty one is made.

use vstd::prelude::*;

verus! {

/// Bytes per sector, and per cluster.
pub const SECTOR_SIZE: usize = 512;

/// Size of a directory entry in bytes.
pub const SLOT_SIZE: usize = 32;

/// Fixed 32-bit volume serial.
pub const VOLUME_ID: u32 = 0x1234_5678;

/// How many entries the root directory holds.
pub const ROOT_ENTRIES: u16 = 512;

/// How many copies of the FAT a volume has.
pub const FAT_COPIES: u8 = 2;

/// The fewest clusters of a FAT16 volume.
pub const FAT16_MIN_CLUSTERS: u32 = 4085;

/// The most clusters of a FAT16 volume.
pub const FAT16_MAX_CLUSTERS: u32 = 65524;

/// The most sectors that a volume is formatted with: more than any FAT16 volume of this
/// layout has.
pub const MAX_SECTORS: u32 = 0x2_0000;

/// Two bytes of `v` at `at`, the least significant first.
pub open spec fn le16(v: Seq<u8>, at: int) -> int {
    v[at] + 0x100 * v[at + 1]
}

/// Four bytes of `v` at `at`, the least significant first.
pub open spec fn le32(v: Seq<u8>, at: int) -> int {
    le16(v, at) + 0x1_0000 * le16(v, at + 2)
}

/// The little-endian 16-bit number at `at`.
pub fn get_le16(v: &[u8], at: usize) -> (n: u16)
    requires
        at + 2 <= v@.len(),
    ensures
        n == le16(v@, at as int),
{
    v[at] as u16 + 0x100 * v[at + 1] as u16
}

/// The little-endian 32-bit number at `at`.
pub fn get_le32(v: &[u8], at: usize) -> (n: u32)
    requires
        at + 4 <= v@.len(),
    ensures
        n == le32(v@, at as int),
{
    assert(v@.len() == v.len());
    get_le16(v, at) as u32 + 0x1_0000 * get_le16(v, at + 2) as u32
}

/// Where the parts of a volume lie, as its boot sector says.
#[derive(Debug, Clone, Copy)]
pub struct Geometry {
    /// Sectors before the first FAT.
    pub reserved: u16,
    /// Copies of the FAT.
    pub fats: u8,
    /// Sectors of each copy.
    pub sectors_per_fat: u16,
    /// Entries of the root directory.
    pub root_entries: u16,
    /// Sectors of the volume.
    pub total_sectors: u32,
}

impl Geometry {
    /// The first byte of the first FAT.
    pub open spec fn fat_start(self) -> int {
        self.reserved * SECTOR_SIZE
    }

    /// The first byte of the root directory.
    pub open spec fn root_start(self) -> int {
        (self.reserved + self.fats * self.sectors_per_fat) * SECTOR_SIZE
    }

    /// The first byte behind the root directory, where cluster 2 lies.
    pub open spec fn data_start(self) -> int {
        self.root_start() + self.root_entries * SLOT_SIZE
    }

    /// How many clusters (of one sector) there are.
    pub open spec fn clusters(self) -> int {
        self.total_sectors - self.data_start() / (SECTOR_SIZE as int)
    }

    /// The first byte of cluster `c`.
    pub open spec fn cluster_start(self, c: int) -> int {
        self.data_start() + (c - 2) * SECTOR_SIZE
    }

    /// There is a cluster `c`.
    pub open spec fn has_cluster(self, c: int) -> bool {
        2 <= c < self.clusters() + 2
    }

    /// All parts lie behind one another, end with the volume, and the FAT has an entry for
    /// every cluster; by the number of clusters, this is a FAT16 volume.
    pub open spec fn wf(self) -> bool {
        &&& self.reserved > 0
        &&& self.fats > 0
        &&& self.sectors_per_fat > 0
        &&& self.root_entries > 0
        &&& self.root_entries * SLOT_SIZE % (SECTOR_SIZE as int) == 0
        &&& self.data_start() < self.total_sectors * SECTOR_SIZE
        &&& FAT16_MIN_CLUSTERS <= self.clusters() <= FAT16_MAX_CLUSTERS
        &&& 2 * (self.clusters() + 2) <= self.sectors_per_fat * SECTOR_SIZE
    }
}

/// What the boot sector of a volume says of where its parts lie.
pub open spec fn geometry(v: Seq<u8>) -> Geometry {
    Geometry {
        reserved: le16(v, 14) as u16,
        fats: v[16],
        root_entries: le16(v, 17) as u16,
        sectors_per_fat: le16(v, 22) as u16,
        total_sectors: (if le16(v, 19) != 0 {
            le16(v, 19)
        } else {
            le32(v, 32)
        }) as u32,
    }
}

/// A FAT16 volume with clusters of 512 bytes.
pub open spec fn is_fat16(v: Seq<u8>) -> bool {
    &&& v.len() >= SECTOR_SIZE
    &&& v[510] == 0x55
    &&& v[511] == 0xAA
    &&& le16(v, 11) == SECTOR_SIZE
    &&& v[13] == 1
    &&& geometry(v).wf()
    &&& geometry(v).total_sectors * SECTOR_SIZE == v.len()
}

/// The layout of a volume, if it is a FAT16 volume with clusters of 512 bytes.
pub fn read_geometry(v: &[u8]) -> (g: Option<Geometry>)
    ensures
        match g {
            Some(g) => is_fat16(v@) && g == geometry(v@),
            None => !is_fat16(v@),
        },
{
    if v.len() < SECTOR_SIZE {
        return None;
    }
    if v[510] != 0x55 || v[511] != 0xAA || get_le16(v, 11) as usize != SECTOR_SIZE || v[13] != 1 {
        return None;
    }
    let short_total: u32 = get_le16(v, 19) as u32;
    let g = Geometry {
        reserved: get_le16(v, 14),
        fats: v[16],
        root_entries: get_le16(v, 17),
        sectors_per_fat: get_le16(v, 22),
        total_sectors: if short_total != 0 {
            short_total
        } else {
            get_le32(v, 32)
        },
    };
    assert(g == geometry(v@));
    assert(g.fats * g.sectors_per_fat <= 255 * 65535) by (nonlinear_arith)
        requires
            0 <= g.fats <= 255,
            0 <= g.sectors_per_fat <= 65535,
    ;
    let root_sectors: u64 = g.root_entries as u64 * 32 / 512;
    let before_data: u64 = g.reserved as u64 + g.fats as u64 * g.sectors_per_fat as u64
        + root_sectors;
    if g.reserved == 0 || g.fats == 0 || g.sectors_per_fat == 0 || g.root_entries == 0
        || g.root_entries % 16 != 0 || before_data >= g.total_sectors as u64 {
        return None;
    }
    assert(g.data_start() == before_data * 512);
    let clusters: u64 = g.total_sectors as u64 - before_data;
    if clusters < FAT16_MIN_CLUSTERS as u64 || clusters > FAT16_MAX_CLUSTERS as u64 || 2 * (clusters
        + 2) > g.sectors_per_fat as u64 * 512 || g.total_sectors as u64 * 512 != v.len() as u64 {
        return None;
    }
    Some(g)
}

/// The volume label as the boot sector holds it.
pub open spec fn padded_label() -> Seq<u8> {
    seq![0x4du8, 0x41, 0x53, 0x53, 0x20, 0x53, 0x54, 0x4f, 0x52, 0x45, 0x20]
}

/// The label "MASS STORE" in its 11-byte, space-padded on-disk field.
pub fn volume_label() -> (label: [u8; 11])
    ensures
        label@ == padded_label(),
{
    [0x4d, 0x41, 0x53, 0x53, 0x20, 0x53, 0x54, 0x4f, 0x52, 0x45, 0x20]
}

/// What `fatfs::format_volume` makes of a disk.
pub uninterp spec fn fatfs_formatted(
    disk: Seq<u8>,
    bytes_per_sector: u16,
    bytes_per_cluster: u32,
    fats: u8,
    root_entries: u16,
    volume_id: u32,
    label: Seq<u8>,
) -> Option<Seq<u8>>;

/// `fatfs::format_volume` with these options, on a disk in memory: the formatted disk, or
/// nothing where it cannot be formatted so. What the formatted disk holds is not stated,
/// only that it is a function of these arguments. Other sector and cluster sizes, other
/// numbers of FATs and larger disks are left out: for some of them the crate panics.
#[verifier::external_body]
fn format_disk(
    disk: Vec<u8>,
    bytes_per_sector: u16,
    bytes_per_cluster: u32,
    fats: u8,
    root_entries: u16,
    volume_id: u32,
    label: [u8; 11],
) -> (formatted: Option<Vec<u8>>)
    requires
        bytes_per_sector == SECTOR_SIZE,
        bytes_per_cluster == SECTOR_SIZE,
        fats == FAT_COPIES,
        root_entries == ROOT_ENTRIES,
        disk@.len() <= MAX_SECTORS * SECTOR_SIZE,
    ensures
        (match formatted {
            Some(v) => Some(v@),
            None => None,
        }) == fatfs_formatted(
            disk@,
            bytes_per_sector,
            bytes_per_cluster,
            fats,
            root_entries,
            volume_id,
            label@,
        ),
{
    let mut cursor = std::io::Cursor::new(disk);
    let options = fatfs::FormatVolumeOptions::new()
        .bytes_per_sector(bytes_per_sector)
        .bytes_per_cluster(bytes_per_cluster)
        .fats(fats)
        .max_root_dir_entries(root_entries)
        .volume_id(volume_id)
        .volume_label(label);
    fatfs::format_volume(&mut cursor, options).ok()?;
    Some(cursor.into_inner())
}

/// A formatted volume, if it came out as FAT16 with clusters of 512 bytes.
pub open spec fn accepted(formatted: Option<Seq<u8>>) -> Option<Seq<u8>> {
    match formatted {
        Some(v) => if is_fat16(v) {
            Some(v)
        } else {
            None
        },
        None => None,
    }
}

/// The bytes of a volume, if there is one.
pub open spec fn bytes_of(volume: Option<Vec<u8>>) -> Option<Seq<u8>> {
    match volume {
        Some(v) => Some(v@),
        None => None,
    }
}

/// Accept a formatted volume only if it is FAT16 with clusters of 512 bytes.
pub fn accept_volume(formatted: Option<Vec<u8>>) -> (volume: Option<Vec<u8>>)
    ensures
        bytes_of(volume) == accepted(bytes_of(formatted)),
{
    match formatted {
        Some(v) => match read_geometry(v.as_slice()) {
            Some(_) => Some(v),
            None => None,
        },
        None => None,
    }
}

/// A blank disk.
pub open spec fn blank(len: nat) -> Seq<u8> {
    Seq::new(len, |i: int| 0u8)
}

/// The empty FAT16 volume of so many sectors; nothing where so many sectors make no such
/// volume.
pub open spec fn empty_volume(sectors: int) -> Option<Seq<u8>> {
    if 0 <= sectors <= MAX_SECTORS {
        accepted(
            fatfs_formatted(
                blank((sectors * SECTOR_SIZE) as nat),
                512,
                512,
                FAT_COPIES,
                ROOT_ENTRIES,
                VOLUME_ID,
                padded_label(),
            ),
        )
    } else {
        None
    }
}

/// An empty FAT16 volume of so many sectors, with two FATs, 512 root entries, and the
/// fixed serial and label. Nothing where so many sectors make no such volume.
pub fn format_volume(sectors: u32) -> (volume: Option<Vec<u8>>)
    ensures
        bytes_of(volume) == empty_volume(sectors as int),
{
    if sectors > MAX_SECTORS {
        return None;
    }
    let disk: Vec<u8> = vec![0u8; sectors as usize * SECTOR_SIZE];
    assert(disk@ =~= blank((sectors * SECTOR_SIZE) as nat));
    accept_volume(
        format_disk(disk, 512, 512, FAT_COPIES, ROOT_ENTRIES, VOLUME_ID, volume_label()),
    )
}

} // verus!
