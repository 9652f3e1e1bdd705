use std::cell::Cell;
use std::io::{Cursor, Read, Write};

use stm32_mass_storage::fat::check::{should_check, verdict, Verdict};
use stm32_mass_storage::fat::dirs::find_dirs;
use stm32_mass_storage::fat::dots::canonicalise;
use stm32_mass_storage::fat::mbr::{assemble, build_mbr, check_mbr, partition_sectors};
use stm32_mass_storage::fat::stamp::{fallback, git_stamp, parse_stamp, Stamp};
use stm32_mass_storage::fat::tree::{
    count_uncommitted, plan_tree, uncommitted_warning, Body, Entry, Fault, Source,
};
use stm32_mass_storage::fat::volume::{accept_volume, format_volume, read_geometry, volume_label};
use stm32_mass_storage::fat::{begin, build, finish, image, BuildError, ImageError};
use stm32_mass_storage::image::IMAGE_SIZE;

fn stamp(year: u16, month: u16, day: u16, hour: u16, min: u16, sec: u16) -> Stamp {
    Stamp { year, month, day, hour, min, sec }
}

fn source(name: &[u8], body: Body, stamp: Option<Stamp>) -> Source {
    Source { name: name.to_vec(), stamp, body }
}

/// A tree with nested directories, listed in no order.
fn sample_tree() -> Vec<Source> {
    let t = |n: u16| Some(stamp(2001 + n, 1 + n, 2, 3, 4, 5 + n));
    let many = (0..40)
        .map(|i| {
            let name = format!("a file with a long name {}.txt", 39 - i);
            source(name.as_bytes(), Body::File(vec![i as u8; 100 * i]), t(4))
        })
        .collect();
    let deep = vec![source(b"x.bin", Body::File(vec![7; 3000]), None)];
    let mut sub: Vec<Source> = many;
    sub.push(source(b"a rather long directory name", Body::Dir(deep), t(3)));
    vec![
        source(b"sub", Body::Dir(sub), t(2)),
        source(b"empty", Body::Dir(vec![]), None),
        source(b"Hello World.txt", Body::File(b"hello".to_vec()), t(1)),
        source(b"nothing", Body::File(vec![]), t(5)),
    ]
}

/// A clock that can be set.
#[derive(Debug)]
struct SetClock(Cell<Stamp>);

impl fatfs::TimeProvider for SetClock {
    fn get_current_date(&self) -> fatfs::Date {
        let s = self.0.get();
        fatfs::Date { year: s.year, month: s.month, day: s.day }
    }

    fn get_current_date_time(&self) -> fatfs::DateTime {
        let s = self.0.get();
        fatfs::DateTime {
            date: self.get_current_date(),
            time: fatfs::Time { hour: s.hour, min: s.min, sec: s.sec, millis: 0 },
        }
    }
}

/// Copies a tree into a directory of a mounted volume, setting the clock before each entry.
fn copy_tree(dir: &fatfs::Dir<&mut Cursor<Vec<u8>>>, tree: &[Source], clock: &SetClock) {
    let mut order: Vec<&Source> = tree.iter().collect();
    order.sort_by_key(|s| s.name.clone());
    for s in order {
        let name = std::str::from_utf8(&s.name).unwrap();
        clock.0.set(s.stamp.unwrap_or(fallback()));
        match &s.body {
            Body::Dir(list) => copy_tree(&dir.create_dir(name).unwrap(), list, clock),
            Body::File(data) => {
                let mut file = dir.create_file(name).unwrap();
                file.write_all(data).unwrap();
                file.flush().unwrap();
            }
            _ => unreachable!(),
        }
    }
}

/// A volume with a file and nested directories.
fn sample_volume() -> Vec<u8> {
    let mut cursor = Cursor::new(begin(IMAGE_SIZE).unwrap());
    {
        let fs = fatfs::FileSystem::new(&mut cursor, fatfs::FsOptions::new()).unwrap();
        let root = fs.root_dir();
        root.create_file("Hello World.txt").unwrap().write_all(b"hello").unwrap();
        let sub = root.create_dir("sub").unwrap();
        let deep = sub.create_dir("a rather long directory name").unwrap();
        deep.create_file("x.bin").unwrap().write_all(&[7u8; 3000]).unwrap();
        // Enough entries to need more than one cluster.
        for i in 0..40 {
            sub.create_file(&format!("a file with a long name {}.txt", i)).unwrap();
        }
        root.create_dir("empty").unwrap();
    }
    cursor.into_inner()
}

#[test]
fn stamps_are_parsed() {
    assert_eq!(parse_stamp("2023 06 26 12 34 56"), Some(stamp(2023, 6, 26, 12, 34, 56)));
    assert_eq!(parse_stamp(" \t2023\u{3000}+6\n26 12 34 56 extra"), Some(stamp(2023, 6, 26, 12, 34, 56)));
    assert_eq!(parse_stamp("00002000 1 1 0 0 65535"), Some(stamp(2000, 1, 1, 0, 0, 65535)));
}

#[test]
fn years_are_clamped() {
    assert_eq!(parse_stamp("1970 1 1 0 0 0").unwrap().year, 1980);
    assert_eq!(parse_stamp("1980 1 1 0 0 0").unwrap().year, 1980);
    assert_eq!(parse_stamp("2107 1 1 0 0 0").unwrap().year, 2107);
    assert_eq!(parse_stamp("9999 1 1 0 0 0").unwrap().year, 2107);
}

#[test]
fn other_texts_are_no_stamps() {
    for text in [
        "",
        "   ",
        "2023 06 26 12 34",
        "2023-06-26 12:34:56",
        "2023 06 26 12 34 65536",
        "2023 06 26 12 34 -1",
        "2023 06 26 12 34 +",
        "2023 06 26 12 34 ++5",
        "2023 x 26 12 34 56",
    ] {
        assert_eq!(parse_stamp(text), None);
    }
}

#[test]
fn git_output_gives_a_stamp() {
    assert_eq!(git_stamp(true, b"2001 02 03 04 05 06\n"), Some(stamp(2001, 2, 3, 4, 5, 6)));
    assert_eq!(git_stamp(false, b"2001 02 03 04 05 06\n"), None);
    assert_eq!(git_stamp(true, b""), None);
    assert_eq!(git_stamp(true, b"2001 02 03 04 05 06\xff"), None);
    assert_eq!(fallback(), stamp(1980, 1, 1, 0, 0, 0));
}

#[test]
fn entries_are_planned_in_order() {
    let t = stamp(2020, 1, 2, 3, 4, 5);
    let tree = vec![
        source(b"b.txt", Body::File(b"1".to_vec()), Some(t)),
        source("é".as_bytes(), Body::File(b"2".to_vec()), None),
        source(b"B", Body::Dir(vec![]), None),
        source(
            b"b",
            Body::Dir(vec![
                source(b"z", Body::File(b"3".to_vec()), None),
                source(b"y", Body::Dir(vec![source(b"x", Body::File(vec![]), Some(t))]), None),
            ]),
            Some(t),
        ),
    ];
    let plan = plan_tree(&tree).unwrap();
    let paths: Vec<&str> = plan.iter().map(|p| p.path.as_str()).collect();
    assert_eq!(paths, ["B", "b", "b/y", "b/y/x", "b/z", "b.txt", "é"]);
    let contents: Vec<Option<&[u8]>> = plan.iter().map(|p| p.contents.as_deref()).collect();
    assert_eq!(
        contents,
        [None, None, None, Some(&b""[..]), Some(b"3"), Some(b"1"), Some(b"2")]
    );
    assert_eq!((plan[1].stamp, plan[1].committed), (t, true));
    assert_eq!((plan[2].stamp, plan[2].committed), (fallback(), false));
    assert_eq!(count_uncommitted(&plan), 4);
    assert_eq!(plan_tree(&Vec::new()).unwrap().len(), 0);
}

#[test]
fn entries_that_cannot_be_created_are_reported() {
    let refused = |tree: Vec<Source>| match plan_tree(&tree) {
        Err(e) => (e.fault, e.dir, e.name),
        Ok(_) => panic!("planned"),
    };
    let tree = vec![
        source(b"z", Body::Symlink, None),
        source(b"a", Body::File(vec![]), None),
        source(b"y\xff", Body::File(vec![]), None),
    ];
    assert_eq!(refused(tree), (Fault::NonUtf8, "".to_string(), b"y\xff".to_vec()));
    let tree = vec![source(b"z", Body::Symlink, None), source(b"zz", Body::Other, None)];
    assert_eq!(refused(tree), (Fault::Symlink, "".to_string(), b"z".to_vec()));
    // The first one in the order of creation, which is not the first one listed.
    let inner = vec![source(b"d", Body::Dir(vec![source(b"o", Body::Other, None)]), None)];
    let tree = vec![source(b"z", Body::Symlink, None), source(b"c", Body::Dir(inner), None)];
    assert_eq!(refused(tree), (Fault::Unsupported, "c/d".to_string(), b"o".to_vec()));
}

#[test]
fn images_mirror_the_tree() {
    let tree = sample_tree();
    let clock: &'static SetClock = Box::leak(Box::new(SetClock(Cell::new(fallback()))));
    let mut cursor = Cursor::new(begin(IMAGE_SIZE).unwrap());
    {
        let options = fatfs::FsOptions::new().time_provider(clock);
        let fs = fatfs::FileSystem::new(&mut cursor, options).unwrap();
        copy_tree(&fs.root_dir(), &tree, clock);
        fs.unmount().unwrap();
    }
    let expected = finish(cursor.into_inner(), IMAGE_SIZE).unwrap();
    let built = build(&tree, IMAGE_SIZE).unwrap_or_else(|_| panic!("not built"));
    assert!(built.disk == expected);
    assert_eq!(built.uncommitted, 2);
    let entries = plan_tree(&tree).unwrap();
    assert!(image(IMAGE_SIZE, &entries).unwrap() == expected);

    let mut volume = Cursor::new(built.disk[0x10_0000..].to_vec());
    let fs = fatfs::FileSystem::new(&mut volume, fatfs::FsOptions::new()).unwrap();
    for entry in &entries {
        let (dir, name) = entry.path.rsplit_once('/').unwrap_or(("", &entry.path));
        let root = fs.root_dir();
        let dir = if dir.is_empty() { root } else { root.open_dir(dir).unwrap() };
        let found = dir.iter().map(|e| e.unwrap()).find(|e| e.file_name() == name).unwrap();
        let (created, s) = (found.created(), entry.stamp);
        let (date, time) = (created.date, created.time);
        assert_eq!((date.year, date.month, date.day), (s.year, s.month, s.day));
        assert_eq!((time.hour, time.min, time.sec), (s.hour, s.min, s.sec));
        let mut data = Vec::new();
        if entry.contents.is_some() {
            found.to_file().read_to_end(&mut data).unwrap();
        }
        assert_eq!(entry.contents.as_ref().map_or(found.is_dir(), |c| *c == data), true);
    }
}

#[test]
fn trees_that_do_not_fit_are_refused() {
    let entry = |path: &str, contents: Option<Vec<u8>>| Entry {
        path: path.to_string(),
        contents,
        stamp: fallback(),
        committed: false,
    };
    let entries = vec![entry("ok", Some(vec![1])), entry("big", Some(vec![0; 4_000_000]))];
    assert_eq!(image(IMAGE_SIZE, &entries), Err(ImageError::Entry(1)));
    let entries = vec![entry("a:b", Some(vec![1]))];
    assert_eq!(image(IMAGE_SIZE, &entries), Err(ImageError::Entry(0)));
    let entries = vec![entry("no/such", None)];
    assert_eq!(image(IMAGE_SIZE, &entries), Err(ImageError::Entry(0)));
    assert_eq!(image(IMAGE_SIZE + 1, &Vec::new()), Err(ImageError::Size));
    assert_eq!(image(0x10_0000 + 512 * 100, &Vec::new()), Err(ImageError::Format));
    let tree = vec![source(b"a|b", Body::Dir(vec![]), None)];
    assert!(matches!(build(&tree, IMAGE_SIZE), Err(BuildError::Create(path)) if path == "a|b"));
    let tree = vec![source(b"a", Body::Symlink, None)];
    assert!(matches!(build(&tree, IMAGE_SIZE), Err(BuildError::Plan(_))));
    assert!(matches!(build(&vec![], 7), Err(BuildError::Image(ImageError::Size))));
}

#[test]
fn paths_without_history_are_warned_about() {
    assert_eq!(uncommitted_warning(0), None);
    assert_eq!(
        uncommitted_warning(12).unwrap(),
        "12 path(s) under assets/ had no git history; used the 1980-01-01 fallback timestamp for them"
    );
}

#[test]
fn the_volume_is_fat16_with_small_clusters() {
    let volume = begin(IMAGE_SIZE).unwrap();
    assert_eq!(volume.len(), (8192 - 2048) * 512);
    let g = read_geometry(&volume).unwrap();
    assert_eq!((g.reserved, g.fats, g.sectors_per_fat), (1, 2, 24));
    assert_eq!((g.root_entries, g.total_sectors), (512, 6144));
    assert_eq!(&volume[43..54], b"MASS STORE ");
    assert_eq!(&volume[54..62], b"FAT16   ");
    assert_eq!(volume[39..43], [0x78, 0x56, 0x34, 0x12]);
    assert_eq!(&volume_label(), b"MASS STORE ");
    let mut cursor = Cursor::new(volume);
    let fs = fatfs::FileSystem::new(&mut cursor, fatfs::FsOptions::new()).unwrap();
    assert_eq!(fs.fat_type(), fatfs::FatType::Fat16);
    assert_eq!(fs.cluster_size(), 512);
}

#[test]
fn sizes_that_make_no_volume_are_refused() {
    assert_eq!(begin(IMAGE_SIZE + 1), Err(ImageError::Size));
    assert_eq!(begin(0), Err(ImageError::Size));
    assert_eq!(begin(2048 * 512), Err(ImageError::Size));
    // Too few and too many clusters for FAT16.
    assert_eq!(begin((2048 + 4000) * 512), Err(ImageError::Format));
    assert_eq!(begin((2048 + 70_000) * 512), Err(ImageError::Format));
    assert_eq!(format_volume(0x2_0001), None);
    assert!(begin((2048 + 4200) * 512).is_ok());
}

#[test]
fn other_volumes_are_not_accepted() {
    assert_eq!(accept_volume(None), None);
    assert_eq!(accept_volume(Some(vec![0; 512])), None);
    let volume = begin(IMAGE_SIZE).unwrap();
    assert!(accept_volume(Some(volume.clone())).is_some());
    for (at, value) in [(510, 0), (11, 1), (13, 2), (14, 0), (16, 0), (17, 1), (22, 1)] {
        let mut other = volume.clone();
        other[at] = value;
        assert_eq!(accept_volume(Some(other)), None);
    }
    assert_eq!(accept_volume(Some(volume[..volume.len() - 512].to_vec())), None);
}

#[test]
fn directories_are_found() {
    let volume = sample_volume();
    let g = read_geometry(&volume).unwrap();
    let dirs = find_dirs(&volume, &g).unwrap();
    assert_eq!(dirs.len(), 3);
    assert_eq!(find_dirs(&begin(IMAGE_SIZE).unwrap(), &g).unwrap().len(), 0);
}

#[test]
fn dot_entries_become_bare() {
    let before = sample_volume();
    let g = read_geometry(&before).unwrap();
    let dirs = find_dirs(&before, &g).unwrap();
    let data_start = (1 + 48 + 32) * 512;
    let mut after = before.clone();
    assert!(canonicalise(&mut after));
    let mut expected = before.clone();
    for &dir in &dirs {
        let at = data_start + (dir as usize - 2) * 512;
        // The crate writes a long-name entry before each dot entry.
        assert_eq!((before[at + 11], before[at + 75]), (0x0F, 0x0F));
        expected[at..at + 32].copy_from_slice(&before[at + 32..at + 64]);
        expected[at + 32..at + 64].copy_from_slice(&before[at + 96..at + 128]);
        expected[at + 64] = 0xE5;
        expected[at + 96] = 0xE5;
        assert_eq!(&after[at..at + 11], b".          ");
        assert_eq!(&after[at + 32..at + 43], b"..         ");
    }
    assert_eq!(after, expected);
    // Once more changes nothing.
    let once = after.clone();
    assert!(canonicalise(&mut after));
    assert_eq!(after, once);
}

#[test]
fn a_canonical_volume_holds_the_same_files() {
    let mut volume = sample_volume();
    assert!(canonicalise(&mut volume));
    let mut cursor = Cursor::new(volume);
    let fs = fatfs::FileSystem::new(&mut cursor, fatfs::FsOptions::new()).unwrap();
    let root = fs.root_dir();
    let mut hello = Vec::new();
    root.open_file("Hello World.txt").unwrap().read_to_end(&mut hello).unwrap();
    assert_eq!(hello, b"hello");
    let mut deep = Vec::new();
    let mut file = root.open_file("sub/a rather long directory name/x.bin").unwrap();
    file.read_to_end(&mut deep).unwrap();
    assert_eq!(deep, vec![7u8; 3000]);
    let names: Vec<String> =
        root.open_dir("empty").unwrap().iter().map(|e| e.unwrap().file_name()).collect();
    assert_eq!(names, [".", ".."]);
    assert_eq!(root.open_dir("sub").unwrap().iter().count(), 43);
}

#[test]
fn broken_trees_are_refused() {
    let volume = sample_volume();
    let root_start = (1 + 48) * 512;
    let mut broken = volume.clone();
    // The entry of a subdirectory of the root, its first cluster set beyond the volume.
    let slot = (0..512)
        .map(|i| root_start + i * 32)
        .find(|&at| broken[at + 11] == 0x10)
        .unwrap();
    broken[slot + 26] = 0xFF;
    broken[slot + 27] = 0xFF;
    let same = broken.clone();
    assert!(!canonicalise(&mut broken));
    assert_eq!(broken, same);
    assert_eq!(finish(broken, IMAGE_SIZE), Err(ImageError::Volume));
    let g = read_geometry(&volume).unwrap();
    assert!(find_dirs(&same, &g).is_none());
    let mut garbage = vec![0u8; 4096];
    assert!(!canonicalise(&mut garbage));
}

#[test]
fn subdirectories_without_dots_are_refused() {
    let volume = sample_volume();
    let g = read_geometry(&volume).unwrap();
    let dir = find_dirs(&volume, &g).unwrap()[1];
    let at = (1 + 48 + 32) * 512 + (dir as usize - 2) * 512;
    // Another name, no directory, no long-name entry, or nothing at all.
    for (place, value) in [(at + 32, b'x'), (at + 33, b'.'), (at + 43, 0), (at + 75, 0x20), (at, 0)] {
        let mut other = volume.clone();
        other[place] = value;
        let same = other.clone();
        assert!(!canonicalise(&mut other));
        assert_eq!(other, same);
        assert_eq!(finish(other, IMAGE_SIZE), Err(ImageError::Volume));
    }
}

#[test]
fn loops_in_the_tree_end() {
    let mut volume = sample_volume();
    let root_start = (1 + 48) * 512;
    let slot = (0..512)
        .map(|i| root_start + i * 32)
        .find(|&at| volume[at + 11] == 0x10)
        .unwrap();
    let first = u16::from_le_bytes([volume[slot + 26], volume[slot + 27]]) as usize;
    // A directory whose cluster chain leads back to itself.
    let fat = 512 + 2 * first;
    volume[fat..fat + 2].copy_from_slice(&(first as u16).to_le_bytes());
    assert!(canonicalise(&mut volume));
}

#[test]
fn the_partition_table_is_exact() {
    let mbr = build_mbr(6144);
    assert_eq!(mbr.len(), 512);
    assert!(mbr[..446].iter().all(|&b| b == 0));
    assert_eq!(
        mbr[446..462],
        [0x00, 0x20, 0x21, 0x00, 0x04, 0x82, 0x02, 0x00, 0x00, 0x08, 0, 0, 0x00, 0x18, 0, 0]
    );
    assert!(mbr[462..510].iter().all(|&b| b == 0));
    assert_eq!(mbr[510..], [0x55, 0xAA]);
    // A large partition ends where cylinders cannot count.
    let large = build_mbr(0x1000_0000);
    assert_eq!(large[450..454], [0x06, 0xFE, 0xFF, 0xFF]);
    assert_eq!(large[458..462], [0, 0, 0, 0x10]);
}

#[test]
fn disks_hold_the_volume_as_their_partition() {
    let volume: Vec<u8> = (0..2048u32).map(|i| (i % 251) as u8).collect();
    let disk = assemble(&volume);
    assert_eq!(disk.len(), 0x10_0000 + 2048);
    assert_eq!(disk[0x10_0000..], volume[..]);
    assert!(disk[512..0x10_0000].iter().all(|&b| b == 0));
    assert!(check_mbr(&disk));
    for at in [0, 446, 450, 454, 458, 461, 511] {
        let mut other = disk.clone();
        other[at] ^= 1;
        assert!(!check_mbr(&other));
    }
    assert!(!check_mbr(&disk[..disk.len() - 512]));
    assert!(!check_mbr(&[]));
    assert_eq!(partition_sectors(0x10_0000 + 2048), Some(4));
    assert_eq!(partition_sectors(0x10_0000 + 2047), None);
}

#[test]
fn finished_images_are_canonical_disks() {
    let volume = sample_volume();
    let disk = finish(volume.clone(), IMAGE_SIZE).unwrap();
    assert_eq!(disk.len(), IMAGE_SIZE);
    assert!(check_mbr(&disk));
    let mut canonical = volume.clone();
    assert!(canonicalise(&mut canonical));
    assert_eq!(disk[0x10_0000..], canonical[..]);
    assert_eq!(finish(volume.clone(), IMAGE_SIZE + 512), Err(ImageError::Length));
    assert_eq!(finish(volume, 7), Err(ImageError::Size));
}

#[test]
fn the_check_can_be_skipped() {
    assert!(should_check(None));
    assert!(should_check(Some("0")));
    assert!(!should_check(Some("1")));
    assert_eq!(verdict(Some(true)), Verdict::Clean);
    assert_eq!(verdict(Some(false)), Verdict::Faulty);
    assert_eq!(verdict(None), Verdict::NotInstalled);
}
