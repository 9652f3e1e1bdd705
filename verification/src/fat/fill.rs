//! Creating the entries of a volume.

use vstd::prelude::*;

use super::stamp::Stamp;
use super::tree;
use super::tree::{Entry, Item};
use super::volume;

verus! {

/// A date, as the `fatfs` crate has it.
#[verifier::external_type_specification]
#[verifier::external_body]
pub struct ExDate(fatfs::Date);

/// A date and time, as the `fatfs` crate has it.
#[verifier::external_type_specification]
#[verifier::external_body]
pub struct ExDateTime(fatfs::DateTime);

/// A clock that stands still, for the `fatfs` crate to take timestamps from.
#[derive(Debug, Clone, Copy)]
struct Clock {
    stamp: Stamp,
}

impl fatfs::TimeProvider for Clock {
    /// The date of the timestamp, as a `fatfs::Date`.
    #[verifier::external_body]
    fn get_current_date(&self) -> fatfs::Date {
        fatfs::Date { year: self.stamp.year, month: self.stamp.month, day: self.stamp.day }
    }

    /// The timestamp, as a `fatfs::DateTime`.
    #[verifier::external_body]
    fn get_current_date_time(&self) -> fatfs::DateTime {
        fatfs::DateTime {
            date: fatfs::Date {
                year: self.stamp.year,
                month: self.stamp.month,
                day: self.stamp.day,
            },
            time: fatfs::Time {
                hour: self.stamp.hour,
                min: self.stamp.min,
                sec: self.stamp.sec,
                millis: 0,
            },
        }
    }
}

/// What the `fatfs` crate makes of a volume in which a file is created, with its contents
/// and a timestamp; nothing where it cannot be.
pub uninterp spec fn fatfs_with_file(
    volume: Seq<u8>,
    path: Seq<char>,
    contents: Seq<u8>,
    stamp: Stamp,
) -> Option<Seq<u8>>;

/// What the `fatfs` crate makes of a volume in which a directory is created, with a
/// timestamp; nothing where it cannot be.
pub uninterp spec fn fatfs_with_dir(
    volume: Seq<u8>,
    path: Seq<char>,
    stamp: Stamp,
) -> Option<Seq<u8>>;

/// A volume with one more entry; nothing where it cannot be created.
pub open spec fn with_item(volume: Seq<u8>, item: Item) -> Option<Seq<u8>> {
    match item.contents {
        Some(contents) => fatfs_with_file(volume, item.path, contents, item.stamp),
        None => fatfs_with_dir(volume, item.path, item.stamp),
    }
}

/// A volume in which these entries have been created, one after another; nothing where one
/// of them cannot be.
pub open spec fn populated(volume: Seq<u8>, items: Seq<Item>) -> Option<Seq<u8>>
    decreases items.len(),
{
    if items.len() == 0 {
        Some(volume)
    } else {
        match populated(volume, items.drop_last()) {
            Some(before) => with_item(before, items.last()),
            None => None,
        }
    }
}

/// The volume was formatted with so many sectors, and then these entries were created.
pub open spec fn grown_from(volume: Seq<u8>, sectors: int, items: Seq<Item>) -> bool {
    &&& tree::dated(items)
    &&& volume::empty_volume(sectors) matches Some(empty) && populated(empty, items) == Some(
        volume,
    )
}

/// The volume is the work of the `fatfs` crate from its formatting on. The crate panics on
/// some others, or does not return.
pub open spec fn is_grown(volume: Seq<u8>) -> bool {
    exists|sectors: int, items: Seq<Item>| #[trigger] grown_from(volume, sectors, items)
}

/// `fatfs::Dir::create_file` from the root directory on, then `write_all` and `flush` of
/// the file, on a volume in memory that is mounted with `fatfs::FileSystem::new` and
/// unmounted again, while the clock stands at `stamp`. What the volume then holds is not
/// stated, only that it is a function of these arguments. Years before the first one of FAT
/// are left out: the crate panics on them.
#[verifier::external_body]
fn create_file(volume: Vec<u8>, path: &str, contents: &[u8], stamp: Stamp) -> (res: Option<Vec<u8>>)
    requires
        is_grown(volume@),
        tree::is_fat_time(stamp),
    ensures
        volume::bytes_of(res) == fatfs_with_file(volume@, path@, contents@, stamp),
{
    let clock: &'static Clock = Box::leak(Box::new(Clock { stamp }));
    let mut cursor = std::io::Cursor::new(volume);
    let fs = fatfs::FileSystem::new(&mut cursor, fatfs::FsOptions::new().time_provider(clock)).ok()?;
    let mut file = fs.root_dir().create_file(path).ok()?;
    std::io::Write::write_all(&mut file, contents).ok()?;
    std::io::Write::flush(&mut file).ok()?;
    drop(file);
    fs.unmount().ok()?;
    Some(cursor.into_inner())
}

/// `fatfs::Dir::create_dir` from the root directory on, on a volume in memory that is
/// mounted with `fatfs::FileSystem::new` and unmounted again, while the clock stands at
/// `stamp`. What the volume then holds is not stated, only that it is a function of these
/// arguments. Years before the first one of FAT are left out: the crate panics on them.
#[verifier::external_body]
fn create_dir(volume: Vec<u8>, path: &str, stamp: Stamp) -> (res: Option<Vec<u8>>)
    requires
        is_grown(volume@),
        tree::is_fat_time(stamp),
    ensures
        volume::bytes_of(res) == fatfs_with_dir(volume@, path@, stamp),
{
    let clock: &'static Clock = Box::leak(Box::new(Clock { stamp }));
    let mut cursor = std::io::Cursor::new(volume);
    let fs = fatfs::FileSystem::new(&mut cursor, fatfs::FsOptions::new().time_provider(clock)).ok()?;
    fs.root_dir().create_dir(path).ok()?;
    fs.unmount().ok()?;
    Some(cursor.into_inner())
}

/// A volume that has grown by an entry has still grown.
proof fn lemma_grows(volume: Seq<u8>, item: Item)
    requires
        is_grown(volume),
        tree::is_fat_time(item.stamp),
    ensures
        with_item(volume, item) matches Some(after) ==> is_grown(after),
{
    let (sectors, items) = choose|sectors: int, items: Seq<Item>| #[trigger]
        grown_from(volume, sectors, items);
    let more = items.push(item);
    assert(more.drop_last() =~= items);
    if let Some(after) = with_item(volume, item) {
        assert(grown_from(after, sectors, more));
    }
}

/// A freshly formatted volume is the work of the crate.
pub proof fn lemma_empty_is_grown(sectors: int)
    ensures
        volume::empty_volume(sectors) matches Some(empty) ==> is_grown(empty),
{
    if let Some(empty) = volume::empty_volume(sectors) {
        assert(grown_from(empty, sectors, Seq::empty()));
    }
}

/// An entry that cannot be created leaves nothing for those behind it.
pub proof fn lemma_stays_refused(volume: Seq<u8>, items: Seq<Item>, k: int)
    requires
        0 <= k <= items.len(),
        populated(volume, items.take(k)) is None,
    ensures
        populated(volume, items) is None,
    decreases items.len() - k,
{
    if k < items.len() {
        assert(items.take(k + 1).drop_last() =~= items.take(k));
        lemma_stays_refused(volume, items, k + 1);
    } else {
        assert(items.take(k) =~= items);
    }
}

/// Entry `k` is the first that cannot be created.
pub open spec fn fails_at(volume: Seq<u8>, items: Seq<Item>, k: int) -> bool {
    &&& 0 <= k < items.len()
    &&& populated(volume, items.take(k)) is Some
    &&& populated(volume, items.take(k + 1)) is None
}

/// Create entries on a volume, one after another; or tell the first one that cannot be
/// created.
pub fn populate(volume: Vec<u8>, entries: &Vec<Entry>) -> (res: Result<Vec<u8>, usize>)
    requires
        is_grown(volume@),
        tree::dated(tree::items(entries@)),
    ensures
        match populated(volume@, tree::items(entries@)) {
            Some(filled) => res matches Ok(v) && v@ == filled && is_grown(filled),
            None => res matches Err(k) && fails_at(volume@, tree::items(entries@), k as int),
        },
{
    let ghost start = volume@;
    let ghost all = tree::items(entries@);
    let mut grown: Vec<u8> = volume;
    let mut i: usize = 0;
    assert(all.take(0) =~= Seq::<Item>::empty());
    while i < entries.len()
        invariant
            i <= entries@.len(),
            start == volume@,
            all == tree::items(entries@),
            tree::dated(all),
            is_grown(grown@),
            populated(start, all.take(i as int)) == Some(grown@),
        decreases entries@.len() - i,
    {
        let ghost before = grown@;
        let entry = &entries[i];
        proof {
            assert(all[i as int] == entry@);
            assert(tree::is_fat_time(all[i as int].stamp));
            assert(all.take(i + 1).drop_last() =~= all.take(i as int));
            assert(all.take(i + 1).last() == all[i as int]);
            lemma_grows(before, entry@);
        }
        let made: Option<Vec<u8>> = match &entry.contents {
            Some(contents) => create_file(
                grown,
                entry.path.as_str(),
                contents.as_slice(),
                entry.stamp,
            ),
            None => create_dir(grown, entry.path.as_str(), entry.stamp),
        };
        grown = match made {
            Some(v) => v,
            None => {
                proof {
                    lemma_stays_refused(start, all, i + 1);
                }
                return Err(i);
            },
        };
        i = i + 1;
    }
    assert(all.take(i as int) =~= all);
    Ok(grown)
}

} // verus!
