//! The lock file: the SHA-256 of every consumed file, and the identity of the bundle they
//! came from.

use vstd::prelude::*;

use super::digest;
use super::digest::sha256_file;
use super::files;
use super::files::is_consumed;
use super::laws;
use crate::text;
use crate::text::{chars_of, pair_place, replace_char, same_text, split_at_char, text_of, trim};

verus! {

/// A locked file: its SHA-256 in hexadecimal, and its path.
pub struct LockEntry {
    pub hash: String,
    pub rel: String,
}

/// A locked file as a mathematical value.
pub type Pinned = (Seq<char>, Seq<char>);

/// What locked files say.
pub open spec fn pinned(entries: Seq<LockEntry>) -> Seq<Pinned> {
    Seq::new(entries.len(), |i: int| (entries[i].hash@, entries[i].rel@))
}

/// What a line of a lock file is.
pub enum Line {
    /// Empty, or a comment.
    Skip,
    /// A file: its hash and its path.
    Entry(Pinned),
    /// Neither; the line without the white space around it.
    Malformed(Seq<char>),
}

/// What a line of a lock file is: two spaces part the hash from the path.
pub open spec fn line_of(raw: Seq<char>) -> Line {
    let line = text::trimmed(raw);
    let n = text::before_pair(line, ' ') as int;
    if line.len() == 0 || line[0] == '#' {
        Line::Skip
    } else if n < line.len() {
        Line::Entry((line.take(n), line.skip(n + 2)))
    } else {
        Line::Malformed(line)
    }
}

/// The files that the lines of a lock file name; or the first line that is malformed.
pub open spec fn locked(lines: Seq<Seq<char>>) -> Result<Seq<Pinned>, Seq<char>>
    decreases lines.len(),
{
    if lines.len() == 0 {
        Ok(Seq::empty())
    } else {
        match locked(lines.drop_last()) {
            Err(line) => Err(line),
            Ok(before) => match line_of(lines.last()) {
                Line::Skip => Ok(before),
                Line::Entry(entry) => Ok(before.push(entry)),
                Line::Malformed(line) => Err(line),
            },
        }
    }
}

/// The files that a lock file names; or its first malformed line.
pub fn parse_lock(lock: &str) -> (res: Result<Vec<LockEntry>, String>)
    ensures
        match res {
            Ok(entries) => locked(text::split(lock@, '\n')) == Ok::<Seq<Pinned>, Seq<char>>(
                pinned(entries@),
            ),
            Err(line) => locked(text::split(lock@, '\n')) == Err::<Seq<Pinned>, Seq<char>>(line@),
        },
{
    let chars: Vec<char> = chars_of(lock);
    let lines: Vec<Vec<char>> = split_at_char(chars.as_slice(), '\n');
    let ghost all = text::split(lock@, '\n');
    let mut entries: Vec<LockEntry> = Vec::new();
    let mut i: usize = 0;
    proof {
        assert(lines@.len() == text::texts(lines@).len());
        assert(all.take(0) =~= Seq::<Seq<char>>::empty());
        assert(pinned(entries@) =~= Seq::<Pinned>::empty());
    }
    while i < lines.len()
        invariant
            i <= lines@.len(),
            all == text::split(lock@, '\n'),
            text::texts(lines@) == all,
            lines@.len() == all.len(),
            locked(all.take(i as int)) == Ok::<Seq<Pinned>, Seq<char>>(pinned(entries@)),
        decreases lines@.len() - i,
    {
        let line: &[char] = trim(lines[i].as_slice());
        proof {
            assert(text::texts(lines@)[i as int] == lines@[i as int]@);
            assert(all.take(i + 1).drop_last() =~= all.take(i as int));
            assert(all.take(i + 1).last() == all[i as int]);
        }
        if line.len() > 0 && line[0] != '#' {
            let n: usize = pair_place(line, ' ');
            if n == line.len() {
                proof {
                    lemma_locked_prefix(all, i + 1);
                }
                return Err(text_of(line));
            }
            let hash = &line[0..n];
            let rel = &line[n + 2..line.len()];
            assert(hash@ =~= line@.take(n as int));
            assert(rel@ =~= line@.skip(n + 2));
            let entry = LockEntry { hash: text_of(hash), rel: text_of(rel) };
            assert(pinned(entries@.push(entry)) =~= pinned(entries@).push(
                (entry.hash@, entry.rel@),
            ));
            entries.push(entry);
        }
        i = i + 1;
    }
    assert(all.take(i as int) =~= all);
    Ok(entries)
}

/// A malformed line among the first ones is a malformed line of the whole.
proof fn lemma_locked_prefix(lines: Seq<Seq<char>>, n: int)
    requires
        0 <= n <= lines.len(),
        locked(lines.take(n)) is Err,
    ensures
        locked(lines) == locked(lines.take(n)),
    decreases lines.len() - n,
{
    if n < lines.len() {
        assert(lines.take(n + 1).drop_last() =~= lines.take(n));
        lemma_locked_prefix(lines, n + 1);
    } else {
        assert(lines.take(n) =~= lines);
    }
}

/// What a comparison with the lock file comes to.
#[derive(Debug, Clone, Copy, PartialEq, Eq)]
pub enum Verify {
    Match,
    /// So many files differ.
    Mismatch(usize),
}

/// A file is the one that was locked: it is there, and has the hash.
pub open spec fn is_locked_file(entry: Pinned, file: Option<Seq<u8>>) -> bool {
    file matches Some(contents) && digest::hex_text(digest::sha256_digest(contents)) == entry.0
}

/// The contents of files, where they are there.
pub open spec fn contents_of(files: Seq<Option<Vec<u8>>>) -> Seq<Option<Seq<u8>>> {
    Seq::new(
        files.len(),
        |i: int|
            match files[i] {
                Some(contents) => Some(contents@),
                None => None,
            },
    )
}

/// Which of the first `n` files differ from the lock file.
pub open spec fn mismatches(entries: Seq<Pinned>, files: Seq<Option<Seq<u8>>>, n: int) -> Seq<int>
    decreases n,
{
    if n <= 0 {
        Seq::empty()
    } else if is_locked_file(entries[n - 1], files[n - 1]) {
        mismatches(entries, files, n - 1)
    } else {
        mismatches(entries, files, n - 1).push(n - 1)
    }
}

/// Whether a file is the one that was locked.
fn is_same_file(entry: &LockEntry, file: &Option<Vec<u8>>) -> (same: bool)
    ensures
        same == is_locked_file(
            (entry.hash@, entry.rel@),
            match file {
                Some(contents) => Some(contents@),
                None => None,
            },
        ),
{
    match file {
        Some(contents) => {
            let actual: Vec<char> = chars_of(sha256_file(contents.as_slice()).as_str());
            let expected: Vec<char> = chars_of(entry.hash.as_str());
            same_text(actual.as_slice(), expected.as_slice())
        },
        None => false,
    }
}

/// Compare files with the lock file that names them; `files` holds the contents of each, or
/// nothing where it does not exist. Returns also which of them differ.
pub fn verify_against_lock(entries: &Vec<LockEntry>, files: &Vec<Option<Vec<u8>>>) -> (res: (
    Verify,
    Vec<usize>,
))
    requires
        entries@.len() == files@.len(),
    ensures
        ({
            let differ = mismatches(
                pinned(entries@),
                contents_of(files@),
                entries@.len() as int,
            );
            &&& res.0 == if differ.len() == 0 {
                Verify::Match
            } else {
                Verify::Mismatch(differ.len() as usize)
            }
            &&& res.1@.map_values(|i: usize| i as int) == differ
            &&& differ.len() <= entries@.len()
        }),
        res.0 is Match <==> forall|i: int|
            0 <= i < entries@.len() ==> (#[trigger] files@[i]) is Some && digest::hex_text(
                digest::sha256_digest(files@[i]->0@),
            ) == entries@[i].hash@,
        res.0 matches Verify::Mismatch(n) ==> n == res.1@.len() && n > 0,
        forall|i: usize|
            #[trigger] res.1@.contains(i) <==> i < entries@.len() && !(files@[i as int] is Some
                && digest::hex_text(digest::sha256_digest(files@[i as int]->0@))
                == entries@[i as int].hash@),
{
    let mut differ: Vec<usize> = Vec::new();
    let ghost want = pinned(entries@);
    let ghost have = contents_of(files@);
    let mut i: usize = 0;
    assert(differ@.map_values(|i: usize| i as int) =~= mismatches(want, have, 0));
    while i < entries.len()
        invariant
            i <= entries@.len(),
            entries@.len() == files@.len(),
            want == pinned(entries@),
            have == contents_of(files@),
            differ@.len() <= i,
            differ@.map_values(|i: usize| i as int) == mismatches(want, have, i as int),
        decreases entries@.len() - i,
    {
        if !is_same_file(&entries[i], &files[i]) {
            assert(differ@.push(i).map_values(|i: usize| i as int) =~= differ@.map_values(
                |i: usize| i as int,
            ).push(i as int));
            differ.push(i);
        }
        i = i + 1;
    }
    assert(differ@.len() == differ@.map_values(|i: usize| i as int).len());
    proof {
        let all = differ@.map_values(|i: usize| i as int);
        let n = entries@.len() as int;
        assert forall|i: usize|
            #[trigger] differ@.contains(i) <==> i < n && !(files@[i as int] is Some
                && digest::hex_text(digest::sha256_digest(files@[i as int]->0@))
                == entries@[i as int].hash@) by {
            laws::files_differ_by_their_digests(want, have, n, i as int);
            if differ@.contains(i) {
                let k = choose|k: int| 0 <= k < differ@.len() && differ@[k] == i;
                assert(all[k] == i);
            }
            if all.contains(i as int) {
                let k = choose|k: int| 0 <= k < all.len() && all[k] == i;
                assert(differ@[k] == i);
            }
            if i < n {
                assert(want[i as int].0 == entries@[i as int].hash@);
                assert(have[i as int] == match files@[i as int] {
                    Some(contents) => Some(contents@),
                    None => None,
                });
            }
        }
        if differ@.len() > 0 {
            let i = differ@[0];
            assert(differ@.contains(i));
            assert(i < n);
            assert(entries@[i as int].hash@ == want[i as int].0);
        } else {
            assert forall|i: int| 0 <= i < n implies (
            #[trigger] files@[i]) is Some && digest::hex_text(
                digest::sha256_digest(files@[i]->0@),
            ) == entries@[i].hash@ by {
                assert(entries@.len() == entries.len());
                assert(!differ@.contains(i as usize));
            }
        }
    }
    let verdict = if differ.len() == 0 {
        Verify::Match
    } else {
        Verify::Mismatch(differ.len())
    };
    (verdict, differ)
}

/// What a build makes of its lock file.
#[derive(Debug)]
pub enum LockCheck {
    /// All files are the ones that were locked.
    Pass,
    /// There is no lock file: the build goes on with this warning.
    Warn(String),
    /// The build fails with this message.
    Fail(String),
}

/// The files that differ from the lock file, each on a line.
pub open spec fn mismatch_lines(entries: Seq<Pinned>, differ: Seq<int>) -> Seq<char>
    decreases differ.len(),
{
    if differ.len() == 0 {
        Seq::empty()
    } else {
        mismatch_lines(entries, differ.drop_last()) + "\n  mismatch: "@ + entries[differ.last()].1
    }
}

/// What a build makes of its lock file: it fails exactly if the lock file is malformed or a
/// file differs, and is warned exactly if there is no lock file.
pub open spec fn is_lock_check(
    lock: Option<Seq<char>>,
    files: Seq<Option<Seq<u8>>>,
    check: LockCheck,
) -> bool {
    match lock {
        None => check matches LockCheck::Warn(message) && message@
            == "no vendor/segger.lock; the vendored SEGGER files were not verified (run `cargo xtask relock-segger` to create it)"@,
        Some(lock) => match locked(text::split(lock, '\n')) {
            Err(line) => check matches LockCheck::Fail(message) && message@
                == "malformed lock line: "@ + line,
            Ok(entries) => {
                let differ = mismatches(entries, files, entries.len() as int);
                if differ.len() == 0 {
                    check is Pass
                } else {
                    check matches LockCheck::Fail(message) && message@
                        == "Vendored SEGGER files do not match vendor/segger.lock"@
                        + mismatch_lines(entries, differ)
                }
            },
        },
    }
}

/// Check vendored files against the lock file at build time; `files` holds the contents of
/// each file that it names, or nothing where it does not exist.
pub fn lock_check(lock: Option<&str>, files: &Vec<Option<Vec<u8>>>) -> (check: LockCheck)
    requires
        lock matches Some(text) ==> locked(text::split(text@, '\n')) matches Ok(entries)
            ==> entries.len() == files@.len(),
    ensures
        is_lock_check(
            match lock {
                Some(text) => Some(text@),
                None => None,
            },
            contents_of(files@),
            check,
        ),
{
    let lock: &str = match lock {
        Some(lock) => lock,
        None => {
            return LockCheck::Warn(
                "no vendor/segger.lock; the vendored SEGGER files were not verified (run `cargo xtask relock-segger` to create it)".to_owned(),
            );
        },
    };
    let entries: Vec<LockEntry> = match parse_lock(lock) {
        Ok(entries) => entries,
        Err(line) => {
            let mut message = "malformed lock line: ".to_owned();
            message.append(line.as_str());
            return LockCheck::Fail(message);
        },
    };
    let ghost named = pinned(entries@);
    let (verdict, differ): (Verify, Vec<usize>) = verify_against_lock(&entries, files);
    let ghost all = differ@.map_values(|i: usize| i as int);
    match verdict {
        Verify::Match => {
            return LockCheck::Pass;
        },
        Verify::Mismatch(_) => {},
    }
    let mut message = "Vendored SEGGER files do not match vendor/segger.lock".to_owned();
    let ghost start = message@;
    let mut i: usize = 0;
    proof {
        lemma_mismatches(named, contents_of(files@), named.len() as int);
        assert(all.take(0) =~= Seq::<int>::empty());
        assert(start + Seq::<char>::empty() =~= start);
    }
    while i < differ.len()
        invariant
            i <= differ@.len(),
            named == pinned(entries@),
            all == differ@.map_values(|i: usize| i as int),
            forall|k: int| 0 <= k < all.len() ==> 0 <= #[trigger] all[k] < entries@.len(),
            message@ == start + mismatch_lines(named, all.take(i as int)),
        decreases differ@.len() - i,
    {
        let ghost before = mismatch_lines(named, all.take(i as int));
        assert(all[i as int] == differ@[i as int]);
        let rel: &str = entries[differ[i]].rel.as_str();
        message.append("\n  mismatch: ");
        message.append(rel);
        proof {
            assert(all.take(i + 1).drop_last() =~= all.take(i as int));
            assert(start + before + "\n  mismatch: "@ + rel@ =~= start + (before
                + "\n  mismatch: "@ + rel@));
        }
        i = i + 1;
    }
    assert(all.take(i as int) =~= all);
    LockCheck::Fail(message)
}

/// Files that differ are among those that were compared.
proof fn lemma_mismatches(entries: Seq<Pinned>, files: Seq<Option<Seq<u8>>>, n: int)
    ensures
        forall|k: int|
            0 <= k < mismatches(entries, files, n).len() ==> 0 <= #[trigger] mismatches(
                entries,
                files,
                n,
            )[k] < n,
    decreases n,
{
    if n > 0 {
        lemma_mismatches(entries, files, n - 1);
        let before = mismatches(entries, files, n - 1);
        let all = mismatches(entries, files, n);
        assert forall|k: int| 0 <= k < all.len() implies 0 <= #[trigger] all[k] < n by {
            if k < before.len() {
                assert(all[k] == before[k]);
            }
        }
    }
}

/// The path of a file of the vendor directory, with forward slashes, if it is consumed.
pub fn consumed_path(path: &str) -> (rel: Option<String>)
    ensures
        match rel {
            Some(r) => r@ == text::replaced(path@, '\\', '/') && files::consumed(r@),
            None => !files::consumed(text::replaced(path@, '\\', '/')),
        },
{
    let chars: Vec<char> = chars_of(path);
    let rel: String = text_of(replace_char(chars.as_slice(), '\\', '/').as_slice());
    if is_consumed(rel.as_str()) {
        Some(rel)
    } else {
        None
    }
}

/// Lock a file.
pub fn lock_file(rel: String, contents: &[u8]) -> (entry: LockEntry)
    ensures
        entry.rel@ == rel@,
        entry.hash@ == digest::hex_text(digest::sha256_digest(contents@)),
        entry.hash@.len() == 64,
{
    LockEntry { hash: sha256_file(contents), rel }
}

} // verus!
