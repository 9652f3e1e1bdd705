//! Taking the consumed files out of the evaluation bundle, a ZIP archive.

use vstd::prelude::*;

use super::files;
use super::files::is_consumed;
use crate::text;
use crate::text::{chars_of, is_text, replace_char, split_at_char, text_of};

verus! {

/// A cursor over bytes in memory.
#[verifier::external_type_specification]
#[verifier::external_body]
#[verifier::reject_recursive_types(T)]
pub struct ExCursor<T>(std::io::Cursor<T>);

/// An opened ZIP archive.
#[verifier::external_type_specification]
#[verifier::external_body]
#[verifier::reject_recursive_types(R)]
pub struct ExZipArchive<R>(zip::ZipArchive<R>);

/// The bytes that an archive was opened on.
pub uninterp spec fn zip_source(archive: zip::ZipArchive<std::io::Cursor<Vec<u8>>>) -> Seq<u8>;

/// Whether `zip::ZipArchive::new` opens these bytes.
pub uninterp spec fn zip_opens(bytes: Seq<u8>) -> bool;

/// How many entries the archive in these bytes has.
pub uninterp spec fn zip_count(bytes: Seq<u8>) -> nat;

/// The name of an entry of the archive in these bytes; nothing where
/// `zip::ZipArchive::by_index` fails on it.
pub uninterp spec fn zip_name(bytes: Seq<u8>, index: nat) -> Option<Seq<char>>;

/// Whether an entry of the archive in these bytes is a regular file.
pub uninterp spec fn zip_is_file(bytes: Seq<u8>, index: nat) -> bool;

/// The contents of an entry of the archive in these bytes; nothing where it cannot be
/// read.
pub uninterp spec fn zip_data(bytes: Seq<u8>, index: nat) -> Option<Seq<u8>>;

/// `zip::ZipArchive::new` on bytes in memory: the archive, which remembers the bytes, or
/// nothing where they are no archive. When that is so is not stated, only that it is a
/// function of the bytes.
#[verifier::external_body]
fn open_archive(bytes: Vec<u8>) -> (archive: Option<zip::ZipArchive<std::io::Cursor<Vec<u8>>>>)
    ensures
        match archive {
            Some(a) => zip_opens(bytes@) && zip_source(a) == bytes@,
            None => !zip_opens(bytes@),
        },
{
    zip::ZipArchive::new(std::io::Cursor::new(bytes)).ok()
}

/// `zip::ZipArchive::len`: how many entries an archive has.
#[verifier::external_body]
fn entry_count(archive: &zip::ZipArchive<std::io::Cursor<Vec<u8>>>) -> (n: usize)
    ensures
        n == zip_count(zip_source(*archive)),
{
    archive.len()
}

/// How many directories deep these components of a path lead, one behind another. Empty
/// ones and `.` lead nowhere, `..` leads back out.
pub open spec fn depth(parts: Seq<Seq<char>>) -> int
    decreases parts.len(),
{
    if parts.len() == 0 {
        0
    } else if parts.last() == ".."@ {
        depth(parts.drop_last()) - 1
    } else if parts.last().len() == 0 || parts.last() == "."@ {
        depth(parts.drop_last())
    } else {
        depth(parts.drop_last()) + 1
    }
}

/// A path with forward slashes is relative, and at no place on its way leads out of the
/// directory that it is joined to.
pub open spec fn stays_below(path: Seq<char>) -> bool {
    &&& path.len() > 0 ==> path[0] != '/'
    &&& forall|k: int|
        0 <= k <= text::split(path, '/').len() ==> depth(
            #[trigger] text::split(path, '/').take(k),
        ) >= 0
}

/// A name that is a path below the directory it is joined to on every platform: whether a
/// backslash sets components apart or not, and without a drive.
pub open spec fn is_plain(name: Seq<char>) -> bool {
    &&& !name.contains('\0')
    &&& !name.contains(':')
    &&& stays_below(name)
    &&& stays_below(text::replaced(name, '\\', '/'))
}

/// `ZipFile::enclosed_name` of an entry, as text. It fails where the entry cannot be opened.
/// It is the name of the entry, unless that is no safe path; which paths are safe depends
/// on the platform, but a plain one is on all of them, and one with a NUL on none. The
/// archive stays the same.
#[verifier::external_body]
fn enclosed_name(
    archive: &mut zip::ZipArchive<std::io::Cursor<Vec<u8>>>,
    index: usize,
) -> (res: Result<Option<String>, ()>)
    ensures
        zip_source(*final(archive)) == zip_source(*old(archive)),
        match res {
            Err(()) => zip_name(zip_source(*old(archive)), index as nat) is None,
            Ok(Some(name)) => {
                &&& zip_name(zip_source(*old(archive)), index as nat) == Some(name@)
                &&& !name@.contains('\0')
            },
            Ok(None) => {
                &&& zip_name(zip_source(*old(archive)), index as nat) matches Some(name)
                &&& !is_plain(name)
            },
        },
{
    match archive.by_index(index) {
        Ok(entry) => Ok(entry.enclosed_name().map(|path| path.to_string_lossy().into_owned())),
        Err(_) => Err(()),
    }
}

/// `ZipFile::is_file` of an entry. It fails where the entry cannot be opened. The archive
/// stays the same.
#[verifier::external_body]
fn is_regular_file(
    archive: &mut zip::ZipArchive<std::io::Cursor<Vec<u8>>>,
    index: usize,
) -> (yes: Option<bool>)
    ensures
        zip_source(*final(archive)) == zip_source(*old(archive)),
        match yes {
            Some(b) => zip_name(zip_source(*old(archive)), index as nat) is Some && b
                == zip_is_file(zip_source(*old(archive)), index as nat),
            None => zip_name(zip_source(*old(archive)), index as nat) is None,
        },
{
    archive.by_index(index).ok().map(|entry| entry.is_file())
}

/// The contents of an entry, by `ZipFile`'s `Read`: nothing where it cannot be opened or
/// read. The archive stays the same.
#[verifier::external_body]
fn read_entry(
    archive: &mut zip::ZipArchive<std::io::Cursor<Vec<u8>>>,
    index: usize,
) -> (contents: Option<Vec<u8>>)
    ensures
        zip_source(*final(archive)) == zip_source(*old(archive)),
        (match contents {
            Some(c) => Some(c@),
            None => None,
        }) == zip_data(zip_source(*old(archive)), index as nat),
{
    let mut entry = archive.by_index(index).ok()?;
    let mut contents = Vec::new();
    std::io::Read::read_to_end(&mut entry, &mut contents).ok()?;
    Some(contents)
}

/// The evaluation bundle.
pub struct Bundle {
    archive: zip::ZipArchive<std::io::Cursor<Vec<u8>>>,
}

/// A file taken out of the bundle.
pub struct Extracted {
    /// Where it belongs in the vendor directory.
    pub rel: String,
    pub contents: Vec<u8>,
}

/// An entry of the bundle that cannot be opened or read.
#[derive(Debug, Clone, Copy, PartialEq, Eq)]
pub struct BadEntry {
    pub index: usize,
}

/// Where a file of a bundle belongs in the vendor directory: nowhere if it has no safe
/// name, is no regular file, is not consumed, or would land elsewhere.
pub open spec fn destination(name: Option<Seq<char>>, is_file: bool) -> Option<Seq<char>> {
    match name {
        Some(n) => if is_file && files::consumed(text::replaced(n, '\\', '/')) && stays_below(
            text::replaced(n, '\\', '/'),
        ) {
            Some(text::replaced(n, '\\', '/'))
        } else {
            None
        },
        None => None,
    }
}

/// Whether a path with forward slashes stays below the directory that it is joined to.
pub fn leads_below(path: &[char]) -> (yes: bool)
    ensures
        yes == stays_below(path@),
{
    if path.len() > 0 && path[0] == '/' {
        return false;
    }
    let parts: Vec<Vec<char>> = split_at_char(path, '/');
    let ghost all = text::split(path@, '/');
    let mut deep: usize = 0;
    let mut i: usize = 0;
    assert(text::texts(parts@).len() == parts@.len());
    while i < parts.len()
        invariant
            i <= parts@.len(),
            all == text::split(path@, '/'),
            text::texts(parts@) == all,
            parts@.len() == all.len(),
            deep <= i,
            deep == depth(all.take(i as int)),
            forall|k: int| 0 <= k <= i ==> depth(#[trigger] all.take(k)) >= 0,
        decreases parts@.len() - i,
    {
        let part: &[char] = parts[i].as_slice();
        proof {
            assert(text::texts(parts@)[i as int] == parts@[i as int]@);
            assert(all.take(i + 1).last() == part@);
            assert(all.take(i + 1).drop_last() =~= all.take(i as int));
        }
        if is_text(part, "..") {
            if deep == 0 {
                assert(depth(all.take(i + 1)) < 0);
                return false;
            }
            deep = deep - 1;
        } else if part.len() > 0 && !is_text(part, ".") {
            deep = deep + 1;
        }
        i = i + 1;
    }
    true
}

/// Where a file of a bundle belongs in the vendor directory, if anywhere.
pub fn wanted_path(name: Option<&str>, is_file: bool) -> (rel: Option<String>)
    ensures
        (match rel {
            Some(r) => Some(r@),
            None => None,
        }) == destination(
            match name {
                Some(n) => Some(n@),
                None => None,
            },
            is_file,
        ),
{
    let name: &str = match name {
        Some(name) => name,
        None => {
            return None;
        },
    };
    let chars: Vec<char> = chars_of(name);
    let path: Vec<char> = replace_char(chars.as_slice(), '\\', '/');
    let rel: String = text_of(path.as_slice());
    if !is_file || !is_consumed(rel.as_str()) || !leads_below(path.as_slice()) {
        return None;
    }
    Some(rel)
}

impl Bundle {
    /// The bytes of the bundle.
    pub closed spec fn bytes(self) -> Seq<u8> {
        zip_source(self.archive)
    }

    /// Open a bundle; nothing if it is no ZIP archive.
    pub fn open(zip: Vec<u8>) -> (bundle: Option<Self>)
        ensures
            match bundle {
                Some(b) => zip_opens(zip@) && b.bytes() == zip@,
                None => !zip_opens(zip@),
            },
    {
        match open_archive(zip) {
            Some(archive) => Some(Bundle { archive }),
            None => None,
        }
    }

    /// How many entries the bundle has.
    pub fn len(&self) -> (n: usize)
        ensures
            n == zip_count(self.bytes()),
    {
        entry_count(&self.archive)
    }

    /// Take out entry `index`, if it is a consumed file. It is taken out on every platform
    /// if its name is plain.
    pub fn extract(&mut self, index: usize) -> (res: Result<Option<Extracted>, BadEntry>)
        ensures
            final(self).bytes() == old(self).bytes(),
            ({
                let name = zip_name(old(self).bytes(), index as nat);
                let is_file = zip_is_file(old(self).bytes(), index as nat);
                let data = zip_data(old(self).bytes(), index as nat);
                match res {
                    Err(e) => {
                        &&& e.index == index
                        &&& name is None || (destination(name, is_file) is Some && data is None)
                    },
                    Ok(Some(file)) => {
                        &&& destination(name, is_file) == Some(file.rel@)
                        &&& data == Some(file.contents@)
                    },
                    Ok(None) => name matches Some(n) && (destination(name, is_file) is None
                        || !is_plain(n)),
                }
            }),
    {
        let name: Option<String> = match enclosed_name(&mut self.archive, index) {
            Ok(name) => name,
            Err(()) => {
                return Err(BadEntry { index });
            },
        };
        let is_file: bool = match is_regular_file(&mut self.archive, index) {
            Some(is_file) => is_file,
            None => {
                return Err(BadEntry { index });
            },
        };
        let safe: Option<&str> = match &name {
            Some(name) => Some(name.as_str()),
            None => None,
        };
        let rel: String = match wanted_path(safe, is_file) {
            Some(rel) => rel,
            None => {
                return Ok(None);
            },
        };
        match read_entry(&mut self.archive, index) {
            Some(contents) => Ok(Some(Extracted { rel, contents })),
            None => Err(BadEntry { index }),
        }
    }
}

/// Everything lands in the vendor directory: the path of a file that is taken out is that
/// of a consumed file, is relative, has forward slashes only, and at no place leads out of it.
pub proof fn files_land_in_the_vendor_directory(name: Option<Seq<char>>, is_file: bool)
    ensures
        destination(name, is_file) matches Some(rel) ==> {
            &&& is_file
            &&& files::consumed(rel)
            &&& !rel.contains('\\')
            &&& rel.len() > 0 && rel[0] != '/'
            &&& stays_below(rel)
        },
{
    if let Some(rel) = destination(name, is_file) {
        files::lemma_consumed_ends(rel);
    }
}

/// A consumed file with a plain name is taken out, on every platform.
pub proof fn plain_files_are_taken_out(name: Seq<char>)
    requires
        is_plain(name),
        files::consumed(text::replaced(name, '\\', '/')),
    ensures
        destination(Some(name), true) == Some(text::replaced(name, '\\', '/')),
{
}

/// Components of a path lead on one after another: `..` one directory out, a name one
/// directory in, and an empty one or `.` nowhere.
pub proof fn components_lead_on(a: Seq<Seq<char>>, b: Seq<Seq<char>>, part: Seq<char>)
    ensures
        depth(a + b) == depth(a) + depth(b),
        part == ".."@ ==> depth(seq![part]) == -1,
        part.len() == 0 || part == "."@ ==> depth(seq![part]) == 0,
        part.len() > 0 && part != "."@ && part != ".."@ ==> depth(seq![part]) == 1,
    decreases b.len(),
{
    if b.len() == 0 {
        assert(a + b =~= a);
    } else {
        assert((a + b).drop_last() =~= a + b.drop_last());
        components_lead_on(a, b.drop_last(), part);
    }
    reveal_strlit("..");
    reveal_strlit(".");
    let one = seq![part];
    assert(one.drop_last() =~= Seq::<Seq<char>>::empty());
    assert(depth(one.drop_last()) == 0);
    assert(".."@.len() == 2 && "."@.len() == 1);
}

/// Components without `..` never lead out.
proof fn lemma_no_way_out(parts: Seq<Seq<char>>)
    requires
        forall|i: int| 0 <= i < parts.len() ==> #[trigger] parts[i] != ".."@,
    ensures
        depth(parts) >= 0,
    decreases parts.len(),
{
    if parts.len() > 0 {
        let front = parts.drop_last();
        assert forall|i: int| 0 <= i < front.len() implies #[trigger] front[i] != ".."@ by {
            assert(front[i] == parts[i]);
        }
        lemma_no_way_out(front);
        assert(parts[parts.len() - 1] != ".."@);
    }
}

/// A relative path without `..` stays below; an absolute one does not, and neither does one
/// that begins with `..`.
pub proof fn paths_without_dots_stay_below(path: Seq<char>)
    ensures
        path.len() > 0 && path[0] == '/' ==> !stays_below(path),
        text::split(path, '/')[0] == ".."@ ==> !stays_below(path),
        !(path.len() > 0 && path[0] == '/') && (forall|i: int|
            0 <= i < text::split(path, '/').len() ==> #[trigger] text::split(path, '/')[i]
                != ".."@) ==> stays_below(path),
{
    let parts = text::split(path, '/');
    if parts[0] == ".."@ {
        text::lemma_until(path, '/');
        assert(parts.len() > 0);
        let one = parts.take(1);
        assert(one =~= seq![".."@]);
        components_lead_on(one, one, ".."@);
        assert(depth(parts.take(1)) < 0);
    }
    if forall|i: int| 0 <= i < parts.len() ==> #[trigger] parts[i] != ".."@ {
        assert forall|k: int| 0 <= k <= parts.len() implies depth(#[trigger] parts.take(k)) >= 0 by {
            let front = parts.take(k);
            assert forall|i: int| 0 <= i < front.len() implies #[trigger] front[i] != ".."@ by {
                assert(front[i] == parts[i]);
            }
            lemma_no_way_out(front);
        }
    }
}

/// Every consumed file whose path does not go through `..` is taken out under that path, with
/// forward slashes, whichever slashes the bundle has.
pub proof fn consumed_files_are_taken_out(name: Seq<char>, rel: Seq<char>)
    requires
        files::consumed(rel),
        name.len() == rel.len(),
        forall|i: int|
            0 <= i < rel.len() ==> #[trigger] rel[i] != '\\' && (name[i] == rel[i] || (name[i]
                == '\\' && rel[i] == '/')),
        forall|i: int|
            0 <= i < text::split(rel, '/').len() ==> #[trigger] text::split(rel, '/')[i] != ".."@,
    ensures
        destination(Some(name), true) == Some(rel),
        destination(Some(name), false) is None,
        destination(None, true) is None,
{
    files::lemma_consumed_ends(rel);
    paths_without_dots_stay_below(rel);
    assert forall|i: int| 0 <= i < rel.len() implies text::replaced(name, '\\', '/')[i] == rel[i] by {
        assert(rel[i] != '\\');
    }
    assert(text::replaced(name, '\\', '/') =~= rel);
}

/// A file that is not consumed, or whose path leads out, stays in the bundle.
pub proof fn other_files_stay_in_the_bundle(name: Seq<char>, is_file: bool)
    requires
        !files::consumed(text::replaced(name, '\\', '/')) || !stays_below(
            text::replaced(name, '\\', '/'),
        ),
    ensures
        destination(Some(name), is_file) is None,
{
}

/// A relative name of ordinary components, set apart by slashes, is plain.
pub proof fn ordinary_names_are_plain(name: Seq<char>)
    requires
        !name.contains('\0'),
        !name.contains(':'),
        !name.contains('\\'),
        name.len() > 0 ==> name[0] != '/',
        forall|i: int|
            0 <= i < text::split(name, '/').len() ==> #[trigger] text::split(name, '/')[i] != ".."@,
    ensures
        is_plain(name),
{
    paths_without_dots_stay_below(name);
    assert(text::replaced(name, '\\', '/') =~= name);
}

} // verus!
