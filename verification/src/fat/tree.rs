//! What becomes of a source tree: which entries are created, in which order, and with
//! which timestamps.

use vstd::prelude::*;

use super::stamp;
use super::stamp::{fallback, Stamp};
use super::walk;
use crate::order;
use crate::order::sort;
use crate::text;
use crate::text::{push_decimal, utf8_text};

verus! {

/// What an entry of a source directory is.
pub enum Body {
    /// A directory, with its entries in the order in which they were listed.
    Dir(Vec<Source>),
    /// A file, with its contents.
    File(Vec<u8>),
    Symlink,
    Other,
}

/// An entry of a source directory, as it was found.
pub struct Source {
    /// Its name, in the bytes of the file system.
    pub name: Vec<u8>,
    /// Its git commit time, if it has any history.
    pub stamp: Option<Stamp>,
    pub body: Body,
}

/// An entry to create.
pub struct Entry {
    /// Its path below the root of the volume, with forward slashes.
    pub path: String,
    /// The contents of a file; nothing for a directory.
    pub contents: Option<Vec<u8>>,
    /// The timestamp to create it with.
    pub stamp: Stamp,
    /// Whether that is a commit time.
    pub committed: bool,
}

/// An entry to create, as a mathematical value.
pub struct Item {
    pub path: Seq<char>,
    pub contents: Option<Seq<u8>>,
    pub stamp: Stamp,
    pub committed: bool,
}

impl View for Entry {
    type V = Item;

    open spec fn view(&self) -> Item {
        Item {
            path: self.path@,
            contents: match self.contents {
                Some(contents) => Some(contents@),
                None => None,
            },
            stamp: self.stamp,
            committed: self.committed,
        }
    }
}

/// These entries as mathematical values.
pub open spec fn items(entries: Seq<Entry>) -> Seq<Item> {
    Seq::new(entries.len(), |i: int| entries[i]@)
}

/// Why an entry cannot be created.
#[derive(Debug, Clone, Copy, PartialEq, Eq)]
pub enum Fault {
    /// Its name is not UTF-8.
    NonUtf8,
    /// It is a symbolic link.
    Symlink,
    /// It is neither a directory nor a file.
    Unsupported,
}

/// An entry that cannot be created.
#[derive(Debug)]
pub struct PlanError {
    pub fault: Fault,
    /// The path of the directory that it is in.
    pub dir: String,
    /// Its name, in the bytes of the file system.
    pub name: Vec<u8>,
}

/// An entry that cannot be created, as a mathematical value.
pub struct Refusal {
    pub fault: Fault,
    pub dir: Seq<char>,
    pub name: Seq<u8>,
}

impl View for PlanError {
    type V = Refusal;

    open spec fn view(&self) -> Refusal {
        Refusal { fault: self.fault, dir: self.dir@, name: self.name@ }
    }
}

/// The names of the entries of a directory.
pub open spec fn names(sources: Seq<Source>) -> Seq<Seq<u8>> {
    Seq::new(sources.len(), |i: int| sources[i].name@)
}

/// The path of an entry of the directory `dir`; the path of the root is empty.
pub open spec fn joined(dir: Seq<char>, name: Seq<char>) -> Seq<char> {
    if dir.len() == 0 {
        name
    } else {
        dir + seq!['/'] + name
    }
}

/// The entry for a source itself, with its commit time or, where it has none, the
/// fallback.
pub open spec fn own_item(source: Source, dir: Seq<char>) -> Item {
    Item {
        path: joined(dir, vstd::utf8::decode_utf8(source.name@)),
        contents: match source.body {
            Body::File(contents) => Some(contents@),
            _ => None,
        },
        stamp: match source.stamp {
            Some(stamp) => stamp,
            None => stamp::earliest(),
        },
        committed: source.stamp is Some,
    }
}

/// Why a source itself cannot be created, if it cannot.
pub open spec fn fault(source: Source) -> Option<Fault> {
    if !vstd::utf8::valid_utf8(source.name@) {
        Some(Fault::NonUtf8)
    } else {
        match source.body {
            Body::Dir(_) => None,
            Body::File(_) => None,
            Body::Symlink => Some(Fault::Symlink),
            Body::Other => Some(Fault::Unsupported),
        }
    }
}

/// The entries for one source in the directory `dir`: its own, and behind it those of its
/// contents. Or the first one that cannot be created.
pub open spec fn laid_one(source: Source, dir: Seq<char>) -> Result<Seq<Item>, Refusal>
    decreases source, 0nat, 0nat,
{
    let own = own_item(source, dir);
    match fault(source) {
        Some(fault) => Err(Refusal { fault, dir, name: source.name@ }),
        None => match source.body {
            Body::Dir(list) => match laid_out(list@, own.path) {
                Ok(inner) => Ok(seq![own] + inner),
                Err(refusal) => Err(refusal),
            },
            _ => Ok(seq![own]),
        },
    }
}

/// The entries for the first `k` sources of a directory, taken in this order.
pub open spec fn laid_first(
    sources: Seq<Source>,
    order: Seq<usize>,
    k: nat,
    dir: Seq<char>,
) -> Result<Seq<Item>, Refusal>
    decreases sources, 0nat, k,
{
    if k == 0 {
        Ok(Seq::empty())
    } else {
        match laid_first(sources, order, (k - 1) as nat, dir) {
            Err(refusal) => Err(refusal),
            Ok(before) => if order[k - 1] < sources.len() {
                match laid_one(sources[order[k - 1] as int], dir) {
                    Err(refusal) => Err(refusal),
                    Ok(inner) => Ok(before + inner),
                }
            } else {
                Ok(before)
            },
        }
    }
}

/// The entries for all sources of a directory, sorted by their names: depth first, the
/// contents of each directory right behind it. Or the first one that cannot be created.
pub open spec fn laid_out(sources: Seq<Source>, dir: Seq<char>) -> Result<Seq<Item>, Refusal>
    decreases sources, 1nat, 0nat,
{
    laid_first(sources, order::order_of(names(sources)), sources.len(), dir)
}

/// Append the path of an entry of the directory `dir`.
fn join(dir: &str, name: &str) -> (path: String)
    ensures
        path@ == joined(dir@, name@),
{
    let mut path: String = dir.to_owned();
    if !dir.is_empty() {
        path.push('/');
    }
    path.append(name);
    assert(path@ =~= joined(dir@, name@));
    path
}

/// The names of the entries of a directory.
fn names_of(sources: &Vec<Source>) -> (all: Vec<Vec<u8>>)
    ensures
        order::seqs(all@) == names(sources@),
{
    let mut all: Vec<Vec<u8>> = Vec::new();
    let mut i: usize = 0;
    while i < sources.len()
        invariant
            i <= sources@.len(),
            all@.len() == i,
            forall|j: int| 0 <= j < i ==> (#[trigger] all@[j])@ == sources@[j].name@,
        decreases sources@.len() - i,
    {
        all.push(vstd::slice::slice_to_vec(sources[i].name.as_slice()));
        i = i + 1;
    }
    assert(order::seqs(all@) =~= names(sources@));
    all
}

/// An entry that cannot be created.
fn refuse(fault: Fault, dir: &str, name: &Vec<u8>) -> (e: PlanError)
    ensures
        e@ == (Refusal { fault, dir: dir@, name: name@ }),
{
    PlanError { fault, dir: dir.to_owned(), name: vstd::slice::slice_to_vec(name.as_slice()) }
}

/// Append the entries for one source in the directory `dir`.
fn lay_one(source: &Source, dir: &str, out: &mut Vec<Entry>) -> (res: Result<(), PlanError>)
    ensures
        match laid_one(*source, dir@) {
            Ok(more) => res is Ok && items(final(out)@) == items(old(out)@) + more,
            Err(refusal) => res matches Err(e) && e@ == refusal,
        },
    decreases source, 0nat,
{
    let name: &str = match utf8_text(source.name.as_slice()) {
        Some(name) => name,
        None => {
            return Err(refuse(Fault::NonUtf8, dir, &source.name));
        },
    };
    let (stamp, committed): (Stamp, bool) = match source.stamp {
        Some(stamp) => (stamp, true),
        None => (fallback(), false),
    };
    let contents: Option<Vec<u8>> = match &source.body {
        Body::Dir(_) => None,
        Body::File(contents) => Some(vstd::slice::slice_to_vec(contents.as_slice())),
        Body::Symlink => {
            return Err(refuse(Fault::Symlink, dir, &source.name));
        },
        Body::Other => {
            return Err(refuse(Fault::Unsupported, dir, &source.name));
        },
    };
    let path: String = join(dir, name);
    let ghost own = own_item(*source, dir@);
    let ghost before = items(out@);
    out.push(Entry { path: path.as_str().to_owned(), contents, stamp, committed });
    assert(out@.last()@ == own);
    assert(items(out@) =~= before + seq![own]);
    match &source.body {
        Body::Dir(list) => {
            let res = lay_all(list, path.as_str(), out);
            proof {
                if let Ok(inner) = laid_out(list@, own.path) {
                    assert(before + seq![own] + inner =~= before + (seq![own] + inner));
                }
            }
            res
        },
        _ => Ok(()),
    }
}

/// An entry that cannot be created among the first sources is the first of all.
proof fn lemma_refused_early(
    sources: Seq<Source>,
    order: Seq<usize>,
    k: nat,
    n: nat,
    dir: Seq<char>,
)
    requires
        k <= n,
        laid_first(sources, order, k, dir) is Err,
    ensures
        laid_first(sources, order, n, dir) == laid_first(sources, order, k, dir),
    decreases n,
{
    if k < n {
        lemma_refused_early(sources, order, k, (n - 1) as nat, dir);
    }
}

/// Append the entries for all sources of the directory `dir`.
fn lay_all(sources: &Vec<Source>, dir: &str, out: &mut Vec<Entry>) -> (res: Result<(), PlanError>)
    ensures
        match laid_out(sources@, dir@) {
            Ok(more) => res is Ok && items(final(out)@) == items(old(out)@) + more,
            Err(refusal) => res matches Err(e) && e@ == refusal,
        },
    decreases sources@, 1nat,
{
    let keys: Vec<Vec<u8>> = names_of(sources);
    let order: Vec<usize> = sort(&keys);
    let ghost n = sources@.len();
    let mut k: usize = 0;
    proof {
        assert(keys@.len() == order::seqs(keys@).len() && n == names(sources@).len());
        assert(items(out@) =~= items(old(out)@) + Seq::<Item>::empty());
    }
    while k < order.len()
        invariant
            k <= order@.len(),
            n == sources@.len(),
            order@.len() == n,
            order@ == order::order_of(names(sources@)),
            forall|i: int| 0 <= i < n ==> 0 <= #[trigger] order@[i] < n,
            laid_first(sources@, order@, k as nat, dir@) matches Ok(more) && items(out@) == items(
                old(out)@,
            ) + more,
        decreases order@.len() - k,
    {
        let ghost before = laid_first(sources@, order@, k as nat, dir@)->Ok_0;
        let at: usize = order[k];
        match lay_one(&sources[at], dir, out) {
            Ok(()) => {
                proof {
                    let inner = laid_one(sources@[at as int], dir@)->Ok_0;
                    assert(items(old(out)@) + before + inner =~= items(old(out)@) + (before
                        + inner));
                }
            },
            Err(e) => {
                proof {
                    lemma_refused_early(sources@, order@, (k + 1) as nat, n, dir@);
                }
                return Err(e);
            },
        }
        k = k + 1;
    }
    Ok(())
}

/// Plan the entries of a volume that mirrors a tree, in the order in which they are
/// created.
pub fn plan_tree(root: &Vec<Source>) -> (res: Result<Vec<Entry>, PlanError>)
    ensures
        match laid_out(root@, Seq::empty()) {
            Ok(all) => res matches Ok(entries) && items(entries@) == all,
            Err(refusal) => res matches Err(e) && e@ == refusal,
        },
        res matches Ok(entries) ==> forall|way: Seq<int>|
            (#[trigger] walk::source_at(root@, way)) is Some && walk::named(root@, way) ==> exists|
                k: int,
            |
                0 <= k < entries@.len() && #[trigger] walk::made_for(
                    entries@[k],
                    walk::source_at(root@, way)->0,
                    walk::path_at(root@, way),
                ),
        res is Err <== exists|way: Seq<int>, fault: Fault|
            (#[trigger] walk::source_at(root@, way)) is Some && walk::named(root@, way)
                && #[trigger] walk::is_faulty(walk::source_at(root@, way)->0, fault),
{
    let mut entries: Vec<Entry> = Vec::new();
    proof {
        reveal_strlit("");
        assert(""@ =~= Seq::<char>::empty());
    }
    proof {
        assert(root@.len() == root.len());
        assert forall|way: Seq<int>, fault: Fault|
            (#[trigger] walk::source_at(root@, way)) is Some && walk::named(root@, way)
                && #[trigger] walk::is_faulty(
                walk::source_at(root@, way)->0,
                fault,
            ) implies laid_out(root@, Seq::empty()) is Err by {
            walk::faulty_sources_are_refused(root@, way, fault);
        }
    }
    match lay_all(root, "", &mut entries) {
        Ok(()) => {
            proof {
                let all = laid_out(root@, Seq::empty())->Ok_0;
                assert(items(entries@) =~= all);
                assert forall|way: Seq<int>|
                    (#[trigger] walk::source_at(root@, way)) is Some && walk::named(
                        root@,
                        way,
                    ) implies exists|k: int|
                    0 <= k < entries@.len() && #[trigger] walk::made_for(
                        entries@[k],
                        walk::source_at(root@, way)->0,
                        walk::path_at(root@, way),
                    ) by {
                    walk::every_source_has_its_entry(root@, way);
                    let source = walk::source_at(root@, way)->0;
                    let path = walk::path_at(root@, way);
                    let k = choose|k: int|
                        0 <= k < all.len() && #[trigger] walk::stands_for(all[k], source, path);
                    assert(items(entries@)[k] == entries@[k]@);
                    assert(walk::made_for(entries@[k], source, path));
                }
            }
            Ok(entries)
        },
        Err(e) => Err(e),
    }
}

/// How many of these entries have no commit time.
pub open spec fn uncommitted(entries: Seq<Item>) -> nat
    decreases entries.len(),
{
    if entries.len() == 0 {
        0
    } else if entries.last().committed {
        uncommitted(entries.drop_last())
    } else {
        uncommitted(entries.drop_last()) + 1
    }
}

/// Count the entries that have no commit time.
pub fn count_uncommitted(entries: &Vec<Entry>) -> (n: usize)
    ensures
        n == uncommitted(items(entries@)),
        n <= entries@.len(),
{
    let ghost all = items(entries@);
    let mut n: usize = 0;
    let mut i: usize = 0;
    assert(all.take(0) =~= Seq::<Item>::empty());
    while i < entries.len()
        invariant
            i <= entries@.len(),
            n <= i,
            all == items(entries@),
            n == uncommitted(all.take(i as int)),
        decreases entries@.len() - i,
    {
        assert(all.take(i + 1).drop_last() =~= all.take(i as int));
        if !entries[i].committed {
            n = n + 1;
        }
        i = i + 1;
    }
    assert(all.take(i as int) =~= all);
    n
}

/// The warning about `n` paths without history; none if there are none.
pub fn uncommitted_warning(n: usize) -> (warning: Option<String>)
    ensures
        match warning {
            Some(line) => n > 0 && line@ == text::decimal(n as nat)
                + " path(s) under assets/ had no git history; used the 1980-01-01 fallback timestamp for them"@,
            None => n == 0,
        },
{
    if n == 0 {
        return None;
    }
    let mut line = String::new();
    push_decimal(&mut line, n as u64);
    line.append(" path(s) under assets/ had no git history; used the 1980-01-01 fallback timestamp for them");
    assert(line@ =~= text::decimal(n as nat)
        + " path(s) under assets/ had no git history; used the 1980-01-01 fallback timestamp for them"@);
    Some(line)
}

/// A timestamp that a FAT volume can hold: not before its first year.
pub open spec fn is_fat_time(stamp: Stamp) -> bool {
    stamp.year >= stamp::MIN_YEAR
}

/// The timestamps of these entries can be held.
pub open spec fn dated(entries: Seq<Item>) -> bool {
    forall|i: int| 0 <= i < entries.len() ==> is_fat_time(#[trigger] entries[i].stamp)
}

/// The commit times of a source, and of all that is in it, can be held.
pub open spec fn dated_source(source: Source) -> bool
    decreases source, 0nat,
{
    &&& source.stamp matches Some(stamp) ==> is_fat_time(stamp)
    &&& source.body matches Body::Dir(list) ==> dated_sources(list@)
}

/// The commit times of these sources, and of all that is in them, can be held.
pub open spec fn dated_sources(sources: Seq<Source>) -> bool
    decreases sources, 1nat,
{
    forall|i: int| 0 <= i < sources.len() ==> dated_source(#[trigger] sources[i])
}

proof fn lemma_dated_one(source: Source, dir: Seq<char>)
    requires
        dated_source(source),
    ensures
        laid_one(source, dir) matches Ok(all) ==> dated(all),
    decreases source, 0nat, 0nat,
{
    if let Body::Dir(list) = source.body {
        lemma_dated_first(
            list@,
            order::order_of(names(list@)),
            list@.len(),
            own_item(source, dir).path,
        );
    }
}

proof fn lemma_dated_first(sources: Seq<Source>, order: Seq<usize>, k: nat, dir: Seq<char>)
    requires
        dated_sources(sources),
    ensures
        laid_first(sources, order, k, dir) matches Ok(all) ==> dated(all),
    decreases sources, 0nat, k,
{
    if k > 0 {
        lemma_dated_first(sources, order, (k - 1) as nat, dir);
        if order[k - 1] < sources.len() {
            lemma_dated_one(sources[order[k - 1] as int], dir);
        }
    }
}

/// Entries planned for a tree whose commit times can be held have timestamps that can be
/// held.
pub proof fn plans_keep_to_fat_time(root: Seq<Source>)
    requires
        dated_sources(root),
    ensures
        laid_out(root, Seq::empty()) matches Ok(all) ==> dated(all),
{
    lemma_dated_first(root, order::order_of(names(root)), root.len(), Seq::empty());
}

/// Entry `i` lies directly in the directory `dir`, or directly in one that comes before
/// it.
pub open spec fn has_parent(all: Seq<Item>, dir: Seq<char>, i: int) -> bool {
    exists|name: Seq<char>| #[trigger] is_parent(all, dir, i, name)
}

/// Entry `i` is called `name` in the directory `dir`, or in one that comes before it.
pub open spec fn is_parent(all: Seq<Item>, dir: Seq<char>, i: int, name: Seq<char>) -> bool {
    ||| all[i].path == joined(dir, name)
    ||| exists|j: int|
        0 <= j < i && (#[trigger] all[j]).contents is None && all[i].path == joined(
            all[j].path,
            name,
        )
}

/// Every one of these entries lies directly in `dir`, or in a directory before it.
pub open spec fn parents_first(all: Seq<Item>, dir: Seq<char>) -> bool {
    forall|i: int| 0 <= i < all.len() ==> #[trigger] has_parent(all, dir, i)
}

/// Entries keep their parents when others come before them.
proof fn lemma_parents_behind(before: Seq<Item>, more: Seq<Item>, dir: Seq<char>)
    requires
        parents_first(before, dir),
        parents_first(more, dir),
    ensures
        parents_first(before + more, dir),
{
    let all = before + more;
    assert forall|i: int| 0 <= i < all.len() implies #[trigger] has_parent(all, dir, i) by {
        if i < before.len() {
            assert(has_parent(before, dir, i));
            let name = choose|name: Seq<char>| #[trigger] is_parent(before, dir, i, name);
            if all[i].path != joined(dir, name) {
                let j = choose|j: int|
                    0 <= j < i && (#[trigger] before[j]).contents is None && before[i].path
                        == joined(before[j].path, name);
                assert(all[j] == before[j]);
            }
            assert(is_parent(all, dir, i, name));
        } else {
            let m = i - before.len();
            assert(has_parent(more, dir, m));
            let name = choose|name: Seq<char>| #[trigger] is_parent(more, dir, m, name);
            if all[i].path != joined(dir, name) {
                let j = choose|j: int|
                    0 <= j < m && (#[trigger] more[j]).contents is None && more[m].path == joined(
                        more[j].path,
                        name,
                    );
                assert(all[before.len() + j] == more[j]);
            }
            assert(is_parent(all, dir, i, name));
        }
    }
}

/// Entries of a directory have it as their parent when it comes before them.
proof fn lemma_parents_inside(own: Item, inner: Seq<Item>, dir: Seq<char>, name: Seq<char>)
    requires
        own.contents is None,
        own.path == joined(dir, name),
        parents_first(inner, own.path),
    ensures
        parents_first(seq![own] + inner, dir),
{
    let all = seq![own] + inner;
    assert forall|i: int| 0 <= i < all.len() implies #[trigger] has_parent(all, dir, i) by {
        if i == 0 {
            assert(is_parent(all, dir, 0, name));
        } else {
            assert(has_parent(inner, own.path, i - 1));
            let n = choose|n: Seq<char>| #[trigger] is_parent(inner, own.path, i - 1, n);
            assert(all[i] == inner[i - 1]);
            if inner[i - 1].path == joined(own.path, n) {
                assert(all[0] == own);
            } else {
                let j = choose|j: int|
                    0 <= j < i - 1 && (#[trigger] inner[j]).contents is None && inner[i - 1].path
                        == joined(inner[j].path, n);
                assert(all[j + 1] == inner[j]);
            }
            assert(is_parent(all, dir, i, n));
        }
    }
}

proof fn lemma_parents_one(source: Source, dir: Seq<char>)
    ensures
        laid_one(source, dir) matches Ok(all) ==> parents_first(all, dir),
    decreases source, 0nat, 0nat,
{
    let own = own_item(source, dir);
    let name = vstd::utf8::decode_utf8(source.name@);
    if let Ok(all) = laid_one(source, dir) {
        match source.body {
            Body::Dir(list) => {
                lemma_parents_of(list@, order::order_of(names(list@)), list@.len(), own.path);
                lemma_parents_inside(own, laid_out(list@, own.path)->Ok_0, dir, name);
            },
            _ => {
                assert(is_parent(all, dir, 0, name));
            },
        }
    }
}

proof fn lemma_parents_of(sources: Seq<Source>, order: Seq<usize>, k: nat, dir: Seq<char>)
    ensures
        laid_first(sources, order, k, dir) matches Ok(all) ==> parents_first(all, dir),
    decreases sources, 0nat, k,
{
    if k > 0 {
        lemma_parents_of(sources, order, (k - 1) as nat, dir);
        if order[k - 1] < sources.len() {
            let source = sources[order[k - 1] as int];
            lemma_parents_one(source, dir);
            if laid_first(sources, order, k, dir) is Ok {
                lemma_parents_behind(
                    laid_first(sources, order, (k - 1) as nat, dir)->Ok_0,
                    laid_one(source, dir)->Ok_0,
                    dir,
                );
            }
        }
    }
}

/// Directories are created before what is in them: every entry of a plan lies in the root,
/// or in a directory that comes before it.
pub proof fn directories_come_first(root: Seq<Source>)
    ensures
        laid_out(root, Seq::empty()) matches Ok(all) ==> parents_first(all, Seq::empty()),
{
    lemma_parents_of(root, order::order_of(names(root)), root.len(), Seq::empty());
}

/// These entries hold others in one piece, from `at` on.
pub open spec fn holds_at(all: Seq<Item>, piece: Seq<Item>, at: int) -> bool {
    &&& 0 <= at
    &&& at + piece.len() <= all.len()
    &&& all.subrange(at, at + piece.len()) == piece
}

/// The source that is taken `k`-th is laid out in one piece among the first `n`.
pub proof fn lemma_in_one_piece(
    sources: Seq<Source>,
    order: Seq<usize>,
    k: int,
    n: nat,
    dir: Seq<char>,
) -> (at: int)
    requires
        0 <= k < n,
        order[k] < sources.len(),
        laid_first(sources, order, n, dir) is Ok,
    ensures
        laid_one(sources[order[k] as int], dir) matches Ok(piece) && holds_at(
            laid_first(sources, order, n, dir)->Ok_0,
            piece,
            at,
        ),
    decreases n,
{
    let all = laid_first(sources, order, n, dir)->Ok_0;
    let before = laid_first(sources, order, (n - 1) as nat, dir)->Ok_0;
    if k == n - 1 {
        let piece = laid_one(sources[order[k] as int], dir)->Ok_0;
        assert(all.subrange(before.len() as int, (before.len() + piece.len()) as int) =~= piece);
        before.len() as int
    } else {
        let at = lemma_in_one_piece(sources, order, k, (n - 1) as nat, dir);
        let piece = laid_one(sources[order[k] as int], dir)->Ok_0;
        assert(all.subrange(at, at + piece.len()) =~= before.subrange(at, at + piece.len()));
        at
    }
}

/// Every source of a directory is created, with all that is in it, in one piece: a file
/// with its contents, a directory with its contents right behind it.
pub proof fn every_source_is_created(sources: Seq<Source>, dir: Seq<char>, i: int)
    requires
        0 <= i < sources.len() <= usize::MAX,
        laid_out(sources, dir) is Ok,
    ensures
        laid_one(sources[i], dir) matches Ok(piece) && exists|at: int| #[trigger]
            holds_at(laid_out(sources, dir)->Ok_0, piece, at),
{
    let order = order::order_of(names(sources));
    order::order_exists(names(sources));
    assert(order.contains(i as usize));
    let k = choose|k: int| 0 <= k < order.len() && order[k] == i as usize;
    let at = lemma_in_one_piece(sources, order, k, sources.len(), dir);
    assert(holds_at(laid_out(sources, dir)->Ok_0, laid_one(sources[i], dir)->Ok_0, at));
}

} // verus!
