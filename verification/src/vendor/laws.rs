//! What holds of lock files.

use vstd::prelude::*;

use super::digest;
use super::files;
use super::lock;
use super::lock::Pinned;
use super::relock;
use crate::text;
use crate::text_laws;

verus! {

/// A text of one line.
pub open spec fn one_line(s: Seq<char>) -> bool {
    forall|i: int| 0 <= i < s.len() ==> #[trigger] s[i] != '\n'
}

/// A file that was locked: it has a digest, and it is one that is consumed.
pub open spec fn is_lockable(entry: Pinned) -> bool {
    &&& exists|bytes: Seq<u8>| bytes.len() > 0 && entry.0 == #[trigger] digest::hex_text(bytes)
    &&& files::consumed(entry.1)
    &&& one_line(entry.1)
}

/// The first `n` characters are no line ends.
spec fn no_line_end(s: Seq<char>, n: nat) -> bool
    decreases n,
{
    n == 0 || (s[n - 1] != '\n' && no_line_end(s, (n - 1) as nat))
}

proof fn lemma_no_line_end(s: Seq<char>, n: nat)
    requires
        no_line_end(s, n),
    ensures
        forall|i: int| 0 <= i < n ==> #[trigger] s[i] != '\n',
    decreases n,
{
    if n > 0 {
        lemma_no_line_end(s, (n - 1) as nat);
    }
}

/// A line of the head of a lock file is a comment.
#[verifier::spinoff_prover]
proof fn lemma_head_line(i: int, version: Seq<char>)
    requires
        0 <= i < 7,
        one_line(version),
    ensures
        relock::head_line(i, version).len() > 0,
        relock::head_line(i, version)[0] == '#',
        one_line(relock::head_line(i, version)),
{
    reveal_strlit("# SEGGER emUSB-Device vendored-file lock -- DO NOT edit by hand.");
    reveal_strlit("# Regenerate with `cargo xtask relock-segger` after a sanctioned");
    reveal_strlit("# version bump. These files are NOT committed (SFL forbids it);");
    reveal_strlit("# this lock only pins their identity. See docs/SEGGER_SETUP.md.");
    reveal_strlit("# bundle = SEGGER emPower, Embedded Studio (2023-06-26)");
    reveal_strlit("# bundle_md5 = f0cc414564ea198195c44e5f8c09e409");
    reveal_strlit("# emusb_device_version = ");
    reveal_with_fuel(no_line_end, 70);
    let line = relock::head_line(i, version);
    let fixed = if i < 6 {
        line
    } else {
        "# emusb_device_version = "@
    };
    assert(no_line_end(fixed, fixed.len()));
    lemma_no_line_end(fixed, fixed.len());
    assert forall|k: int| 0 <= k < line.len() implies #[trigger] line[k] != '\n' by {
        if i == 6 && k >= fixed.len() {
            assert(line[k] == version[k - fixed.len()]);
        } else {
            assert(line[k] == fixed[k]);
        }
    }
}

/// A line in front of a text is the first of its lines.
proof fn lemma_split_line(line: Seq<char>, rest: Seq<char>)
    requires
        one_line(line),
    ensures
        text::split(line.push('\n') + rest, '\n') == seq![line] + text::split(rest, '\n'),
{
    let s = line.push('\n') + rest;
    let n = line.len() as int;
    assert forall|i: int| 0 <= i < n implies s[i] != '\n' by {
        assert(s[i] == line[i]);
    }
    assert(s[n] == '\n');
    text::lemma_until_is(s, '\n', n);
    assert(s.take(n) =~= line);
    assert(s.skip(n + 1) =~= rest);
}

/// Ended lines, the first one taken apart.
proof fn lemma_joined_front(lines: Seq<Seq<char>>)
    requires
        lines.len() > 0,
    ensures
        relock::joined(lines) == lines[0].push('\n') + relock::joined(lines.skip(1)),
    decreases lines.len(),
{
    if lines.len() == 1 {
        assert(lines.drop_last() =~= Seq::<Seq<char>>::empty());
        assert(lines.skip(1) =~= Seq::<Seq<char>>::empty());
        assert(relock::joined(lines) =~= lines[0].push('\n') + relock::joined(lines.skip(1)));
    } else {
        lemma_joined_front(lines.drop_last());
        assert(lines.drop_last().skip(1) =~= lines.skip(1).drop_last());
        assert(relock::joined(lines) =~= lines[0].push('\n') + relock::joined(lines.skip(1)));
    }
}

/// The lines of ended lines are those lines, and an empty one behind them.
proof fn lemma_split_joined(lines: Seq<Seq<char>>)
    requires
        forall|i: int| 0 <= i < lines.len() ==> one_line(#[trigger] lines[i]),
    ensures
        text::split(relock::joined(lines), '\n') == lines.push(Seq::empty()),
    decreases lines.len(),
{
    if lines.len() == 0 {
        assert(text::split(relock::joined(lines), '\n') =~= lines.push(Seq::empty()));
    } else {
        lemma_joined_front(lines);
        assert(one_line(lines[0]));
        lemma_split_line(lines[0], relock::joined(lines.skip(1)));
        assert forall|i: int| 0 <= i < lines.skip(1).len() implies one_line(
            #[trigger] lines.skip(1)[i],
        ) by {
            assert(one_line(lines[i + 1]));
        }
        lemma_split_joined(lines.skip(1));
        assert(seq![lines[0]] + lines.skip(1).push(Seq::empty()) =~= lines.push(Seq::empty()));
    }
}

/// A text that begins with a visible character still does once it is trimmed.
proof fn lemma_trim_end_first(s: Seq<char>)
    requires
        s.len() > 0,
        !text::is_white(s[0]),
    ensures
        text::trim_end(s).len() > 0,
        text::trim_end(s)[0] == s[0],
    decreases s.len(),
{
    if text::is_white(s.last()) {
        lemma_trim_end_first(s.drop_last());
    }
}

/// The line of a locked file says what was locked.
proof fn lemma_entry_line(entry: Pinned)
    requires
        is_lockable(entry),
    ensures
        lock::line_of(relock::entry_line(entry)) == lock::Line::Entry(entry),
        one_line(relock::entry_line(entry)),
{
    let line = relock::entry_line(entry);
    let bytes = choose|bytes: Seq<u8>|
        bytes.len() > 0 && entry.0 == #[trigger] digest::hex_text(bytes);
    digest::lemma_hex_chars(bytes);
    files::lemma_consumed_ends(entry.1);
    let n = entry.0.len() as int;
    assert forall|i: int| 0 <= i < n implies {
        let c = #[trigger] line[i];
        ('0' <= c <= '9') || ('a' <= c <= 'f')
    } by {
        assert(line[i] == digest::hex_text(bytes)[i]);
    }
    assert(line.last() == entry.1.last());
    assert(text::trimmed(line) == line);
    assert(line[n] == ' ' && line[n + 1] == ' ');
    text::lemma_before_pair(line, ' ', n);
    assert(line.take(n) =~= entry.0);
    assert(line.skip(n + 2) =~= entry.1);
    assert forall|i: int| 0 <= i < line.len() implies #[trigger] line[i] != '\n' by {
        if i >= n + 2 {
            assert(line[i] == entry.1[i - n - 2]);
        }
    }
}

/// The first lines of a lock file name the first files.
proof fn lemma_locked(entries: Seq<Pinned>, version: Seq<char>, k: int)
    requires
        forall|i: int| 0 <= i < entries.len() ==> is_lockable(#[trigger] entries[i]),
        one_line(version),
        0 <= k <= 7 + entries.len(),
    ensures
        lock::locked(relock::lock_lines(entries, version).take(k)) == Ok::<Seq<Pinned>, Seq<char>>(
            if k <= 7 {
                Seq::empty()
            } else {
                entries.take(k - 7)
            },
        ),
    decreases k,
{
    let lines = relock::lock_lines(entries, version);
    if k > 0 {
        lemma_locked(entries, version, k - 1);
        assert(lines.take(k).drop_last() =~= lines.take(k - 1));
        let line = lines.take(k).last();
        assert(line == lines[k - 1]);
        if k <= 7 {
            lemma_head_line(k - 1, version);
            assert(line == relock::head_line(k - 1, version));
            lemma_trim_end_first(line);
        } else {
            assert(is_lockable(entries[k - 8]));
            lemma_entry_line(entries[k - 8]);
            assert(line == relock::entry_line(entries[k - 8]));
            let before: Seq<Pinned> = if k - 1 <= 7 {
                Seq::empty()
            } else {
                entries.take(k - 8)
            };
            assert(before.push(entries[k - 8]) =~= entries.take(k - 7));
        }
    }
}

/// A lock file reads back as what was locked: the same files in the same order, whatever
/// the version.
pub proof fn lock_files_read_back(entries: Seq<Pinned>, version: Seq<char>)
    requires
        forall|i: int| 0 <= i < entries.len() ==> is_lockable(#[trigger] entries[i]),
        one_line(version),
    ensures
        lock::locked(text::split(relock::lock_text(entries, version), '\n')) == Ok::<
            Seq<Pinned>,
            Seq<char>,
        >(entries),
{
    let lines = relock::lock_lines(entries, version);
    assert forall|i: int| 0 <= i < lines.len() implies one_line(#[trigger] lines[i]) by {
        if i < 7 {
            lemma_head_line(i, version);
            assert(lines[i] == relock::head_line(i, version));
        } else {
            assert(is_lockable(entries[i - 7]));
            lemma_entry_line(entries[i - 7]);
            assert(lines[i] == relock::entry_line(entries[i - 7]));
        }
    }
    lemma_split_joined(lines);
    let all = lines.push(Seq::empty());
    lemma_locked(entries, version, 7 + entries.len() as int);
    assert(lines.take(7 + entries.len() as int) =~= lines);
    assert(all.drop_last() =~= lines);
    assert(all.last() =~= Seq::<char>::empty());
    if entries.len() == 0 {
        assert(entries =~= Seq::<Pinned>::empty());
    } else {
        assert(entries.take(entries.len() as int) =~= entries);
    }
}

/// Files that are as they were when they were locked match the lock file; a file that is
/// missing, or has another digest, is a mismatch.
pub proof fn locked_files_match(entries: Seq<Pinned>, files: Seq<Option<Seq<u8>>>, n: int)
    requires
        0 <= n <= entries.len(),
        entries.len() == files.len(),
    ensures
        lock::mismatches(entries, files, n).len() == 0 <==> (forall|i: int|
            0 <= i < n ==> lock::is_locked_file(#[trigger] entries[i], files[i])),
    decreases n,
{
    if n > 0 {
        locked_files_match(entries, files, n - 1);
    }
}

/// A file differs from the lock file exactly if it is missing, or the SHA-256 of all of its
/// contents, in hexadecimal, is not the hash that was locked. Each that does is told once,
/// in the order of the lock file.
pub proof fn files_differ_by_their_digests(
    entries: Seq<Pinned>,
    files: Seq<Option<Seq<u8>>>,
    n: int,
    i: int,
)
    requires
        0 <= n <= entries.len(),
        entries.len() == files.len(),
    ensures
        lock::mismatches(entries, files, n).contains(i) <==> 0 <= i < n && (files[i] is None
            || digest::hex_text(digest::sha256_digest(files[i]->0)) != entries[i].0),
        forall|a: int, b: int|
            0 <= a < b < lock::mismatches(entries, files, n).len() ==> lock::mismatches(
                entries,
                files,
                n,
            )[a] < lock::mismatches(entries, files, n)[b],
        forall|a: int|
            0 <= a < lock::mismatches(entries, files, n).len() ==> 0 <= #[trigger] lock::mismatches(
                entries,
                files,
                n,
            )[a] < n,
    decreases n,
{
    if n > 0 {
        files_differ_by_their_digests(entries, files, n - 1, i);
        let before = lock::mismatches(entries, files, n - 1);
        let all = lock::mismatches(entries, files, n);
        assert(all == before || all == before.push(n - 1));
        assert forall|a: int| 0 <= a < all.len() implies 0 <= #[trigger] all[a] < n by {
            if a < before.len() {
                assert(all[a] == before[a]);
                assert(0 <= before[a]);
            }
        }
        if all == before.push(n - 1) {
            assert(all[before.len() as int] == n - 1);
            assert(all.contains(i) <==> before.contains(i) || i == n - 1) by {
                if before.contains(i) {
                    let k = choose|k: int| 0 <= k < before.len() && before[k] == i;
                    assert(all[k] == i);
                }
                if all.contains(i) {
                    let k = choose|k: int| 0 <= k < all.len() && all[k] == i;
                    if k < before.len() {
                        assert(before[k] == i);
                    }
                }
            }
        }
    }
}

/// What locking files writes down of their contents and paths.
pub open spec fn locked_as(contents: Seq<Seq<u8>>, paths: Seq<Seq<char>>) -> Seq<Pinned> {
    Seq::new(
        contents.len(),
        |i: int| (digest::hex_text(digest::sha256_digest(contents[i])), paths[i]),
    )
}

/// These files, all of them there.
pub open spec fn present(contents: Seq<Seq<u8>>) -> Seq<Option<Seq<u8>>> {
    Seq::new(contents.len(), |i: int| Some(contents[i]))
}

/// Files match right after they were locked, whatever is in them.
pub proof fn relocked_files_match(contents: Seq<Seq<u8>>, paths: Seq<Seq<char>>)
    requires
        contents.len() == paths.len(),
    ensures
        lock::mismatches(
            locked_as(contents, paths),
            present(contents),
            contents.len() as int,
        ).len() == 0,
{
    let entries = locked_as(contents, paths);
    let files = present(contents);
    let n = contents.len() as int;
    let differ = lock::mismatches(entries, files, n);
    if differ.len() > 0 {
        files_differ_by_their_digests(entries, files, n, differ[0]);
        assert(differ.contains(differ[0]));
        let i = differ[0];
        assert(files[i] == Some(contents[i]));
    }
}

/// A build passes right after its files were locked: the lock file that was written for
/// them is met by their contents, whatever these are.
pub proof fn builds_pass_after_relocking(
    contents: Seq<Seq<u8>>,
    paths: Seq<Seq<char>>,
    version: Seq<char>,
    check: lock::LockCheck,
)
    requires
        contents.len() == paths.len(),
        forall|i: int|
            0 <= i < paths.len() ==> files::consumed(#[trigger] paths[i]) && one_line(paths[i]),
        one_line(version),
    ensures
        (forall|i: int|
            0 <= i < contents.len() ==> #[trigger] digest::sha256_digest(contents[i]).len() > 0)
            && lock::is_lock_check(
            Some(relock::lock_text(locked_as(contents, paths), version)),
            present(contents),
            check,
        ) ==> check is Pass,
{
    let entries = locked_as(contents, paths);
    if forall|i: int|
        0 <= i < contents.len() ==> #[trigger] digest::sha256_digest(contents[i]).len() > 0 {
        assert forall|i: int| 0 <= i < entries.len() implies is_lockable(#[trigger] entries[i]) by {
            assert(files::consumed(paths[i]) && one_line(paths[i]));
            assert(digest::sha256_digest(contents[i]).len() > 0);
            assert(entries[i].0 == digest::hex_text(digest::sha256_digest(contents[i])));
        }
        lock_files_read_back(entries, version);
        relocked_files_match(contents, paths);
    }
}

/// A build fails where a file that the lock file names is missing, or differs.
pub proof fn builds_fail_on_other_files(
    lock: Seq<char>,
    entries: Seq<Pinned>,
    files: Seq<Option<Seq<u8>>>,
    i: int,
    check: lock::LockCheck,
)
    requires
        lock::locked(text::split(lock, '\n')) == Ok::<Seq<Pinned>, Seq<char>>(entries),
        entries.len() == files.len(),
        0 <= i < entries.len(),
    ensures
        (files[i] is None || digest::hex_text(digest::sha256_digest(files[i]->0)) != entries[i].0)
            && lock::is_lock_check(Some(lock), files, check) ==> check is Fail,
{
    files_differ_by_their_digests(entries, files, entries.len() as int, i);
    let differ = lock::mismatches(entries, files, entries.len() as int);
    if differ.len() == 0 {
        assert(!differ.contains(i));
    }
}

/// A lock file is read line by line: the files that its first lines name, then those that
/// the others name; the first malformed line ends it.
pub proof fn lock_files_are_read_in_order(a: Seq<Seq<char>>, b: Seq<Seq<char>>)
    ensures
        match (lock::locked(a), lock::locked(b)) {
            (Err(line), _) => lock::locked(a + b) == Err::<Seq<Pinned>, Seq<char>>(line),
            (Ok(x), Ok(y)) => lock::locked(a + b) == Ok::<Seq<Pinned>, Seq<char>>(x + y),
            (Ok(_), Err(line)) => lock::locked(a + b) == Err::<Seq<Pinned>, Seq<char>>(line),
        },
    decreases b.len(),
{
    if b.len() == 0 {
        assert(a + b =~= a);
        if let Ok(x) = lock::locked(a) {
            assert(x + Seq::<Pinned>::empty() =~= x);
        }
    } else {
        lock_files_are_read_in_order(a, b.drop_last());
        assert((a + b).drop_last() =~= a + b.drop_last());
        assert((a + b).last() == b.last());
        if let (Ok(x), Ok(y)) = (lock::locked(a), lock::locked(b.drop_last())) {
            if let lock::Line::Entry(entry) = lock::line_of(b.last()) {
                assert((x + y).push(entry) =~= x + y.push(entry));
            }
        }
    }
}

/// One line by itself: white space around it does not count. An empty line and a comment
/// name no file.
pub proof fn comments_name_no_file(pre: Seq<char>, comment: Seq<char>)
    requires
        text_laws::all_white(pre),
        comment.len() > 0 ==> comment[0] == '#',
    ensures
        lock::locked(seq![pre + comment]) == Ok::<Seq<Pinned>, Seq<char>>(Seq::empty()),
{
    let raw = pre + comment;
    let lines = seq![raw];
    assert(lock::locked(lines.drop_last()) == Ok::<Seq<Pinned>, Seq<char>>(Seq::empty()));
    if comment.len() == 0 {
        text_laws::trimming_takes_white_space_away(pre, comment, Seq::empty());
        assert(pre + comment + Seq::<char>::empty() =~= raw);
    } else {
        text_laws::lemma_trim_start(pre, comment);
        lemma_trim_end_first(comment);
    }
}

/// One line by itself: a hash, two spaces and a path name a file.
pub proof fn entry_lines_name_a_file(
    pre: Seq<char>,
    hash: Seq<char>,
    path: Seq<char>,
    post: Seq<char>,
)
    requires
        text_laws::all_white(pre),
        text_laws::all_white(post),
        hash.len() > 0,
        hash[0] != '#',
        text_laws::no_white(hash),
        path.len() > 0,
        !text::is_white(path.last()),
    ensures
        lock::locked(seq![pre + (hash + seq![' ', ' '] + path) + post]) == Ok::<
            Seq<Pinned>,
            Seq<char>,
        >(seq![(hash, path)]),
{
    let line = hash + seq![' ', ' '] + path;
    let raw = pre + line + post;
    let lines = seq![raw];
    assert(lock::locked(lines.drop_last()) == Ok::<Seq<Pinned>, Seq<char>>(Seq::empty()));
    assert(line[0] == hash[0]);
    assert(line.last() == path.last());
    text_laws::trimming_takes_white_space_away(pre, line, post);
    text_laws::the_first_pair_is_found(hash, path, ' ');
    assert(line.take(hash.len() as int) =~= hash);
    assert(line.skip(hash.len() as int + 2) =~= path);
    assert(Seq::<Pinned>::empty().push((hash, path)) =~= seq![(hash, path)]);
}

/// One line by itself: anything without two spaces in a row is malformed, and told without
/// the white space around it.
pub proof fn other_lines_are_malformed(pre: Seq<char>, line: Seq<char>, post: Seq<char>)
    requires
        text_laws::all_white(pre),
        text_laws::all_white(post),
        line.len() > 0,
        line[0] != '#',
        !text::is_white(line[0]),
        !text::is_white(line.last()),
        forall|i: int| 0 <= i < line.len() - 1 ==> !(#[trigger] line[i] == ' ' && line[i + 1] == ' '),
    ensures
        lock::locked(seq![pre + line + post]) == Err::<Seq<Pinned>, Seq<char>>(line),
{
    let raw = pre + line + post;
    let lines = seq![raw];
    assert(lock::locked(lines.drop_last()) == Ok::<Seq<Pinned>, Seq<char>>(Seq::empty()));
    text_laws::trimming_takes_white_space_away(pre, line, post);
    text_laws::the_first_pair_is_found(line, Seq::empty(), ' ');
}

/// Every file that differs is told on a line of its own.
pub proof fn differing_files_are_told(entries: Seq<Pinned>, a: Seq<int>, b: Seq<int>, i: int)
    requires
        0 <= i < entries.len(),
    ensures
        lock::mismatch_lines(entries, a + b) == lock::mismatch_lines(entries, a)
            + lock::mismatch_lines(entries, b),
        lock::mismatch_lines(entries, seq![i]) == "\n  mismatch: "@ + entries[i].1,
    decreases b.len(),
{
    if b.len() == 0 {
        assert(a + b =~= a);
        assert(lock::mismatch_lines(entries, a) + Seq::<char>::empty()
            =~= lock::mismatch_lines(entries, a));
    } else {
        differing_files_are_told(entries, a, b.drop_last(), i);
        assert((a + b).drop_last() =~= a + b.drop_last());
        assert(lock::mismatch_lines(entries, a + b) =~= lock::mismatch_lines(entries, a)
            + lock::mismatch_lines(entries, b));
    }
    let one = seq![i];
    assert(one.drop_last() =~= Seq::<int>::empty());
    assert(one.last() == i);
    assert(lock::mismatch_lines(entries, one.drop_last()) == Seq::<char>::empty());
    assert(lock::mismatch_lines(entries, seq![i]) =~= "\n  mismatch: "@ + entries[i].1);
}

/// What a build makes of its lock file: without one it goes on with a warning, with a
/// malformed one it fails and tells the line, and else it passes exactly if every file is
/// there and has the SHA-256 that was locked.
pub proof fn builds_pass_if_all_files_match(
    lock: Seq<char>,
    files: Seq<Option<Seq<u8>>>,
    check: lock::LockCheck,
)
    ensures
        lock::is_lock_check(None, files, check) ==> check is Warn,
        lock::is_lock_check(Some(lock), files, check) ==> match lock::locked(
            text::split(lock, '\n'),
        ) {
            Err(line) => check matches lock::LockCheck::Fail(message) && message@
                == "malformed lock line: "@ + line,
            Ok(entries) => entries.len() == files.len() ==> !(check is Warn) && (check is Pass
                <==> forall|i: int|
                0 <= i < entries.len() ==> (#[trigger] files[i]) is Some && digest::hex_text(
                    digest::sha256_digest(files[i]->0),
                ) == entries[i].0),
        },
{
    if let Ok(entries) = lock::locked(text::split(lock, '\n')) {
        if entries.len() == files.len() {
            let n = entries.len() as int;
            let differ = lock::mismatches(entries, files, n);
            if differ.len() > 0 {
                let i = differ[0];
                files_differ_by_their_digests(entries, files, n, i);
                assert(differ.contains(i));
                assert(files[i] is None || digest::hex_text(digest::sha256_digest(files[i]->0))
                    != entries[i].0);
            } else {
                assert forall|i: int| 0 <= i < n implies (#[trigger] files[i]) is Some
                    && digest::hex_text(digest::sha256_digest(files[i]->0)) == entries[i].0 by {
                    files_differ_by_their_digests(entries, files, n, i);
                    assert(!differ.contains(i));
                }
            }
        }
    }
}

/// The lines of a lock file: seven of comment, of which the last names the version, and then
/// one for each file, its hash and its path with two spaces between them.
pub proof fn lock_files_have_a_line_for_each_file(entries: Seq<Pinned>, version: Seq<char>, i: int)
    requires
        forall|i: int| 0 <= i < entries.len() ==> is_lockable(#[trigger] entries[i]),
        one_line(version),
        0 <= i < entries.len(),
    ensures
        ({
            let lines = text::split(relock::lock_text(entries, version), '\n');
            &&& lines.len() == 8 + entries.len()
            &&& lines[6] == "# emusb_device_version = "@ + version
            &&& lines[7 + i] == entries[i].0 + seq![' ', ' '] + entries[i].1
            &&& lines.last().len() == 0
        }),
{
    let lines = relock::lock_lines(entries, version);
    assert forall|k: int| 0 <= k < lines.len() implies one_line(#[trigger] lines[k]) by {
        if k < 7 {
            lemma_head_line(k, version);
            assert(lines[k] == relock::head_line(k, version));
        } else {
            assert(is_lockable(entries[k - 7]));
            lemma_entry_line(entries[k - 7]);
            assert(lines[k] == relock::entry_line(entries[k - 7]));
        }
    }
    lemma_split_joined(lines);
    assert(lines[6] == relock::head_line(6, version));
    assert(lines[7 + i] == relock::entry_line(entries[i]));
}

/// What a locked file says is its hash and its path.
pub proof fn locked_files_say_their_fields(entries: Seq<lock::LockEntry>, i: int)
    requires
        0 <= i < entries.len(),
    ensures
        lock::pinned(entries).len() == entries.len(),
        lock::pinned(entries)[i] == (entries[i].hash@, entries[i].rel@),
{
}

} // verus!
