//! Writing the lock file.

use vstd::prelude::*;

use super::laws;
use super::lock;
use super::lock::{LockEntry, Pinned};
use crate::order;
use crate::order::sort;
use crate::text;
use crate::text::{chars_of, pair_place, parse_decimal, push_decimal, split_at_char, starts_with, trim};
use crate::text_laws;

verus! {

/// The version that a line defines `USB_VERSION` to be, if it does.
pub open spec fn version_in(raw: Seq<char>) -> Option<nat> {
    let line = text::trimmed(raw);
    if "#define USB_VERSION"@.is_prefix_of(line) {
        let rest = line.skip("#define USB_VERSION"@.len() as int);
        let token = text::trimmed(rest.take(text::before_pair(rest, '/') as int));
        let digits = token.take(digit_count(token) as int);
        if digits.len() > 0 && text::value(digits) <= u32::MAX {
            Some(text::value(digits))
        } else {
            None
        }
    } else {
        None
    }
}

/// How many decimal digits a text begins with.
pub open spec fn digit_count(s: Seq<char>) -> nat
    decreases s.len(),
{
    if s.len() == 0 || !text::is_digit(s[0]) {
        0
    } else {
        digit_count(s.skip(1)) + 1
    }
}

/// The first version that the lines of a header define.
pub open spec fn first_version(lines: Seq<Seq<char>>) -> Option<nat>
    decreases lines.len(),
{
    if lines.len() == 0 {
        None
    } else {
        match version_in(lines[0]) {
            Some(version) => Some(version),
            None => first_version(lines.skip(1)),
        }
    }
}

/// A version number as text: 36000 is 3.60.0.
pub open spec fn version_text(v: nat) -> Seq<char> {
    text::decimal(v / 10000) + seq!['.'] + text::decimal(v / 100 % 100) + seq!['.'] + text::decimal(
        v % 100,
    )
}

proof fn lemma_digit_count(s: Seq<char>, n: int)
    requires
        0 <= n <= s.len(),
        forall|i: int| 0 <= i < n ==> text::is_digit(#[trigger] s[i]),
        n < s.len() ==> !text::is_digit(s[n]),
    ensures
        digit_count(s) == n,
    decreases s.len(),
{
    if n > 0 {
        let rest = s.skip(1);
        assert forall|i: int| 0 <= i < n - 1 implies text::is_digit(#[trigger] rest[i]) by {
            assert(rest[i] == s[i + 1]);
        }
        assert(text::is_digit(s[0]));
        lemma_digit_count(rest, n - 1);
    }
}

/// The version that a line defines, if it does.
fn parse_version_line(raw: &[char]) -> (version: Option<u32>)
    ensures
        match version {
            Some(v) => version_in(raw@) == Some(v as nat),
            None => version_in(raw@) is None,
        },
{
    let line: &[char] = trim(raw);
    if !starts_with(line, "#define USB_VERSION") {
        return None;
    }
    proof {
        reveal_strlit("#define USB_VERSION");
    }
    let rest = &line[19..line.len()];
    assert(rest@ =~= line@.skip(19));
    // e.g. "  36000uL // Format ...": drop the comment, take leading digits.
    let end: usize = pair_place(rest, '/');
    let front = &rest[0..end];
    assert(front@ =~= rest@.take(end as int));
    let token: &[char] = trim(front);
    let mut n: usize = 0;
    while n < token.len() && '0' <= token[n] && token[n] <= '9'
        invariant
            n <= token@.len(),
            forall|i: int| 0 <= i < n ==> text::is_digit(#[trigger] token@[i]),
        decreases token@.len() - n,
    {
        n = n + 1;
    }
    let digits = &token[0..n];
    proof {
        lemma_digit_count(token@, n as int);
        assert(digits@ =~= token@.take(n as int));
        assert(text::all_digits(digits@));
    }
    parse_decimal(digits, u32::MAX)
}

/// Read `USB_VERSION` from the text of a header (e.g. 36000 is "3.60.0").
pub fn read_usb_version(header: &str) -> (version: Option<String>)
    ensures
        match version {
            Some(s) => first_version(text::split(header@, '\n')) matches Some(v) && s@
                == version_text(v),
            None => first_version(text::split(header@, '\n')) is None,
        },
{
    let chars: Vec<char> = chars_of(header);
    let lines: Vec<Vec<char>> = split_at_char(chars.as_slice(), '\n');
    let ghost all = text::split(header@, '\n');
    let mut i: usize = 0;
    proof {
        assert(lines@.len() == text::texts(lines@).len());
        assert(all.skip(0) =~= all);
    }
    while i < lines.len()
        invariant
            i <= lines@.len(),
            all == text::split(header@, '\n'),
            text::texts(lines@) == all,
            lines@.len() == all.len(),
            first_version(all) == first_version(all.skip(i as int)),
        decreases lines@.len() - i,
    {
        proof {
            assert(text::texts(lines@)[i as int] == lines@[i as int]@);
            assert(all.skip(i as int)[0] == all[i as int]);
            assert(all.skip(i as int).skip(1) =~= all.skip(i + 1));
        }
        if let Some(v) = parse_version_line(lines[i].as_slice()) {
            let mut s = String::new();
            push_decimal(&mut s, v as u64 / 10000);
            s.push('.');
            push_decimal(&mut s, v as u64 / 100 % 100);
            s.push('.');
            push_decimal(&mut s, v as u64 % 100);
            assert(s@ =~= version_text(v as nat));
            return Some(s);
        }
        i = i + 1;
    }
    None
}

/// Line `i` of the head of a lock file.
pub open spec fn head_line(i: int, version: Seq<char>) -> Seq<char> {
    if i == 0 {
        "# SEGGER emUSB-Device vendored-file lock -- DO NOT edit by hand."@
    } else if i == 1 {
        "# Regenerate with `cargo xtask relock-segger` after a sanctioned"@
    } else if i == 2 {
        "# version bump. These files are NOT committed (SFL forbids it);"@
    } else if i == 3 {
        "# this lock only pins their identity. See docs/SEGGER_SETUP.md."@
    } else if i == 4 {
        "# bundle = SEGGER emPower, Embedded Studio (2023-06-26)"@
    } else if i == 5 {
        "# bundle_md5 = f0cc414564ea198195c44e5f8c09e409"@
    } else {
        "# emusb_device_version = "@ + version
    }
}

/// The head of a lock file.
pub open spec fn head(version: Seq<char>) -> Seq<Seq<char>> {
    Seq::new(7, |i: int| head_line(i, version))
}

/// The line of a locked file.
pub open spec fn entry_line(entry: Pinned) -> Seq<char> {
    entry.0 + seq![' ', ' '] + entry.1
}

/// The lines of a lock file.
pub open spec fn lock_lines(entries: Seq<Pinned>, version: Seq<char>) -> Seq<Seq<char>> {
    head(version) + entries.map_values(|e: Pinned| entry_line(e))
}

/// Lines as text, each ended.
pub open spec fn joined(lines: Seq<Seq<char>>) -> Seq<char>
    decreases lines.len(),
{
    if lines.len() == 0 {
        Seq::empty()
    } else {
        joined(lines.drop_last()) + lines.last().push('\n')
    }
}

/// The text of a lock file.
pub open spec fn lock_text(entries: Seq<Pinned>, version: Seq<char>) -> Seq<char> {
    joined(lock_lines(entries, version))
}

/// What files are ordered by: the hash, then the path.
pub open spec fn key(entry: LockEntry) -> Seq<u8> {
    vstd::utf8::encode_utf8(entry.hash@) + seq![0u8] + vstd::utf8::encode_utf8(entry.rel@)
}

/// What these files are ordered by.
pub open spec fn keys(entries: Seq<LockEntry>) -> Seq<Seq<u8>> {
    Seq::new(entries.len(), |i: int| key(entries[i]))
}

/// Files in this order.
pub open spec fn in_order(entries: Seq<Pinned>, order: Seq<usize>) -> Seq<Pinned> {
    Seq::new(order.len(), |i: int| entries[order[i] as int])
}

fn keys_of(entries: &Vec<LockEntry>) -> (all: Vec<Vec<u8>>)
    ensures
        order::seqs(all@) == keys(entries@),
{
    let mut all: Vec<Vec<u8>> = Vec::new();
    let mut i: usize = 0;
    while i < entries.len()
        invariant
            i <= entries@.len(),
            all@.len() == i,
            forall|j: int| 0 <= j < i ==> (#[trigger] all@[j])@ == key(entries@[j]),
        decreases entries@.len() - i,
    {
        let mut k: Vec<u8> = vstd::slice::slice_to_vec(entries[i].hash.as_str().as_bytes());
        k.push(0);
        k.extend_from_slice(entries[i].rel.as_str().as_bytes());
        assert(k@ =~= key(entries@[i as int]));
        all.push(k);
        i = i + 1;
    }
    assert(order::seqs(all@) =~= keys(entries@));
    all
}

/// Append a line.
fn push_line(out: &mut String, line: &str, Ghost(lines): Ghost<Seq<Seq<char>>>)
    requires
        old(out)@ == joined(lines),
    ensures
        final(out)@ == joined(lines.push(line@)),
{
    out.append(line);
    out.push('\n');
    proof {
        assert(lines.push(line@).drop_last() =~= lines);
        assert(out@ =~= joined(lines) + line@.push('\n'));
    }
}

/// The lock file that pins these files, sorted by hash and path; nothing where there are
/// no files. A version that is not known is given as `unknown`.
pub fn relock(entries: &Vec<LockEntry>, version: Option<&str>) -> (lock: Option<String>)
    ensures
        match lock {
            None => entries@.len() == 0,
            Some(s) => entries@.len() > 0 && exists|order: Seq<usize>|
                #[trigger] order::sorted_order(keys(entries@), entries@.len() as int, order) && s@
                    == lock_text(
                    in_order(lock::pinned(entries@), order),
                    match version {
                        Some(v) => v@,
                        None => "unknown"@,
                    },
                ),
        },
        lock matches Some(s) ==> ((version matches Some(v) ==> laws::one_line(v@)) && (forall|
            i: int,
        |
            0 <= i < entries@.len() ==> laws::is_lockable(#[trigger] lock::pinned(entries@)[i]))
            ==> (lock::locked(text::split(s@, '\n')) matches Ok(list) && list.len()
            == entries@.len() && forall|i: int|
            0 <= i < entries@.len() ==> list.contains(#[trigger] lock::pinned(entries@)[i]))),
{
    if entries.len() == 0 {
        return None;
    }
    let version: &str = match version {
        Some(v) => v,
        None => "unknown",
    };
    proof {
        reveal_strlit("unknown");
        assert(laws::one_line("unknown"@));
    }
    let keys: Vec<Vec<u8>> = keys_of(entries);
    let order: Vec<usize> = sort(&keys);
    let ghost sorted = in_order(lock::pinned(entries@), order@);
    let ghost all = lock_lines(sorted, version@);
    let mut last = String::new();
    last.append("# emusb_device_version = ");
    last.append(version);
    let mut out = String::new();
    proof {
        assert(keys@.len() == order::seqs(keys@).len());
        assert(entries@.len() == self::keys(entries@).len());
        assert(last@ =~= head_line(6, version@));
        assert(all.take(0) =~= Seq::<Seq<char>>::empty());
        assert forall|i: int| 0 <= i < 7 implies #[trigger] all[i] == head_line(i, version@) by {}
        assert forall|i: int| 0 <= i < all.len() implies #[trigger] all.take(i).push(all[i])
            == all.take(i + 1) by {
            assert(all.take(i).push(all[i]) =~= all.take(i + 1));
        }
    }
    push_line(
        &mut out,
        "# SEGGER emUSB-Device vendored-file lock -- DO NOT edit by hand.",
        Ghost(all.take(0)),
    );
    assert(all.take(0).push(all[0]) == all.take(1));
    push_line(
        &mut out,
        "# Regenerate with `cargo xtask relock-segger` after a sanctioned",
        Ghost(all.take(1)),
    );
    assert(all.take(1).push(all[1]) == all.take(2));
    push_line(
        &mut out,
        "# version bump. These files are NOT committed (SFL forbids it);",
        Ghost(all.take(2)),
    );
    assert(all.take(2).push(all[2]) == all.take(3));
    push_line(
        &mut out,
        "# this lock only pins their identity. See docs/SEGGER_SETUP.md.",
        Ghost(all.take(3)),
    );
    assert(all.take(3).push(all[3]) == all.take(4));
    push_line(
        &mut out,
        "# bundle = SEGGER emPower, Embedded Studio (2023-06-26)",
        Ghost(all.take(4)),
    );
    assert(all.take(4).push(all[4]) == all.take(5));
    push_line(
        &mut out,
        "# bundle_md5 = f0cc414564ea198195c44e5f8c09e409",
        Ghost(all.take(5)),
    );
    assert(all.take(5).push(all[5]) == all.take(6));
    push_line(&mut out, last.as_str(), Ghost(all.take(6)));
    assert(all.take(6).push(all[6]) == all.take(7));
    let mut i: usize = 0;
    while i < order.len()
        invariant
            i <= order@.len(),
            order@.len() == entries@.len(),
            forall|j: int| 0 <= j < order@.len() ==> #[trigger] order@[j] < entries@.len(),
            sorted == in_order(lock::pinned(entries@), order@),
            all == lock_lines(sorted, version@),
            out@ == joined(all.take(7 + i)),
        decreases order@.len() - i,
    {
        let entry = &entries[order[i]];
        let mut line = String::new();
        line.append(entry.hash.as_str());
        line.push(' ');
        line.push(' ');
        line.append(entry.rel.as_str());
        proof {
            assert(line@ =~= entry_line(sorted[i as int]));
            assert(all[7 + i] == line@);
            assert(all.take(7 + i).push(line@) =~= all.take(7 + i + 1));
        }
        push_line(&mut out, line.as_str(), Ghost(all.take(7 + i)));
        i = i + 1;
    }
    assert(all.take(7 + i) =~= all);
    proof {
        let named = lock::pinned(entries@);
        if laws::one_line(version@) && forall|i: int|
            0 <= i < entries@.len() ==> laws::is_lockable(#[trigger] named[i]) {
            assert forall|i: int| 0 <= i < sorted.len() implies laws::is_lockable(
                #[trigger] sorted[i],
            ) by {
                assert(laws::is_lockable(named[order@[i] as int]));
            }
            laws::lock_files_read_back(sorted, version@);
            assert forall|i: int| 0 <= i < entries@.len() implies sorted.contains(
                #[trigger] named[i],
            ) by {
                assert(entries@.len() == entries.len());
                assert(order@.contains(i as usize));
                let k = choose|k: int| 0 <= k < order@.len() && order@[k] == i as usize;
                assert(sorted[k] == named[i]);
            }
        }
    }
    Some(out)
}

/// A line that defines the version defines the number in it: white space may stand around
/// it, zeroes before it, and anything behind it that does not go on with a digit.
pub proof fn versions_are_read(
    pre: Seq<char>,
    gap: Seq<char>,
    v: nat,
    zeroes: nat,
    tail: Seq<char>,
    post: Seq<char>,
)
    requires
        text_laws::all_white(pre),
        text_laws::all_white(gap),
        text_laws::all_white(post),
        v <= u32::MAX,
        tail.len() > 0 ==> !text::is_digit(tail[0]) && !text::is_white(tail.last()),
    ensures
        version_in(
            pre + ("#define USB_VERSION"@ + gap + (text_laws::zeroes(zeroes) + text::decimal(v))
                + tail) + post,
        ) == Some(v),
{
    reveal_strlit("#define USB_VERSION");
    let word = "#define USB_VERSION"@;
    let num = text_laws::zeroes(zeroes) + text::decimal(v);
    text_laws::numbers_read_back(v, zeroes);
    let line = word + gap + num + tail;
    assert(line[0] == word[0]);
    assert(text::is_digit(num[num.len() - 1]));
    assert(line.last() == if tail.len() > 0 {
        tail.last()
    } else {
        num.last()
    });
    text_laws::trimming_takes_white_space_away(pre, line, post);
    assert(word =~= line.subrange(0, 19));
    let rest = gap + num + tail;
    assert(line.skip(19) =~= rest);
    let n = gap.len() + num.len();
    // No `//` begins before the end of the number.
    let end = text::before_pair(rest, '/') as int;
    lemma_pair_behind(gap + num, tail);
    let behind = rest.subrange(n as int, end);
    let front = rest.take(end);
    assert(front =~= gap + (num + behind));
    assert(text::is_digit(num[0]));
    text_laws::lemma_trim_start(gap, num + behind);
    lemma_trim_end_keeps(num, behind);
    let token = text::trimmed(front);
    assert(token == text::trim_end(num + behind));
    let m = num.len() as int;
    assert forall|i: int| 0 <= i < m implies text::is_digit(#[trigger] token[i]) by {
        assert(token.take(m)[i] == num[i]);
    }
    if m < token.len() {
        assert(token[m] == (num + behind)[m]);
        assert((num + behind)[m] == behind[0]);
        assert(behind[0] == rest[n as int]);
        assert(rest[n as int] == tail[0]);
    }
    lemma_digit_count(token, m);
    assert(token.take(m) =~= num);
}

/// What ends in a digit has no slashes; two in a row come behind it.
proof fn lemma_pair_behind(front: Seq<char>, tail: Seq<char>)
    requires
        forall|i: int| 0 <= i < front.len() ==> #[trigger] front[i] != '/',
    ensures
        front.len() <= text::before_pair(front + tail, '/') <= front.len() + tail.len(),
    decreases front.len(),
{
    let all = front + tail;
    if front.len() == 0 {
        lemma_pair_bound(all);
    } else {
        assert(all[0] == front[0]);
        assert(all.skip(1) =~= front.skip(1) + tail);
        assert forall|i: int| 0 <= i < front.skip(1).len() implies #[trigger] front.skip(1)[i] != '/' by {
            assert(front.skip(1)[i] == front[i + 1]);
        }
        lemma_pair_behind(front.skip(1), tail);
    }
}

proof fn lemma_pair_bound(s: Seq<char>)
    ensures
        text::before_pair(s, '/') <= s.len(),
    decreases s.len(),
{
    if s.len() > 0 {
        lemma_pair_bound(s.skip(1));
    }
}

/// Trimming the end of a text keeps what ends with a visible character, and what is left of
/// the rest.
proof fn lemma_trim_end_keeps(front: Seq<char>, rest: Seq<char>)
    requires
        front.len() > 0,
        !text::is_white(front.last()),
    ensures
        front.len() <= text::trim_end(front + rest).len() <= front.len() + rest.len(),
        text::trim_end(front + rest).take(front.len() as int) == front,
        forall|i: int|
            0 <= i < text::trim_end(front + rest).len() ==> #[trigger] text::trim_end(front + rest)[i]
                == (front + rest)[i],
    decreases rest.len(),
{
    let all = front + rest;
    if rest.len() == 0 {
        assert(all =~= front);
        assert(all.take(front.len() as int) =~= front);
    } else if text::is_white(rest.last()) {
        assert(all.last() == rest.last());
        assert(all.drop_last() =~= front + rest.drop_last());
        lemma_trim_end_keeps(front, rest.drop_last());
    } else {
        assert(all.last() == rest.last());
        assert(all.take(front.len() as int) =~= front);
    }
}

/// The version of a header is the one that its first lines define, or else its last ones.
pub proof fn the_first_version_counts(a: Seq<Seq<char>>, b: Seq<Seq<char>>)
    ensures
        first_version(a) is Some ==> first_version(a + b) == first_version(a),
        first_version(a) is None ==> first_version(a + b) == first_version(b),
        a.len() == 1 ==> first_version(a) == version_in(a[0]),
    decreases a.len(),
{
    if a.len() == 0 {
        assert(a + b =~= b);
    } else {
        assert((a + b).skip(1) =~= a.skip(1) + b);
        assert((a + b)[0] == a[0]);
        the_first_version_counts(a.skip(1), b);
    }
}

/// A version has two digits for the minor number and two for the patch, and all others for
/// the major number.
pub proof fn versions_have_three_parts(major: nat, minor: nat, patch: nat)
    requires
        minor < 100,
        patch < 100,
    ensures
        version_text((10000 * major + 100 * minor + patch) as nat) == text::decimal(major) + seq!['.']
            + text::decimal(minor) + seq!['.'] + text::decimal(patch),
{
    let v = (10000 * major + 100 * minor + patch) as nat;
    assert(v / 10000 == major);
    assert(v / 100 == 100 * major + minor);
    assert(v / 100 % 100 == minor);
    assert(v % 100 == patch);
}

/// Locked files come by their hashes, and those with the same hash by their paths.
pub proof fn locked_files_come_by_hash(a: LockEntry, b: LockEntry)
    ensures
        a.hash@.len() > 0 && vstd::utf8::encode_utf8(a.hash@).len() == vstd::utf8::encode_utf8(
            b.hash@,
        ).len() && order::is_less(
            vstd::utf8::encode_utf8(a.hash@),
            vstd::utf8::encode_utf8(b.hash@),
        ) ==> order::is_less(key(a), key(b)),
        a.hash@ == b.hash@ && order::is_less(
            vstd::utf8::encode_utf8(a.rel@),
            vstd::utf8::encode_utf8(b.rel@),
        ) ==> order::is_less(key(a), key(b)),
{
    let x = vstd::utf8::encode_utf8(a.hash@);
    let y = vstd::utf8::encode_utf8(b.hash@);
    let p = vstd::utf8::encode_utf8(a.rel@);
    let q = vstd::utf8::encode_utf8(b.rel@);
    if x.len() == y.len() && order::is_less(x, y) {
        let k = choose|k: int|
            0 <= k < x.len() && k < y.len() && x.take(k) == y.take(k) && #[trigger] x[k] < y[k];
        assert(key(a).take(k) =~= x.take(k));
        assert(key(b).take(k) =~= y.take(k));
        assert(key(a)[k] < key(b)[k]);
    }
    if a.hash@ == b.hash@ && order::is_less(p, q) {
        let front = x + seq![0u8];
        let n = front.len() as int;
        if p.len() < q.len() && q.take(p.len() as int) == p {
            assert(key(b).take(key(a).len() as int) =~= front + q.take(p.len() as int));
            assert(key(a) =~= front + p);
        } else {
            let k = choose|k: int|
                0 <= k < p.len() && k < q.len() && p.take(k) == q.take(k) && #[trigger] p[k] < q[k];
            assert(key(a).take(n + k) =~= front + p.take(k));
            assert(key(b).take(n + k) =~= front + q.take(k));
            assert(key(a)[n + k] == p[k] && key(b)[n + k] == q[k]);
        }
    }
}

} // verus!
