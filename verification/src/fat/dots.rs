//! The `.` and `..` entries of subdirectories.
//!
//! The `fatfs` crate puts an invalid long-name entry before each of them. Here they are
//! rewritten into the canonical bare 8.3 form: `.` and `..` are the first two entries.

use vstd::arithmetic::div_mod::{
    lemma_fundamental_div_mod, lemma_fundamental_div_mod_converse, lemma_mod_bound,
};
use vstd::prelude::*;

use super::dirs;
use super::dirs::{cluster_start, find_dirs};
use super::volume;
use super::volume::{read_geometry, Geometry, SECTOR_SIZE};

verus! {

/// The 11 bytes at `at` are the short name that begins with `dots` dots.
pub open spec fn is_dots(v: Seq<u8>, at: int, dots: int) -> bool {
    forall|i: int|
        0 <= i < 11 ==> #[trigger] v[at + i] == if i < dots {
            0x2Eu8
        } else {
            0x20u8
        }
}

/// The entry at `at` is a long-name entry.
pub open spec fn is_long_name(v: Seq<u8>, at: int) -> bool {
    v[at] != 0 && v[at + 11] == 0x0F
}

/// The entry at `at` has the directory attribute.
pub open spec fn has_dir_attribute(v: Seq<u8>, at: int) -> bool {
    v[at + 11] as int / 16 % 2 == 1
}

/// A directory that begins at `at` begins with `.` and `..`, each behind a long-name
/// entry.
pub open spec fn has_long_dots(v: Seq<u8>, at: int) -> bool {
    &&& is_long_name(v, at)
    &&& is_dots(v, at + 32, 1)
    &&& has_dir_attribute(v, at + 32)
    &&& is_long_name(v, at + 64)
    &&& is_dots(v, at + 96, 2)
    &&& has_dir_attribute(v, at + 96)
}

/// A directory that begins at `at` begins with the bare entries `.` and `..`.
pub open spec fn has_bare_dots(v: Seq<u8>, at: int) -> bool {
    &&& is_dots(v, at, 1)
    &&& has_dir_attribute(v, at)
    &&& is_dots(v, at + 32, 2)
    &&& has_dir_attribute(v, at + 32)
}

/// Every subdirectory of a volume begins with the bare entries `.` and `..`.
pub open spec fn all_bare(v: Seq<u8>, g: Geometry) -> bool {
    forall|dir: int| #[trigger]
        dirs::in_tree(v, g, dir) && dir != 0 ==> has_bare_dots(v, g.cluster_start(dir))
}

/// A subdirectory of a volume begins with neither form of the two entries.
pub open spec fn lacks_dots(v: Seq<u8>, g: Geometry) -> bool {
    exists|dir: int| #[trigger]
        dirs::in_tree(v, g, dir) && dir != 0 && !has_bare_dots(v, g.cluster_start(dir))
            && !has_long_dots(v, g.cluster_start(dir))
}

/// Byte `i` of a volume once the directory that begins at `at` has been rewritten: `.`
/// and `..` come first, and the two entries behind them are marked deleted.
pub open spec fn rewritten(v: Seq<u8>, at: int, i: int) -> u8 {
    if !has_long_dots(v, at) {
        v[i]
    } else if at <= i < at + 32 {
        v[i + 32]
    } else if at + 32 <= i < at + 64 {
        v[i + 64]
    } else if i == at + 64 || i == at + 96 {
        0xE5
    } else {
        v[i]
    }
}

/// The cluster that byte `i` of a volume lies in.
pub open spec fn cluster_of(g: Geometry, i: int) -> int {
    (i - g.data_start()) / (SECTOR_SIZE as int) + 2
}

/// Byte `i` lies in the first cluster of a subdirectory.
pub open spec fn in_head(v: Seq<u8>, g: Geometry, i: int) -> bool {
    &&& g.data_start() <= i
    &&& cluster_of(g, i) != 0
    &&& dirs::in_tree(v, g, cluster_of(g, i))
}

/// A volume with the `.` and `..` entries of all its subdirectories in canonical form.
pub open spec fn canonical(v: Seq<u8>, g: Geometry) -> Seq<u8> {
    Seq::new(
        v.len(),
        |i: int|
            if in_head(v, g, i) {
                rewritten(v, g.cluster_start(cluster_of(g, i)), i)
            } else {
                v[i]
            },
    )
}

fn dots_at(v: &[u8], at: usize, dots: usize) -> (yes: bool)
    requires
        at + 11 <= v@.len(),
        dots <= 11,
    ensures
        yes == is_dots(v@, at as int, dots as int),
{
    assert(v@.len() == v.len());
    let mut i: usize = 0;
    while i < 11
        invariant
            i <= 11,
            at + 11 <= v@.len(),
            v@.len() == v.len(),
            forall|j: int|
                0 <= j < i ==> #[trigger] v@[at + j] == if j < dots {
                    0x2Eu8
                } else {
                    0x20u8
                },
        decreases 11 - i,
    {
        let want: u8 = if i < dots {
            0x2E
        } else {
            0x20
        };
        if v[at + i] != want {
            assert(v@[at + i] != want);
            return false;
        }
        i = i + 1;
    }
    true
}

/// Whether the directory that begins at `at` begins with `.` and `..`, each behind a
/// long-name entry.
fn long_dots_at(v: &[u8], at: usize) -> (yes: bool)
    requires
        at + 128 <= v@.len(),
    ensures
        yes == has_long_dots(v@, at as int),
{
    assert(v@.len() == v.len());
    let first = v[at] != 0 && v[at + 11] == 0x0F && dots_at(v, at + 32, 1) && v[at + 43] / 16 % 2
        == 1;
    let second = v[at + 64] != 0 && v[at + 75] == 0x0F && dots_at(v, at + 96, 2) && v[at + 107] / 16
        % 2 == 1;
    first && second
}

/// Whether the directory that begins at `at` begins with the bare entries `.` and `..`.
fn bare_dots_at(v: &[u8], at: usize) -> (yes: bool)
    requires
        at + 128 <= v@.len(),
    ensures
        yes == has_bare_dots(v@, at as int),
{
    assert(v@.len() == v.len());
    dots_at(v, at, 1) && v[at + 11] / 16 % 2 == 1 && dots_at(v, at + 32, 2) && v[at + 43] / 16 % 2
        == 1
}

/// Whether all these subdirectories begin with the two entries, in either form.
fn all_have_dots(v: &[u8], g: &Geometry, list: &Vec<u16>) -> (yes: bool)
    requires
        g.wf(),
        g.total_sectors * SECTOR_SIZE == v@.len(),
        dirs::is_tree(v@, *g, list@),
    ensures
        yes == !lacks_dots(v@, *g),
{
    let mut n: usize = 0;
    assert(v@.len() == v.len());
    while n < list.len()
        invariant
            g.wf(),
            g.total_sectors * SECTOR_SIZE == v@.len(),
            v@.len() == v.len(),
            dirs::is_tree(v@, *g, list@),
            n <= list@.len(),
            forall|k: int|
                0 <= k < n ==> {
                    let at = g.cluster_start(#[trigger] list@[k] as int);
                    has_bare_dots(v@, at) || has_long_dots(v@, at)
                },
        decreases list@.len() - n,
    {
        let c: u16 = list[n];
        proof {
            assert(g.has_cluster(list@[n as int] as int));
            dirs::lemma_places(*g);
        }
        let at: u64 = cluster_start(g, c);
        if !bare_dots_at(v, at as usize) && !long_dots_at(v, at as usize) {
            assert(list@.contains(c));
            assert(dirs::in_tree(v@, *g, c as int));
            return false;
        }
        n = n + 1;
    }
    proof {
        assert forall|dir: int| #[trigger] dirs::in_tree(v@, *g, dir) && dir != 0 implies {
            let at = g.cluster_start(dir);
            has_bare_dots(v@, at) || has_long_dots(v@, at)
        } by {
            dirs::lemma_tree_cluster(v@, *g, dir);
            assert(list@.contains(dir as u16));
            let k = choose|k: int| 0 <= k < list@.len() && list@[k] == dir as u16;
            assert(list@[k] as int == dir);
        }
    }
    true
}

/// Rewrite the directory that begins at `at`.
fn rewrite(v: &mut [u8], at: usize)
    requires
        at + 128 <= old(v)@.len(),
    ensures
        final(v)@.len() == old(v)@.len(),
        forall|i: int| 0 <= i < old(v)@.len() ==> #[trigger] final(v)@[i] == rewritten(
            old(v)@,
            at as int,
            i,
        ),
{
    assert(v@.len() == v.len());
    if !long_dots_at(v, at) {
        return;
    }
    let ghost before = v@;
    let mut i: usize = 0;
    while i < 32
        invariant
            i <= 32,
            at + 128 <= v@.len(),
            v@.len() == v.len(),
            v@.len() == before.len(),
            forall|j: int|
                0 <= j < v@.len() ==> #[trigger] v@[j] == if at <= j < at + i {
                    before[j + 32]
                } else {
                    before[j]
                },
        decreases 32 - i,
    {
        v[at + i] = v[at + 32 + i];
        i = i + 1;
    }
    let mut i: usize = 0;
    while i < 32
        invariant
            i <= 32,
            at + 128 <= v@.len(),
            v@.len() == v.len(),
            v@.len() == before.len(),
            forall|j: int|
                0 <= j < v@.len() ==> #[trigger] v@[j] == if at <= j < at + 32 {
                    before[j + 32]
                } else if at + 32 <= j < at + 32 + i {
                    before[j + 64]
                } else {
                    before[j]
                },
        decreases 32 - i,
    {
        v[at + 32 + i] = v[at + 96 + i];
        i = i + 1;
    }
    v[at + 64] = 0xE5;
    v[at + 96] = 0xE5;
}

/// What of a volume has been rewritten once the first `n` of these directories have.
spec fn partly(v: Seq<u8>, g: Geometry, dirs: Seq<u16>, i: int) -> u8 {
    if g.data_start() <= i && 0 <= cluster_of(g, i) <= u16::MAX && dirs.contains(
        cluster_of(g, i) as u16,
    ) {
        rewritten(v, g.cluster_start(cluster_of(g, i)), i)
    } else {
        v[i]
    }
}

/// A byte lies in the cluster that it lies in.
pub proof fn lemma_cluster_of(g: Geometry, i: int)
    requires
        g.wf(),
        g.data_start() <= i < g.total_sectors * SECTOR_SIZE,
    ensures
        g.has_cluster(cluster_of(g, i)),
        g.cluster_start(cluster_of(g, i)) <= i < g.cluster_start(cluster_of(g, i)) + SECTOR_SIZE,
{
    dirs::lemma_places(g);
    lemma_fundamental_div_mod(i - g.data_start(), 512);
    lemma_mod_bound(i - g.data_start(), 512);
}

/// The bytes of a cluster lie in it.
pub proof fn lemma_in_cluster(g: Geometry, c: int, i: int)
    requires
        g.wf(),
        g.has_cluster(c),
        g.cluster_start(c) <= i < g.cluster_start(c) + SECTOR_SIZE,
    ensures
        cluster_of(g, i) == c,
        g.data_start() <= i,
{
    lemma_fundamental_div_mod_converse(i - g.data_start(), 512, c - 2, i - g.cluster_start(c));
}

/// Volumes that hold the same name hold the same dots.
proof fn lemma_same_dots(v0: Seq<u8>, v1: Seq<u8>, at: int, dots: int)
    requires
        forall|i: int| at <= i < at + 11 ==> #[trigger] v1[i] == v0[i],
    ensures
        is_dots(v0, at, dots) == is_dots(v1, at, dots),
{
    if is_dots(v0, at, dots) {
        assert forall|i: int| 0 <= i < 11 implies #[trigger] v1[at + i] == if i < dots {
            0x2Eu8
        } else {
            0x20u8
        } by {
            assert(v0[at + i] == v1[at + i]);
        }
    }
    if is_dots(v1, at, dots) {
        assert forall|i: int| 0 <= i < 11 implies #[trigger] v0[at + i] == if i < dots {
            0x2Eu8
        } else {
            0x20u8
        } by {
            assert(v0[at + i] == v1[at + i]);
        }
    }
}

/// Rewriting one more directory.
proof fn lemma_one_more(v0: Seq<u8>, v1: Seq<u8>, v2: Seq<u8>, g: Geometry, done: Seq<u16>, c: u16)
    requires
        g.wf(),
        g.total_sectors * SECTOR_SIZE == v0.len(),
        v1.len() == v0.len(),
        v2.len() == v0.len(),
        g.has_cluster(c as int),
        !done.contains(c),
        forall|i: int| 0 <= i < v0.len() ==> #[trigger] v1[i] == partly(v0, g, done, i),
        forall|i: int|
            0 <= i < v0.len() ==> #[trigger] v2[i] == rewritten(v1, g.cluster_start(c as int), i),
    ensures
        forall|i: int| 0 <= i < v0.len() ==> #[trigger] v2[i] == partly(v0, g, done.push(c), i),
{
    let at = g.cluster_start(c as int);
    dirs::lemma_places(g);
    assert forall|i: int| at <= i < at + 512 implies #[trigger] v1[i] == v0[i] by {
        lemma_in_cluster(g, c as int, i);
    }
    assert(has_long_dots(v1, at) == has_long_dots(v0, at)) by {
        lemma_same_dots(v0, v1, at + 32, 1);
        lemma_same_dots(v0, v1, at + 96, 2);
        assert(v1[at + 11] == v0[at + 11] && v1[at + 64 + 11] == v0[at + 64 + 11]);
        assert(v1[at] == v0[at] && v1[at + 64] == v0[at + 64]);
        assert(v1[at + 32 + 11] == v0[at + 32 + 11] && v1[at + 96 + 11] == v0[at + 96 + 11]);
    }
    assert forall|i: int| 0 <= i < v0.len() implies #[trigger] v2[i] == partly(
        v0,
        g,
        done.push(c),
        i,
    ) by {
        if g.data_start() <= i {
            lemma_cluster_of(g, i);
            let here = cluster_of(g, i);
            if here == c as int {
                assert(done.push(c)[done.len() as int] == c);
                assert(done.push(c).contains(c));
                assert(rewritten(v1, at, i) == rewritten(v0, at, i));
            } else {
                assert(!(at <= i < at + 512)) by {
                    if at <= i < at + 512 {
                        lemma_in_cluster(g, c as int, i);
                    }
                }
                assert(v2[i] == v1[i]);
                if done.contains(here as u16) {
                    let k = choose|k: int| 0 <= k < done.len() && done[k] == here as u16;
                    assert(done.push(c)[k] == here as u16);
                }
                if done.push(c).contains(here as u16) {
                    let k = choose|k: int|
                        0 <= k < done.push(c).len() && done.push(c)[k] == here as u16;
                    assert(done[k] == here as u16);
                }
            }
        } else {
            assert(v2[i] == v1[i]);
        }
    }
}

/// Rewrite the `.` and `..` entries of all subdirectories of a FAT16 volume into
/// canonical form. Returns whether that was possible; where the volume is no FAT16
/// volume, a directory names a cluster that is not there, or a subdirectory does not begin
/// with the two entries, nothing is changed.
pub fn canonicalise(v: &mut [u8]) -> (done: bool)
    ensures
        done == (volume::is_fat16(old(v)@) && !dirs::is_broken(
            old(v)@,
            volume::geometry(old(v)@),
        ) && !lacks_dots(old(v)@, volume::geometry(old(v)@))),
        done ==> all_bare(final(v)@, volume::geometry(final(v)@)),
        final(v)@ == if done {
            canonical(old(v)@, volume::geometry(old(v)@))
        } else {
            old(v)@
        },
{
    let g: Geometry = match read_geometry(v) {
        Some(g) => g,
        None => {
            return false;
        },
    };
    let list: Vec<u16> = match find_dirs(v, &g) {
        Some(list) => list,
        None => {
            return false;
        },
    };
    if !all_have_dots(v, &g, &list) {
        return false;
    }
    let ghost v0 = v@;
    let mut n: usize = 0;
    proof {
        assert(v@.len() == v.len());
        assert(list@.take(0) =~= Seq::<u16>::empty());
    }
    while n < list.len()
        invariant
            g.wf(),
            g.total_sectors * SECTOR_SIZE == v0.len(),
            v@.len() == v.len(),
            v@.len() == v0.len(),
            n <= list@.len(),
            dirs::is_tree(v0, g, list@),
            forall|i: int| 0 <= i < v0.len() ==> #[trigger] v@[i] == partly(
                v0,
                g,
                list@.take(n as int),
                i,
            ),
        decreases list@.len() - n,
    {
        let ghost v1 = v@;
        let c: u16 = list[n];
        proof {
            assert(g.has_cluster(list@[n as int] as int));
            dirs::lemma_places(g);
        }
        let at: u64 = cluster_start(&g, c);
        rewrite(v, at as usize);
        proof {
            let done = list@.take(n as int);
            assert(!done.contains(c)) by {
                if done.contains(c) {
                    let k = choose|k: int| 0 <= k < done.len() && done[k] == c;
                    assert(list@[k] == list@[n as int]);
                }
            }
            lemma_one_more(v0, v1, v@, g, done, c);
            assert(done.push(c) =~= list@.take(n + 1));
        }
        n = n + 1;
    }
    proof {
        assert(list@.take(n as int) =~= list@);
        assert forall|i: int| 0 <= i < v0.len() implies #[trigger] v@[i] == canonical(
            v0,
            g,
        )[i] by {
            if g.data_start() <= i {
                lemma_cluster_of(g, i);
                let c = cluster_of(g, i);
                assert(list@.contains(c as u16) <==> c as u16 != 0 && dirs::in_tree(v0, g, c));
            }
        }
        assert(v@ =~= canonical(v0, g));
        all_dot_entries_are_bare(v0, g);
        lemma_front_unchanged(v0, g);
    }
    true
}

/// Every byte outside the first four entries of a subdirectory stays as it was.
pub proof fn only_dot_entries_change(v: Seq<u8>, g: Geometry, i: int)
    requires
        volume::is_fat16(v),
        g == volume::geometry(v),
        0 <= i < v.len(),
        !(in_head(v, g, i) && i < g.cluster_start(cluster_of(g, i)) + 128),
    ensures
        canonical(v, g)[i] == v[i],
{
}

/// A subdirectory that began with long-name dot entries begins with the bare `.` and
/// `..` entries, byte for byte, and the two entries behind them are free.
pub proof fn dot_entries_are_bare(v: Seq<u8>, g: Geometry, dir: int)
    requires
        volume::is_fat16(v),
        g == volume::geometry(v),
        dirs::in_tree(v, g, dir),
        dir != 0,
        has_long_dots(v, g.cluster_start(dir)),
    ensures
        ({
            let at = g.cluster_start(dir);
            let after = canonical(v, g);
            &&& after.subrange(at, at + 32) == v.subrange(at + 32, at + 64)
            &&& after.subrange(at + 32, at + 64) == v.subrange(at + 96, at + 128)
            &&& is_dots(after, at, 1)
            &&& is_dots(after, at + 32, 2)
            &&& after[at + 64] == 0xE5
            &&& after[at + 96] == 0xE5
        }),
{
    let at = g.cluster_start(dir);
    let after = canonical(v, g);
    dirs::lemma_tree_cluster(v, g, dir);
    dirs::lemma_places(g);
    assert forall|i: int| at <= i < at + 512 implies #[trigger] after[i] == rewritten(v, at, i) by {
        lemma_in_cluster(g, dir, i);
    }
    assert(after.subrange(at, at + 32) =~= v.subrange(at + 32, at + 64));
    assert(after.subrange(at + 32, at + 64) =~= v.subrange(at + 96, at + 128));
    assert forall|i: int| 0 <= i < 11 implies #[trigger] after[at + i] == if i < 1 {
        0x2Eu8
    } else {
        0x20u8
    } by {
        assert(after[at + i] == v[at + 32 + i]);
    }
    assert forall|i: int| 0 <= i < 11 implies #[trigger] after[at + 32 + i] == if i < 2 {
        0x2Eu8
    } else {
        0x20u8
    } by {
        assert(after[at + 32 + i] == v[at + 96 + i]);
    }
}

/// What lies before the clusters stays as it was.
proof fn lemma_front_unchanged(v: Seq<u8>, g: Geometry)
    requires
        volume::is_fat16(v),
        g == volume::geometry(v),
    ensures
        forall|i: int| 0 <= i < g.data_start() ==> #[trigger] canonical(v, g)[i] == v[i],
        canonical(v, g).len() == v.len(),
        g.data_start() >= 512,
        volume::geometry(canonical(v, g)) == g,
        volume::is_fat16(canonical(v, g)),
{
    dirs::lemma_places(g);
    let after = canonical(v, g);
    assert(forall|i: int| 0 <= i < 512 ==> #[trigger] after[i] == v[i]);
}

/// The clusters of a directory stay the same.
proof fn lemma_same_chain(v: Seq<u8>, g: Geometry, c: int, most: nat)
    requires
        volume::is_fat16(v),
        g == volume::geometry(v),
    ensures
        dirs::chain(canonical(v, g), g, c, most) == dirs::chain(v, g, c, most),
    decreases most,
{
    if most > 0 && g.has_cluster(c) {
        lemma_front_unchanged(v, g);
        dirs::lemma_places(g);
        let at = g.fat_start() + 2 * c;
        assert(canonical(v, g)[at] == v[at] && canonical(v, g)[at + 1] == v[at + 1]);
        lemma_same_chain(v, g, volume::le16(v, at), (most - 1) as nat);
    }
}

/// An entry is the end of its directory, or that of a subdirectory, as it was.
proof fn lemma_same_entry(v: Seq<u8>, g: Geometry, dir: int, i: int)
    requires
        volume::is_fat16(v),
        g == volume::geometry(v),
        0 <= i < dirs::slots(v, g, dir).len(),
    ensures
        ({
            let at = dirs::slots(v, g, dir)[i];
            let after = canonical(v, g);
            &&& (after[at] == 0) == (v[at] == 0)
            &&& dirs::is_subdir(after, at) == dirs::is_subdir(v, at)
            &&& dirs::is_subdir(v, at) ==> dirs::first_cluster(after, at) == dirs::first_cluster(
                v,
                at,
            )
        }),
{
    let at = dirs::slots(v, g, dir)[i];
    let after = canonical(v, g);
    dirs::lemma_places(g);
    dirs::lemma_slots(v, g, dir);
    lemma_front_unchanged(v, g);
    if dir == 0 {
        assert(at + 32 <= g.data_start());
        assert(forall|k: int| at <= k < at + 32 ==> #[trigger] after[k] == v[k]);
        assert(after[at + 11] == v[at + 11]);
        assert(after[at + 26] == v[at + 26] && after[at + 26 + 1] == v[at + 26 + 1]);
    } else {
        let clusters = dirs::chain(v, g, dir, g.clusters() as nat);
        dirs::lemma_chain(v, g, dir, g.clusters() as nat);
        let c = clusters[i / 16];
        assert(g.has_cluster(c));
        let head = g.cluster_start(c);
        let k = i % 16;
        assert(at == head + k * 32);
        assert forall|j: int| at <= j < at + 32 implies #[trigger] after[j] == if dirs::in_tree(
            v,
            g,
            c,
        ) {
            rewritten(v, head, j)
        } else {
            v[j]
        } by {
            lemma_in_cluster(g, c, j);
        }
        assert(after[at] == after[at + 0]);
        if dirs::in_tree(v, g, c) && has_long_dots(v, head) && k < 4 {
            assert(v[head + 32 + 0] == 0x2E);
            assert(v[head + 96 + 0] == 0x2E);
            assert(after[at] != 0 && v[at] != 0);
            assert(!dirs::is_subdir(v, at) && !dirs::is_subdir(after, at));
        } else {
            assert(forall|j: int| at <= j < at + 32 ==> #[trigger] after[j] == v[j]);
            assert(after[at + 11] == v[at + 11]);
            assert(after[at + 26] == v[at + 26] && after[at + 26 + 1] == v[at + 26 + 1]);
        }
    }
}

/// A directory lists the subdirectories that it listed.
proof fn lemma_same_subdirs(v: Seq<u8>, g: Geometry, dir: int, c: int)
    requires
        volume::is_fat16(v),
        g == volume::geometry(v),
    ensures
        dirs::has_subdir(canonical(v, g), g, dir, c) == dirs::has_subdir(v, g, dir, c),
{
    let after = canonical(v, g);
    lemma_same_chain(v, g, dir, g.clusters() as nat);
    let all = dirs::slots(v, g, dir);
    assert(dirs::slots(after, g, dir) =~= all);
    assert forall|i: int| 0 <= i < all.len() implies (after[#[trigger] all[i]] == 0) == (v[all[i]]
        == 0) by {
        lemma_same_entry(v, g, dir, i);
    }
    assert forall|i: int| dirs::lists(after, g, dir, i, c) == #[trigger] dirs::lists(
        v,
        g,
        dir,
        i,
        c,
    ) by {
        if 0 <= i < all.len() {
            lemma_same_entry(v, g, dir, i);
            assert(dirs::listed(after, g, dir, i) == dirs::listed(v, g, dir, i)) by {
                if dirs::listed(v, g, dir, i) {
                    assert forall|j: int| 0 <= j <= i implies after[#[trigger] dirs::slots(
                        after,
                        g,
                        dir,
                    )[j]] != 0 by {
                        assert(v[all[j]] != 0);
                    }
                }
                if dirs::listed(after, g, dir, i) {
                    assert forall|j: int| 0 <= j <= i implies v[#[trigger] dirs::slots(
                        v,
                        g,
                        dir,
                    )[j]] != 0 by {
                        assert(after[dirs::slots(after, g, dir)[j]] != 0);
                    }
                }
            }
        }
    }
    if dirs::has_subdir(v, g, dir, c) {
        let i = choose|i: int| dirs::lists(v, g, dir, i, c);
        assert(dirs::lists(after, g, dir, i, c));
    }
    if dirs::has_subdir(after, g, dir, c) {
        let i = choose|i: int| dirs::lists(after, g, dir, i, c);
        assert(dirs::lists(v, g, dir, i, c));
    }
}

/// The tree stays as it was: the same directories are in it.
pub proof fn the_tree_is_kept(v: Seq<u8>, g: Geometry, dir: int)
    requires
        volume::is_fat16(v),
        g == volume::geometry(v),
    ensures
        dirs::in_tree(canonical(v, g), g, dir) == dirs::in_tree(v, g, dir),
        forall|c: int| #[trigger]
            dirs::has_subdir(canonical(v, g), g, dir, c) == dirs::has_subdir(v, g, dir, c),
{
    let after = canonical(v, g);
    assert forall|c: int| #[trigger] dirs::has_subdir(after, g, dir, c) == dirs::has_subdir(
        v,
        g,
        dir,
        c,
    ) by {
        lemma_same_subdirs(v, g, dir, c);
    }
    if dirs::in_tree(v, g, dir) {
        let path = choose|path: Seq<int>| #[trigger]
            dirs::is_path(v, g, path) && path.last() == dir;
        assert forall|i: int| 0 < i < path.len() implies dirs::is_child(
            after,
            g,
            path[i - 1],
            #[trigger] path[i],
        ) by {
            lemma_same_subdirs(v, g, path[i - 1], path[i]);
            assert(dirs::is_child(v, g, path[i - 1], path[i]));
        }
        assert(dirs::is_path(after, g, path));
    }
    if dirs::in_tree(after, g, dir) {
        let path = choose|path: Seq<int>| #[trigger]
            dirs::is_path(after, g, path) && path.last() == dir;
        assert forall|i: int| 0 < i < path.len() implies dirs::is_child(
            v,
            g,
            path[i - 1],
            #[trigger] path[i],
        ) by {
            lemma_same_subdirs(v, g, path[i - 1], path[i]);
            assert(dirs::is_child(after, g, path[i - 1], path[i]));
        }
        assert(dirs::is_path(v, g, path));
    }
}

/// A subdirectory that begins with the bare entries `.` and `..` stays as it is.
proof fn lemma_bare_dots_stay(v: Seq<u8>, g: Geometry, dir: int)
    requires
        volume::is_fat16(v),
        g == volume::geometry(v),
        dirs::in_tree(v, g, dir),
        dir != 0,
        has_bare_dots(v, g.cluster_start(dir)),
    ensures
        has_bare_dots(canonical(v, g), g.cluster_start(dir)),
{
    let after = canonical(v, g);
    let at = g.cluster_start(dir);
    dirs::lemma_tree_cluster(v, g, dir);
    dirs::lemma_places(g);
    assert(!has_long_dots(v, at));
    assert forall|j: int| at <= j < at + 512 implies #[trigger] after[j] == v[j] by {
        lemma_in_cluster(g, dir, j);
    }
    lemma_same_dots(v, after, at, 1);
    lemma_same_dots(v, after, at + 32, 2);
    assert(after[at + 11] == v[at + 11] && after[at + 32 + 11] == v[at + 32 + 11]);
}

/// In canonical form every subdirectory begins with the bare entries `.` and `..`,
/// provided that each began with them in either form.
pub proof fn all_dot_entries_are_bare(v: Seq<u8>, g: Geometry)
    requires
        volume::is_fat16(v),
        g == volume::geometry(v),
        !lacks_dots(v, g),
    ensures
        all_bare(canonical(v, g), g),
{
    let after = canonical(v, g);
    assert forall|dir: int| #[trigger] dirs::in_tree(after, g, dir) && dir != 0 implies has_bare_dots(
        after,
        g.cluster_start(dir),
    ) by {
        let at = g.cluster_start(dir);
        the_tree_is_kept(v, g, dir);
        if has_long_dots(v, at) {
            dirs::lemma_tree_cluster(v, g, dir);
            dirs::lemma_places(g);
            dot_entries_are_bare(v, g, dir);
            assert(after.subrange(at, at + 32)[11] == v.subrange(at + 32, at + 64)[11]);
            assert(after.subrange(at + 32, at + 64)[11] == v.subrange(at + 96, at + 128)[11]);
        } else {
            lemma_bare_dots_stay(v, g, dir);
        }
    }
}

/// No subdirectory is left with long-name dot entries.
pub proof fn no_long_dots_are_left(v: Seq<u8>, g: Geometry, dir: int)
    requires
        volume::is_fat16(v),
        g == volume::geometry(v),
        dirs::in_tree(v, g, dir),
        dir != 0,
    ensures
        !has_long_dots(canonical(v, g), g.cluster_start(dir)),
{
    let after = canonical(v, g);
    let at = g.cluster_start(dir);
    dirs::lemma_tree_cluster(v, g, dir);
    dirs::lemma_places(g);
    assert forall|j: int| at <= j < at + 512 implies #[trigger] after[j] == rewritten(v, at, j) by {
        lemma_in_cluster(g, dir, j);
    }
    if has_long_dots(v, at) {
        assert(after[at + 11] == v[at + 32 + 11]);
    } else {
        lemma_same_dots(v, after, at + 32, 1);
        lemma_same_dots(v, after, at + 96, 2);
        assert(after[at] == v[at] && after[at + 64] == v[at + 64]);
        assert(after[at + 11] == v[at + 11] && after[at + 64 + 11] == v[at + 64 + 11]);
        assert(after[at + 32 + 11] == v[at + 32 + 11]);
        assert(after[at + 96 + 11] == v[at + 96 + 11]);
    }
}

/// A byte of a volume in canonical form stays as it is.
proof fn lemma_final_byte(v: Seq<u8>, g: Geometry, i: int)
    requires
        volume::is_fat16(v),
        g == volume::geometry(v),
        0 <= i < v.len(),
    ensures
        canonical(canonical(v, g), g)[i] == canonical(v, g)[i],
{
    let after = canonical(v, g);
    if in_head(after, g, i) {
        let c = cluster_of(g, i);
        the_tree_is_kept(v, g, c);
        no_long_dots_are_left(v, g, c);
    }
}

/// A volume in canonical form stays as it is, and is the volume it was: its layout is the
/// same.
pub proof fn canonical_form_is_final(v: Seq<u8>, g: Geometry)
    requires
        volume::is_fat16(v),
        g == volume::geometry(v),
    ensures
        volume::is_fat16(canonical(v, g)),
        volume::geometry(canonical(v, g)) == g,
        canonical(canonical(v, g), g) == canonical(v, g),
{
    let after = canonical(v, g);
    lemma_front_unchanged(v, g);
    assert forall|i: int| 0 <= i < v.len() implies #[trigger] canonical(after, g)[i] == after[i] by {
        lemma_final_byte(v, g, i);
    }
    assert(canonical(after, g) =~= after);
}

} // verus!
