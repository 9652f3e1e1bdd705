//! The directory tree of a FAT16 volume, and the `.` and `..` entries of its
//! subdirectories.
//!
//! A subdirectory is named by its first cluster, the root directory by 0.

use vstd::prelude::*;

use super::volume;
use super::volume::{get_le16, Geometry, SECTOR_SIZE, SLOT_SIZE};

verus! {

/// Directory entries per cluster.
pub const SLOTS_PER_CLUSTER: usize = 16;

/// The clusters of a file or directory that begins at cluster `c`, at most `most` of
/// them: each names the next in the FAT.
pub open spec fn chain(v: Seq<u8>, g: Geometry, c: int, most: nat) -> Seq<int>
    decreases most,
{
    if most == 0 || !g.has_cluster(c) {
        Seq::empty()
    } else {
        seq![c] + chain(v, g, volume::le16(v, g.fat_start() + 2 * c), (most - 1) as nat)
    }
}

/// Where the entries of a directory lie, in order.
pub open spec fn slots(v: Seq<u8>, g: Geometry, dir: int) -> Seq<int> {
    if dir == 0 {
        Seq::new(g.root_entries as nat, |i: int| g.root_start() + i * SLOT_SIZE)
    } else {
        let clusters = chain(v, g, dir, g.clusters() as nat);
        Seq::new(
            clusters.len() * SLOTS_PER_CLUSTER as nat,
            |i: int|
                g.cluster_start(clusters[i / (SLOTS_PER_CLUSTER as int)]) + (i % (
                SLOTS_PER_CLUSTER as int)) * SLOT_SIZE,
        )
    }
}

/// Entry `i` of a directory comes before the entry that marks its end.
pub open spec fn listed(v: Seq<u8>, g: Geometry, dir: int, i: int) -> bool {
    &&& 0 <= i < slots(v, g, dir).len()
    &&& forall|j: int| 0 <= j <= i ==> v[#[trigger] slots(v, g, dir)[j]] != 0
}

/// The entry at `at` is that of a subdirectory: it has not been deleted, it has the
/// directory attribute, and it is neither `.` nor `..`.
pub open spec fn is_subdir(v: Seq<u8>, at: int) -> bool {
    &&& v[at] != 0xE5
    &&& v[at] != 0x2E
    &&& v[at + 11] as int / 16 % 2 == 1
}

/// The first cluster of the file or directory whose entry is at `at`.
pub open spec fn first_cluster(v: Seq<u8>, at: int) -> int {
    volume::le16(v, at + 26)
}

/// Directory `dir` lists, as entry `i`, the subdirectory at cluster `c`.
pub open spec fn lists(v: Seq<u8>, g: Geometry, dir: int, i: int, c: int) -> bool {
    &&& listed(v, g, dir, i)
    &&& is_subdir(v, slots(v, g, dir)[i])
    &&& first_cluster(v, slots(v, g, dir)[i]) == c
}

/// Directory `dir` has a subdirectory at cluster `c`.
pub open spec fn has_subdir(v: Seq<u8>, g: Geometry, dir: int, c: int) -> bool {
    exists|i: int| lists(v, g, dir, i, c)
}

/// The directory `child` is a subdirectory of `parent`, at a cluster that is there.
pub open spec fn is_child(v: Seq<u8>, g: Geometry, parent: int, child: int) -> bool {
    g.has_cluster(child) && has_subdir(v, g, parent, child)
}

/// A way from the root down the tree, from directory to subdirectory.
pub open spec fn is_path(v: Seq<u8>, g: Geometry, path: Seq<int>) -> bool {
    &&& path.len() > 0
    &&& path[0] == 0
    &&& forall|i: int| 0 < i < path.len() ==> is_child(v, g, path[i - 1], #[trigger] path[i])
}

/// The directory `dir` is in the tree.
pub open spec fn in_tree(v: Seq<u8>, g: Geometry, dir: int) -> bool {
    exists|path: Seq<int>| #[trigger] is_path(v, g, path) && path.last() == dir
}

/// A directory in the tree has a subdirectory at a cluster that is not there.
pub open spec fn is_broken(v: Seq<u8>, g: Geometry) -> bool {
    exists|dir: int, c: int| #[trigger]
        in_tree(v, g, dir) && #[trigger] has_subdir(v, g, dir, c) && !g.has_cluster(c)
}

/// A subdirectory of a directory in the tree is in the tree.
pub proof fn lemma_in_tree(v: Seq<u8>, g: Geometry, parent: int, dir: int)
    requires
        in_tree(v, g, parent),
        is_child(v, g, parent, dir),
    ensures
        in_tree(v, g, dir),
{
    let path = choose|path: Seq<int>| #[trigger] is_path(v, g, path) && path.last() == parent;
    let longer = path.push(dir);
    assert forall|i: int| 0 < i < longer.len() implies is_child(
        v,
        g,
        longer[i - 1],
        #[trigger] longer[i],
    ) by {
        if i < path.len() {
            assert(is_child(v, g, path[i - 1], path[i]));
        }
    }
    assert(is_path(v, g, longer) && longer.last() == dir);
}

/// The root is in the tree.
pub proof fn lemma_root_in_tree(v: Seq<u8>, g: Geometry)
    ensures
        in_tree(v, g, 0),
{
    let path = seq![0int];
    assert(is_path(v, g, path) && path.last() == 0);
}

/// The clusters of a chain are there.
pub proof fn lemma_chain(v: Seq<u8>, g: Geometry, c: int, most: nat)
    ensures
        chain(v, g, c, most).len() <= most,
        forall|i: int| 0 <= i < chain(v, g, c, most).len() ==> g.has_cluster(#[trigger] chain(v, g, c, most)[i]),
    decreases most,
{
    if most > 0 && g.has_cluster(c) {
        let next = volume::le16(v, g.fat_start() + 2 * c);
        let rest = chain(v, g, next, (most - 1) as nat);
        lemma_chain(v, g, next, (most - 1) as nat);
        let all = chain(v, g, c, most);
        assert forall|i: int| 0 <= i < all.len() implies g.has_cluster(#[trigger] all[i]) by {
            if i > 0 {
                assert(all[i] == rest[i - 1]);
            }
        }
    }
}

/// Where the parts of a volume lie, in numbers.
pub proof fn lemma_places(g: Geometry)
    requires
        g.wf(),
    ensures
        0 < g.fat_start(),
        g.fat_start() + 2 * (g.clusters() + 2) <= g.root_start(),
        g.root_start() < g.data_start(),
        g.data_start() % 512 == 0,
        g.data_start() + g.clusters() * SECTOR_SIZE == g.total_sectors * SECTOR_SIZE,
{
    assert(g.fats * g.sectors_per_fat >= g.sectors_per_fat) by (nonlinear_arith)
        requires
            g.fats >= 1,
            g.sectors_per_fat >= 0,
    ;
    let before = g.reserved + g.fats * g.sectors_per_fat;
    assert(g.root_start() == before * 512);
    assert(g.data_start() == before * 512 + g.root_entries * 32);
}

/// Every entry of a directory lies inside the volume.
pub proof fn lemma_slots(v: Seq<u8>, g: Geometry, dir: int)
    requires
        g.wf(),
        g.total_sectors * SECTOR_SIZE == v.len(),
    ensures
        forall|i: int|
            0 <= i < slots(v, g, dir).len() ==> 0 <= #[trigger] slots(v, g, dir)[i] && slots(
                v,
                g,
                dir,
            )[i] + SLOT_SIZE <= v.len(),
{
    lemma_places(g);
    lemma_chain(v, g, dir, g.clusters() as nat);
    let all = slots(v, g, dir);
    assert forall|i: int| 0 <= i < all.len() implies 0 <= #[trigger] all[i] && all[i] + SLOT_SIZE
        <= v.len() by {
        if dir != 0 {
            let clusters = chain(v, g, dir, g.clusters() as nat);
            let c = clusters[i / 16];
            assert(0 <= i / 16 < clusters.len());
            assert(g.has_cluster(c));
        }
    }
}

/// The clusters of a directory.
fn chain_of(v: &[u8], g: &Geometry, first: u16) -> (clusters: Vec<u16>)
    requires
        g.wf(),
        g.total_sectors * SECTOR_SIZE == v@.len(),
    ensures
        clusters@.len() == chain(v@, *g, first as int, g.clusters() as nat).len(),
        forall|i: int|
            0 <= i < clusters@.len() ==> #[trigger] clusters@[i] == chain(
                v@,
                *g,
                first as int,
                g.clusters() as nat,
            )[i],
{
    let mut clusters: Vec<u16> = Vec::new();
    let count: u32 = cluster_count(g);
    let fat_start: usize = g.reserved as usize * SECTOR_SIZE;
    let mut c: u16 = first;
    let mut left: u32 = count;
    let ghost all = chain(v@, *g, first as int, g.clusters() as nat);
    proof {
        lemma_places(*g);
        assert(v@.len() == v.len());
        assert(all =~= Seq::<int>::empty() + chain(v@, *g, c as int, left as nat));
    }
    while left > 0 && 2 <= c && (c as u32) < count + 2
        invariant
            g.wf(),
            g.total_sectors * SECTOR_SIZE == v@.len(),
            v@.len() == v.len(),
            count == g.clusters(),
            fat_start == g.fat_start(),
            fat_start + 2 * (count + 2) <= v@.len(),
            clusters@.len() + left == count,
            all == chain(v@, *g, first as int, count as nat),
            all == clusters@.map_values(|x: u16| x as int) + chain(v@, *g, c as int, left as nat),
        decreases left,
    {
        let next: u16 = get_le16(v, fat_start + 2 * c as usize);
        proof {
            let before = clusters@.map_values(|x: u16| x as int);
            let rest = chain(v@, *g, next as int, (left - 1) as nat);
            assert(chain(v@, *g, c as int, left as nat) == seq![c as int] + rest);
            assert(clusters@.push(c).map_values(|x: u16| x as int) =~= before.push(c as int));
            assert(before + (seq![c as int] + rest) =~= before.push(c as int) + rest);
        }
        clusters.push(c);
        c = next;
        left = left - 1;
    }
    proof {
        assert(chain(v@, *g, c as int, left as nat) =~= Seq::<int>::empty());
        assert(all =~= clusters@.map_values(|x: u16| x as int));
    }
    clusters
}

/// How many clusters a volume has.
fn cluster_count(g: &Geometry) -> (count: u32)
    requires
        g.wf(),
    ensures
        count == g.clusters(),
        count <= volume::FAT16_MAX_CLUSTERS,
{
    proof {
        lemma_places(*g);
        assert(g.fats * g.sectors_per_fat <= 255 * 65535) by (nonlinear_arith)
            requires
                0 <= g.fats <= 255,
                0 <= g.sectors_per_fat <= 65535,
        ;
    }
    g.total_sectors - (g.reserved as u32 + g.fats as u32 * g.sectors_per_fat as u32
        + g.root_entries as u32 / 16)
}

/// The first byte of the root directory.
fn root_start(g: &Geometry) -> (at: u64)
    requires
        g.wf(),
    ensures
        at == g.root_start(),
{
    proof {
        assert(g.fats * g.sectors_per_fat <= 255 * 65535) by (nonlinear_arith)
            requires
                0 <= g.fats <= 255,
                0 <= g.sectors_per_fat <= 65535,
        ;
    }
    (g.reserved as u64 + g.fats as u64 * g.sectors_per_fat as u64) * 512
}

/// The first byte of a cluster.
pub(crate) fn cluster_start(g: &Geometry, c: u16) -> (at: u64)
    requires
        g.wf(),
        g.has_cluster(c as int),
    ensures
        at == g.cluster_start(c as int),
{
    proof {
        lemma_places(*g);
    }
    root_start(g) + g.root_entries as u64 * 32 + (c as u64 - 2) * 512
}

/// Where the entries of a directory lie.
fn slots_of(v: &[u8], g: &Geometry, dir: u16) -> (all: Vec<usize>)
    requires
        g.wf(),
        g.total_sectors * SECTOR_SIZE == v@.len(),
    ensures
        all@.len() == slots(v@, *g, dir as int).len(),
        forall|i: int|
            0 <= i < all@.len() ==> #[trigger] all@[i] == slots(v@, *g, dir as int)[i] && all@[i]
                + SLOT_SIZE <= v@.len(),
{
    let mut all: Vec<usize> = Vec::new();
    let ghost want = slots(v@, *g, dir as int);
    proof {
        lemma_places(*g);
        lemma_slots(v@, *g, dir as int);
        assert(v@.len() == v.len());
    }
    if dir == 0 {
        let start: u64 = root_start(g);
        let mut i: u16 = 0;
        while i < g.root_entries
            invariant
                g.wf(),
                v@.len() == v.len(),
                want == slots(v@, *g, 0),
                start == g.root_start(),
                i <= g.root_entries,
                all@.len() == i,
                forall|j: int|
                    0 <= j < want.len() ==> 0 <= #[trigger] want[j] && want[j] + SLOT_SIZE
                        <= v@.len(),
                forall|j: int| 0 <= j < i ==> #[trigger] all@[j] == want[j],
            decreases g.root_entries - i,
        {
            assert(want[i as int] == start + i * 32);
            all.push((start + i as u64 * 32) as usize);
            i = i + 1;
        }
    } else {
        let clusters: Vec<u16> = chain_of(v, g, dir);
        let ghost list = chain(v@, *g, dir as int, g.clusters() as nat);
        proof {
            lemma_chain(v@, *g, dir as int, g.clusters() as nat);
        }
        let mut k: usize = 0;
        while k < clusters.len()
            invariant
                g.wf(),
                v@.len() == v.len(),
                dir != 0,
                list == chain(v@, *g, dir as int, g.clusters() as nat),
                want == slots(v@, *g, dir as int),
                k <= clusters@.len(),
                clusters@.len() == list.len(),
                forall|j: int| 0 <= j < list.len() ==> #[trigger] clusters@[j] == list[j],
                forall|j: int| 0 <= j < list.len() ==> g.has_cluster(#[trigger] list[j]),
                all@.len() == 16 * k,
                forall|j: int|
                    0 <= j < want.len() ==> 0 <= #[trigger] want[j] && want[j] + SLOT_SIZE
                        <= v@.len(),
                forall|j: int| 0 <= j < 16 * k ==> #[trigger] all@[j] == want[j],
            decreases clusters@.len() - k,
        {
            assert(g.has_cluster(list[k as int]));
            assert(clusters@[k as int] == list[k as int]);
            let start: u64 = cluster_start(g, clusters[k]);
            let mut i: usize = 0;
            while i < SLOTS_PER_CLUSTER
                invariant
                    v@.len() == v.len(),
                    dir != 0,
                    list == chain(v@, *g, dir as int, g.clusters() as nat),
                    want == slots(v@, *g, dir as int),
                    k < list.len(),
                    i <= 16,
                    start == g.cluster_start(list[k as int]),
                    all@.len() == 16 * k + i,
                    forall|j: int|
                        0 <= j < want.len() ==> 0 <= #[trigger] want[j] && want[j] + SLOT_SIZE
                            <= v@.len(),
                    forall|j: int| 0 <= j < 16 * k + i ==> #[trigger] all@[j] == want[j],
                decreases 16 - i,
            {
                proof {
                    let j = 16 * k + i;
                    assert(j / 16 == k && j % 16 == i);
                    assert(want[j] == start + i * 32);
                }
                all.push((start + i as u64 * 32) as usize);
                i = i + 1;
            }
            k = k + 1;
        }
    }
    all
}

/// Whether `dirs` holds `c`.
fn holds(dirs: &Vec<u16>, c: u16) -> (yes: bool)
    ensures
        yes == dirs@.contains(c),
{
    let mut i: usize = 0;
    while i < dirs.len()
        invariant
            i <= dirs@.len(),
            forall|j: int| 0 <= j < i ==> dirs@[j] != c,
        decreases dirs@.len() - i,
    {
        if dirs[i] == c {
            assert(dirs@[i as int] == c);
            return true;
        }
        i = i + 1;
    }
    false
}

/// Add the subdirectories of `dir` to `dirs`, unless they are there. Returns whether they
/// all have a cluster.
fn scan_dir(v: &[u8], g: &Geometry, dir: u16, dirs: &mut Vec<u16>) -> (ok: bool)
    requires
        g.wf(),
        g.total_sectors * SECTOR_SIZE == v@.len(),
        old(dirs)@.no_duplicates(),
    ensures
        final(dirs)@.no_duplicates(),
        old(dirs)@.is_prefix_of(final(dirs)@),
        forall|k: int|
            old(dirs)@.len() <= k < final(dirs)@.len() ==> g.has_cluster(
                #[trigger] final(dirs)@[k] as int,
            ) && has_subdir(v@, *g, dir as int, final(dirs)@[k] as int),
        ok ==> forall|c: int| #[trigger]
            has_subdir(v@, *g, dir as int, c) ==> g.has_cluster(c) && final(dirs)@.contains(c as u16),
        !ok ==> exists|c: int| #[trigger] has_subdir(v@, *g, dir as int, c) && !g.has_cluster(c),
{
    let all: Vec<usize> = slots_of(v, g, dir);
    let count: u32 = cluster_count(g);
    let ghost want = slots(v@, *g, dir as int);
    let ghost d = dir as int;
    let mut i: usize = 0;
    while i < all.len() && v[all[i]] != 0
        invariant
            count == g.clusters(),
            count <= volume::FAT16_MAX_CLUSTERS,
            d == dir as int,
            want == slots(v@, *g, d),
            v@.len() == v.len(),
            i <= all@.len(),
            all@.len() == want.len(),
            forall|j: int|
                0 <= j < all@.len() ==> #[trigger] all@[j] == want[j] && all@[j] + SLOT_SIZE
                    <= v@.len(),
            forall|j: int| 0 <= j < i ==> v@[#[trigger] want[j]] != 0,
            dirs@.no_duplicates(),
            old(dirs)@.is_prefix_of(dirs@),
            forall|k: int|
                old(dirs)@.len() <= k < dirs@.len() ==> g.has_cluster(#[trigger] dirs@[k] as int)
                    && has_subdir(v@, *g, d, dirs@[k] as int),
            forall|j: int, c: int|
                0 <= j < i && #[trigger] lists(v@, *g, d, j, c) ==> g.has_cluster(c)
                    && dirs@.contains(c as u16),
        decreases all@.len() - i,
    {
        let at: usize = all[i];
        assert(at == want[i as int]);
        let ghost before = dirs@;
        if v[at] != 0xE5 && v[at] != 0x2E && v[at + 11] / 16 % 2 == 1 {
            let c: u16 = get_le16(v, at + 26);
            proof {
                assert(listed(v@, *g, d, i as int)) by {
                    assert forall|j: int| 0 <= j <= i implies v@[#[trigger] want[j]] != 0 by {}
                }
                assert(lists(v@, *g, d, i as int, c as int));
                assert(has_subdir(v@, *g, d, c as int));
            }
            if c < 2 || c as u32 >= count + 2 {
                return false;
            }
            if !holds(dirs, c) {
                dirs.push(c);
            } else {
                assert(dirs@.contains(c));
            }
        }
        proof {
            assert forall|j: int, c: int|
                0 <= j < i + 1 && #[trigger] lists(v@, *g, d, j, c) implies g.has_cluster(c)
                && dirs@.contains(c as u16) by {
                if j < i {
                    assert(before.contains(c as u16));
                    let k = choose|k: int| 0 <= k < before.len() && before[k] == c as u16;
                    assert(dirs@[k] == c as u16);
                } else {
                    if !before.contains(c as u16) {
                        assert(dirs@.last() == c as u16);
                        assert(dirs@[dirs@.len() - 1] == c as u16);
                    }
                }
            }
        }
        i = i + 1;
    }
    proof {
        assert forall|c: int| #[trigger] has_subdir(v@, *g, d, c) implies g.has_cluster(c)
            && dirs@.contains(c as u16) by {
            let j = choose|j: int| lists(v@, *g, d, j, c);
            assert(lists(v@, *g, d, j, c));
            if j >= i {
                assert(v@[want[i as int]] != 0);
            }
        }
    }
    true
}

/// These are the subdirectories in the tree, each once.
pub open spec fn is_tree(v: Seq<u8>, g: Geometry, dirs: Seq<u16>) -> bool {
    &&& dirs.no_duplicates()
    &&& forall|k: int| 0 <= k < dirs.len() ==> g.has_cluster(#[trigger] dirs[k] as int)
    &&& forall|c: u16| #[trigger] dirs.contains(c) <==> c != 0 && in_tree(v, g, c as int)
}

/// Directories that hold all children of the root and of one another hold the tree.
proof fn lemma_closed(v: Seq<u8>, g: Geometry, dirs: Seq<u16>, dir: int)
    requires
        g.wf(),
        in_tree(v, g, dir),
        dir != 0,
        forall|c: int| #[trigger] has_subdir(v, g, 0, c) ==> dirs.contains(c as u16),
        forall|k: int, c: int|
            0 <= k < dirs.len() && #[trigger] has_subdir(v, g, dirs[k] as int, c)
                ==> dirs.contains(c as u16),
    ensures
        dirs.contains(dir as u16),
{
    let path = choose|path: Seq<int>| #[trigger] is_path(v, g, path) && path.last() == dir;
    lemma_closed_along(v, g, dirs, path, path.len() - 1);
}

/// Along a path, each directory behind the root is held.
proof fn lemma_closed_along(v: Seq<u8>, g: Geometry, dirs: Seq<u16>, path: Seq<int>, i: int)
    requires
        g.wf(),
        is_path(v, g, path),
        0 < i < path.len(),
        forall|c: int| #[trigger] has_subdir(v, g, 0, c) ==> dirs.contains(c as u16),
        forall|k: int, c: int|
            0 <= k < dirs.len() && #[trigger] has_subdir(v, g, dirs[k] as int, c)
                ==> dirs.contains(c as u16),
    ensures
        dirs.contains(path[i] as u16),
    decreases i,
{
    assert(is_child(v, g, path[i - 1], path[i]));
    if i > 1 {
        lemma_closed_along(v, g, dirs, path, i - 1);
        assert(is_child(v, g, path[i - 2], path[i - 1]));
        let k = choose|k: int| 0 <= k < dirs.len() && dirs[k] == path[i - 1] as u16;
        assert(dirs[k] as int == path[i - 1]);
        assert(has_subdir(v, g, dirs[k] as int, path[i]));
    }
}

/// Clusters that differ are no more than there are.
proof fn lemma_no_more_than_clusters(g: Geometry, dirs: Seq<u16>)
    requires
        g.wf(),
        dirs.no_duplicates(),
        forall|k: int| 0 <= k < dirs.len() ==> g.has_cluster(#[trigger] dirs[k] as int),
    ensures
        dirs.len() <= g.clusters(),
{
    let ints = dirs.map_values(|x: u16| x as int);
    assert(ints.no_duplicates()) by {
        assert forall|i: int, j: int| 0 <= i < j < ints.len() implies ints[i] != ints[j] by {
            assert(dirs[i] != dirs[j]);
        }
    }
    let range = vstd::set_lib::set_int_range(2, g.clusters() + 2);
    vstd::set_lib::lemma_int_range(2, g.clusters() + 2);
    assert(ints.to_set().subset_of(range)) by {
        assert forall|x: int| #[trigger] ints.to_set().contains(x) implies range.contains(x) by {
            let k = choose|k: int| 0 <= k < ints.len() && ints[k] == x;
            assert(g.has_cluster(dirs[k] as int));
        }
    }
    ints.unique_seq_to_set();
    vstd::set_lib::lemma_len_subset(ints.to_set(), range);
}

/// The subdirectories of a volume; none where a directory names a cluster that is not
/// there.
pub fn find_dirs(v: &[u8], g: &Geometry) -> (dirs: Option<Vec<u16>>)
    requires
        g.wf(),
        g.total_sectors * SECTOR_SIZE == v@.len(),
    ensures
        match dirs {
            Some(dirs) => is_tree(v@, *g, dirs@) && !is_broken(v@, *g),
            None => is_broken(v@, *g),
        },
{
    let mut dirs: Vec<u16> = Vec::new();
    proof {
        lemma_root_in_tree(v@, *g);
    }
    if !scan_dir(v, g, 0, &mut dirs) {
        return None;
    }
    proof {
        assert forall|k: int| 0 <= k < dirs@.len() implies in_tree(
            v@,
            *g,
            #[trigger] dirs@[k] as int,
        ) by {
            lemma_in_tree(v@, *g, 0, dirs@[k] as int);
        }
    }
    let mut n: usize = 0;
    while n < dirs.len()
        invariant
            g.wf(),
            g.total_sectors * SECTOR_SIZE == v@.len(),
            n <= dirs@.len(),
            dirs@.no_duplicates(),
            forall|k: int|
                0 <= k < dirs@.len() ==> g.has_cluster(#[trigger] dirs@[k] as int) && in_tree(
                    v@,
                    *g,
                    dirs@[k] as int,
                ),
            forall|c: int| #[trigger]
                has_subdir(v@, *g, 0, c) ==> g.has_cluster(c) && dirs@.contains(c as u16),
            forall|k: int, c: int|
                0 <= k < n && #[trigger] has_subdir(v@, *g, dirs@[k] as int, c) ==> g.has_cluster(c)
                    && dirs@.contains(c as u16),
        decreases g.clusters() - n,
    {
        let ghost before = dirs@;
        let dir: u16 = dirs[n];
        proof {
            lemma_no_more_than_clusters(*g, dirs@);
            assert(in_tree(v@, *g, dirs@[n as int] as int));
        }
        if !scan_dir(v, g, dir, &mut dirs) {
            return None;
        }
        proof {
            assert forall|k: int| 0 <= k < dirs@.len() implies g.has_cluster(
                #[trigger] dirs@[k] as int,
            ) && in_tree(v@, *g, dirs@[k] as int) by {
                if k < before.len() {
                    assert(dirs@[k] == before[k]);
                } else {
                    lemma_in_tree(v@, *g, dir as int, dirs@[k] as int);
                }
            }
            assert forall|c: u16| before.contains(c) implies #[trigger] dirs@.contains(c) by {
                let k = choose|k: int| 0 <= k < before.len() && before[k] == c;
                assert(dirs@[k] == c);
            }
            assert forall|k: int, c: int|
                0 <= k < n + 1 && #[trigger] has_subdir(
                    v@,
                    *g,
                    dirs@[k] as int,
                    c,
                ) implies g.has_cluster(c) && dirs@.contains(c as u16) by {
                assert(dirs@[k] == before[k]);
                assert(has_subdir(v@, *g, before[k] as int, c));
            }
            lemma_no_more_than_clusters(*g, dirs@);
        }
        n = n + 1;
    }
    proof {
        assert forall|c: u16| #[trigger] dirs@.contains(c) <==> c != 0 && in_tree(
            v@,
            *g,
            c as int,
        ) by {
            if dirs@.contains(c) {
                let k = choose|k: int| 0 <= k < dirs@.len() && dirs@[k] == c;
                assert(g.has_cluster(dirs@[k] as int));
            }
            if c != 0 && in_tree(v@, *g, c as int) {
                lemma_closed(v@, *g, dirs@, c as int);
            }
        }
        assert(!is_broken(v@, *g)) by {
            assert forall|dir: int, c: int| #[trigger]
                in_tree(v@, *g, dir) && #[trigger] has_subdir(v@, *g, dir, c) implies g.has_cluster(
                c,
            ) by {
                if dir != 0 {
                    lemma_closed(v@, *g, dirs@, dir);
                    lemma_tree_cluster(v@, *g, dir);
                    let k = choose|k: int| 0 <= k < dirs@.len() && dirs@[k] == dir as u16;
                    assert(dirs@[k] as int == dir);
                }
            }
        }
    }
    Some(dirs)
}

/// A subdirectory in the tree has its cluster.
pub proof fn lemma_tree_cluster(v: Seq<u8>, g: Geometry, dir: int)
    requires
        in_tree(v, g, dir),
        dir != 0,
    ensures
        g.has_cluster(dir),
{
    let path = choose|path: Seq<int>| #[trigger] is_path(v, g, path) && path.last() == dir;
    let i = path.len() - 1;
    assert(is_child(v, g, path[i - 1], path[i]));
}

} // verus!
