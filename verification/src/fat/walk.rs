//! A source tree by the ways through it, and what becomes of each source at the end of one.

use vstd::prelude::*;

use super::stamp::Stamp;
use super::tree;
use super::tree::{Body, Entry, Fault, Item, Refusal, Source};
use crate::order;

verus! {

/// The source that a way leads to: each step picks an entry of the directory that the one
/// before it led to, the first one an entry of the root.
pub open spec fn source_at(sources: Seq<Source>, way: Seq<int>) -> Option<Source>
    decreases way.len(),
{
    if way.len() == 0 || !(0 <= way[0] < sources.len()) {
        None
    } else if way.len() == 1 {
        Some(sources[way[0]])
    } else {
        match sources[way[0]].body {
            Body::Dir(list) => source_at(list@, way.skip(1)),
            _ => None,
        }
    }
}

/// The path that a way spells out: the names of the sources on it, with slashes between
/// them.
pub open spec fn path_at(sources: Seq<Source>, way: Seq<int>) -> Seq<char>
    decreases way.len(),
{
    if way.len() == 0 {
        Seq::empty()
    } else {
        let name = vstd::utf8::decode_utf8(sources[way[0]].name@);
        match sources[way[0]].body {
            Body::Dir(list) if way.len() > 1 => name + seq!['/'] + path_at(list@, way.skip(1)),
            _ => name,
        }
    }
}

/// The sources on a way have names that are not empty, as all names of a file system.
pub open spec fn named(sources: Seq<Source>, way: Seq<int>) -> bool
    decreases way.len(),
{
    way.len() == 0 || {
        &&& vstd::utf8::decode_utf8(sources[way[0]].name@).len() > 0
        &&& sources[way[0]].body matches Body::Dir(list) ==> named(list@, way.skip(1))
    }
}

/// An entry that stands for a source: at the path, a file with all that is in the source
/// and a directory with nothing, and with the commit time of the source, or the first
/// second of 1980.
pub open spec fn stands_for(item: Item, source: Source, path: Seq<char>) -> bool {
    &&& item.path == path
    &&& vstd::utf8::valid_utf8(source.name@)
    &&& match source.body {
        Body::File(contents) => item.contents == Some(contents@),
        Body::Dir(_) => item.contents is None,
        _ => false,
    }
    &&& match source.stamp {
        Some(stamp) => item.stamp == stamp && item.committed,
        None => item.stamp == (Stamp { year: 1980, month: 1, day: 1, hour: 0, min: 0, sec: 0 })
            && !item.committed,
    }
}

/// An entry that was made for a source: at the path, a file with the contents of the source
/// and a directory with none, and with its commit time, if it has one.
pub open spec fn made_for(entry: Entry, source: Source, path: Seq<char>) -> bool {
    &&& entry.path@ == path
    &&& source.body matches Body::File(contents) ==> (entry.contents matches Some(bytes)
        && bytes@ == contents@)
    &&& source.body is Dir ==> entry.contents is None
    &&& source.stamp matches Some(stamp) ==> entry.stamp == stamp && entry.committed
    &&& source.stamp is None ==> !entry.committed
}

/// A path below a directory, as a whole.
proof fn lemma_joined(dir: Seq<char>, name: Seq<char>, rest: Seq<char>)
    requires
        name.len() > 0,
    ensures
        tree::joined(tree::joined(dir, name), rest) == tree::joined(
            dir,
            name + seq!['/'] + rest,
        ),
{
    assert(tree::joined(tree::joined(dir, name), rest) =~= tree::joined(
        dir,
        name + seq!['/'] + rest,
    ));
}

/// Where in the plan of the directory `dir` the source at the end of a way is created.
proof fn lemma_created(sources: Seq<Source>, dir: Seq<char>, way: Seq<int>) -> (k: int)
    requires
        sources.len() <= usize::MAX,
        source_at(sources, way) is Some,
        named(sources, way),
        tree::laid_out(sources, dir) is Ok,
    ensures
        0 <= k < tree::laid_out(sources, dir)->Ok_0.len(),
        stands_for(
            tree::laid_out(sources, dir)->Ok_0[k],
            source_at(sources, way)->0,
            tree::joined(dir, path_at(sources, way)),
        ),
    decreases way.len(),
{
    let all = tree::laid_out(sources, dir)->Ok_0;
    let source = sources[way[0]];
    tree::every_source_is_created(sources, dir, way[0]);
    let piece = tree::laid_one(source, dir)->Ok_0;
    let at = choose|at: int| #[trigger] tree::holds_at(all, piece, at);
    assert(all.subrange(at, at + piece.len()) == piece);
    assert(piece[0] == tree::own_item(source, dir));
    assert(all[at] == all.subrange(at, at + piece.len())[0]);
    if way.len() == 1 {
        at
    } else {
        match source.body {
            Body::Dir(list) => {
                let own = tree::own_item(source, dir);
                let inner = tree::laid_out(list@, own.path)->Ok_0;
                assert(list@.len() == list.len());
                let k = lemma_created(list@, own.path, way.skip(1));
                let name = vstd::utf8::decode_utf8(source.name@);
                lemma_joined(dir, name, path_at(list@, way.skip(1)));
                assert(piece == seq![own] + inner);
                assert(piece[k + 1] == inner[k]);
                assert(all[at + 1 + k] == all.subrange(at, at + piece.len())[k + 1]);
                at + 1 + k
            },
            _ => at,
        }
    }
}

/// Every source of a tree that can be laid out is created: the plan has an entry at its
/// path that stands for it, a file with all of its contents.
pub proof fn every_source_has_its_entry(root: Seq<Source>, way: Seq<int>)
    requires
        root.len() <= usize::MAX,
        source_at(root, way) is Some,
        named(root, way),
        tree::laid_out(root, Seq::empty()) is Ok,
    ensures
        exists|k: int|
            0 <= k < tree::laid_out(root, Seq::empty())->Ok_0.len() && #[trigger] stands_for(
                tree::laid_out(root, Seq::empty())->Ok_0[k],
                source_at(root, way)->0,
                path_at(root, way),
            ),
{
    let k = lemma_created(root, Seq::empty(), way);
    assert(stands_for(
        tree::laid_out(root, Seq::empty())->Ok_0[k],
        source_at(root, way)->0,
        path_at(root, way),
    ));
}

/// The way on from the entry `first` of a directory.
spec fn on(first: int, way: Seq<int>) -> Seq<int> {
    seq![first] + way
}

/// Steps that go on from an entry lead where they lead from its own directory.
proof fn lemma_on(sources: Seq<Source>, first: int, way: Seq<int>)
    requires
        0 <= first < sources.len(),
    ensures
        way.len() == 0 ==> source_at(sources, on(first, way)) == Some(sources[first]) && path_at(
            sources,
            on(first, way),
        ) == vstd::utf8::decode_utf8(sources[first].name@),
        way.len() > 0 ==> (sources[first].body matches Body::Dir(list) ==> source_at(
            sources,
            on(first, way),
        ) == source_at(list@, way) && path_at(sources, on(first, way)) == vstd::utf8::decode_utf8(
            sources[first].name@,
        ) + seq!['/'] + path_at(list@, way)),
{
    assert(on(first, way).skip(1) =~= way);
    assert(on(first, way)[0] == first);
}

/// All sources of a tree have names that are not empty, as all names of a file system.
pub open spec fn all_named(sources: Seq<Source>) -> bool {
    forall|way: Seq<int>|
        (#[trigger] source_at(sources, way)) matches Some(source) ==> vstd::utf8::decode_utf8(
            source.name@,
        ).len() > 0
}

/// What is below a directory has names too.
proof fn lemma_named_below(sources: Seq<Source>, first: int)
    requires
        all_named(sources),
        0 <= first < sources.len(),
    ensures
        vstd::utf8::decode_utf8(sources[first].name@).len() > 0,
        sources[first].body matches Body::Dir(list) ==> all_named(list@),
{
    lemma_on(sources, first, Seq::empty());
    assert(source_at(sources, on(first, Seq::empty())) is Some);
    if let Body::Dir(list) = sources[first].body {
        assert forall|way: Seq<int>|
            (#[trigger] source_at(list@, way)) matches Some(source) implies vstd::utf8::decode_utf8(
            source_at(list@, way)->0.name@,
        ).len() > 0 by {
            lemma_on(sources, first, way);
            assert(source_at(sources, on(first, way)) == source_at(list@, way));
        }
    }
}

/// The way to the source that entry `k` among the first ones of a directory stands for.
proof fn lemma_origin(
    sources: Seq<Source>,
    order: Seq<usize>,
    n: nat,
    dir: Seq<char>,
    k: int,
) -> (way: Seq<int>)
    requires
        all_named(sources),
        tree::laid_first(sources, order, n, dir) is Ok,
        0 <= k < tree::laid_first(sources, order, n, dir)->Ok_0.len(),
    ensures
        way.len() > 0,
        source_at(sources, way) matches Some(source) && stands_for(
            tree::laid_first(sources, order, n, dir)->Ok_0[k],
            source,
            tree::joined(dir, path_at(sources, way)),
        ),
    decreases sources, n,
{
    reveal_with_fuel(tree::laid_first, 2);
    let all = tree::laid_first(sources, order, n, dir)->Ok_0;
    let before = tree::laid_first(sources, order, (n - 1) as nat, dir)->Ok_0;
    if k < before.len() {
        assert(all[k] == before[k]);
        lemma_origin(sources, order, (n - 1) as nat, dir, k)
    } else {
        let first = order[n - 1] as int;
        let source = sources[first];
        lemma_named_below(sources, first);
        let piece = tree::laid_one(source, dir)->Ok_0;
        let m = k - before.len();
        assert(all[k] == piece[m]);
        let own = tree::own_item(source, dir);
        if m == 0 {
            lemma_on(sources, first, Seq::empty());
            on(first, Seq::empty())
        } else {
            match source.body {
                Body::Dir(list) => {
                    let inner = tree::laid_out(list@, own.path)->Ok_0;
                    assert(piece[m] == inner[m - 1]);
                    let rest = lemma_origin(
                        list@,
                        order::order_of(tree::names(list@)),
                        list@.len(),
                        own.path,
                        m - 1,
                    );
                    lemma_on(sources, first, rest);
                    lemma_joined(
                        dir,
                        vstd::utf8::decode_utf8(source.name@),
                        path_at(list@, rest),
                    );
                    on(first, rest)
                },
                _ => on(first, Seq::empty()),
            }
        }
    }
}

/// Every entry of a plan stands for a source of the tree: nothing else is created.
pub proof fn every_entry_has_its_source(root: Seq<Source>, k: int)
    requires
        all_named(root),
        tree::laid_out(root, Seq::empty()) is Ok,
        0 <= k < tree::laid_out(root, Seq::empty())->Ok_0.len(),
    ensures
        exists|way: Seq<int>|
            #[trigger] source_at(root, way) is Some && stands_for(
                tree::laid_out(root, Seq::empty())->Ok_0[k],
                source_at(root, way)->0,
                path_at(root, way),
            ),
{
    let way = lemma_origin(
        root,
        order::order_of(tree::names(root)),
        root.len(),
        Seq::empty(),
        k,
    );
    assert(source_at(root, way) is Some);
}

/// A source that cannot be created, for this reason.
pub open spec fn is_faulty(source: Source, fault: Fault) -> bool {
    match fault {
        Fault::NonUtf8 => !vstd::utf8::valid_utf8(source.name@),
        Fault::Symlink => vstd::utf8::valid_utf8(source.name@) && source.body is Symlink,
        Fault::Unsupported => vstd::utf8::valid_utf8(source.name@) && source.body is Other,
    }
}

/// The way to the source for which the first ones of a directory are refused.
proof fn lemma_refused(sources: Seq<Source>, order: Seq<usize>, n: nat, dir: Seq<char>) -> (way:
    Seq<int>)
    requires
        all_named(sources),
        tree::laid_first(sources, order, n, dir) is Err,
    ensures
        way.len() > 0,
        source_at(sources, way) matches Some(source) && is_faulty(
            source,
            tree::laid_first(sources, order, n, dir)->Err_0.fault,
        ) && tree::laid_first(sources, order, n, dir)->Err_0.name == source.name@,
        way.len() == 1 ==> tree::laid_first(sources, order, n, dir)->Err_0.dir == dir,
        way.len() > 1 ==> tree::laid_first(sources, order, n, dir)->Err_0.dir == tree::joined(
            dir,
            path_at(sources, way.drop_last()),
        ),
    decreases sources, n,
{
    reveal_with_fuel(tree::laid_first, 2);
    let before = tree::laid_first(sources, order, (n - 1) as nat, dir);
    if before is Err {
        lemma_refused(sources, order, (n - 1) as nat, dir)
    } else {
        let first = order[n - 1] as int;
        let source = sources[first];
        lemma_named_below(sources, first);
        let own = tree::own_item(source, dir);
        lemma_on(sources, first, Seq::empty());
        let refusal = tree::laid_first(sources, order, n, dir)->Err_0;
        assert(tree::laid_one(source, dir) == Err::<Seq<Item>, Refusal>(refusal));
        if tree::fault(source) is Some {
            on(first, Seq::empty())
        } else {
            match source.body {
                Body::Dir(list) => {
                    assert(tree::laid_out(list@, own.path) == Err::<Seq<Item>, Refusal>(refusal));
                    let rest = lemma_refused(
                        list@,
                        order::order_of(tree::names(list@)),
                        list@.len(),
                        own.path,
                    );
                    lemma_on(sources, first, rest);
                    lemma_on(sources, first, rest.drop_last());
                    assert(on(first, rest).drop_last() =~= on(first, rest.drop_last()));
                    if rest.len() > 1 {
                        lemma_joined(
                            dir,
                            vstd::utf8::decode_utf8(source.name@),
                            path_at(list@, rest.drop_last()),
                        );
                    }
                    on(first, rest)
                },
                _ => on(first, Seq::empty()),
            }
        }
    }
}

/// A tree is refused only for a source in it that cannot be created: one whose name is not
/// UTF-8, or that is neither a directory nor a file. Its name is told, and the path of the
/// directory that it is in.
pub proof fn refusals_name_a_source(root: Seq<Source>)
    requires
        all_named(root),
        tree::laid_out(root, Seq::empty()) is Err,
    ensures
        exists|way: Seq<int>|
            #[trigger] source_at(root, way) is Some && is_faulty(
                source_at(root, way)->0,
                tree::laid_out(root, Seq::empty())->Err_0.fault,
            ) && tree::laid_out(root, Seq::empty())->Err_0.name == source_at(root, way)->0.name@
                && tree::laid_out(root, Seq::empty())->Err_0.dir == path_at(root, way.drop_last()),
{
    let way = lemma_refused(
        root,
        order::order_of(tree::names(root)),
        root.len(),
        Seq::empty(),
    );
    assert(source_at(root, way) is Some);
    assert(path_at(root, Seq::empty()) =~= Seq::<char>::empty());
    if way.len() == 1 {
        assert(way.drop_last() =~= Seq::<int>::empty());
    }
}

/// A source that cannot be created has the whole tree refused.
pub proof fn faulty_sources_are_refused(root: Seq<Source>, way: Seq<int>, fault: Fault)
    requires
        root.len() <= usize::MAX,
        source_at(root, way) is Some,
        named(root, way),
        is_faulty(source_at(root, way)->0, fault),
    ensures
        tree::laid_out(root, Seq::empty()) is Err,
{
    if tree::laid_out(root, Seq::empty()) is Ok {
        let k = lemma_created(root, Seq::empty(), way);
    }
}

/// Where the sources that are taken `i`-th and `j`-th are laid out, in this order.
proof fn lemma_pieces(
    sources: Seq<Source>,
    order: Seq<usize>,
    i: int,
    j: int,
    n: nat,
    dir: Seq<char>,
) -> (ats: (int, int))
    requires
        0 <= i < j < n,
        order[i] < sources.len(),
        order[j] < sources.len(),
        tree::laid_first(sources, order, n, dir) is Ok,
    ensures
        ({
            let all = tree::laid_first(sources, order, n, dir)->Ok_0;
            let first = tree::laid_one(sources[order[i] as int], dir);
            let second = tree::laid_one(sources[order[j] as int], dir);
            &&& first is Ok
            &&& second is Ok
            &&& tree::holds_at(all, first->Ok_0, ats.0)
            &&& tree::holds_at(all, second->Ok_0, ats.1)
            &&& ats.0 + first->Ok_0.len() <= ats.1
        }),
    decreases n,
{
    let all = tree::laid_first(sources, order, n, dir)->Ok_0;
    let before = tree::laid_first(sources, order, (n - 1) as nat, dir)->Ok_0;
    if j == n - 1 {
        let at = tree::lemma_in_one_piece(sources, order, i, (n - 1) as nat, dir);
        let first = tree::laid_one(sources[order[i] as int], dir)->Ok_0;
        let second = tree::laid_one(sources[order[j] as int], dir)->Ok_0;
        let next = before.len() as int;
        assert(all.subrange(at, at + first.len()) =~= before.subrange(at, at + first.len()));
        assert(all.subrange(next, next + second.len()) =~= second);
        (at, next)
    } else {
        let ats = lemma_pieces(sources, order, i, j, (n - 1) as nat, dir);
        let first = tree::laid_one(sources[order[i] as int], dir)->Ok_0;
        let second = tree::laid_one(sources[order[j] as int], dir)->Ok_0;
        assert(all.subrange(ats.0, ats.0 + first.len()) =~= before.subrange(
            ats.0,
            ats.0 + first.len(),
        ));
        assert(all.subrange(ats.1, ats.1 + second.len()) =~= before.subrange(
            ats.1,
            ats.1 + second.len(),
        ));
        ats
    }
}

/// The entries of a directory are created in the order of their names, whatever the order in
/// which they were listed: all of one before all of the next.
pub proof fn siblings_come_by_name(sources: Seq<Source>, dir: Seq<char>, i: int, j: int)
    requires
        sources.len() <= usize::MAX,
        0 <= i < sources.len(),
        0 <= j < sources.len(),
        order::is_less(sources[i].name@, sources[j].name@),
        tree::laid_out(sources, dir) is Ok,
    ensures
        exists|a: int, b: int|
            #![trigger tree::holds_at(
                tree::laid_out(sources, dir)->Ok_0,
                tree::laid_one(sources[i], dir)->Ok_0,
                a,
            ), tree::holds_at(
                tree::laid_out(sources, dir)->Ok_0,
                tree::laid_one(sources[j], dir)->Ok_0,
                b,
            )]
            {
                &&& tree::holds_at(
                    tree::laid_out(sources, dir)->Ok_0,
                    tree::laid_one(sources[i], dir)->Ok_0,
                    a,
                )
                &&& tree::holds_at(
                    tree::laid_out(sources, dir)->Ok_0,
                    tree::laid_one(sources[j], dir)->Ok_0,
                    b,
                )
                &&& a + tree::laid_one(sources[i], dir)->Ok_0.len() <= b
            },
{
    let keys = tree::names(sources);
    let order = order::order_of(keys);
    order::order_exists(keys);
    order::bytes_are_ordered_as_words(sources[i].name@, sources[j].name@);
    order::bytes_are_ordered_as_words(sources[j].name@, sources[i].name@);
    assert(order.contains(i as usize) && order.contains(j as usize));
    let p = choose|k: int| 0 <= k < order.len() && order[k] == i as usize;
    let q = choose|k: int| 0 <= k < order.len() && order[k] == j as usize;
    assert(keys[i] == sources[i].name@ && keys[j] == sources[j].name@);
    if q <= p {
        assert(q != p);
        assert(order::comes_before(keys, order[q] as int, order[p] as int));
    }
    let ats = lemma_pieces(sources, order, p, q, sources.len(), dir);
    assert(tree::holds_at(
        tree::laid_out(sources, dir)->Ok_0,
        tree::laid_one(sources[i], dir)->Ok_0,
        ats.0,
    ));
    assert(tree::holds_at(
        tree::laid_out(sources, dir)->Ok_0,
        tree::laid_one(sources[j], dir)->Ok_0,
        ats.1,
    ));
}

/// The number of the first `n` sources of a directory and of all those below them.
pub open spec fn source_count(sources: Seq<Source>, n: nat) -> nat
    decreases sources, n,
{
    if n == 0 || n > sources.len() {
        0
    } else {
        source_count(sources, (n - 1) as nat) + 1 + match sources[n - 1].body {
            Body::Dir(list) => source_count(list@, list@.len()),
            _ => 0,
        }
    }
}

/// How many sources each of these is, with those below it.
spec fn weights(sources: Seq<Source>) -> Seq<nat> {
    Seq::new(
        sources.len(),
        |i: int|
            1 + match sources[i].body {
                Body::Dir(list) => source_count(list@, list@.len()),
                _ => 0,
            },
    )
}

/// The weights at these places, summed up.
spec fn total(weights: Seq<nat>, order: Seq<usize>) -> nat
    decreases order.len(),
{
    if order.len() == 0 {
        0
    } else {
        total(weights, order.drop_last()) + weights[order.last() as int]
    }
}

proof fn lemma_total_without(weights: Seq<nat>, order: Seq<usize>, p: int)
    requires
        0 <= p < order.len(),
    ensures
        total(weights, order) == total(weights, order.remove(p)) + weights[order[p] as int],
    decreases order.len(),
{
    if p == order.len() - 1 {
        assert(order.remove(p) =~= order.drop_last());
    } else {
        lemma_total_without(weights, order.drop_last(), p);
        assert(order.remove(p).drop_last() =~= order.drop_last().remove(p));
    }
}

/// A sum does not depend on the order in which it is taken.
proof fn lemma_total(sources: Seq<Source>, order: Seq<usize>)
    requires
        order.len() <= sources.len() <= usize::MAX,
        forall|i: int| 0 <= i < order.len() ==> 0 <= #[trigger] order[i] < order.len(),
        forall|x: usize| x < order.len() ==> #[trigger] order.contains(x),
        forall|i: int, j: int| 0 <= i < j < order.len() ==> order[i] != order[j],
    ensures
        total(weights(sources), order) == source_count(sources, order.len()),
    decreases order.len(),
{
    let n = order.len();
    if n > 0 {
        assert(order[0] < n);
        let last = (n - 1) as usize;
        assert(order.contains(last));
        let p = choose|k: int| 0 <= k < order.len() && order[k] == last;
        let rest = order.remove(p);
        assert forall|i: int| 0 <= i < rest.len() implies 0 <= #[trigger] rest[i] < rest.len() by {
            let j = if i < p {
                i
            } else {
                i + 1
            };
            assert(rest[i] == order[j]);
            assert(order[j] != order[p]);
        }
        assert forall|x: usize| x < rest.len() implies #[trigger] rest.contains(x) by {
            assert(order.contains(x));
            let j = choose|k: int| 0 <= k < order.len() && order[k] == x;
            let i = if j < p {
                j
            } else {
                j - 1
            };
            assert(rest[i] == x);
        }
        assert forall|i: int, j: int| 0 <= i < j < rest.len() implies rest[i] != rest[j] by {
            let a = if i < p {
                i
            } else {
                i + 1
            };
            let b = if j < p {
                j
            } else {
                j + 1
            };
            assert(rest[i] == order[a] && rest[j] == order[b]);
        }
        lemma_total(sources, rest);
        lemma_total_without(weights(sources), order, p);
    }
}

/// The entries for the first sources of a directory are as many as these weigh.
proof fn lemma_laid_total(sources: Seq<Source>, order: Seq<usize>, k: nat, dir: Seq<char>)
    requires
        k <= order.len(),
        forall|i: int| 0 <= i < order.len() ==> 0 <= #[trigger] order[i] < sources.len(),
        tree::laid_first(sources, order, k, dir) is Ok,
    ensures
        tree::laid_first(sources, order, k, dir)->Ok_0.len() == total(
            weights(sources),
            order.take(k as int),
        ),
    decreases sources, 0nat, k,
{
    reveal_with_fuel(tree::laid_first, 2);
    if k > 0 {
        lemma_laid_total(sources, order, (k - 1) as nat, dir);
        assert(order.take(k as int).drop_last() =~= order.take(k - 1));
        let source = sources[order[k - 1] as int];
        let own = tree::own_item(source, dir);
        if let Body::Dir(list) = source.body {
            assert(list@.len() == list.len());
            lemma_count(list@, own.path);
        }
    }
}

proof fn lemma_count(sources: Seq<Source>, dir: Seq<char>)
    requires
        sources.len() <= usize::MAX,
        tree::laid_out(sources, dir) is Ok,
    ensures
        tree::laid_out(sources, dir)->Ok_0.len() == source_count(sources, sources.len()),
    decreases sources, 1nat, 0nat,
{
    let keys = tree::names(sources);
    let order = order::order_of(keys);
    order::order_exists(keys);
    lemma_laid_total(sources, order, sources.len(), dir);
    assert(order.take(sources.len() as int) =~= order);
    assert forall|i: int, j: int| 0 <= i < j < order.len() implies order[i] != order[j] by {
        assert(order::comes_before(keys, order[i] as int, order[j] as int));
    }
    lemma_total(sources, order);
}

/// A plan has as many entries as the tree has sources: each is created once.
pub proof fn every_source_is_created_once(root: Seq<Source>)
    requires
        root.len() <= usize::MAX,
        tree::laid_out(root, Seq::empty()) is Ok,
    ensures
        tree::laid_out(root, Seq::empty())->Ok_0.len() == source_count(root, root.len()),
{
    lemma_count(root, Seq::empty());
}

/// The fields of an entry are what it is.
pub proof fn entries_are_their_fields(entries: Seq<Entry>, k: int)
    requires
        0 <= k < entries.len(),
    ensures
        tree::items(entries).len() == entries.len(),
        tree::items(entries)[k].path == entries[k].path@,
        entries[k].contents matches Some(bytes) ==> tree::items(entries)[k].contents == Some(bytes@),
        entries[k].contents is None ==> tree::items(entries)[k].contents is None,
        tree::items(entries)[k].stamp == entries[k].stamp,
        tree::items(entries)[k].committed == entries[k].committed,
{
}

/// Entries without a commit time are counted one by one.
pub proof fn entries_without_history_are_counted(a: Seq<Item>, b: Seq<Item>)
    ensures
        tree::uncommitted(a + b) == tree::uncommitted(a) + tree::uncommitted(b),
        a.len() == 1 ==> tree::uncommitted(a) == if a[0].committed {
            0int
        } else {
            1
        },
    decreases b.len(),
{
    if b.len() == 0 {
        assert(a + b =~= a);
    } else {
        assert((a + b).drop_last() =~= a + b.drop_last());
        entries_without_history_are_counted(a, b.drop_last());
    }
    if a.len() == 1 {
        assert(tree::uncommitted(a.drop_last()) == 0);
    }
}

/// A tree can be made into an image whenever no commit in it is dated before 1980.
pub proof fn dates_since_1980_are_held(sources: Seq<Source>)
    requires
        forall|way: Seq<int>|
            (#[trigger] source_at(sources, way)) matches Some(source) ==> (source.stamp matches Some(
                stamp,
            ) ==> stamp.year >= 1980),
    ensures
        tree::dated_sources(sources),
    decreases sources,
{
    assert forall|i: int| 0 <= i < sources.len() implies tree::dated_source(
        #[trigger] sources[i],
    ) by {
        lemma_on(sources, i, Seq::empty());
        assert(source_at(sources, on(i, Seq::empty())) is Some);
        if let Body::Dir(list) = sources[i].body {
            assert forall|way: Seq<int>|
                (#[trigger] source_at(list@, way)) matches Some(source) implies (
            source_at(list@, way)->0.stamp matches Some(stamp) ==> stamp.year >= 1980) by {
                lemma_on(sources, i, way);
                assert(source_at(sources, on(i, way)) == source_at(list@, way));
            }
            assert(decreases_to!(sources => sources[i]));
            dates_since_1980_are_held(list@);
        }
    }
}

} // verus!
