//! Ordering byte strings.

use vstd::prelude::*;

verus! {

/// The lexicographic order of byte strings: `a` does not come after `b`.
pub open spec fn bytes_le(a: Seq<u8>, b: Seq<u8>) -> bool
    decreases a.len(),
{
    if a.len() == 0 {
        true
    } else if b.len() == 0 {
        false
    } else if a[0] != b[0] {
        a[0] < b[0]
    } else {
        bytes_le(a.skip(1), b.skip(1))
    }
}

/// The order is total.
proof fn lemma_le_total(a: Seq<u8>, b: Seq<u8>)
    ensures
        bytes_le(a, b) || bytes_le(b, a),
        bytes_le(a, b) && bytes_le(b, a) ==> a == b,
    decreases a.len(),
{
    if a.len() > 0 && b.len() > 0 && a[0] == b[0] {
        lemma_le_total(a.skip(1), b.skip(1));
        if bytes_le(a, b) && bytes_le(b, a) {
            assert(a =~= seq![a[0]] + a.skip(1));
            assert(b =~= seq![b[0]] + b.skip(1));
        }
    } else if a.len() == 0 && b.len() == 0 {
        assert(a =~= b);
    }
}

/// `a` comes before `b` as words do in a dictionary: it is a beginning of `b`, or smaller at
/// the first place where they differ.
pub open spec fn is_less(a: Seq<u8>, b: Seq<u8>) -> bool {
    ||| a.len() < b.len() && b.take(a.len() as int) == a
    ||| exists|k: int| 0 <= k < a.len() && k < b.len() && a.take(k) == b.take(k) && #[trigger] a[k] < b[k]
}

/// Of two byte strings one comes before the other as in a dictionary, or they are the same.
pub proof fn bytes_are_ordered_as_words(a: Seq<u8>, b: Seq<u8>)
    ensures
        bytes_le(a, b) <==> a == b || is_less(a, b),
        is_less(a, b) ==> a != b && !bytes_le(b, a),
    decreases a.len(),
{
    lemma_le_total(a, b);
    if a.len() == 0 {
        assert(b.take(0) =~= a);
        if b.len() == 0 {
            assert(a =~= b);
        }
    } else if b.len() == 0 {
        if is_less(a, b) {
            assert(false);
        }
    } else if a[0] != b[0] {
        assert(a.take(0) =~= b.take(0));
        if is_less(a, b) {
            if a.len() < b.len() && b.take(a.len() as int) == a {
                assert(b.take(a.len() as int)[0] == b[0]);
            } else {
                let k = choose|k: int|
                    0 <= k < a.len() && k < b.len() && a.take(k) == b.take(k) && #[trigger] a[k]
                        < b[k];
                if k > 0 {
                    assert(a.take(k)[0] == b.take(k)[0]);
                }
            }
        }
    } else {
        let c = a.skip(1);
        let d = b.skip(1);
        bytes_are_ordered_as_words(c, d);
        assert(a =~= seq![a[0]] + c);
        assert(b =~= seq![b[0]] + d);
        if is_less(c, d) {
            if c.len() < d.len() && d.take(c.len() as int) == c {
                assert(b.take(a.len() as int) =~= a);
            } else {
                let k = choose|k: int|
                    0 <= k < c.len() && k < d.len() && c.take(k) == d.take(k) && #[trigger] c[k]
                        < d[k];
                assert(a.take(k + 1) =~= seq![a[0]] + c.take(k));
                assert(b.take(k + 1) =~= seq![b[0]] + d.take(k));
                assert(a[k + 1] == c[k] && b[k + 1] == d[k]);
            }
        }
        if is_less(a, b) {
            if a.len() < b.len() && b.take(a.len() as int) == a {
                assert(d.take(c.len() as int) =~= b.take(a.len() as int).skip(1));
            } else {
                let k = choose|k: int|
                    0 <= k < a.len() && k < b.len() && a.take(k) == b.take(k) && #[trigger] a[k]
                        < b[k];
                assert(k > 0);
                assert(c.take(k - 1) =~= a.take(k).skip(1));
                assert(d.take(k - 1) =~= b.take(k).skip(1));
                assert(c[k - 1] == a[k] && d[k - 1] == b[k]);
            }
        }
    }
}

/// The order is transitive.
proof fn lemma_le_transitive(a: Seq<u8>, b: Seq<u8>, c: Seq<u8>)
    requires
        bytes_le(a, b),
        bytes_le(b, c),
    ensures
        bytes_le(a, c),
    decreases a.len(),
{
    if a.len() > 0 && a[0] == b[0] && b[0] == c[0] {
        lemma_le_transitive(a.skip(1), b.skip(1), c.skip(1));
    }
}

/// Whether `a` does not come after `b`.
fn le(a: &[u8], b: &[u8]) -> (yes: bool)
    ensures
        yes == bytes_le(a@, b@),
{
    let mut i: usize = 0;
    assert(a@.skip(0) =~= a@);
    assert(b@.skip(0) =~= b@);
    while i < a.len() && i < b.len() && a[i] == b[i]
        invariant
            i <= a@.len(),
            i <= b@.len(),
            bytes_le(a@, b@) == bytes_le(a@.skip(i as int), b@.skip(i as int)),
        decreases a@.len() - i,
    {
        assert(a@.skip(i as int).skip(1) =~= a@.skip(i + 1));
        assert(b@.skip(i as int).skip(1) =~= b@.skip(i + 1));
        i = i + 1;
    }
    if i == a.len() {
        true
    } else if i == b.len() {
        false
    } else {
        a[i] < b[i]
    }
}

/// These byte strings as sequences.
pub open spec fn seqs(keys: Seq<Vec<u8>>) -> Seq<Seq<u8>> {
    Seq::new(keys.len(), |i: int| keys[i]@)
}

/// Key `i` comes before key `j`; keys that are the same come in the order in which they
/// were given.
pub open spec fn comes_before(keys: Seq<Seq<u8>>, i: int, j: int) -> bool {
    &&& bytes_le(keys[i], keys[j])
    &&& keys[i] == keys[j] ==> i < j
}

/// These are the first `n` keys, each once, in order.
pub open spec fn sorted_order(keys: Seq<Seq<u8>>, n: int, order: Seq<usize>) -> bool {
    &&& order.len() == n
    &&& forall|i: int| 0 <= i < n ==> 0 <= #[trigger] order[i] < n
    &&& forall|x: usize| x < n ==> #[trigger] order.contains(x)
    &&& forall|i: int, j: int|
        0 <= i < j < n ==> comes_before(keys, #[trigger] order[i] as int, #[trigger] order[j] as int)
}

/// The order in which all these keys come.
pub open spec fn order_of(keys: Seq<Seq<u8>>) -> Seq<usize> {
    choose|order: Seq<usize>| sorted_order(keys, keys.len() as int, order)
}

/// The place among sorted keys for key `new`.
fn insertion_place(keys: &Vec<Vec<u8>>, order: &Vec<usize>, new: usize) -> (at: usize)
    requires
        sorted_order(seqs(keys@), new as int, order@),
        new < keys@.len(),
    ensures
        at <= order@.len(),
        forall|i: int| 0 <= i < at ==> comes_before(seqs(keys@), #[trigger] order@[i] as int, new as int),
        forall|i: int|
            at <= i < order@.len() ==> comes_before(
                seqs(keys@),
                new as int,
                #[trigger] order@[i] as int,
            ),
{
    let mut at: usize = order.len();
    while at > 0 && !le(keys[order[at - 1]].as_slice(), keys[new].as_slice())
        invariant
            sorted_order(seqs(keys@), new as int, order@),
            new < keys@.len(),
            at <= order@.len(),
            forall|i: int|
                at <= i < order@.len() ==> comes_before(
                    seqs(keys@),
                    new as int,
                    #[trigger] order@[i] as int,
                ),
        decreases at,
    {
        proof {
            lemma_le_total(seqs(keys@)[order@[at - 1] as int], seqs(keys@)[new as int]);
        }
        at = at - 1;
    }
    proof {
        if at > 0 {
            let last = order@[at - 1] as int;
            assert forall|i: int| 0 <= i < at implies comes_before(
                seqs(keys@),
                #[trigger] order@[i] as int,
                new as int,
            ) by {
                if i < at - 1 {
                    assert(comes_before(seqs(keys@), order@[i] as int, last));
                    lemma_le_transitive(
                        seqs(keys@)[order@[i] as int],
                        seqs(keys@)[last],
                        seqs(keys@)[new as int],
                    );
                }
            }
        }
    }
    at
}

/// Inserting key `new` at its place keeps the order.
proof fn lemma_inserted(keys: Seq<Seq<u8>>, before: Seq<usize>, at: int, new: usize)
    requires
        sorted_order(keys, new as int, before),
        0 <= at <= before.len(),
        forall|i: int| 0 <= i < at ==> comes_before(keys, #[trigger] before[i] as int, new as int),
        forall|i: int|
            at <= i < before.len() ==> comes_before(
                keys,
                new as int,
                #[trigger] before[i] as int,
            ),
    ensures
        sorted_order(keys, new + 1, before.insert(at, new)),
{
    let order = before.insert(at, new);
    assert forall|i: int, j: int| 0 <= i < j < new + 1 implies comes_before(
        keys,
        #[trigger] order[i] as int,
        #[trigger] order[j] as int,
    ) by {
        let a = if i < at {
            i
        } else {
            i - 1
        };
        let b = if j < at {
            j
        } else {
            j - 1
        };
        if i != at && j != at {
            assert(order[i] == before[a] && order[j] == before[b]);
        } else if i == at {
            assert(order[j] == before[b]);
        } else {
            assert(order[i] == before[a]);
        }
    }
    assert forall|x: usize| x < new + 1 implies #[trigger] order.contains(x) by {
        if x == new {
            assert(order[at as int] == x);
        } else {
            assert(before.contains(x));
            let i = choose|i: int| 0 <= i < before.len() && before[i] == x;
            assert(order[if i < at { i } else { i + 1 }] == x);
        }
    }
    assert forall|i: int| 0 <= i < new + 1 implies 0 <= #[trigger] order[i] < new + 1 by {
        if i != at {
            assert(order[i] == before[if i < at { i } else { i - 1 }]);
        }
    }
}

/// The places of these keys, in their order.
pub fn sort(keys: &Vec<Vec<u8>>) -> (order: Vec<usize>)
    ensures
        sorted_order(seqs(keys@), keys@.len() as int, order@),
        order@ == order_of(seqs(keys@)),
{
    let mut order: Vec<usize> = Vec::new();
    let mut new: usize = 0;
    while new < keys.len()
        invariant
            new <= keys@.len(),
            sorted_order(seqs(keys@), new as int, order@),
        decreases keys@.len() - new,
    {
        let at: usize = insertion_place(keys, &order, new);
        let ghost before = order@;
        order.insert(at, new);
        proof {
            lemma_inserted(seqs(keys@), before, at as int, new);
        }
        new = new + 1;
    }
    proof {
        order_is_unique(seqs(keys@), order@, order_of(seqs(keys@)));
    }
    order
}

/// The place among sorted keys for key `new`, at most `at`.
proof fn lemma_place(keys: Seq<Seq<u8>>, order: Seq<usize>, new: usize, at: int) -> (place: int)
    requires
        sorted_order(keys, new as int, order),
        0 <= at <= order.len(),
        forall|i: int|
            at <= i < order.len() ==> comes_before(keys, new as int, #[trigger] order[i] as int),
    ensures
        0 <= place <= order.len(),
        forall|i: int| 0 <= i < place ==> comes_before(keys, #[trigger] order[i] as int, new as int),
        forall|i: int|
            place <= i < order.len() ==> comes_before(keys, new as int, #[trigger] order[i] as int),
    decreases at,
{
    if at == 0 {
        0
    } else {
        let last = order[at - 1] as int;
        lemma_le_total(keys[last], keys[new as int]);
        if bytes_le(keys[last], keys[new as int]) {
            assert forall|i: int| 0 <= i < at implies comes_before(
                keys,
                #[trigger] order[i] as int,
                new as int,
            ) by {
                if i < at - 1 {
                    assert(comes_before(keys, order[i] as int, last));
                    lemma_le_transitive(keys[order[i] as int], keys[last], keys[new as int]);
                }
            }
            at
        } else {
            lemma_place(keys, order, new, at - 1)
        }
    }
}

/// The first `n` keys have an order.
proof fn lemma_has_order(keys: Seq<Seq<u8>>, n: nat) -> (order: Seq<usize>)
    requires
        n <= keys.len() <= usize::MAX,
    ensures
        sorted_order(keys, n as int, order),
    decreases n,
{
    if n == 0 {
        Seq::empty()
    } else {
        let new = (n - 1) as usize;
        let before = lemma_has_order(keys, (n - 1) as nat);
        let at = lemma_place(keys, before, new, before.len() as int);
        lemma_inserted(keys, before, at, new);
        before.insert(at, new)
    }
}

/// Keys always have an order.
pub proof fn order_exists(keys: Seq<Seq<u8>>)
    requires
        keys.len() <= usize::MAX,
    ensures
        sorted_order(keys, keys.len() as int, order_of(keys)),
{
    let order = lemma_has_order(keys, keys.len());
    assert(sorted_order(keys, keys.len() as int, order));
}

/// There is one order: sorting leaves no choice.
pub proof fn order_is_unique(keys: Seq<Seq<u8>>, a: Seq<usize>, b: Seq<usize>)
    requires
        sorted_order(keys, keys.len() as int, a),
        sorted_order(keys, keys.len() as int, b),
    ensures
        a == b,
{
    assert forall|k: int| 0 <= k < a.len() implies a[k] == b[k] by {
        lemma_same_place(keys, a, b, k);
    }
    assert(a =~= b);
}

/// Two orders agree at place `k`.
proof fn lemma_same_place(keys: Seq<Seq<u8>>, a: Seq<usize>, b: Seq<usize>, k: int)
    requires
        sorted_order(keys, keys.len() as int, a),
        sorted_order(keys, keys.len() as int, b),
        0 <= k < a.len(),
    ensures
        a[k] == b[k],
    decreases k,
{
    assert forall|i: int| 0 <= i < k implies a[i] == b[i] by {
        lemma_same_place(keys, a, b, i);
    }
    if a[k] != b[k] {
        assert(b.contains(a[k]) && a.contains(b[k]));
        let m = choose|m: int| 0 <= m < b.len() && b[m] == a[k];
        let l = choose|l: int| 0 <= l < a.len() && a[l] == b[k];
        if m < k {
            assert(a[m] == b[m]);
            assert(comes_before(keys, a[m] as int, a[k] as int));
        }
        if l < k {
            assert(a[l] == b[l]);
            assert(comes_before(keys, b[l] as int, b[k] as int));
        }
        assert(comes_before(keys, b[k] as int, b[m] as int));
        assert(comes_before(keys, a[k] as int, a[l] as int));
        lemma_le_total(keys[a[k] as int], keys[b[k] as int]);
    }
}

} // verus!
