//! Stable ordering of items by a key.
//!
//! A sort here never moves the items: it returns the positions of the items
//! in the order in which they come out. Items whose keys tie keep the order
//! in which they stood.

use crate::text::{is_text_below, lemma_text_order, text_below};
use vstd::prelude::*;

verus! {

/// A key by which items are ordered. The order is stated over the rank of a
/// key, a mathematical value.
pub trait SortKey: Sized {
    /// What a key is ordered by.
    type Rank;

    /// The rank of this key.
    spec fn rank(&self) -> Self::Rank;

    /// `a` stands strictly below `b`.
    spec fn rank_below(a: Self::Rank, b: Self::Rank) -> bool;

    /// Decides whether the rank of `self` stands below that of `other`.
    fn is_below(&self, other: &Self) -> (b: bool)
        ensures
            b == Self::rank_below(self.rank(), other.rank()),
    ;

    /// `rank_below` is a strict weak order: nothing is below itself, it is
    /// transitive, and what is below `c` is below `b` or has `b` below `c`.
    proof fn lemma_strict_weak(a: Self::Rank, b: Self::Rank, c: Self::Rank)
        ensures
            !Self::rank_below(a, a),
            Self::rank_below(a, b) && Self::rank_below(b, c) ==> Self::rank_below(a, c),
            Self::rank_below(a, c) ==> Self::rank_below(a, b) || Self::rank_below(b, c),
    ;
}

impl SortKey for u64 {
    type Rank = int;

    open spec fn rank(&self) -> int {
        *self as int
    }

    open spec fn rank_below(a: int, b: int) -> bool {
        a < b
    }

    fn is_below(&self, other: &Self) -> (b: bool) {
        *self < *other
    }

    proof fn lemma_strict_weak(a: int, b: int, c: int) {
    }
}

impl SortKey for usize {
    type Rank = int;

    open spec fn rank(&self) -> int {
        *self as int
    }

    open spec fn rank_below(a: int, b: int) -> bool {
        a < b
    }

    fn is_below(&self, other: &Self) -> (b: bool) {
        *self < *other
    }

    proof fn lemma_strict_weak(a: int, b: int, c: int) {
    }
}

impl SortKey for i32 {
    type Rank = int;

    open spec fn rank(&self) -> int {
        *self as int
    }

    open spec fn rank_below(a: int, b: int) -> bool {
        a < b
    }

    fn is_below(&self, other: &Self) -> (b: bool) {
        *self < *other
    }

    proof fn lemma_strict_weak(a: int, b: int, c: int) {
    }
}

impl SortKey for Vec<char> {
    type Rank = Seq<char>;

    open spec fn rank(&self) -> Seq<char> {
        self@
    }

    open spec fn rank_below(a: Seq<char>, b: Seq<char>) -> bool {
        text_below(a, b)
    }

    fn is_below(&self, other: &Self) -> (b: bool) {
        is_text_below(self, other)
    }

    proof fn lemma_strict_weak(a: Seq<char>, b: Seq<char>, c: Seq<char>) {
        lemma_text_order(a, b, c);
    }
}

/// The ranks of `keys`, in order.
pub open spec fn ranks_of<K: SortKey>(keys: Seq<K>) -> Seq<K::Rank> {
    keys.map_values(|k: K| k.rank())
}

/// `items` in the order that `order` gives: first the item at `order[0]`.
pub open spec fn arranged<T>(items: Seq<T>, order: Seq<int>) -> Seq<T> {
    Seq::new(order.len(), |p: int| items[order[p]])
}

/// `a` comes strictly before `b`: below it in ascending order, above it in
/// descending order.
pub open spec fn precedes<K: SortKey>(a: K::Rank, b: K::Rank, descending: bool) -> bool {
    if descending {
        K::rank_below(b, a)
    } else {
        K::rank_below(a, b)
    }
}

/// `order` with position `i` put in: behind every position whose key does not
/// come strictly after the key at `i`, scanning from the back.
pub open spec fn placed<K: SortKey>(
    keys: Seq<K::Rank>,
    order: Seq<int>,
    i: int,
    descending: bool,
) -> Seq<int>
    decreases order.len(),
{
    if order.len() > 0 && precedes::<K>(keys[i], keys[order.last()], descending) {
        placed::<K>(keys, order.drop_last(), i, descending).push(order.last())
    } else {
        order.push(i)
    }
}

/// The positions `0..n` of `keys` in stable sorted order.
pub open spec fn sorted_prefix<K: SortKey>(keys: Seq<K::Rank>, n: nat, descending: bool) -> Seq<int>
    decreases n,
{
    if n == 0 {
        Seq::empty()
    } else {
        placed::<K>(keys, sorted_prefix::<K>(keys, (n - 1) as nat, descending), n - 1, descending)
    }
}

/// The positions of all of `keys` in stable sorted order.
pub open spec fn sorted_order<K: SortKey>(keys: Seq<K::Rank>, descending: bool) -> Seq<int> {
    sorted_prefix::<K>(keys, keys.len(), descending)
}

/// No key of `order` comes strictly after a key that stands later in it, and
/// of two positions whose keys tie the smaller one stands first.
pub open spec fn stably_sorted<K: SortKey>(
    keys: Seq<K::Rank>,
    order: Seq<int>,
    descending: bool,
) -> bool {
    forall|p: int, q: int|
        0 <= p < q < order.len() ==> {
            &&& !precedes::<K>(keys[#[trigger] order[q]], keys[#[trigger] order[p]], descending)
            &&& (!precedes::<K>(keys[order[p]], keys[order[q]], descending) ==> order[p] < order[q])
        }
}

/// `order` holds each of the positions `0..n` once and nothing else.
pub open spec fn permutes(order: Seq<int>, n: nat) -> bool {
    &&& order.len() == n
    &&& forall|p: int| 0 <= p < order.len() ==> 0 <= #[trigger] order[p] < n
    &&& forall|p: int, q: int| 0 <= p < q < order.len() ==> #[trigger] order[p] != #[trigger] order[q]
}

/// Where `placed` puts `i`: the sequence splits at some `at`, with `i`
/// between the two parts; all keys behind `at` come strictly after the key at
/// `i`, and the key just before `at` does not.
pub proof fn lemma_placed_splits<K: SortKey>(
    keys: Seq<K::Rank>,
    order: Seq<int>,
    i: int,
    descending: bool,
) -> (at: int)
    ensures
        0 <= at <= order.len(),
        placed::<K>(keys, order, i, descending) == order.insert(at, i),
        forall|p: int| at <= p < order.len() ==> precedes::<K>(keys[i], keys[#[trigger] order[p]], descending),
        at > 0 ==> !precedes::<K>(keys[i], keys[order[at - 1]], descending),
    decreases order.len(),
{
    if order.len() > 0 && precedes::<K>(keys[i], keys[order.last()], descending) {
        let at = lemma_placed_splits::<K>(keys, order.drop_last(), i, descending);
        assert(order.drop_last().insert(at, i).push(order.last()) =~= order.insert(at, i));
        assert forall|p: int| at <= p < order.len() implies precedes::<K>(
            keys[i],
            keys[#[trigger] order[p]],
            descending,
        ) by {
            if p < order.len() - 1 {
                assert(order.drop_last()[p] == order[p]);
            }
        }
        if at > 0 {
            assert(order.drop_last()[at - 1] == order[at - 1]);
        }
        at
    } else {
        assert(order.push(i) =~= order.insert(order.len() as int, i));
        order.len() as int
    }
}

/// The sorted order of the first `n` keys holds each position below `n` once,
/// is sorted, and keeps ties in the order in which they stood.
pub proof fn lemma_sorted_prefix<K: SortKey>(keys: Seq<K::Rank>, n: nat, descending: bool)
    requires
        n <= keys.len(),
    ensures
        permutes(sorted_prefix::<K>(keys, n, descending), n),
        stably_sorted::<K>(keys, sorted_prefix::<K>(keys, n, descending), descending),
    decreases n,
{
    if n > 0 {
        let i = n - 1;
        let before = sorted_prefix::<K>(keys, i as nat, descending);
        let after = sorted_prefix::<K>(keys, n, descending);
        lemma_sorted_prefix::<K>(keys, i as nat, descending);
        let at = lemma_placed_splits::<K>(keys, before, i, descending);
        assert(after == before.insert(at, i));
        assert forall|p: int, q: int| 0 <= p < q < after.len() implies {
            &&& !precedes::<K>(keys[#[trigger] after[q]], keys[#[trigger] after[p]], descending)
            &&& (!precedes::<K>(keys[after[p]], keys[after[q]], descending) ==> after[p] < after[q])
        } by {
            if q < at {
                assert(after[p] == before[p] && after[q] == before[q]);
            } else if q == at {
                // after[q] is the new position i; after[p] stood before it
                assert(after[p] == before[p]);
                assert(after[at] == i);
                lemma_bounded_by_last::<K>(keys, before, i, at, p, descending);
            } else if p < at {
                assert(after[p] == before[p] && after[q] == before[q - 1]);
            } else if p == at {
                assert(after[q] == before[q - 1]);
                K::lemma_strict_weak(keys[i], keys[before[q - 1]], keys[i]);
            } else {
                assert(after[p] == before[p - 1] && after[q] == before[q - 1]);
            }
        }
    }
}

/// In a sorted order, when the key at `i` does not come strictly before the
/// key just before `at`, it comes strictly before none of the keys that stand
/// before `at`.
proof fn lemma_bounded_by_last<K: SortKey>(
    keys: Seq<K::Rank>,
    order: Seq<int>,
    i: int,
    at: int,
    p: int,
    descending: bool,
)
    requires
        stably_sorted::<K>(keys, order, descending),
        0 <= p < at <= order.len(),
        !precedes::<K>(keys[i], keys[order[at - 1]], descending),
    ensures
        !precedes::<K>(keys[i], keys[order[p]], descending),
{
    if p < at - 1 {
        assert(!precedes::<K>(keys[order[at - 1]], keys[order[p]], descending));
        if descending {
            K::lemma_strict_weak(keys[order[p]], keys[order[at - 1]], keys[i]);
        } else {
            K::lemma_strict_weak(keys[i], keys[order[at - 1]], keys[order[p]]);
        }
    }
}

/// The sorted order of `keys` holds each position once, is sorted, and keeps
/// ties in the order in which they stood.
pub proof fn lemma_sorted_order<K: SortKey>(keys: Seq<K::Rank>, descending: bool)
    ensures
        permutes(sorted_order::<K>(keys, descending), keys.len()),
        covers(sorted_order::<K>(keys, descending), keys.len()),
        stably_sorted::<K>(keys, sorted_order::<K>(keys, descending), descending),
{
    lemma_sorted_prefix::<K>(keys, keys.len(), descending);
    lemma_sorted_prefix_covers::<K>(keys, keys.len(), descending);
}

/// Every position below `n` stands in the sorted order of the first `n` keys.
pub proof fn lemma_sorted_prefix_onto<K: SortKey>(
    keys: Seq<K::Rank>,
    n: nat,
    descending: bool,
    i: int,
) -> (p: int)
    requires
        0 <= i < n,
    ensures
        0 <= p < sorted_prefix::<K>(keys, n, descending).len(),
        sorted_prefix::<K>(keys, n, descending)[p] == i,
    decreases n,
{
    let before = sorted_prefix::<K>(keys, (n - 1) as nat, descending);
    let at = lemma_placed_splits::<K>(keys, before, n - 1, descending);
    if i == n - 1 {
        at
    } else {
        let q = lemma_sorted_prefix_onto::<K>(keys, (n - 1) as nat, descending, i);
        if q < at {
            q
        } else {
            q + 1
        }
    }
}

/// Position `i` stands in `order`.
pub open spec fn stands_in(order: Seq<int>, i: int) -> bool {
    exists|p: int| 0 <= p < order.len() && #[trigger] order[p] == i
}

/// Every position below `n` stands in `order`.
pub open spec fn covers(order: Seq<int>, n: nat) -> bool {
    forall|i: int| 0 <= i < n ==> #[trigger] stands_in(order, i)
}

/// The sorted order covers the positions that it sorts.
pub proof fn lemma_sorted_prefix_covers<K: SortKey>(keys: Seq<K::Rank>, n: nat, descending: bool)
    ensures
        covers(sorted_prefix::<K>(keys, n, descending), n),
{
    let order = sorted_prefix::<K>(keys, n, descending);
    assert forall|i: int| 0 <= i < n implies #[trigger] stands_in(order, i) by {
        let p = lemma_sorted_prefix_onto::<K>(keys, n, descending, i);
        assert(order[p] == i);
    }
}

/// The sorted order is the only one: an order that holds each of the first
/// `n` positions once, is sorted, and keeps ties in the order in which they
/// stand, is the sorted order of the first `n` keys.
pub proof fn lemma_sorted_prefix_unique<K: SortKey>(
    keys: Seq<K::Rank>,
    n: nat,
    order: Seq<int>,
    descending: bool,
)
    requires
        n <= keys.len(),
        permutes(order, n),
        covers(order, n),
        stably_sorted::<K>(keys, order, descending),
    ensures
        order == sorted_prefix::<K>(keys, n, descending),
    decreases n,
{
    if n == 0 {
        assert(order =~= sorted_prefix::<K>(keys, n, descending));
    } else {
        let top = n - 1;
        assert(stands_in(order, top));
        let a = choose|p: int| 0 <= p < order.len() && #[trigger] order[p] == top;
        let rest = order.remove(a);
        assert forall|p: int| 0 <= p < rest.len() implies rest[p] == order[if p < a {
            p
        } else {
            p + 1
        }] by {}
        assert(permutes(rest, top as nat)) by {
            assert forall|p: int| 0 <= p < rest.len() implies 0 <= #[trigger] rest[p] < top by {
                let q = if p < a {
                    p
                } else {
                    p + 1
                };
                assert(rest[p] == order[q]);
                if q < a {
                    assert(order[q] != order[a]);
                } else {
                    assert(order[a] != order[q]);
                }
            }
            assert forall|p: int, q: int| 0 <= p < q < rest.len() implies #[trigger] rest[p]
                != #[trigger] rest[q] by {
                let pp = if p < a {
                    p
                } else {
                    p + 1
                };
                let qq = if q < a {
                    q
                } else {
                    q + 1
                };
                assert(order[pp] != order[qq]);
            }
        }
        assert(covers(rest, top as nat)) by {
            assert forall|i: int| 0 <= i < top implies #[trigger] stands_in(rest, i) by {
                assert(stands_in(order, i));
                let q = choose|q: int| 0 <= q < order.len() && #[trigger] order[q] == i;
                let p = if q < a {
                    q
                } else {
                    q - 1
                };
                assert(rest[p] == i);
            }
        }
        assert(stably_sorted::<K>(keys, rest, descending)) by {
            assert forall|p: int, q: int| 0 <= p < q < rest.len() implies {
                &&& !precedes::<K>(keys[#[trigger] rest[q]], keys[#[trigger] rest[p]], descending)
                &&& (!precedes::<K>(keys[rest[p]], keys[rest[q]], descending) ==> rest[p] < rest[q])
            } by {
                let pp = if p < a {
                    p
                } else {
                    p + 1
                };
                let qq = if q < a {
                    q
                } else {
                    q + 1
                };
                assert(rest[p] == order[pp] && rest[q] == order[qq]);
            }
        }
        lemma_sorted_prefix_unique::<K>(keys, top as nat, rest, descending);
        lemma_sorted_prefix::<K>(keys, top as nat, descending);
        let at = lemma_placed_splits::<K>(keys, rest, top, descending);
        assert(order =~= rest.insert(a, top));
        if a < at {
            // what stands at `a` in the rest stands behind `top` in the order
            assert(order[a + 1] == rest[a]);
            assert(order[a] == top);
            lemma_bounded_by_last::<K>(keys, rest, top, at, a, descending);
            K::lemma_strict_weak(keys[rest[a]], keys[top], keys[rest[a]]);
            assert(false);
        } else if a > at {
            // what stands at `at` in the rest stands before `top` in the order
            assert(order[at] == rest[at]);
            assert(order[a] == top);
            assert(false);
        }
    }
}

/// The sorted order of `keys` is the only order that holds each position
/// once, is sorted, and keeps ties in the order in which they stand.
pub proof fn lemma_sorted_order_unique<K: SortKey>(
    keys: Seq<K::Rank>,
    order: Seq<int>,
    descending: bool,
)
    requires
        permutes(order, keys.len()),
        covers(order, keys.len()),
        stably_sorted::<K>(keys, order, descending),
    ensures
        order == sorted_order::<K>(keys, descending),
{
    lemma_sorted_prefix_unique::<K>(keys, keys.len(), order, descending);
}

/// `order` as mathematical positions.
pub open spec fn positions(order: Seq<usize>) -> Seq<int> {
    order.map_values(|i: usize| i as int)
}

/// Sorts stably: returns the positions of `keys` in ascending order, or in
/// descending order when `descending` is set. Keys that tie come out in the
/// order in which they stand in `keys`.
pub fn stable_order<K: SortKey>(keys: &Vec<K>, descending: bool) -> (order: Vec<usize>)
    ensures
        positions(order@) == sorted_order::<K>(ranks_of(keys@), descending),
        order@.len() == keys@.len(),
        forall|p: int| 0 <= p < order@.len() ==> #[trigger] order@[p] < keys@.len(),
{
    let ghost ranks = ranks_of(keys@);
    let mut order: Vec<usize> = Vec::new();
    let mut n: usize = 0;
    while n < keys.len()
        invariant
            n <= keys.len(),
            ranks == ranks_of(keys@),
            positions(order@) == sorted_prefix::<K>(ranks, n as nat, descending),
        decreases keys.len() - n,
    {
        proof {
            lemma_sorted_prefix::<K>(ranks, n as nat, descending);
        }
        let ghost before = positions(order@);
        let ghost goal = placed::<K>(ranks, before, n as int, descending);
        assert(order@.len() == n);
        let mut at: usize = order.len();
        proof {
            assert(before.take(at as int) == before);
            assert(goal + before.skip(at as int) =~= goal);
        }
        while at > 0 && precedes_exec(&keys[n], &keys[order[at - 1]], descending)
            invariant
                at <= order@.len(),
                n < keys.len(),
                order@.len() == n,
                ranks == ranks_of(keys@),
                before == positions(order@),
                permutes(before, n as nat),
                goal == placed::<K>(ranks, before.take(at as int), n as int, descending)
                    + before.skip(at as int),
            decreases at,
        {
            proof {
                let head = before.take(at as int);
                assert(head.last() == before[at - 1]);
                assert(head.drop_last() == before.take(at - 1));
                assert(before[at - 1] == order@[at - 1] as int);
                assert(ranks[n as int] == keys@[n as int].rank());
                assert(ranks[before[at - 1]] == keys@[before[at - 1]].rank());
                let shorter = placed::<K>(ranks, before.take(at - 1), n as int, descending);
                assert(placed::<K>(ranks, head, n as int, descending) == shorter.push(head.last()));
                assert(shorter.push(head.last()) + before.skip(at as int) =~= shorter
                    + before.skip(at - 1));
            }
            at -= 1;
        }
        proof {
            let head = before.take(at as int);
            if at > 0 {
                assert(head.last() == before[at - 1]);
                assert(before[at - 1] == order@[at - 1] as int);
                assert(ranks[n as int] == keys@[n as int].rank());
                assert(ranks[before[at - 1]] == keys@[before[at - 1]].rank());
            }
            assert(placed::<K>(ranks, head, n as int, descending) == head.push(n as int));
            assert(head.push(n as int) + before.skip(at as int) =~= before.insert(
                at as int,
                n as int,
            ));
        }
        order.insert(at, n);
        proof {
            assert(positions(order@) =~= before.insert(at as int, n as int));
        }
        n += 1;
    }
    proof {
        lemma_sorted_order::<K>(ranks, descending);
        assert forall|p: int| 0 <= p < order@.len() implies #[trigger] order@[p] < keys@.len() by {
            assert(positions(order@)[p] == order@[p] as int);
        }
    }
    order
}

/// Decides `precedes`.
pub fn precedes_exec<K: SortKey>(a: &K, b: &K, descending: bool) -> (r: bool)
    ensures
        r == precedes::<K>(a.rank(), b.rank(), descending),
{
    if descending {
        b.is_below(a)
    } else {
        a.is_below(b)
    }
}

} // verus!
