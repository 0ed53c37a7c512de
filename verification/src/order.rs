//! Stable sorting of positions: a list is ordered by listing the positions of
//! its entries, so that entries of any type can follow.

use vstd::prelude::*;
use vstd::seq_lib::*;

verus! {

/// A strict total order on the positions `0..size()` of a list.
pub trait IndexOrder {
    spec fn size(&self) -> nat;

    spec fn before(&self, i: int, j: int) -> bool;

    proof fn order_laws(&self, i: int, j: int, k: int)
        requires
            0 <= i < self.size(),
            0 <= j < self.size(),
            0 <= k < self.size(),
        ensures
            !self.before(i, i),
            i != j ==> self.before(i, j) != self.before(j, i),
            self.before(i, j) && self.before(j, k) ==> self.before(i, k),
    ;

    fn precedes(&self, i: usize, j: usize) -> (r: bool)
        requires
            i < self.size(),
            j < self.size(),
        ensures
            r == self.before(i as int, j as int),
    ;
}

/// Whether the positions in `order` ascend.
pub open spec fn ascending<K: IndexOrder>(keys: &K, order: Seq<usize>) -> bool {
    forall|x: int, y: int|
        #![trigger order[x], order[y]]
        0 <= x < y < order.len() ==> keys.before(order[x] as int, order[y] as int)
}

/// The positions `lo..hi` in a row.
pub open spec fn positions(lo: int, hi: int) -> Seq<usize> {
    Seq::new((hi - lo) as nat, |i: int| (lo + i) as usize)
}

/// `order` lists each of the positions `0..size()` once, in ascending order.
pub open spec fn is_order_of<K: IndexOrder>(keys: &K, order: Seq<usize>) -> bool {
    &&& order.to_multiset() == positions(0, keys.size() as int).to_multiset()
    &&& ascending(keys, order)
}

pub proof fn lemma_within(order: Seq<usize>, lo: int, hi: int)
    requires
        0 <= lo <= hi <= usize::MAX,
        order.to_multiset() == positions(lo, hi).to_multiset(),
    ensures
        order.len() == hi - lo,
        forall|x: int| 0 <= x < order.len() ==> lo <= #[trigger] order[x] < hi,
{
    broadcast use group_to_multiset_ensures;

    assert(order.to_multiset().len() == order.len());
    assert(positions(lo, hi).to_multiset().len() == positions(lo, hi).len());
    assert forall|x: int| 0 <= x < order.len() implies lo <= #[trigger] order[x] < hi by {
        assert(order.contains(order[x]));
        assert(order.to_multiset().count(order[x]) > 0);
        assert(positions(lo, hi).contains(order[x]));
    }
}

fn merge<K: IndexOrder>(keys: &K, left: &Vec<usize>, right: &Vec<usize>) -> (out: Vec<usize>)
    requires
        ascending(keys, left@),
        ascending(keys, right@),
        forall|x: int| 0 <= x < left@.len() ==> #[trigger] left@[x] < keys.size(),
        forall|y: int| 0 <= y < right@.len() ==> #[trigger] right@[y] < keys.size(),
        forall|x: int, y: int|
            0 <= x < left@.len() && 0 <= y < right@.len() ==> #[trigger] left@[x]
                != #[trigger] right@[y],
    ensures
        ascending(keys, out@),
        out@.to_multiset() == left@.to_multiset().add(right@.to_multiset()),
{
    let mut out: Vec<usize> = Vec::new();
    let mut i: usize = 0;
    let mut j: usize = 0;
    proof {
        assert(left@.take(0) =~= Seq::<usize>::empty());
        assert(right@.take(0) =~= Seq::<usize>::empty());
        assert(out@.to_multiset() =~= left@.take(0).to_multiset().add(right@.take(0).to_multiset())) by {
            broadcast use group_to_multiset_ensures;

        }
    }
    while i < left.len() || j < right.len()
        invariant
            i <= left.len(),
            j <= right.len(),
            ascending(keys, left@),
            ascending(keys, right@),
            forall|x: int| 0 <= x < left@.len() ==> #[trigger] left@[x] < keys.size(),
            forall|y: int| 0 <= y < right@.len() ==> #[trigger] right@[y] < keys.size(),
            forall|x: int, y: int|
                0 <= x < left@.len() && 0 <= y < right@.len() ==> #[trigger] left@[x]
                    != #[trigger] right@[y],
            ascending(keys, out@),
            forall|x: int, y: int|
                #![trigger out@[x], left@[y]]
                0 <= x < out@.len() && i <= y < left@.len() ==> keys.before(
                    out@[x] as int,
                    left@[y] as int,
                ),
            forall|x: int, y: int|
                #![trigger out@[x], right@[y]]
                0 <= x < out@.len() && j <= y < right@.len() ==> keys.before(
                    out@[x] as int,
                    right@[y] as int,
                ),
            out@.to_multiset() == left@.take(i as int).to_multiset().add(
                right@.take(j as int).to_multiset(),
            ),
        decreases left.len() - i + (right.len() - j),
    {
        let ghost before = out@;
        if j == right.len() || (i < left.len() && keys.precedes(left[i], right[j])) {
            let v = left[i];
            out.push(v);
            proof {
                broadcast use to_multiset_build;

                assert(left@.take(i + 1) =~= left@.take(i as int).push(v));
                assert(out@.to_multiset() =~= left@.take(i + 1).to_multiset().add(
                    right@.take(j as int).to_multiset(),
                ));
                assert forall|y: int| j <= y < right@.len() implies keys.before(
                    v as int,
                    #[trigger] right@[y] as int,
                ) by {
                    if y > j {
                        keys.order_laws(v as int, right@[j as int] as int, right@[y] as int);
                    }
                }
            }
            i += 1;
        } else {
            let v = right[j];
            out.push(v);
            proof {
                broadcast use to_multiset_build;

                assert(right@.take(j + 1) =~= right@.take(j as int).push(v));
                assert(out@.to_multiset() =~= left@.take(i as int).to_multiset().add(
                    right@.take(j + 1).to_multiset(),
                ));
                assert forall|y: int| i <= y < left@.len() implies keys.before(
                    v as int,
                    #[trigger] left@[y] as int,
                ) by {
                    keys.order_laws(left@[i as int] as int, v as int, 0);
                    if y > i {
                        keys.order_laws(v as int, left@[i as int] as int, left@[y] as int);
                    }
                }
            }
            j += 1;
        }
    }
    proof {
        assert(left@.take(i as int) =~= left@);
        assert(right@.take(j as int) =~= right@);
    }
    out
}

fn sort_range<K: IndexOrder>(keys: &K, lo: usize, hi: usize) -> (order: Vec<usize>)
    requires
        lo <= hi <= keys.size(),
    ensures
        ascending(keys, order@),
        order@.to_multiset() == positions(lo as int, hi as int).to_multiset(),
    decreases hi - lo,
{
    if hi - lo < 2 {
        let mut order: Vec<usize> = Vec::new();
        if lo < hi {
            order.push(lo);
        }
        assert(order@ =~= positions(lo as int, hi as int));
        return order;
    }
    let mid: usize = lo + (hi - lo) / 2;
    let left = sort_range(keys, lo, mid);
    let right = sort_range(keys, mid, hi);
    proof {
        lemma_within(left@, lo as int, mid as int);
        lemma_within(right@, mid as int, hi as int);
        assert(positions(lo as int, hi as int) =~= positions(lo as int, mid as int) + positions(
            mid as int,
            hi as int,
        ));
        lemma_multiset_commutative(positions(lo as int, mid as int), positions(mid as int, hi as int));
    }
    merge(keys, &left, &right)
}

/// The positions `0..n` in ascending order.
pub fn sorted_positions<K: IndexOrder>(keys: &K, n: usize) -> (order: Vec<usize>)
    requires
        n == keys.size(),
    ensures
        is_order_of(keys, order@),
        order@.len() == n,
        forall|x: int| 0 <= x < order@.len() ==> #[trigger] order@[x] < n,
{
    let order = sort_range(keys, 0, n);
    proof {
        lemma_within(order@, 0, n as int);
    }
    order
}

/// Positions that are all listed once give each entry of a list once.
pub proof fn lemma_listed_once<A>(order: Seq<usize>, items: Seq<A>)
    requires
        items.len() <= usize::MAX,
        order.to_multiset() == positions(0, items.len() as int).to_multiset(),
    ensures
        order.len() == items.len(),
        order.map_values(|i: usize| items[i as int]).to_multiset() == items.to_multiset(),
{
    lemma_within(order, 0, items.len() as int);
    let p = positions(0, items.len() as int);
    lemma_map_of_permutation(order, p, |i: usize| items[i as int]);
    assert(p.map_values(|i: usize| items[i as int]) =~= items);
}

/// An order of a list holds every position of it.
pub proof fn lemma_every_position(order: Seq<usize>, n: int)
    requires
        0 <= n <= usize::MAX,
        order.to_multiset() == positions(0, n).to_multiset(),
    ensures
        forall|i: int| 0 <= i < n ==> order.contains(#[trigger] (i as usize)),
{
    broadcast use group_to_multiset_ensures;

    assert forall|i: int| 0 <= i < n implies order.contains(#[trigger] (i as usize)) by {
        let p = positions(0, n);
        assert(p[i] == i as usize);
        assert(p.contains(i as usize));
        assert(p.to_multiset().count(i as usize) > 0);
        assert(order.to_multiset().count(i as usize) > 0);
    }
}

proof fn lemma_map_of_permutation<A, B>(s: Seq<A>, t: Seq<A>, f: spec_fn(A) -> B)
    requires
        s.to_multiset() == t.to_multiset(),
    ensures
        s.map_values(f).to_multiset() == t.map_values(f).to_multiset(),
    decreases s.len(),
{
    broadcast use group_to_multiset_ensures;

    assert(s.to_multiset().len() == s.len());
    assert(t.to_multiset().len() == t.len());
    if s.len() == 0 {
        assert(s.map_values(f) =~= t.map_values(f));
    } else {
        let a = s.last();
        assert(s.contains(a));
        assert(s.to_multiset().count(a) > 0);
        let k = t.index_of(a);
        let s1 = s.drop_last();
        let t1 = t.remove(k);
        assert(s1 =~= s.remove(s.len() - 1));
        to_multiset_remove(s, s.len() - 1);
        to_multiset_remove(t, k);
        lemma_map_of_permutation(s1, t1, f);
        assert(s.map_values(f).remove(s.len() - 1) =~= s1.map_values(f));
        assert(t.map_values(f).remove(k) =~= t1.map_values(f));
        to_multiset_remove(s.map_values(f), s.len() - 1);
        to_multiset_remove(t.map_values(f), k);
        let ms = s.map_values(f).to_multiset();
        let mt = t.map_values(f).to_multiset();
        assert(s.map_values(f).contains(f(a))) by {
            assert(s.map_values(f)[s.len() - 1] == f(a));
        }
        assert(t.map_values(f).contains(f(a))) by {
            assert(t.map_values(f)[k] == f(a));
        }
        assert(ms =~= ms.remove(f(a)).insert(f(a)));
        assert(mt =~= mt.remove(f(a)).insert(f(a)));
    }
}

/// Positions ordered by the rank that each carries, equal ranks as they stand.
pub struct Ranks<'a> {
    pub ranks: &'a Vec<usize>,
}

/// Whether position `i` comes before position `j` by rank and then by place.
pub open spec fn rank_before(ranks: Seq<usize>, i: int, j: int) -> bool {
    ranks[i] < ranks[j] || (ranks[i] == ranks[j] && i < j)
}

impl<'a> IndexOrder for Ranks<'a> {
    open spec fn size(&self) -> nat {
        self.ranks@.len()
    }

    open spec fn before(&self, i: int, j: int) -> bool {
        rank_before(self.ranks@, i, j)
    }

    proof fn order_laws(&self, i: int, j: int, k: int) {
    }

    fn precedes(&self, i: usize, j: usize) -> (r: bool) {
        self.ranks[i] < self.ranks[j] || (self.ranks[i] == self.ranks[j] && i < j)
    }
}

} // verus!
