//! Consolidation: the buckets, one for each rank, in which trees of equal rank meet and
//! are linked.

use vstd::prelude::*;
use vstd::multiset::Multiset;
use crate::forest::lemma_entries_push;
use crate::model::{forest_entries, Tree};
use crate::order::{key_le, key_lt, lawful_order};
use crate::rank::lemma_spread_push;

verus! {

/// The trees that a row of buckets holds, in the order of the buckets.
pub open spec fn bucket_forest<I, K: Ord>(b: Seq<Option<Tree<I, K>>>) -> Seq<Tree<I, K>>
    decreases b.len(),
{
    if b.len() == 0 {
        Seq::empty()
    } else {
        match b.last() {
            Some(t) => bucket_forest(b.drop_last()).push(t),
            None => bucket_forest(b.drop_last()),
        }
    }
}

/// Each bucket is empty or holds a tree whose rank is the bucket's place, in heap order
/// and with the children of each node spread over the ranks.
pub open spec fn buckets_ranked<I, K: Ord>(b: Seq<Option<Tree<I, K>>>) -> bool {
    forall|r: int|
        0 <= r < b.len() ==> match #[trigger] b[r] {
            Some(t) => t.rank() == r && t.heap_ordered() && t.ranked(),
            None => true,
        }
}

/// The number of buckets that hold a tree.
pub open spec fn occupied<I, K: Ord>(b: Seq<Option<Tree<I, K>>>) -> nat
    decreases b.len(),
{
    if b.len() == 0 {
        0
    } else {
        occupied(b.drop_last()) + if b.last() is Some {
            1nat
        } else {
            0nat
        }
    }
}

/// A row of `k` empty buckets.
pub open spec fn empty_buckets<I, K: Ord>(k: nat) -> Seq<Option<Tree<I, K>>> {
    Seq::new(k, |r: int| None)
}

/// The buckets after the tree `t` has been put in: where the bucket of its rank is
/// empty, `t` goes there; where it holds a tree, that tree is taken out and linked with
/// `t`, and the tree so made is put in in its turn.
pub open spec fn place<I, K: Ord>(b: Seq<Option<Tree<I, K>>>, t: Tree<I, K>) -> Seq<Option<Tree<I, K>>>
    decreases occupied(b),
{
    let r = t.rank() as int;
    if r >= b.len() {
        b
    } else {
        match b[r] {
            Some(other) => {
                proof {
                    lemma_occupied_update(b, r, None);
                }
                place(b.update(r, None), t.link(other))
            },
            None => b.update(r, Some(t)),
        }
    }
}

/// The buckets after the trees of `f` have been put in one after the other.
pub open spec fn gather<I, K: Ord>(b: Seq<Option<Tree<I, K>>>, f: Seq<Tree<I, K>>) -> Seq<
    Option<Tree<I, K>>,
>
    decreases f.len(),
{
    if f.len() == 0 {
        b
    } else {
        place(gather(b, f.drop_last()), f.last())
    }
}

/// Changing what one bucket holds changes the number of buckets that hold a tree by what
/// the bucket gains or loses.
pub proof fn lemma_occupied_update<I, K: Ord>(b: Seq<Option<Tree<I, K>>>, r: int, slot: Option<Tree<I, K>>)
    requires
        0 <= r < b.len(),
    ensures
        occupied(b.update(r, slot)) + (if b[r] is Some {
            1nat
        } else {
            0nat
        }) == occupied(b) + (if slot is Some {
            1nat
        } else {
            0nat
        }),
    decreases b.len(),
{
    let g = b.update(r, slot);
    assert(g.len() == b.len());
    if r == b.len() - 1 {
        assert(g.drop_last() =~= b.drop_last());
        assert(g.last() == slot);
        assert(b.last() == b[r]);
    } else {
        lemma_occupied_update(b.drop_last(), r, slot);
        assert(g.drop_last() =~= b.drop_last().update(r, slot));
        assert(g.last() == b.last());
        assert(b.drop_last()[r] == b[r]);
    }
}

/// The entries of the tree in a bucket, none for an empty bucket.
pub open spec fn slot_entries<I, K: Ord>(slot: Option<Tree<I, K>>) -> Multiset<(I, K)> {
    match slot {
        Some(t) => t.entries(),
        None => Multiset::empty(),
    }
}

/// Linking two trees of one rank, each in heap order and with the children of each node
/// spread over the ranks, gives a tree of that kind that holds the entries of both and
/// has one child more.
pub proof fn lemma_link<I, K: Ord>(a: Tree<I, K>, b: Tree<I, K>)
    requires
        lawful_order::<K>(),
        a.heap_ordered(),
        b.heap_ordered(),
        a.ranked(),
        b.ranked(),
        a.rank() == b.rank(),
    ensures
        a.link(b).heap_ordered(),
        a.link(b).ranked(),
        a.link(b).rank() == a.rank() + 1,
        a.link(b).entries() == a.entries().add(b.entries()),
{
    let (p, c) = if key_lt(a.key, b.key) {
        (a, b)
    } else {
        (b, a)
    };
    let l = a.link(b);
    assert(l == p.adopt(c));
    assert(key_le(p.key, c.key));
    assert forall|j: int| 0 <= j < l.children.len() implies key_le(l.key, (#[trigger] l.children[j]).key)
        && l.children[j].heap_ordered() by {
        if j < p.children.len() {
            assert(l.children[j] == p.children[j]);
        } else {
            assert(l.children[j] == c.unmarked());
            assert forall|k: int| 0 <= k < c.children.len() implies key_le(
                c.unmarked().key,
                (#[trigger] c.unmarked().children[k]).key,
            ) && c.unmarked().children[k].heap_ordered() by {
                assert(key_le(c.key, c.children[k].key));
            }
        }
    }
    lemma_entries_push(p.children, c.unmarked());
    assert(c.unmarked().entries() == c.entries());
    assert(l.entries() =~= a.entries().add(b.entries()));
    lemma_spread_push(p.children, c.unmarked());
    assert forall|j: int| 0 <= j < l.children.len() implies (#[trigger] l.children[j]).ranked() by {
        if j < p.children.len() {
            assert(l.children[j] == p.children[j]);
        } else {
            assert(l.children[j] == c.unmarked());
        }
    }
}

/// An empty bucket more at the end holds no tree more.
pub proof fn lemma_bucket_push_none<I, K: Ord>(b: Seq<Option<Tree<I, K>>>)
    ensures
        bucket_forest(b.push(None)) == bucket_forest(b),
{
    assert(b.push(None).drop_last() =~= b);
}

/// Changing what one bucket holds exchanges the entries of what it held for those of
/// what it holds.
pub proof fn lemma_bucket_update<I, K: Ord>(b: Seq<Option<Tree<I, K>>>, r: int, slot: Option<Tree<I, K>>)
    requires
        0 <= r < b.len(),
    ensures
        forest_entries(bucket_forest(b.update(r, slot))).add(slot_entries(b[r])) == forest_entries(
            bucket_forest(b),
        ).add(slot_entries(slot)),
    decreases b.len(),
{
    let g = b.update(r, slot);
    assert(g.len() == b.len());
    let lhs = forest_entries(bucket_forest(g)).add(slot_entries(b[r]));
    let rhs = forest_entries(bucket_forest(b)).add(slot_entries(slot));
    if r == b.len() - 1 {
        assert(g.drop_last() =~= b.drop_last());
        assert(g.last() == slot);
        let rest = bucket_forest(b.drop_last());
        if slot is Some {
            lemma_entries_push(rest, slot->0);
        }
        if b[r] is Some {
            lemma_entries_push(rest, b[r]->0);
        }
        assert(lhs =~= rhs);
    } else {
        lemma_bucket_update(b.drop_last(), r, slot);
        assert(g.drop_last() =~= b.drop_last().update(r, slot));
        assert(g.last() == b.last());
        assert(b.drop_last()[r] == b[r]);
        let x = forest_entries(bucket_forest(g.drop_last()));
        let y = forest_entries(bucket_forest(b.drop_last()));
        assert(x.add(slot_entries(b[r])) == y.add(slot_entries(slot)));
        if b.last() is Some {
            lemma_entries_push(bucket_forest(g.drop_last()), b.last()->0);
            lemma_entries_push(bucket_forest(b.drop_last()), b.last()->0);
        }
        assert forall|e: (I, K)| lhs.count(e) == rhs.count(e) by {
            assert(x.add(slot_entries(b[r])).count(e) == y.add(slot_entries(slot)).count(e));
        }
        assert(lhs =~= rhs);
    }
}

/// The trees of ranked buckets are in heap order, each of a rank below the number of
/// buckets, and their ranks rise strictly.
pub proof fn lemma_buckets_consolidated<I, K: Ord>(b: Seq<Option<Tree<I, K>>>)
    requires
        buckets_ranked(b),
    ensures
        forall|i: int|
            0 <= i < bucket_forest(b).len() ==> (#[trigger] bucket_forest(b)[i]).heap_ordered()
                && bucket_forest(b)[i].ranked() && bucket_forest(b)[i].rank() < b.len(),
        forall|i: int, j: int|
            0 <= i < j < bucket_forest(b).len() ==> (#[trigger] bucket_forest(b)[i]).rank() < (
            #[trigger] bucket_forest(b)[j]).rank(),
    decreases b.len(),
{
    if b.len() > 0 {
        let rest = b.drop_last();
        assert forall|r: int| 0 <= r < rest.len() implies match #[trigger] rest[r] {
            Some(t) => t.rank() == r && t.heap_ordered() && t.ranked(),
            None => true,
        } by {
            assert(rest.len() == b.len() - 1);
            assert(rest[r] == b[r]);
        }
        lemma_buckets_consolidated(rest);
        let last = b[b.len() - 1];
        assert(b.last() == last);
        let f = bucket_forest(b);
        let g = bucket_forest(rest);
        assert forall|i: int| 0 <= i < f.len() implies (#[trigger] f[i]).heap_ordered() && f[i].ranked()
            && f[i].rank() < b.len() by {
            if i < g.len() {
                assert(f[i] == g[i]);
            } else {
                assert(last == Some(f[i]));
            }
        }
        assert forall|i: int, j: int| 0 <= i < j < f.len() implies (#[trigger] f[i]).rank() < (
        #[trigger] f[j]).rank() by {
            assert(f[i] == g[i]);
            if j < g.len() {
                assert(f[j] == g[j]);
            } else {
                assert(last == Some(f[j]));
            }
        }
    }
}

} // verus!
