//! The heap itself: the forest that owns the nodes, with the cached minimum and the
//! count of entries.

use vstd::prelude::*;
use crate::buckets::{
    bucket_forest, buckets_ranked, empty_buckets, gather, lemma_bucket_push_none,
    lemma_bucket_update, lemma_buckets_consolidated, lemma_link, place,
};
use crate::cut::{lemma_decrease_at_root, lemma_decrease_by_cut};
use crate::forest::{
    lemma_entries_concat, lemma_entries_count, lemma_entries_len, lemma_entries_swap_remove,
    lemma_find_at, lemma_find_none, lemma_forest_entries_len, lemma_prefix_size,
    lemma_unmarked_forest,
};
use crate::model::{
    forest_entries, forest_size, least_root, swap_removed, unmarked_forest, HeapModel, Tree,
};
use crate::node::{
    buckets_view, forest_view, lemma_children_view, lemma_view_concat, lemma_view_push,
    lemma_view_swap_remove, lemma_view_update, link, unmark_all, DecreaseKeyResult, TreeNode,
};
use crate::laws::{lemma_insert, lemma_rank_bound};
use crate::order::{key_le, key_lt, lawful_eq, lawful_order};
use crate::rank::{fib, lemma_rank_below_limit, limit_of, rank_limit};

verus! {

/// A Fibonacci heap of items of type `I`, each with a key of type `K`.
pub struct FibHeap<I, K> {
    min: Option<usize>,
    trees: Vec<TreeNode<I, K>>,
    n: usize,
}

impl<I, K> View for FibHeap<I, K> {
    type V = HeapModel<I, K>;

    closed spec fn view(&self) -> HeapModel<I, K> {
        HeapModel {
            roots: forest_view(self.trees@),
            min: match self.min {
                Some(m) => Some(m as int),
                None => None,
            },
            count: self.n as nat,
        }
    }
}

/// Puts the trees one after the other into buckets by their rank, linking trees that meet
/// in a bucket, until no two of them have the same rank: bucket `r` of the result is
/// empty or holds the one tree of rank `r`. There are as many buckets as trees of `n`
/// nodes in all can need.
fn consolidate<I, K: Ord>(roots: Vec<TreeNode<I, K>>, n: usize) -> (buckets: Vec<Option<TreeNode<I, K>>>)
    requires
        lawful_order::<K>(),
        forest_size(forest_view(roots@)) == n,
        forall|i: int|
            0 <= i < roots@.len() ==> (#[trigger] forest_view(roots@)[i]).heap_ordered()
                && forest_view(roots@)[i].ranked(),
    ensures
        buckets_view(buckets@) == gather(empty_buckets(limit_of(n as nat)), forest_view(roots@)),
        buckets_ranked(buckets_view(buckets@)),
        forest_entries(bucket_forest(buckets_view(buckets@))) == forest_entries(forest_view(roots@)),
{
    let ghost all = forest_view(roots@);
    let limit = rank_limit(n);
    let mut buckets: Vec<Option<TreeNode<I, K>>> = Vec::new();
    proof {
        assert(buckets_view(buckets@) =~= Seq::empty());
        assert(all.take(0) =~= Seq::empty());
    }
    while buckets.len() < limit
        invariant
            buckets@.len() <= limit,
            buckets_view(buckets@) == empty_buckets::<I, K>(buckets@.len()),
            buckets_ranked(buckets_view(buckets@)),
            bucket_forest(buckets_view(buckets@)) == Seq::<Tree<I, K>>::empty(),
        decreases limit - buckets.len(),
    {
        proof {
            lemma_bucket_push_none(buckets_view(buckets@));
            assert(buckets_view(buckets@.push(None)) =~= buckets_view(buckets@).push(None));
            assert(buckets_view(buckets@).push(None) =~= empty_buckets::<I, K>(buckets@.len() + 1));
        }
        buckets.push(None);
    }
    let ghost none = buckets_view(buckets@);
    for root in it: roots
        invariant
            lawful_order::<K>(),
            all == forest_view(it.seq()),
            forest_size(all) == n,
            fib((limit + 2) as nat) > n,
            buckets@.len() == limit,
            forall|i: int| 0 <= i < all.len() ==> (#[trigger] all[i]).heap_ordered() && all[i].ranked(),
            buckets_view(buckets@) == gather(none, all.take(it.index() as int)),
            buckets_ranked(buckets_view(buckets@)),
            forest_entries(bucket_forest(buckets_view(buckets@))) == forest_entries(
                all.take(it.index() as int),
            ),
    {
        let ghost start = buckets_view(buckets@);
        let ghost done = all.take(it.index() as int);
        let ghost next = all.take(it.index() + 1);
        proof {
            assert(next.drop_last() =~= done);
            assert(next.last() == root@);
            assert(root@ == all[it.index() as int]);
            lemma_prefix_size(all, it.index() + 1);
            lemma_forest_entries_len(next);
            lemma_entries_len(root@);
            lemma_rank_below_limit(root@, n as nat, limit as nat);
        }
        let mut node = root;
        let mut r = node.rank();
        while buckets[r].is_some()
            invariant
                lawful_order::<K>(),
                r == node@.rank(),
                r < buckets@.len(),
                buckets@.len() == limit,
                fib((limit + 2) as nat) > n,
                forest_entries(next).len() <= n,
                node@.heap_ordered(),
                node@.ranked(),
                place(buckets_view(buckets@), node@) == place(start, root@),
                buckets_ranked(buckets_view(buckets@)),
                forest_entries(bucket_forest(buckets_view(buckets@))).add(node@.entries())
                    == forest_entries(next),
            decreases forest_entries(bucket_forest(buckets_view(buckets@))).len(),
        {
            let ghost before = buckets_view(buckets@);
            let ghost first = node@;
            let other = buckets[r].take().unwrap();
            proof {
                assert(buckets_view(buckets@) =~= before.update(r as int, None));
                assert(before[r as int] == Some(other@));
                lemma_bucket_update(before, r as int, None);
                lemma_link(first, other@);
                lemma_entries_len(other@);
                let now = forest_entries(bucket_forest(buckets_view(buckets@)));
                assert(now.add(other@.entries()) =~= forest_entries(bucket_forest(before)));
                assert(now.add(first.link(other@).entries()) =~= forest_entries(next));
                lemma_entries_len(first.link(other@));
                lemma_rank_below_limit(first.link(other@), n as nat, limit as nat);
            }
            node = link(node, other);
            r = node.rank();
        }
        let ghost before = buckets_view(buckets@);
        proof {
            lemma_bucket_update(before, r as int, Some(node@));
            assert(before[r as int] is None);
        }
        buckets[r] = Some(node);
        proof {
            assert(buckets_view(buckets@) =~= before.update(r as int, Some(node@)));
            assert(buckets_view(buckets@) == place(before, node@));
            assert(gather(none, next) == place(gather(none, next.drop_last()), next.last()));
            assert(forest_entries(bucket_forest(buckets_view(buckets@))) =~= forest_entries(next));
        }
    }
    proof {
        assert(all.take(all.len() as int) =~= all);
    }
    buckets
}

impl<I, K> FibHeap<I, K> where I: PartialEq + Eq + Clone, K: Ord + Clone {
    /// The heap is well formed: the operators of `I` and `K` are lawful, and the forest
    /// is in the state that every operation leaves it in.
    pub open spec fn wf(&self) -> bool {
        &&& lawful_eq::<I>()
        &&& lawful_order::<K>()
        &&& self@.wf()
    }

    /// An empty heap.
    pub fn new() -> (heap: Self)
        requires
            lawful_eq::<I>(),
            lawful_order::<K>(),
        ensures
            heap.wf(),
            heap@ == HeapModel::<I, K>::empty(),
    {
        let heap = FibHeap { min: None, trees: Vec::new(), n: 0 };
        assert(heap@.roots =~= Seq::empty());
        heap
    }

    /// The number of entries.
    pub fn len(&self) -> (n: usize)
        ensures
            n == self@.count,
    {
        self.n
    }

    /// Whether the heap holds no entry.
    pub fn empty(&self) -> (b: bool)
        ensures
            b == (self@.count == 0),
    {
        self.n == 0
    }

    /// The item of the cached minimum, if the heap holds any entry.
    pub fn peek_min(&self) -> (r: Option<&I>)
        requires
            self.wf(),
        ensures
            match r {
                Some(item) => self@.min_item() == Some(*item),
                None => self@.min_item() is None,
            },
    {
        match self.min {
            Some(min_idx) => Some(&self.trees[min_idx].item),
            None => None,
        }
    }

    /// The key of the cached minimum, if the heap holds any entry.
    pub fn min_key(&self) -> (r: Option<&K>)
        requires
            self.wf(),
        ensures
            match r {
                Some(key) => self@.min_key() == Some(*key),
                None => self@.min_key() is None,
            },
    {
        match self.min {
            Some(min_idx) => Some(&self.trees[min_idx].key),
            None => None,
        }
    }

    /// Adds the entry `(item, key)` as a tree of its own.
    pub fn insert(&mut self, item: I, key: K)
        requires
            old(self).wf(),
            old(self)@.count < usize::MAX,
        ensures
            final(self).wf(),
            final(self)@ == old(self)@.insert(item, key),
            final(self)@.entries() == old(self)@.entries().insert((item, key)),
    {
        let lower = match self.min {
            Some(min_idx) => key < self.trees[min_idx].key,
            None => true,
        };
        let node = TreeNode::new(item, key);
        proof {
            lemma_view_push(self.trees@, node);
            lemma_insert(self@, item, key);
        }
        if lower {
            self.min = Some(self.trees.len());
        }
        self.trees.push(node);
        self.n += 1;
    }

    /// Makes roots of the nodes cut off below the tree at place `i`: clears the mark of
    /// that tree's root and of each node of `cutoff`, appends the nodes to the forest in
    /// their order, and moves the cached minimum to the first of them if `lowers_min`.
    fn promote_cut(&mut self, i: usize, cutoff: Vec<TreeNode<I, K>>, lowers_min: bool)
        requires
            i < old(self)@.roots.len(),
        ensures
            final(self)@.roots == old(self)@.roots.update(
                i as int,
                old(self)@.roots[i as int].unmarked(),
            ) + unmarked_forest(forest_view(cutoff@)),
            final(self)@.count == old(self)@.count,
            final(self)@.min == if lowers_min {
                Some(old(self)@.roots.len() as int)
            } else {
                old(self)@.min
            },
    {
        let ghost before = self.trees@;
        let mut cutoff = cutoff;
        self.trees[i].mark = false;
        if lowers_min {
            self.min = Some(self.trees.len());
        }
        proof {
            lemma_view_update(before, i as int, self.trees@[i as int]);
        }
        unmark_all(&mut cutoff);
        proof {
            lemma_view_concat(self.trees@, cutoff@);
        }
        self.trees.append(&mut cutoff);
    }

    /// Lowers the key of the first node that holds `item` to `new_key`. Nothing changes
    /// where no node holds `item` or the node's key is not above `new_key`. Otherwise the
    /// node takes the new key in every case; it leaves its tree only where the new key is
    /// below its parent's key, and then each ancestor that had lost a child before leaves
    /// with it, up to the first that had not or to the root.
    pub fn decrease_key(&mut self, item: &I, new_key: K)
        requires
            old(self).wf(),
        ensures
            final(self).wf(),
            final(self)@ == old(self)@.lower(*item, new_key),
            old(self)@.decreased(final(self)@, *item, new_key),
    {
        let ghost pre = self@;
        let lowers_min = match self.min {
            Some(min_idx) => new_key < self.trees[min_idx].key,
            None => {
                proof {
                    lemma_find_none(pre.roots, *item);
                }
                return ;
            },
        };
        let mut key = new_key;
        let mut i: usize = 0;
        while i < self.trees.len()
            invariant
                lawful_eq::<I>(),
                lawful_order::<K>(),
                self@ == pre,
                pre == old(self)@,
                pre.wf(),
                pre.min is Some,
                lowers_min == key_lt(new_key, pre.min_key()->0),
                key == new_key,
                i <= self.trees.len(),
                forall|j: int| 0 <= j < i ==> (#[trigger] pre.roots[j]).find(*item) is None,
            decreases self.trees.len() - i,
        {
            let ghost before = self.trees@;
            proof {
                assert(before[i as int]@ == pre.roots[i as int]);
            }
            match self.trees[i].decrease_key(item, key) {
                DecreaseKeyResult::NotFound(k) => {
                    proof {
                        lemma_view_update(before, i as int, self.trees@[i as int]);
                        assert(self@.roots =~= pre.roots);
                    }
                    key = k;
                    i += 1;
                },
                DecreaseKeyResult::NoDecrease => {
                    proof {
                        lemma_view_update(before, i as int, self.trees@[i as int]);
                        assert(self@.roots =~= pre.roots);
                        lemma_find_at(pre.roots, *item, i as int);
                    }
                    return ;
                },
                DecreaseKeyResult::ItemFound => {
                    if lowers_min {
                        self.min = Some(i);
                    }
                    proof {
                        lemma_view_update(before, i as int, self.trees@[i as int]);
                        lemma_decrease_at_root(pre, self@, i as int, *item, new_key);
                    }
                    return ;
                },
                DecreaseKeyResult::Marked(cutoff) => {
                    let ghost q = self.trees@[i as int]@;
                    let ghost cut = forest_view(cutoff@);
                    proof {
                        lemma_view_update(before, i as int, self.trees@[i as int]);
                    }
                    self.promote_cut(i, cutoff, lowers_min);
                    proof {
                        assert(self@.roots =~= pre.roots.update(i as int, q.unmarked()) + unmarked_forest(cut));
                        lemma_decrease_by_cut(pre, self@, i as int, q, cut, *item, new_key);
                    }
                    return ;
                },
                DecreaseKeyResult::Unmarked(cutoff) => {
                    let ghost q = self.trees@[i as int]@;
                    let ghost cut = forest_view(cutoff@);
                    proof {
                        lemma_view_update(before, i as int, self.trees@[i as int]);
                    }
                    self.promote_cut(i, cutoff, lowers_min);
                    proof {
                        assert(self@.roots =~= pre.roots.update(i as int, q.unmarked()) + unmarked_forest(cut));
                        lemma_decrease_by_cut(pre, self@, i as int, q, cut, *item, new_key);
                    }
                    return ;
                },
            }
        }
        proof {
            lemma_find_none(pre.roots, *item);
        }
    }

    /// Makes the trees of the buckets the roots of a forest that has none: in the order
    /// of the buckets, marks cleared, the cached minimum at the first root whose key
    /// none is below.
    fn collect(&mut self, buckets: Vec<Option<TreeNode<I, K>>>)
        requires
            lawful_order::<K>(),
            old(self)@.roots.len() == 0,
        ensures
            final(self)@.roots == unmarked_forest(bucket_forest(buckets_view(buckets@))),
            final(self)@.count == old(self)@.count,
            match final(self)@.min {
                Some(m) => 0 <= m < final(self)@.roots.len() && forall|i: int|
                    0 <= i < final(self)@.roots.len() ==> key_le(
                        final(self)@.roots[m].key,
                        (#[trigger] final(self)@.roots[i]).key,
                    ),
                None => final(self)@.roots.len() == 0,
            },
            final(self)@.min_is_first(),
            final(self)@.min == if final(self)@.roots.len() == 0 {
                None
            } else {
                Some(least_root(final(self)@.roots))
            },
    {
        let ghost all = buckets_view(buckets@);
        let mut min: Option<usize> = None;
        proof {
            assert(all.take(0) =~= Seq::empty());
            assert(self@.roots =~= unmarked_forest(bucket_forest(all.take(0))));
        }
        for slot in it: buckets
            invariant
                lawful_order::<K>(),
                all == buckets_view(it.seq()),
                self.n == old(self).n,
                forest_view(self.trees@) == unmarked_forest(
                    bucket_forest(all.take(it.index() as int)),
                ),
                match min {
                    Some(m) => m < self.trees@.len() && forall|i: int|
                        0 <= i < self.trees@.len() ==> key_le(
                            forest_view(self.trees@)[m as int].key,
                            (#[trigger] forest_view(self.trees@)[i]).key,
                        ),
                    None => self.trees@.len() == 0,
                },
                match min {
                    Some(m) => forall|i: int|
                        0 <= i < m ==> key_lt(
                            forest_view(self.trees@)[m as int].key,
                            (#[trigger] forest_view(self.trees@)[i]).key,
                        ),
                    None => true,
                },
                min is Some ==> min->0 == least_root(forest_view(self.trees@)),
        {
            let ghost done = all.take(it.index() as int);
            let ghost next = all.take(it.index() + 1);
            let ghost before = forest_view(self.trees@);
            proof {
                assert(next.drop_last() =~= done);
                assert(next.last() == all[it.index() as int]);
            }
            match slot {
                Some(root) => {
                    let mut root = root;
                    root.mark = false;
                    let ghost earlier = min;
                    let lower = match min {
                        Some(m) => root.key < self.trees[m].key,
                        None => true,
                    };
                    if lower {
                        min = Some(self.trees.len());
                    }
                    proof {
                        lemma_view_push(self.trees@, root);
                        assert(root@ == (all[it.index() as int]->0).unmarked());
                        assert(unmarked_forest(bucket_forest(next)) =~= before.push(root@));
                    }
                    self.trees.push(root);
                    proof {
                        let now = forest_view(self.trees@);
                        let m = min->0 as int;
                        assert(now.drop_last() =~= before);
                        assert(now.last() == root@);
                        assert forall|i: int| 0 <= i < m implies key_lt(
                            now[m].key,
                            (#[trigger] now[i]).key,
                        ) by {
                            let pm = earlier->0 as int;
                            assert(now[i] == before[i]);
                            assert(now[pm] == before[pm]);
                            if lower {
                                assert(key_le(before[pm].key, before[i].key));
                                if !key_lt(root.key, before[i].key) {
                                    assert(key_le(before[i].key, root.key));
                                    assert(key_le(before[pm].key, root.key));
                                }
                            }
                        }
                        assert forall|i: int| 0 <= i < now.len() implies key_le(
                            now[m].key,
                            (#[trigger] now[i]).key,
                        ) by {
                            if i < before.len() {
                                assert(now[i] == before[i]);
                                let pm = earlier->0 as int;
                                assert(now[pm] == before[pm]);
                                assert(key_le(before[pm].key, before[i].key));
                                if lower {
                                    assert(key_le(root.key, before[pm].key));
                                }
                            }
                        }
                    }
                },
                None => {},
            }
        }
        proof {
            assert(all.take(all.len() as int) =~= all);
        }
        self.min = min;
    }

    /// Takes the cached minimum out of the heap and gives its item; gives nothing where
    /// the heap is empty. The children of the root taken out become roots, and trees of
    /// equal rank are linked until no two roots have the same rank.
    pub fn pop_min(&mut self) -> (r: Option<I>)
        requires
            old(self).wf(),
        ensures
            final(self).wf(),
            final(self)@ == old(self)@.pop(),
            old(self)@.popped(final(self)@, r),
    {
        let ghost pre = self@;
        let min_idx = match self.min {
            Some(min_idx) => min_idx,
            None => {
                return None;
            },
        };
        let ghost least = pre.roots[min_idx as int];
        let ghost before = self.trees@;
        proof {
            lemma_entries_swap_remove(pre.roots, min_idx as int);
            lemma_view_swap_remove(before, min_idx as int);
        }
        self.n -= 1;
        let tree_node = self.trees.swap_remove(min_idx);
        let ghost rest = forest_view(self.trees@);
        proof {
            lemma_children_view(tree_node);
            assert(tree_node@ == least);
        }
        let item = tree_node.item;
        let mut children = tree_node.children;
        proof {
            lemma_view_concat(self.trees@, children@);
            lemma_entries_concat(rest, least.children);
        }
        self.trees.append(&mut children);
        let ghost promoted = forest_view(self.trees@);
        let mut roots: Vec<TreeNode<I, K>> = Vec::new();
        core::mem::swap(&mut self.trees, &mut roots);
        proof {
            assert(self@.roots =~= Seq::empty());
            assert forall|i: int| 0 <= i < promoted.len() implies (#[trigger] promoted[i]).heap_ordered()
                && promoted[i].ranked() by {
                if i < rest.len() {
                    if i == min_idx {
                        assert(promoted[i] == pre.roots[pre.roots.len() - 1]);
                    } else {
                        assert(promoted[i] == pre.roots[i]);
                    }
                } else {
                    assert(promoted[i] == least.children[i - rest.len()]);
                }
            }
        }
        let buckets = consolidate(roots, self.n);
        proof {
            lemma_buckets_consolidated(buckets_view(buckets@));
            lemma_unmarked_forest(bucket_forest(buckets_view(buckets@)));
        }
        self.collect(buckets);
        proof {
            let post = self@;
            let joined = bucket_forest(buckets_view(buckets@));
            assert(promoted == swap_removed(pre.roots, min_idx as int) + least.children);
            assert(post == pre.pop());
            assert(post.entries() == forest_entries(promoted));
            assert forall|e: (I, K)| post.entries().count(e) == pre.entries().remove(least.entry()).count(
                e,
            ) by {
                lemma_entries_count(least, e);
                assert(forest_entries(rest).add(least.entries()).count(e) == pre.entries().count(e));
            }
            assert(post.entries() =~= pre.entries().remove(least.entry()));
            lemma_forest_entries_len(post.roots);
            lemma_forest_entries_len(pre.roots);
            lemma_entries_count(least, least.entry());
            assert(pre.entries().count(least.entry()) > 0);
            assert forall|i: int| 0 <= i < post.roots.len() implies (#[trigger] post.roots[i]).heap_ordered()
                && post.roots[i].ranked() && !post.roots[i].mark by {
                let t = joined[i];
                assert(post.roots[i] == t.unmarked());
                assert(t.heap_ordered() && t.ranked());
                assert forall|k: int| 0 <= k < t.children.len() implies key_le(
                    t.unmarked().key,
                    (#[trigger] t.unmarked().children[k]).key,
                ) && t.unmarked().children[k].heap_ordered() by {
                    assert(key_le(t.key, t.children[k].key));
                }
            }
            assert forall|i: int| 0 <= i < post.roots.len() implies fib(
                (#[trigger] post.roots[i]).rank() + 2,
            ) <= post.count by {
                lemma_rank_bound(post, i);
            }
            assert forall|i: int, j: int| 0 <= i < j < post.roots.len() implies (
            #[trigger] post.roots[i]).rank() < (#[trigger] post.roots[j]).rank() by {
                assert(post.roots[i] == joined[i].unmarked());
                assert(post.roots[j] == joined[j].unmarked());
            }
        }
        Some(item)
    }
}

} // verus!
