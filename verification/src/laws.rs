//! What holds of every well-formed heap, and of runs of operations on it.

use vstd::prelude::*;
use vstd::multiset::Multiset;
use vstd::seq_lib::{to_multiset_build, to_multiset_contains, to_multiset_len, to_multiset_update};
use crate::forest::{
    lemma_entries_count, lemma_entries_member, lemma_entries_push, lemma_entries_swap_remove,
    lemma_forest_entries_len, lemma_forest_find_entry, lemma_root_is_least,
};
use crate::model::{forest_entries, HeapModel, Tree};
use crate::order::{key_le, key_lt, lawful_order};
use crate::rank::{fib, lemma_limit_from, lemma_rank_below_limit, lemma_size_bound, limit_of};

verus! {

impl<I, K: Ord> Tree<I, K> {
    /// `node` is this tree or one of the trees below it.
    pub open spec fn holds(self, node: Tree<I, K>) -> bool
        decreases self,
    {
        self == node || exists|i: int|
            0 <= i < self.children.len() && (#[trigger] self.children[i]).holds(node)
    }
}

/// Heap order, said of every pair of parent and child: in a tree in heap order, no child
/// of any node, at any depth, has a key below that node's.
pub proof fn lemma_parent_not_above_child<I, K: Ord>(root: Tree<I, K>, parent: Tree<I, K>, j: int)
    requires
        root.heap_ordered(),
        root.holds(parent),
        0 <= j < parent.children.len(),
    ensures
        key_le(parent.key, parent.children[j].key),
    decreases root,
{
    if root != parent {
        let i = choose|i: int| 0 <= i < root.children.len() && (#[trigger] root.children[i]).holds(parent);
        lemma_parent_not_above_child(root.children[i], parent, j);
    }
}

/// The heap-order invariant: in a well-formed heap no child of any node of any tree has
/// a key below its parent's.
pub proof fn lemma_heap_order<I, K: Ord>(h: HeapModel<I, K>, i: int, parent: Tree<I, K>, j: int)
    requires
        h.wf(),
        0 <= i < h.roots.len(),
        h.roots[i].holds(parent),
        0 <= j < parent.children.len(),
    ensures
        key_le(parent.key, parent.children[j].key),
{
    lemma_parent_not_above_child(h.roots[i], parent, j);
}

/// Every entry of a sequence of trees is an entry of one of the trees.
pub proof fn lemma_entry_in_some_tree<I, K: Ord>(f: Seq<Tree<I, K>>, e: (I, K))
    requires
        forest_entries(f).contains(e),
    ensures
        exists|i: int| 0 <= i < f.len() && (#[trigger] f[i]).entries().contains(e),
    decreases f.len(),
{
    if f.len() > 0 {
        if f.last().entries().contains(e) {
            assert(f[f.len() - 1].entries().contains(e));
        } else {
            lemma_entry_in_some_tree(f.drop_last(), e);
            let i = choose|i: int|
                0 <= i < f.drop_last().len() && (#[trigger] f.drop_last()[i]).entries().contains(e);
            assert(f[i] == f.drop_last()[i]);
        }
    }
}

/// The cached minimum is a minimum: in a well-formed heap that is not empty it refers to
/// an entry of the heap, and no entry of the heap has a key below its key.
pub proof fn lemma_min_is_least<I, K: Ord>(h: HeapModel<I, K>)
    requires
        lawful_order::<K>(),
        h.wf(),
        h.min is Some,
    ensures
        h.entries().contains(h.min_entry()->0),
        forall|e: (I, K)| #[trigger] h.entries().contains(e) ==> key_le(h.min_key()->0, e.1),
{
    let m = h.min->0;
    lemma_entries_member(h.roots, m);
    lemma_entries_count(h.roots[m], h.roots[m].entry());
    assert(h.roots[m].entries().contains(h.roots[m].entry()));
    assert forall|e: (I, K)| #[trigger] h.entries().contains(e) implies key_le(h.min_key()->0, e.1) by {
        lemma_entry_in_some_tree(h.roots, e);
        let i = choose|i: int| 0 <= i < h.roots.len() && (#[trigger] h.roots[i]).entries().contains(e);
        lemma_root_is_least(h.roots[i]);
        assert(key_le(h.roots[m].key, h.roots[i].key));
        assert(key_le(h.roots[i].key, e.1));
    }
}

/// A well-formed heap is empty exactly where it caches no minimum, and its count is the
/// number of its entries.
pub proof fn lemma_count_is_len<I, K: Ord>(h: HeapModel<I, K>)
    requires
        h.wf(),
    ensures
        h.count == h.entries().len(),
        h.min is None <==> h.count == 0,
{
    lemma_forest_entries_len(h.roots);
    if h.min is Some {
        let m = h.min->0;
        lemma_entries_member(h.roots, m);
        lemma_entries_count(h.roots[m], h.roots[m].entry());
        assert(h.entries().count(h.roots[m].entry()) > 0);
        assert(h.entries().len() > 0) by {
            if h.entries().len() == 0 {
                vstd::multiset::lemma_multiset_empty_len(h.entries());
            }
        }
    }
}

/// The rank bound: in a well-formed heap a root of rank `k` stands over at least as
/// many nodes as the Fibonacci number `k + 2`, so that the heap has at least that many
/// entries: the ranks grow only with the logarithm of the count.
pub proof fn lemma_rank_bound<I, K: Ord>(h: HeapModel<I, K>, i: int)
    requires
        h.wf(),
        0 <= i < h.roots.len(),
    ensures
        fib(h.roots[i].rank() + 2) <= h.roots[i].size() <= h.count,
{
    lemma_size_bound(h.roots[i]);
    lemma_entries_swap_remove(h.roots, i);
}

/// In a well-formed heap every rank of a root is below the limit that the count sets:
/// the least number whose Fibonacci number two places on is above the count.
pub proof fn lemma_rank_below<I, K: Ord>(h: HeapModel<I, K>, i: int)
    requires
        h.wf(),
        0 <= i < h.roots.len(),
    ensures
        h.roots[i].rank() < limit_of(h.count),
{
    lemma_rank_bound(h, i);
    lemma_limit_from(0, h.count);
    lemma_rank_below_limit(h.roots[i], h.count, limit_of(h.count));
}

/// Lowering a key where there is nothing to lower changes nothing: where no entry holds
/// `item`, or none that holds it has a key above `new_key`, the heap after the call is
/// the heap before it.
pub proof fn lemma_decrease_without_effect<I, K: Ord>(
    pre: HeapModel<I, K>,
    post: HeapModel<I, K>,
    item: I,
    new_key: K,
)
    requires
        pre.decreased(post, item, new_key),
        forall|k: K| #[trigger] pre.entries().contains((item, k)) ==> !key_lt(new_key, k),
    ensures
        post == pre,
{
    lemma_forest_find_entry(pre.roots, item);
}

/// Inserting into a well-formed heap leaves it well formed, with one entry more.
pub proof fn lemma_insert<I, K: Ord>(h: HeapModel<I, K>, item: I, key: K)
    requires
        lawful_order::<K>(),
        h.wf(),
    ensures
        h.insert(item, key).wf(),
        h.insert(item, key).entries() == h.entries().insert((item, key)),
{
    let post = h.insert(item, key);
    let leaf = Tree { item, key, mark: false, children: Seq::empty() };
    lemma_entries_push(h.roots, leaf);
    assert(leaf.size() == 1);
    assert(leaf.heap_ordered());
    assert(leaf.ranked());
    assert(leaf.entries() =~= Multiset::empty().insert((item, key)));
    assert(post.entries() =~= h.entries().insert((item, key)));
    assert forall|i: int| 0 <= i < post.roots.len() implies (#[trigger] post.roots[i]).heap_ordered()
        && post.roots[i].ranked() && !post.roots[i].mark by {
        if i < h.roots.len() {
            assert(post.roots[i] == h.roots[i]);
        }
    }
    let m = post.min->0;
    assert forall|i: int| 0 <= i < post.roots.len() implies key_le(
        post.roots[m].key,
        (#[trigger] post.roots[i]).key,
    ) by {
        if i < h.roots.len() {
            assert(post.roots[i] == h.roots[i]);
            let pm = h.min->0;
            assert(key_le(h.roots[pm].key, h.roots[i].key));
            assert(key_le(post.roots[m].key, h.roots[pm].key));
        }
    }
}

/// The heap that inserting the pairs of `pairs` in their order makes of an empty heap.
pub open spec fn filled<I, K: Ord>(pairs: Seq<(I, K)>) -> HeapModel<I, K>
    decreases pairs.len(),
{
    if pairs.len() == 0 {
        HeapModel::empty()
    } else {
        filled(pairs.drop_last()).insert(pairs.last().0, pairs.last().1)
    }
}

/// Inserting pairs into an empty heap gives a well-formed heap that holds exactly these
/// pairs, each as often as it was inserted.
pub proof fn lemma_filled<I, K: Ord>(pairs: Seq<(I, K)>)
    requires
        lawful_order::<K>(),
    ensures
        filled(pairs).wf(),
        filled(pairs).entries() == pairs.to_multiset(),
        filled(pairs).count == pairs.len(),
    decreases pairs.len(),
{
    if pairs.len() == 0 {
        assert(pairs.to_multiset() =~= Multiset::empty()) by {
            to_multiset_len(pairs);
            vstd::multiset::lemma_multiset_empty_len(pairs.to_multiset());
        }
    } else {
        let before = pairs.drop_last();
        lemma_filled(before);
        lemma_insert(filled(before), pairs.last().0, pairs.last().1);
        to_multiset_build(before, pairs.last());
        assert(before.push(pairs.last()) =~= pairs);
    }
}

/// `states` is a run of pops, each on a heap that is not empty: every state is well
/// formed, and each but the last gives `items[i]` and becomes the next.
pub open spec fn pop_run<I, K: Ord>(states: Seq<HeapModel<I, K>>, items: Seq<I>) -> bool {
    &&& states.len() == items.len() + 1
    &&& forall|i: int| 0 <= i < states.len() ==> (#[trigger] states[i]).wf()
    &&& forall|i: int|
        0 <= i < items.len() ==> (#[trigger] states[i]).popped(states[i + 1], Some(items[i]))
}

/// The entries that a run of pops takes out, in the order of the pops.
pub open spec fn taken<I, K: Ord>(states: Seq<HeapModel<I, K>>) -> Seq<(I, K)> {
    Seq::new((states.len() - 1) as nat, |i: int| states[i].min_entry()->0)
}

/// The first `n` pops of a run take out of the first heap what the heap after them no
/// longer holds.
pub proof fn lemma_run_entries<I, K: Ord>(states: Seq<HeapModel<I, K>>, items: Seq<I>, n: int)
    requires
        lawful_order::<K>(),
        pop_run(states, items),
        0 <= n <= items.len(),
    ensures
        states[0].entries() == states[n].entries().add(taken(states).take(n).to_multiset()),
        states[0].count == states[n].count + n,
    decreases n,
{
    let t = taken(states);
    if n == 0 {
        assert(t.take(0).to_multiset() =~= Multiset::empty()) by {
            to_multiset_len(t.take(0));
            vstd::multiset::lemma_multiset_empty_len(t.take(0).to_multiset());
        }
        assert(states[0].entries() =~= states[0].entries().add(Multiset::empty()));
    } else {
        lemma_run_entries(states, items, n - 1);
        let a = states[n - 1];
        let b = states[n];
        assert(a.popped(b, Some(items[n - 1])));
        lemma_count_is_len(a);
        lemma_min_is_least(a);
        let e = a.min_entry()->0;
        assert(t.take(n).drop_last() =~= t.take(n - 1));
        assert(t.take(n - 1).push(e) =~= t.take(n));
        to_multiset_build(t.take(n - 1), e);
        assert(states[0].entries() =~= b.entries().add(t.take(n).to_multiset()));
    }
}

/// A run of pops gives the items in the order of their keys: each pop gives the item of
/// the entry it takes out, and no entry taken out later has a key below that of one
/// taken out earlier. What is taken out and what is left make up the first heap; so a
/// run that ends with an empty heap has as many pops as the first heap had entries, and
/// takes out exactly these.
pub proof fn lemma_drain<I, K: Ord>(states: Seq<HeapModel<I, K>>, items: Seq<I>)
    requires
        lawful_order::<K>(),
        pop_run(states, items),
    ensures
        forall|i: int| 0 <= i < items.len() ==> items[i] == (#[trigger] taken(states)[i]).0,
        forall|i: int, j: int|
            0 <= i <= j < items.len() ==> key_le(
                (#[trigger] taken(states)[i]).1,
                (#[trigger] taken(states)[j]).1,
            ),
        states[0].entries() == states.last().entries().add(taken(states).to_multiset()),
        states[0].count == states.last().count + items.len(),
        states.last().count == 0 ==> taken(states).to_multiset() == states[0].entries(),
{
    let t = taken(states);
    let n = items.len() as int;
    assert forall|i: int| 0 <= i < items.len() implies items[i] == (#[trigger] t[i]).0 by {
        assert(states[i].popped(states[i + 1], Some(items[i])));
    }
    assert forall|i: int, j: int| 0 <= i <= j < items.len() implies key_le(
        (#[trigger] t[i]).1,
        (#[trigger] t[j]).1,
    ) by {
        assert(states[i].popped(states[i + 1], Some(items[i])));
        assert(states[j].popped(states[j + 1], Some(items[j])));
        lemma_run_entries(states, items, i);
        lemma_run_entries(states, items, j);
        lemma_min_is_least(states[i]);
        lemma_min_is_least(states[j]);
        // What the heap holds before pop j, it held before pop i.
        lemma_run_shrinks(states, items, i, j);
        assert(states[i].entries().contains(t[j]));
    }
    lemma_run_entries(states, items, n);
    assert(t.take(n) =~= t);
    if states.last().count == 0 {
        lemma_count_is_len(states.last());
        vstd::multiset::lemma_multiset_empty_len(states.last().entries());
        assert(states.last().entries().add(t.to_multiset()) =~= t.to_multiset());
    }
}

/// In a run of pops, what a later heap holds an earlier heap holds too.
pub proof fn lemma_run_shrinks<I, K: Ord>(states: Seq<HeapModel<I, K>>, items: Seq<I>, i: int, j: int)
    requires
        lawful_order::<K>(),
        pop_run(states, items),
        0 <= i <= j <= items.len(),
    ensures
        states[j].entries().subset_of(states[i].entries()),
    decreases j - i,
{
    if i < j {
        lemma_run_shrinks(states, items, i, j - 1);
        assert(states[j - 1].popped(states[j], Some(items[j - 1])));
    }
}

/// The round trip: whatever pairs are inserted into an empty heap, popping until the
/// heap is empty takes as many pops as there were inserts, gives the items in an order
/// in which no key is below an earlier one, and gives back exactly the pairs inserted.
pub proof fn lemma_round_trip<I, K: Ord>(
    pairs: Seq<(I, K)>,
    states: Seq<HeapModel<I, K>>,
    items: Seq<I>,
)
    requires
        lawful_order::<K>(),
        states.len() > 0,
        states[0] == filled(pairs),
        pop_run(states, items),
        states.last().count == 0,
    ensures
        items.len() == pairs.len(),
        taken(states).to_multiset() == pairs.to_multiset(),
        forall|i: int| 0 <= i < items.len() ==> items[i] == (#[trigger] taken(states)[i]).0,
        forall|i: int, j: int|
            0 <= i <= j < items.len() ==> key_le(
                (#[trigger] taken(states)[i]).1,
                (#[trigger] taken(states)[j]).1,
            ),
{
    lemma_filled(pairs);
    lemma_drain(states, items);
}

/// `states` is a run of key decreases: every state is well formed, and each but the
/// last becomes the next by lowering the key of `items[i]` to `keys[i]`.
pub open spec fn decrease_run<I, K: Ord>(
    states: Seq<HeapModel<I, K>>,
    items: Seq<I>,
    keys: Seq<K>,
) -> bool {
    &&& states.len() == items.len() + 1
    &&& keys.len() == items.len()
    &&& forall|i: int| 0 <= i < states.len() ==> (#[trigger] states[i]).wf()
    &&& forall|i: int|
        0 <= i < items.len() ==> (#[trigger] states[i]).decreased(states[i + 1], items[i], keys[i])
}

/// The pairs of `items` and keys after the first `n` items have got their key of `keys`
/// and the others still have the key `top`.
pub open spec fn partly_lowered<I, K: Ord>(items: Seq<I>, keys: Seq<K>, top: K, n: int) -> Seq<(I, K)> {
    Seq::new(
        items.len(),
        |i: int|
            (
                items[i],
                if i < n {
                    keys[i]
                } else {
                    top
                },
            ),
    )
}

/// Where distinct items are all inserted with the key `top` and then each has its key
/// lowered to its own key below `top`, the heap holds after the first `n` decreases each
/// of the first `n` items with its own key and each other item with `top`.
pub proof fn lemma_decrease_steps<I, K: Ord>(
    items: Seq<I>,
    keys: Seq<K>,
    top: K,
    states: Seq<HeapModel<I, K>>,
    n: int,
)
    requires
        lawful_order::<K>(),
        items.no_duplicates(),
        decrease_run(states, items, keys),
        forall|i: int| 0 <= i < keys.len() ==> key_lt(#[trigger] keys[i], top),
        states[0] == filled(partly_lowered(items, keys, top, 0)),
        0 <= n <= items.len(),
    ensures
        states[n].entries() == partly_lowered(items, keys, top, n).to_multiset(),
        states[n].count == items.len(),
    decreases n,
{
    if n == 0 {
        lemma_filled(partly_lowered(items, keys, top, 0));
    } else {
        let j = n - 1;
        lemma_decrease_steps(items, keys, top, states, j);
        let pre = states[j];
        let post = states[n];
        let cur = partly_lowered(items, keys, top, j);
        let next = partly_lowered(items, keys, top, n);
        let gone = (items[j], top);
        let come = (items[j], keys[j]);
        assert(pre.decreased(post, items[j], keys[j]));
        assert(cur[j] == gone);
        to_multiset_contains(cur, gone);
        assert(pre.entries().contains(gone));
        lemma_forest_find_entry(pre.roots, items[j]);
        let k = pre.find(items[j])->0;
        assert(pre.entries().contains((items[j], k)));
        to_multiset_contains(cur, (items[j], k));
        let i = choose|i: int| 0 <= i < cur.len() && cur[i] == (items[j], k);
        assert(items[i] == items[j]);
        assert(i == j);
        assert(k == top);
        assert(next =~= cur.update(j, come));
        to_multiset_update(cur, j, come);
        assert(post.entries() =~= next.to_multiset());
    }
}

/// Decrease, then pop: where distinct items are all inserted with one key `top`, each
/// then has its key lowered to its own key below `top`, and the heap is then popped
/// until it is empty, the pops give exactly the items with their own keys, in an order
/// in which no key is below an earlier one.
pub proof fn lemma_decrease_then_drain<I, K: Ord>(
    items: Seq<I>,
    keys: Seq<K>,
    top: K,
    lowering: Seq<HeapModel<I, K>>,
    popping: Seq<HeapModel<I, K>>,
    popped: Seq<I>,
)
    requires
        lawful_order::<K>(),
        items.no_duplicates(),
        decrease_run(lowering, items, keys),
        forall|i: int| 0 <= i < keys.len() ==> key_lt(#[trigger] keys[i], top),
        lowering[0] == filled(partly_lowered(items, keys, top, 0)),
        pop_run(popping, popped),
        popping[0] == lowering.last(),
        popping.last().count == 0,
    ensures
        popped.len() == items.len(),
        taken(popping).to_multiset() == items.zip_with(keys).to_multiset(),
        forall|i: int| 0 <= i < popped.len() ==> popped[i] == (#[trigger] taken(popping)[i]).0,
        forall|i: int, j: int|
            0 <= i <= j < popped.len() ==> key_le(
                (#[trigger] taken(popping)[i]).1,
                (#[trigger] taken(popping)[j]).1,
            ),
{
    lemma_decrease_steps(items, keys, top, lowering, items.len() as int);
    lemma_drain(popping, popped);
    assert(partly_lowered(items, keys, top, items.len() as int) =~= items.zip_with(keys));
}

} // verus!
