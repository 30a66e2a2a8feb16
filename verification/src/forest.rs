//! What holds of the entries, the sizes and the searches of sequences of trees.

use vstd::prelude::*;
use vstd::multiset::Multiset;
use crate::model::{
    forest_entries, forest_find, forest_holder, forest_size, swap_removed, unmarked_forest, Tree,
};
use crate::order::{key_le, lawful_order};

verus! {

/// Every key of a sequence of trees is at or above `bound`.
pub open spec fn forest_above<I, K: Ord>(f: Seq<Tree<I, K>>, bound: K) -> bool {
    forall|e: (I, K)| #[trigger] forest_entries(f).contains(e) ==> key_le(bound, e.1)
}

/// Taking the element at place `i` out comes to the same whatever stood at that place.
pub proof fn lemma_swap_removed_after_update<A>(s: Seq<A>, i: int, a: A)
    requires
        0 <= i < s.len(),
    ensures
        swap_removed(s.update(i, a), i) == swap_removed(s, i),
{
    assert(swap_removed(s.update(i, a), i) =~= swap_removed(s, i));
}

/// Appending a tree adds its entries.
pub proof fn lemma_entries_push<I, K: Ord>(f: Seq<Tree<I, K>>, t: Tree<I, K>)
    ensures
        forest_entries(f.push(t)) == forest_entries(f).add(t.entries()),
        forest_size(f.push(t)) == forest_size(f) + t.size(),
{
    assert(f.push(t).drop_last() =~= f);
}

/// Replacing the tree at place `i` by `t` exchanges the entries of the one for those of
/// the other.
pub proof fn lemma_entries_update<I, K: Ord>(f: Seq<Tree<I, K>>, i: int, t: Tree<I, K>)
    requires
        0 <= i < f.len(),
    ensures
        forest_entries(f.update(i, t)).add(f[i].entries()) == forest_entries(f).add(t.entries()),
        forest_size(f.update(i, t)) + f[i].size() == forest_size(f) + t.size(),
    decreases f.len(),
{
    let g = f.update(i, t);
    assert(g.len() == f.len());
    if i == f.len() - 1 {
        assert(g.drop_last() =~= f.drop_last());
        assert(g.last() == t);
        assert(f.last() == f[i]);
        assert(forest_entries(g).add(f[i].entries()) =~= forest_entries(f).add(t.entries()));
    } else {
        lemma_entries_update(f.drop_last(), i, t);
        assert(g.drop_last() =~= f.drop_last().update(i, t));
        assert(g.last() == f.last());
        assert(f.drop_last()[i] == f[i]);
        let a = forest_entries(f.drop_last().update(i, t));
        let b = forest_entries(f.drop_last());
        assert(a.add(f[i].entries()) == b.add(t.entries()));
        assert(forest_entries(g) == a.add(f.last().entries()));
        assert(forest_entries(f) == b.add(f.last().entries()));
        assert(a.add(f.last().entries()).add(f[i].entries()) =~= a.add(f[i].entries()).add(f.last().entries()));
        assert(forest_entries(g).add(f[i].entries()) =~= forest_entries(f).add(t.entries()));
    }
    assert(forest_entries(g) == forest_entries(g.drop_last()).add(g.last().entries()));
    assert(forest_entries(f) == forest_entries(f.drop_last()).add(f.last().entries()));
    assert(forest_entries(g).add(f[i].entries()) =~= forest_entries(f).add(t.entries()));
}

/// Taking the tree at place `i` out, with the last tree moved to its place, takes its
/// entries out.
pub proof fn lemma_entries_swap_remove<I, K: Ord>(f: Seq<Tree<I, K>>, i: int)
    requires
        0 <= i < f.len(),
    ensures
        forest_entries(swap_removed(f, i)).add(f[i].entries()) == forest_entries(f),
        forest_size(swap_removed(f, i)) + f[i].size() == forest_size(f),
{
    let g = f.update(i, f.last());
    assert(g.len() == f.len());
    if i == f.len() - 1 {
        assert(g =~= f);
    } else {
        lemma_entries_update(f, i, f.last());
        assert(g.last() == f.last());
        let rest = forest_entries(g.drop_last());
        let last = f.last().entries();
        assert(forest_entries(g) == rest.add(last));
        assert forall|e: (I, K)| rest.add(f[i].entries()).count(e) == forest_entries(f).count(e) by {
            assert(rest.add(last).add(f[i].entries()).count(e) == forest_entries(f).add(last).count(e));
        }
        assert(rest.add(f[i].entries()) =~= forest_entries(f));
    }
}

/// Joining two sequences of trees joins their entries.
pub proof fn lemma_entries_concat<I, K: Ord>(a: Seq<Tree<I, K>>, b: Seq<Tree<I, K>>)
    ensures
        forest_entries(a + b) == forest_entries(a).add(forest_entries(b)),
        forest_size(a + b) == forest_size(a) + forest_size(b),
    decreases b.len(),
{
    if b.len() == 0 {
        assert(a + b =~= a);
        assert(forest_entries(a + b) =~= forest_entries(a).add(forest_entries(b)));
    } else {
        lemma_entries_concat(a, b.drop_last());
        assert((a + b).drop_last() =~= a + b.drop_last());
        assert((a + b).last() == b.last());
        assert(forest_entries(a + b) =~= forest_entries(a).add(forest_entries(b)));
    }
}

/// The entries of each tree of a sequence are among the entries of the sequence.
pub proof fn lemma_entries_member<I, K: Ord>(f: Seq<Tree<I, K>>, i: int)
    requires
        0 <= i < f.len(),
    ensures
        f[i].entries().subset_of(forest_entries(f)),
    decreases f.len(),
{
    if i < f.len() - 1 {
        lemma_entries_member(f.drop_last(), i);
    }
}

/// A tree has as many entries as nodes, and so does a sequence of trees.
pub proof fn lemma_entries_len<I, K: Ord>(t: Tree<I, K>)
    ensures
        t.entries().len() == t.size(),
    decreases t, 1nat,
{
    lemma_forest_entries_len(t.children);
}

/// A sequence of trees has as many entries as nodes.
pub proof fn lemma_forest_entries_len<I, K: Ord>(f: Seq<Tree<I, K>>)
    ensures
        forest_entries(f).len() == forest_size(f),
    decreases f, 0nat,
{
    if f.len() > 0 {
        lemma_forest_entries_len(f.drop_last());
        lemma_entries_len(f.last());
    }
}

/// The first `k` trees of a sequence have no more nodes than all of them.
pub proof fn lemma_prefix_size<I, K: Ord>(f: Seq<Tree<I, K>>, k: int)
    requires
        0 <= k <= f.len(),
    ensures
        forest_size(f.take(k)) <= forest_size(f),
{
    assert(f =~= f.take(k) + f.skip(k));
    lemma_entries_concat(f.take(k), f.skip(k));
}

/// The entries of a sequence of trees are those of its first tree and those of the rest.
pub proof fn lemma_entries_first<I, K: Ord>(f: Seq<Tree<I, K>>)
    requires
        f.len() > 0,
    ensures
        forest_entries(f) == f.first().entries().add(forest_entries(f.drop_first())),
{
    let one = seq![f.first()];
    assert(one.drop_last() =~= Seq::<Tree<I, K>>::empty());
    assert(one.last() == f.first());
    assert(forest_entries(one.drop_last()) == Multiset::<(I, K)>::empty());
    assert(forest_entries(one) =~= f.first().entries());
    assert(f =~= one + f.drop_first());
    lemma_entries_concat(one, f.drop_first());
}

/// How often an entry occurs in a tree: as often as below the root, and once more where
/// it is the root's.
pub proof fn lemma_entries_count<I, K: Ord>(t: Tree<I, K>, e: (I, K))
    ensures
        t.entries().count(e) == forest_entries(t.children).count(e) + if e == t.entry() {
            1nat
        } else {
            0nat
        },
{
}

/// Clearing the marks of the roots changes neither the entries nor the number of nodes.
pub proof fn lemma_unmarked_forest<I, K: Ord>(f: Seq<Tree<I, K>>)
    ensures
        forest_entries(unmarked_forest(f)) == forest_entries(f),
        forest_size(unmarked_forest(f)) == forest_size(f),
    decreases f.len(),
{
    let u = unmarked_forest(f);
    if f.len() > 0 {
        lemma_unmarked_forest(f.drop_last());
        assert(u.drop_last() =~= unmarked_forest(f.drop_last()));
        assert(u.last() == f.last().unmarked());
        assert(f.last().unmarked().entries() == f.last().entries());
        assert(f.last().unmarked().size() == f.last().size());
    }
}

/// Where the tree at place `i` gives way to `q` and the trees `extra` are appended, and
/// `q` with `extra` and `gone` holds what the tree held with `come`, the forest holds
/// `come` in place of `gone`, in as many nodes as before.
pub proof fn lemma_forest_replaced<I, K: Ord>(
    roots: Seq<Tree<I, K>>,
    i: int,
    q: Tree<I, K>,
    extra: Seq<Tree<I, K>>,
    gone: (I, K),
    come: (I, K),
)
    requires
        0 <= i < roots.len(),
        roots[i].entries().contains(gone),
        q.entries().add(forest_entries(extra)).insert(gone) == roots[i].entries().insert(come),
    ensures
        forest_entries(roots.update(i, q) + extra) == forest_entries(roots).remove(gone).insert(come),
        forest_size(roots.update(i, q) + extra) == forest_size(roots),
{
    let mid = roots.update(i, q);
    let after = mid + extra;
    lemma_entries_update(roots, i, q);
    lemma_entries_concat(mid, extra);
    lemma_entries_member(roots, i);
    let x = forest_entries(extra);
    let lhs = q.entries().add(x).insert(gone);
    let rhs = roots[i].entries().insert(come);
    assert forall|e: (I, K)| forest_entries(after).count(e) == forest_entries(roots).remove(gone).insert(
        come,
    ).count(e) by {
        assert(forest_entries(mid).add(roots[i].entries()).count(e) == forest_entries(roots).add(
            q.entries(),
        ).count(e));
        assert(lhs.count(e) == rhs.count(e));
        assert(roots[i].entries().count(gone) <= forest_entries(roots).count(gone));
    }
    assert(forest_entries(after) =~= forest_entries(roots).remove(gone).insert(come));
    lemma_entries_len(q);
    lemma_entries_len(roots[i]);
    lemma_forest_entries_len(extra);
    assert(lhs.len() == rhs.len());
    assert(q.size() + forest_size(extra) == roots[i].size());
}

/// A search that finds nothing in any tree finds nothing in the sequence.
pub proof fn lemma_find_none<I, K: Ord>(f: Seq<Tree<I, K>>, item: I)
    requires
        forall|j: int| 0 <= j < f.len() ==> (#[trigger] f[j]).find(item) is None,
    ensures
        forest_find(f, item) is None,
    decreases f.len(),
{
    if f.len() > 0 {
        assert(f.first() == f[0]);
        assert forall|j: int| 0 <= j < f.drop_first().len() implies (#[trigger] f.drop_first()[j]).find(
            item,
        ) is None by {
            assert(f.drop_first()[j] == f[j + 1]);
        }
        lemma_find_none(f.drop_first(), item);
    }
}

/// A search that finds nothing before place `i` and something at it finds what the tree
/// at place `i` holds.
pub proof fn lemma_find_at<I, K: Ord>(f: Seq<Tree<I, K>>, item: I, i: int)
    requires
        0 <= i < f.len(),
        forall|j: int| 0 <= j < i ==> (#[trigger] f[j]).find(item) is None,
        f[i].find(item) is Some,
    ensures
        forest_find(f, item) == f[i].find(item),
        forest_holder(f, item) == i,
    decreases i,
{
    assert(f.first() == f[0]);
    if i > 0 {
        assert forall|j: int| 0 <= j < i - 1 implies (#[trigger] f.drop_first()[j]).find(item) is None by {
            assert(f.drop_first()[j] == f[j + 1]);
        }
        assert(f.drop_first()[i - 1] == f[i]);
        lemma_find_at(f.drop_first(), item, i - 1);
    }
}

/// What a search in a tree finds is an entry of the tree, and it finds nothing only
/// where no entry holds the item.
pub proof fn lemma_find_entry<I, K: Ord>(t: Tree<I, K>, item: I)
    ensures
        match t.find(item) {
            Some(k) => t.entries().contains((item, k)),
            None => forall|k: K| !(#[trigger] t.entries().contains((item, k))),
        },
    decreases t, 1nat,
{
    lemma_forest_find_entry(t.children, item);
    match t.find(item) {
        Some(k) => {
            lemma_entries_count(t, (item, k));
        },
        None => {
            assert forall|k: K| !(#[trigger] t.entries().contains((item, k))) by {
                lemma_entries_count(t, (item, k));
                assert(!forest_entries(t.children).contains((item, k)));
            }
        },
    }
}

/// What a search in a sequence of trees finds is an entry of it, and it finds nothing
/// only where no entry holds the item.
pub proof fn lemma_forest_find_entry<I, K: Ord>(f: Seq<Tree<I, K>>, item: I)
    ensures
        match forest_find(f, item) {
            Some(k) => forest_entries(f).contains((item, k)),
            None => forall|k: K| !(#[trigger] forest_entries(f).contains((item, k))),
        },
    decreases f, 0nat,
{
    if f.len() > 0 {
        let rest = f.drop_first();
        lemma_find_entry(f.first(), item);
        lemma_forest_find_entry(rest, item);
        lemma_entries_first(f);
        if forest_find(f, item) is None {
            assert forall|k: K| !(#[trigger] forest_entries(f).contains((item, k))) by {
                assert(!f.first().entries().contains((item, k)));
                assert(!forest_entries(rest).contains((item, k)));
            }
        }
    }
}

/// In a tree in heap order no key is below the root's.
pub proof fn lemma_root_is_least<I, K: Ord>(t: Tree<I, K>)
    requires
        lawful_order::<K>(),
        t.heap_ordered(),
    ensures
        forall|e: (I, K)| #[trigger] t.entries().contains(e) ==> key_le(t.key, e.1),
    decreases t, 1nat,
{
    lemma_children_above(t, t.children.len() as int);
    assert(t.children.take(t.children.len() as int) =~= t.children);
    assert forall|e: (I, K)| #[trigger] t.entries().contains(e) implies key_le(t.key, e.1) by {
        lemma_entries_count(t, e);
        if e != t.entry() {
            assert(forest_entries(t.children).contains(e));
        }
    }
}

/// In a tree in heap order no key of the first `n` children's trees is below the root's.
pub proof fn lemma_children_above<I, K: Ord>(t: Tree<I, K>, n: int)
    requires
        lawful_order::<K>(),
        t.heap_ordered(),
        0 <= n <= t.children.len(),
    ensures
        forest_above(t.children.take(n), t.key),
    decreases t, 0nat, n,
{
    let f = t.children.take(n);
    if n > 0 {
        let c = t.children[n - 1];
        lemma_children_above(t, n - 1);
        assert(f.drop_last() =~= t.children.take(n - 1));
        assert(f.last() == c);
        lemma_root_is_least(c);
        assert(forest_entries(f) == forest_entries(f.drop_last()).add(c.entries()));
        assert forall|e: (I, K)| #[trigger] forest_entries(f).contains(e) implies key_le(t.key, e.1) by {
            if c.entries().contains(e) {
                assert(key_le(c.key, e.1));
                assert(key_le(t.key, c.key));
            } else {
                assert(forest_entries(f.drop_last()).contains(e));
            }
        }
    }
}

} // verus!
