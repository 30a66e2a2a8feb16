//! Lowering a key: what it does to the tree that holds the node, and to the forest.

use vstd::prelude::*;
use vstd::multiset::Multiset;
use crate::forest::{
    lemma_entries_count, lemma_entries_swap_remove, lemma_entries_update, lemma_find_at,
    lemma_find_entry, lemma_forest_replaced, lemma_swap_removed_after_update,
    lemma_unmarked_forest,
};
use crate::model::{forest_entries, swap_removed, unmarked_forest, HeapModel, Tree};
use crate::order::{key_le, key_lt, lawful_order};
use crate::rank::{lemma_ranked_removed, lemma_ranked_replaced};

verus! {

/// The tree `pre` held `item` below its root with a key above `new_key`; `post` and the
/// trees `cut` off from it hold the same entries but for the item's key, which is now
/// `new_key`; all of them are in heap order, and no root of `cut` but the first, which
/// holds the item, can be below the root of `pre`.
pub open spec fn cut_done<I, K: Ord>(
    pre: Tree<I, K>,
    post: Tree<I, K>,
    cut: Seq<Tree<I, K>>,
    item: I,
    new_key: K,
) -> bool {
    &&& pre.item != item
    &&& pre.find(item) is Some
    &&& key_lt(new_key, pre.find(item)->0)
    &&& post.entry() == pre.entry()
    &&& post.heap_ordered()
    &&& post.ranked()
    &&& forall|j: int| 0 <= j < cut.len() ==> (#[trigger] cut[j]).heap_ordered() && cut[j].ranked()
    &&& post.entries().add(forest_entries(cut)).insert((item, pre.find(item)->0))
        == pre.entries().insert((item, new_key))
    &&& cut.len() > 0 ==> cut[0].entry() == (item, new_key)
    &&& forall|j: int| 1 <= j < cut.len() ==> key_le(pre.key, (#[trigger] cut[j]).key)
    &&& cut.len() == 0 ==> key_le(pre.key, new_key)
}

/// A root in heap order that takes a smaller key stays in heap order, and holds what it
/// held but for its own key.
pub proof fn lemma_lowered_root<I, K: Ord>(c: Tree<I, K>, new_key: K)
    requires
        lawful_order::<K>(),
        c.heap_ordered(),
        key_lt(new_key, c.key),
    ensures
        (Tree { key: new_key, ..c }).heap_ordered(),
        (Tree { key: new_key, ..c }).entries().add(Multiset::empty()).insert((c.item, c.key))
            == c.entries().insert((c.item, new_key)),
{
    let d = Tree { key: new_key, ..c };
    assert forall|j: int| 0 <= j < d.children.len() implies key_le(d.key, (#[trigger] d.children[j]).key)
        && d.children[j].heap_ordered() by {
        assert(key_le(c.key, c.children[j].key));
        assert(key_le(new_key, c.key));
    }
    assert(d.entries().add(Multiset::empty()).insert((c.item, c.key)) =~= c.entries().insert(
        (c.item, new_key),
    ));
}

/// A tree in heap order stays so when one child gives way to a tree in heap order whose
/// root is not below the parent's.
pub proof fn lemma_order_replaced<I, K: Ord>(p: Tree<I, K>, q: Tree<I, K>, i: int, c: Tree<I, K>)
    requires
        p.heap_ordered(),
        0 <= i < p.children.len(),
        q.key == p.key,
        q.children == p.children.update(i, c),
        c.heap_ordered(),
        key_le(p.key, c.key),
    ensures
        q.heap_ordered(),
{
    assert forall|j: int| 0 <= j < q.children.len() implies key_le(q.key, (#[trigger] q.children[j]).key)
        && q.children[j].heap_ordered() by {
        if j != i {
            assert(q.children[j] == p.children[j]);
        }
    }
}

/// A tree in heap order stays so when one child is taken out and the last child moves to
/// its place.
pub proof fn lemma_order_removed<I, K: Ord>(p: Tree<I, K>, q: Tree<I, K>, i: int)
    requires
        p.heap_ordered(),
        0 <= i < p.children.len(),
        q.key == p.key,
        q.children == swap_removed(p.children, i),
    ensures
        q.heap_ordered(),
{
    let n = p.children.len() - 1;
    assert forall|j: int| 0 <= j < q.children.len() implies key_le(q.key, (#[trigger] q.children[j]).key)
        && q.children[j].heap_ordered() by {
        if j != i {
            assert(q.children[j] == p.children[j]);
        } else {
            assert(q.children[j] == p.children[n]);
        }
    }
}

/// Where the child at place `i` gives way to `c`, and `c` with `extra` and `gone` holds
/// what the child held with `come`, the same holds of the whole tree.
pub proof fn lemma_child_replaced<I, K: Ord>(
    p: Tree<I, K>,
    q: Tree<I, K>,
    i: int,
    c: Tree<I, K>,
    extra: Multiset<(I, K)>,
    gone: (I, K),
    come: (I, K),
)
    requires
        0 <= i < p.children.len(),
        q.entry() == p.entry(),
        q.children == p.children.update(i, c),
        c.entries().add(extra).insert(gone) == p.children[i].entries().insert(come),
    ensures
        q.entries().add(extra).insert(gone) == p.entries().insert(come),
{
    lemma_entries_update(p.children, i, c);
    let a = forest_entries(q.children);
    let b = forest_entries(p.children);
    let old_c = p.children[i].entries();
    assert forall|e: (I, K)| q.entries().add(extra).insert(gone).count(e) == p.entries().insert(
        come,
    ).count(e) by {
        lemma_entries_count(q, e);
        lemma_entries_count(p, e);
        assert(a.add(old_c).count(e) == b.add(c.entries()).count(e));
        assert(c.entries().add(extra).insert(gone).count(e) == old_c.insert(come).count(e));
    }
    assert(q.entries().add(extra).insert(gone) =~= p.entries().insert(come));
}

/// Where the child at place `i` becomes `c` and is then taken out, the last child moving
/// to its place, and `c` with `extra` and `gone` holds what the child held with `come`,
/// then the tree, `c`, `extra` and `gone` hold what the tree held with `come`.
pub proof fn lemma_child_removed<I, K: Ord>(
    p: Tree<I, K>,
    q: Tree<I, K>,
    i: int,
    c: Tree<I, K>,
    extra: Multiset<(I, K)>,
    gone: (I, K),
    come: (I, K),
)
    requires
        0 <= i < p.children.len(),
        q.entry() == p.entry(),
        q.children == swap_removed(p.children, i),
        c.entries().add(extra).insert(gone) == p.children[i].entries().insert(come),
    ensures
        q.entries().add(extra.add(c.entries())).insert(gone) == p.entries().insert(come),
{
    let mid = p.children.update(i, c);
    lemma_swap_removed_after_update(p.children, i, c);
    lemma_entries_update(p.children, i, c);
    lemma_entries_swap_remove(mid, i);
    let a = forest_entries(q.children);
    let m = forest_entries(mid);
    let b = forest_entries(p.children);
    let old_c = p.children[i].entries();
    assert(mid[i] == c);
    assert(a.add(c.entries()) == m);
    assert forall|e: (I, K)| q.entries().add(extra.add(c.entries())).insert(gone).count(e)
        == p.entries().insert(come).count(e) by {
        lemma_entries_count(q, e);
        lemma_entries_count(p, e);
        assert(a.add(c.entries()).count(e) == m.count(e));
        assert(m.add(old_c).count(e) == b.add(c.entries()).count(e));
        assert(c.entries().add(extra).insert(gone).count(e) == old_c.insert(come).count(e));
    }
    assert(q.entries().add(extra.add(c.entries())).insert(gone) =~= p.entries().insert(come));
}

/// The step of the cascade in which a child is cut off: where the child at place `i` of a
/// tree in heap order, with the children of each node spread over the ranks, has become
/// `c` and is taken out, the tree is `without_child(i)` of what it was and of the same
/// kind, and with `c`, `extra` and `gone` it holds what it held with `come`.
pub proof fn lemma_child_cut<I, K: Ord>(
    p: Tree<I, K>,
    q: Tree<I, K>,
    i: int,
    c: Tree<I, K>,
    extra: Multiset<(I, K)>,
    gone: (I, K),
    come: (I, K),
)
    requires
        p.heap_ordered(),
        p.ranked(),
        0 <= i < p.children.len(),
        q.entry() == p.entry(),
        q.mark,
        q.children == swap_removed(p.children.update(i, c), i),
        c.entries().add(extra).insert(gone) == p.children[i].entries().insert(come),
    ensures
        q == p.without_child(i),
        q.heap_ordered(),
        q.ranked(),
        q.entries().add(extra.add(c.entries())).insert(gone) == p.entries().insert(come),
{
    lemma_swap_removed_after_update(p.children, i, c);
    lemma_order_removed(p, q, i);
    lemma_ranked_removed(p, q, i);
    lemma_child_removed(p, q, i, c, extra, gone, come);
}

/// The step of the cascade in which a child stays: where the child at place `i` of a
/// tree in heap order, with the children of each node spread over the ranks, gives way
/// to a tree `c` of that kind whose root is not below the parent's and which became a
/// child with the same rank, the tree is `with_child(i, c)` of what it was and of the
/// same kind, and with `extra` and `gone` it holds what it held with `come`.
pub proof fn lemma_child_kept<I, K: Ord>(
    p: Tree<I, K>,
    q: Tree<I, K>,
    i: int,
    c: Tree<I, K>,
    extra: Multiset<(I, K)>,
    gone: (I, K),
    come: (I, K),
)
    requires
        p.heap_ordered(),
        p.ranked(),
        0 <= i < p.children.len(),
        q.entry() == p.entry(),
        q.mark == p.mark,
        q.children == p.children.update(i, c),
        c.heap_ordered(),
        c.ranked(),
        c.linked_rank() == p.children[i].linked_rank(),
        key_le(p.key, c.key),
        c.entries().add(extra).insert(gone) == p.children[i].entries().insert(come),
    ensures
        q == p.with_child(i, c),
        q.heap_ordered(),
        q.ranked(),
        q.entries().add(extra).insert(gone) == p.entries().insert(come),
{
    lemma_order_replaced(p, q, i, c);
    lemma_ranked_replaced(p, q, i, c);
    lemma_child_replaced(p, q, i, c, extra, gone, come);
}

/// Lowering the key of a root leaves the forest well formed and changes it as `lower`
/// and `decreased` say.
pub proof fn lemma_decrease_at_root<I, K: Ord>(
    pre: HeapModel<I, K>,
    post: HeapModel<I, K>,
    i: int,
    item: I,
    new_key: K,
)
    requires
        lawful_order::<K>(),
        pre.wf(),
        0 <= i < pre.roots.len(),
        forall|j: int| 0 <= j < i ==> (#[trigger] pre.roots[j]).find(item) is None,
        pre.roots[i].item == item,
        key_lt(new_key, pre.roots[i].key),
        post.roots == pre.roots.update(i, Tree { key: new_key, ..pre.roots[i] }),
        post.count == pre.count,
        post.min == if key_lt(new_key, pre.min_key()->0) {
            Some(i)
        } else {
            pre.min
        },
    ensures
        post.wf(),
        post == pre.lower(item, new_key),
        pre.decreased(post, item, new_key),
{
    let r = pre.roots[i];
    let q = Tree { key: new_key, ..r };
    let gone = (item, r.key);
    let come = (item, new_key);
    let m = pre.min->0;
    let least = pre.roots[m].key;
    lemma_find_at(pre.roots, item, i);
    lemma_entries_count(r, gone);
    assert(q.heap_ordered() && q.entries().add(forest_entries(Seq::empty())).insert(gone)
        == r.entries().insert(come)) by {
        assert forall|j: int| 0 <= j < q.children.len() implies key_le(
            q.key,
            (#[trigger] q.children[j]).key,
        ) && q.children[j].heap_ordered() by {
            assert(key_le(r.key, r.children[j].key));
            assert(key_le(new_key, r.key));
        }
        assert(q.entries().add(forest_entries(Seq::empty())).insert(gone) =~= r.entries().insert(come));
    }
    lemma_forest_replaced(pre.roots, i, q, Seq::empty(), gone, come);
    assert(pre.roots.update(i, q) + Seq::empty() =~= post.roots);
    assert forall|j: int| 0 <= j < post.roots.len() implies (#[trigger] post.roots[j]).heap_ordered()
        && !post.roots[j].mark by {
        if j != i {
            assert(post.roots[j] == pre.roots[j]);
        }
    }
    let pm = post.min->0;
    assert(key_le(least, r.key));
    assert forall|j: int| 0 <= j < post.roots.len() implies key_le(
        post.roots[pm].key,
        (#[trigger] post.roots[j]).key,
    ) by {
        if j != i {
            assert(post.roots[j] == pre.roots[j]);
            assert(key_le(least, pre.roots[j].key));
        }
        if key_lt(new_key, least) {
            assert(key_le(new_key, least));
        } else {
            assert(m != i);
            assert(post.roots[m] == pre.roots[m]);
        }
    }
}

/// Lowering a key below a root and moving the trees cut off to the end of the forest,
/// all marks of roots cleared, leaves the forest well formed and changes it as `lower`
/// and `decreased` say.
pub proof fn lemma_decrease_by_cut<I, K: Ord>(
    pre: HeapModel<I, K>,
    post: HeapModel<I, K>,
    i: int,
    q: Tree<I, K>,
    cut: Seq<Tree<I, K>>,
    item: I,
    new_key: K,
)
    requires
        lawful_order::<K>(),
        pre.wf(),
        0 <= i < pre.roots.len(),
        forall|j: int| 0 <= j < i ==> (#[trigger] pre.roots[j]).find(item) is None,
        cut_done(pre.roots[i], q, cut, item, new_key),
        pre.roots[i].cut_below(item, new_key).tree == q,
        pre.roots[i].cut_below(item, new_key).cut == cut,
        post.roots == pre.roots.update(i, q.unmarked()) + unmarked_forest(cut),
        post.count == pre.count,
        post.min == if key_lt(new_key, pre.min_key()->0) {
            Some(pre.roots.len() as int)
        } else {
            pre.min
        },
    ensures
        post.wf(),
        post == pre.lower(item, new_key),
        pre.decreased(post, item, new_key),
{
    let r = pre.roots[i];
    let n = pre.roots.len() as int;
    let gone = (item, r.find(item)->0);
    let come = (item, new_key);
    let m = pre.min->0;
    let least = pre.roots[m].key;
    let extra = unmarked_forest(cut);
    lemma_find_at(pre.roots, item, i);
    lemma_find_entry(r, item);
    lemma_unmarked_forest(cut);
    assert(q.unmarked().entries() == q.entries());
    lemma_forest_replaced(pre.roots, i, q.unmarked(), extra, gone, come);
    assert(q.unmarked().heap_ordered()) by {
        assert forall|j: int| 0 <= j < q.children.len() implies key_le(
            q.unmarked().key,
            (#[trigger] q.unmarked().children[j]).key,
        ) && q.unmarked().children[j].heap_ordered() by {
            assert(key_le(q.key, q.children[j].key));
        }
    }
    assert forall|j: int| 0 <= j < post.roots.len() implies (#[trigger] post.roots[j]).heap_ordered()
        && !post.roots[j].mark by {
        if j < n {
            if j != i {
                assert(post.roots[j] == pre.roots[j]);
            }
        } else {
            let c = cut[j - n];
            assert(post.roots[j] == c.unmarked());
            assert(c.heap_ordered());
            assert forall|k: int| 0 <= k < c.children.len() implies key_le(
                c.unmarked().key,
                (#[trigger] c.unmarked().children[k]).key,
            ) && c.unmarked().children[k].heap_ordered() by {
                assert(key_le(c.key, c.children[k].key));
            }
        }
    }
    assert(key_le(least, r.key));
    if key_lt(new_key, least) {
        assert(cut.len() > 0) by {
            if cut.len() == 0 {
                assert(key_le(r.key, new_key));
            }
        }
        assert(post.roots[n] == cut[0].unmarked());
    } else {
        if m != i {
            assert(post.roots[m] == pre.roots[m]);
        }
    }
    let pm = post.min->0;
    assert forall|j: int| 0 <= j < post.roots.len() implies key_le(
        post.roots[pm].key,
        (#[trigger] post.roots[j]).key,
    ) by {
        if j < n {
            if j != i {
                assert(post.roots[j] == pre.roots[j]);
            }
            assert(key_le(least, pre.roots[j].key));
            if key_lt(new_key, least) {
                assert(key_le(new_key, least));
            }
        } else {
            let c = cut[j - n];
            assert(post.roots[j] == c.unmarked());
            if j - n >= 1 {
                assert(key_le(r.key, c.key));
                if key_lt(new_key, least) {
                    assert(key_le(new_key, least));
                    assert(key_le(new_key, r.key));
                }
            } else {
                assert(c.key == new_key);
            }
        }
    }
}

} // verus!
