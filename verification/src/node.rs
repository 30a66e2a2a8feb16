//! The nodes that the heap owns: each holds an entry, a mark and its children.

use vstd::prelude::*;
use vstd::multiset::Multiset;
use crate::cut::{cut_done, lemma_child_cut, lemma_child_kept, lemma_lowered_root};
use crate::forest::{lemma_entries_push, lemma_find_at, lemma_find_none};
use crate::model::{forest_entries, swap_removed, unmarked_forest, Cut, Tree};
use crate::order::{key_le, key_lt, lawful_eq, lawful_order};

verus! {

/// A node of the heap together with the whole tree below it.
pub(crate) struct TreeNode<I, K> {
    pub(crate) children: Vec<TreeNode<I, K>>,
    pub(crate) key: K,
    pub(crate) mark: bool,
    pub(crate) item: I,
}

/// The tree that a node stands for.
pub(crate) open spec fn tree_view<I, K>(node: TreeNode<I, K>) -> Tree<I, K>
    decreases node,
{
    Tree {
        item: node.item,
        key: node.key,
        mark: node.mark,
        children: Seq::new(
            node.children@.len(),
            |i: int|
                if 0 <= i < node.children@.len() {
                    tree_view(node.children@[i])
                } else {
                    arbitrary()
                },
        ),
    }
}

/// The trees that a sequence of nodes stands for, in the same order.
pub(crate) open spec fn forest_view<I, K>(nodes: Seq<TreeNode<I, K>>) -> Seq<Tree<I, K>> {
    Seq::new(nodes.len(), |i: int| tree_view(nodes[i]))
}

impl<I, K> TreeNode<I, K> {
    /// The tree that this node stands for.
    pub(crate) open spec fn view(&self) -> Tree<I, K> {
        tree_view(*self)
    }
}

/// What a row of buckets of nodes stands for: the tree of each node, bucket by bucket.
pub(crate) open spec fn buckets_view<I, K>(b: Seq<Option<TreeNode<I, K>>>) -> Seq<Option<Tree<I, K>>> {
    Seq::new(
        b.len(),
        |i: int|
            match b[i] {
                Some(node) => Some(node@),
                None => None,
            },
    )
}

/// The children of a node's tree are the trees of the node's children.
pub(crate) proof fn lemma_children_view<I, K>(node: TreeNode<I, K>)
    ensures
        node@.children == forest_view(node.children@),
{
    assert(node@.children =~= forest_view(node.children@));
}

/// Appending a node appends its tree.
pub(crate) proof fn lemma_view_push<I, K>(nodes: Seq<TreeNode<I, K>>, node: TreeNode<I, K>)
    ensures
        forest_view(nodes.push(node)) == forest_view(nodes).push(node@),
{
    assert(forest_view(nodes.push(node)) =~= forest_view(nodes).push(node@));
}

/// Replacing a node replaces its tree.
pub(crate) proof fn lemma_view_update<I, K>(nodes: Seq<TreeNode<I, K>>, i: int, node: TreeNode<I, K>)
    requires
        0 <= i < nodes.len(),
    ensures
        forest_view(nodes.update(i, node)) == forest_view(nodes).update(i, node@),
{
    assert(forest_view(nodes.update(i, node)) =~= forest_view(nodes).update(i, node@));
}

/// Taking a node out, the last node moving to its place, does the same to the trees.
pub(crate) proof fn lemma_view_swap_remove<I, K>(nodes: Seq<TreeNode<I, K>>, i: int)
    requires
        0 <= i < nodes.len(),
    ensures
        forest_view(swap_removed(nodes, i)) == swap_removed(forest_view(nodes), i),
{
    assert(forest_view(swap_removed(nodes, i)) =~= swap_removed(forest_view(nodes), i));
}

/// Joining two sequences of nodes joins their trees.
pub(crate) proof fn lemma_view_concat<I, K>(a: Seq<TreeNode<I, K>>, b: Seq<TreeNode<I, K>>)
    ensures
        forest_view(a + b) == forest_view(a) + forest_view(b),
{
    assert(forest_view(a + b) =~= forest_view(a) + forest_view(b));
}

impl<I, K: Ord> TreeNode<I, K> {
    /// A node without children, unmarked.
    pub(crate) fn new(item: I, key: K) -> (node: Self)
        ensures
            node@ == (Tree { item, key, mark: false, children: Seq::empty() }),
    {
        let node = TreeNode { item, key, mark: false, children: Vec::new() };
        assert(node@.children =~= Seq::empty());
        node
    }

    /// The number of direct children.
    pub(crate) fn rank(&self) -> (r: usize)
        ensures
            r == self@.rank(),
    {
        proof {
            lemma_children_view(*self);
        }
        self.children.len()
    }
}

/// Clears the mark of each node of `nodes`.
pub(crate) fn unmark_all<I, K: Ord>(nodes: &mut Vec<TreeNode<I, K>>)
    ensures
        forest_view(final(nodes)@) == unmarked_forest(forest_view(old(nodes)@)),
{
    let ghost before = forest_view(nodes@);
    let mut j: usize = 0;
    while j < nodes.len()
        invariant
            j <= nodes.len(),
            nodes@.len() == before.len(),
            forall|k: int| 0 <= k < j ==> (#[trigger] nodes@[k])@ == before[k].unmarked(),
            forall|k: int| j <= k < nodes@.len() ==> (#[trigger] nodes@[k])@ == before[k],
        decreases nodes.len() - j,
    {
        nodes[j].mark = false;
        j += 1;
    }
    assert(forest_view(nodes@) =~= unmarked_forest(before));
}

/// Makes one tree of two: the root with the larger key becomes the last child of the
/// other, its mark cleared.
pub(crate) fn link<I, K: Ord>(first: TreeNode<I, K>, second: TreeNode<I, K>) -> (node: TreeNode<I, K>)
    requires
        lawful_order::<K>(),
    ensures
        node@ == first@.link(second@),
{
    let ghost a = first;
    let ghost b = second;
    let mut first = first;
    let mut second = second;
    if first.key < second.key {
        second.mark = false;
        first.children.push(second);
        proof {
            lemma_children_view(a);
            lemma_children_view(b);
            lemma_children_view(first);
            lemma_children_view(second);
            lemma_view_push(a.children@, second);
        }
        first
    } else {
        first.mark = false;
        second.children.push(first);
        proof {
            lemma_children_view(a);
            lemma_children_view(b);
            lemma_children_view(first);
            lemma_children_view(second);
            lemma_view_push(b.children@, first);
        }
        second
    }
}

/// What a search for an item in one tree, made to lower the item's key, has come to.
pub(crate) enum DecreaseKeyResult<I, K> {
    /// The tree does not hold the item; the key comes back unused.
    NotFound(K),
    /// The item's key is not above the new key: nothing was changed.
    NoDecrease,
    /// The root of the tree holds the item and has taken the new key.
    ItemFound,
    /// The key was lowered below the root; the nodes cut off come back, and the root,
    /// which had lost a child before, is to be cut off too.
    Marked(Vec<TreeNode<I, K>>),
    /// The key was lowered below the root; the nodes cut off come back, and nothing
    /// further is to be cut.
    Unmarked(Vec<TreeNode<I, K>>),
}

/// What `decrease_key` on a tree promises of its result.
pub(crate) open spec fn decrease_outcome<I, K: Ord>(
    pre: Tree<I, K>,
    post: Tree<I, K>,
    item: I,
    new_key: K,
    res: DecreaseKeyResult<I, K>,
) -> bool {
    match res {
        DecreaseKeyResult::NotFound(k) => k == new_key && post == pre && pre.find(item) is None,
        DecreaseKeyResult::NoDecrease => post == pre && pre.find(item) is Some && !key_lt(
            new_key,
            pre.find(item)->0,
        ),
        DecreaseKeyResult::ItemFound => pre.item == item && key_lt(new_key, pre.key) && post == (Tree {
            key: new_key,
            ..pre
        }),
        DecreaseKeyResult::Marked(cut) => cut_done(pre, post, forest_view(cut@), item, new_key)
            && pre.mark && cut@.len() > 0 && pre.cut_below(item, new_key) == (Cut {
            tree: post,
            cut: forest_view(cut@),
            cascade: true,
        }),
        DecreaseKeyResult::Unmarked(cut) => cut_done(pre, post, forest_view(cut@), item, new_key)
            && post.linked_rank() == pre.linked_rank() && pre.cut_below(item, new_key) == (Cut {
            tree: post,
            cut: forest_view(cut@),
            cascade: false,
        }),
    }
}

impl<I: PartialEq, K: Ord> TreeNode<I, K> {
    /// Lowers the key of the first node of this tree that holds `item` to `new_key`, if
    /// that is below the node's key. A node below the root whose new key is below its
    /// parent's key is cut off, and after it each ancestor below the root that had lost a
    /// child before; the nodes cut off come back in the result.
    pub(crate) fn decrease_key(&mut self, item: &I, new_key: K) -> (res: DecreaseKeyResult<I, K>)
        requires
            lawful_order::<K>(),
            lawful_eq::<I>(),
            old(self)@.heap_ordered(),
            old(self)@.ranked(),
        ensures
            decrease_outcome(old(self)@, final(self)@, *item, new_key, res),
        decreases old(self)@,
    {
        let ghost pre = self@;
        if self.item == *item {
            if new_key < self.key {
                self.key = new_key;
                proof {
                    assert(self@.children =~= pre.children);
                }
                DecreaseKeyResult::ItemFound
            } else {
                DecreaseKeyResult::NoDecrease
            }
        } else {
            let mut key = new_key;
            let mut i: usize = 0;
            while i < self.children.len()
                invariant
                    lawful_order::<K>(),
                    lawful_eq::<I>(),
                    self@ == pre,
                    pre == old(self)@,
                    pre.heap_ordered(),
                    pre.ranked(),
                    pre.item != *item,
                    key == new_key,
                    i <= self.children.len(),
                    forall|j: int| 0 <= j < i ==> (#[trigger] pre.children[j]).find(*item) is None,
                decreases self.children.len() - i,
            {
                let ghost kids = self.children@;
                let ghost c0 = pre.children[i as int];
                let ghost gone = (*item, c0.find(*item)->0);
                let ghost come = (*item, new_key);
                proof {
                    lemma_children_view(*self);
                    assert(kids[i as int]@ == c0);
                    assert(c0.heap_ordered() && c0.ranked());
                    assert(key_le(pre.key, c0.key));
                }
                let below = self.children[i].decrease_key(item, key);
                let ghost c1 = self.children@[i as int]@;
                let ghost mid = self.children@;
                proof {
                    lemma_children_view(*self);
                    lemma_view_update(kids, i as int, self.children@[i as int]);
                    assert(forest_view(mid) == pre.children.update(i as int, c1));
                    if !(below is NotFound) {
                        lemma_find_at(pre.children, *item, i as int);
                    }
                }
                match below {
                    DecreaseKeyResult::NotFound(k) => {
                        proof {
                            assert(self@.children =~= pre.children);
                        }
                        key = k;
                        i += 1;
                    },
                    DecreaseKeyResult::NoDecrease => {
                        proof {
                            assert(self@.children =~= pre.children);
                        }
                        return DecreaseKeyResult::NoDecrease;
                    },
                    DecreaseKeyResult::ItemFound => {
                        proof {
                            lemma_lowered_root(c0, new_key);
                        }
                        if self.children[i].key < self.key {
                            let cut_child = self.children.swap_remove(i);
                            let cutoff = vec![cut_child];
                            let was_marked = self.mark;
                            self.mark = true;
                            proof {
                                lemma_children_view(*self);
                                lemma_view_swap_remove(mid, i as int);
                                assert(forest_view(cutoff@) =~= seq![c1]);
                                lemma_entries_push(Seq::empty(), c1);
                                assert(Seq::<Tree<I, K>>::empty().push(c1) =~= seq![c1]);
                                lemma_child_cut(pre, self@, i as int, c1, Multiset::empty(), gone, come);
                            }
                            if was_marked {
                                return DecreaseKeyResult::Marked(cutoff);
                            } else {
                                return DecreaseKeyResult::Unmarked(cutoff);
                            }
                        } else {
                            let cutoff = Vec::new();
                            proof {
                                assert(forest_view(cutoff@) =~= Seq::<Tree<I, K>>::empty());
                                lemma_child_kept(pre, self@, i as int, c1, Multiset::empty(), gone, come);
                            }
                            return DecreaseKeyResult::Unmarked(cutoff);
                        }
                    },
                    DecreaseKeyResult::Marked(cutoff) => {
                        let ghost cut0 = forest_view(cutoff@);
                        let mut cutoff = cutoff;
                        let node = self.children.swap_remove(i);
                        proof {
                            lemma_view_push(cutoff@, node);
                            lemma_entries_push(cut0, c1);
                        }
                        cutoff.push(node);
                        let was_marked = self.mark;
                        self.mark = true;
                        proof {
                            lemma_children_view(*self);
                            lemma_view_swap_remove(mid, i as int);
                            lemma_child_cut(pre, self@, i as int, c1, forest_entries(cut0), gone, come);
                        }
                        if was_marked {
                            return DecreaseKeyResult::Marked(cutoff);
                        } else {
                            return DecreaseKeyResult::Unmarked(cutoff);
                        }
                    },
                    DecreaseKeyResult::Unmarked(cutoff) => {
                        proof {
                            lemma_child_kept(
                                pre,
                                self@,
                                i as int,
                                c1,
                                forest_entries(forest_view(cutoff@)),
                                gone,
                                come,
                            );
                        }
                        return DecreaseKeyResult::Unmarked(cutoff);
                    },
                }
            }
            proof {
                lemma_find_none(pre.children, *item);
            }
            DecreaseKeyResult::NotFound(key)
        }
    }
}

} // verus!
