//! The mathematical model of the heap: trees of entries, and a forest of them
//! with a cached minimum.

use vstd::prelude::*;
use vstd::multiset::Multiset;
use crate::order::{key_le, key_lt};
use crate::buckets::{bucket_forest, empty_buckets, gather};
use crate::rank::{fib, limit_of};

verus! {

/// A tree of the forest: an entry, its mark, and the trees below it.
pub ghost struct Tree<I, K> {
    pub item: I,
    pub key: K,
    pub mark: bool,
    pub children: Seq<Tree<I, K>>,
}

impl<I, K: Ord> Tree<I, K> {
    /// The number of direct children.
    pub open spec fn rank(self) -> nat {
        self.children.len()
    }

    /// The entry at the root of this tree.
    pub open spec fn entry(self) -> (I, K) {
        (self.item, self.key)
    }

    /// This tree with its root's mark cleared.
    pub open spec fn unmarked(self) -> Tree<I, K> {
        Tree { mark: false, ..self }
    }

    /// This tree with `child`, its mark cleared, as a new last child of the root.
    pub open spec fn adopt(self, child: Tree<I, K>) -> Tree<I, K> {
        Tree { children: self.children.push(child.unmarked()), ..self }
    }

    /// The two trees made one: the root with the strictly smaller key adopts the
    /// other tree; on equal keys `other` adopts `self`.
    pub open spec fn link(self, other: Tree<I, K>) -> Tree<I, K> {
        if key_lt(self.key, other.key) {
            self.adopt(other)
        } else {
            other.adopt(self)
        }
    }

    /// The key of the first node that holds `item`, searching the root first and
    /// then each child's tree in turn, depth first.
    pub open spec fn find(self, item: I) -> Option<K>
        decreases self,
    {
        if self.item == item {
            Some(self.key)
        } else {
            forest_find(self.children, item)
        }
    }

    /// The number of nodes of this tree.
    pub open spec fn size(self) -> nat
        decreases self,
    {
        1 + forest_size(self.children)
    }

    /// All entries of this tree, each as often as it occurs.
    pub open spec fn entries(self) -> Multiset<(I, K)>
        decreases self,
    {
        forest_entries(self.children).insert((self.item, self.key))
    }

    /// No node of this tree has a key below its parent's.
    pub open spec fn heap_ordered(self) -> bool
        decreases self,
    {
        forall|i: int|
            0 <= i < self.children.len() ==> key_le(self.key, (#[trigger] self.children[i]).key)
                && self.children[i].heap_ordered()
    }
}

/// What lowering a key below the root of a tree leaves: the tree, the trees cut off from
/// it in the order in which they were cut, and whether the root had lost a child before
/// and now lost another, so that it is to be cut off in its turn.
pub ghost struct Cut<I, K> {
    pub tree: Tree<I, K>,
    pub cut: Seq<Tree<I, K>>,
    pub cascade: bool,
}

/// The sequence without its element at place `i`, the last element moved to that place.
pub open spec fn swap_removed<A>(s: Seq<A>, i: int) -> Seq<A> {
    s.update(i, s.last()).drop_last()
}

impl<I, K: Ord> Tree<I, K> {
    /// This tree after a child has been cut off at place `i`: the last child stands in
    /// its place, and the root is marked.
    pub open spec fn without_child(self, i: int) -> Tree<I, K> {
        Tree { mark: true, children: swap_removed(self.children, i), ..self }
    }

    /// This tree with `child` in place of its child at place `i`.
    pub open spec fn with_child(self, i: int, child: Tree<I, K>) -> Tree<I, K> {
        Tree { children: self.children.update(i, child), ..self }
    }

    /// The cascading cut. The first node that holds `item` stands below this root and
    /// takes the key `new_key`, which is below its key. Where `new_key` is not below the
    /// key of the node's parent, nothing else changes. Otherwise the node is cut off,
    /// and after it each ancestor that had lost a child before, up to the first that had
    /// not, which is marked, or to this root, which says by `cascade` whether it had.
    pub open spec fn cut_below(self, item: I, new_key: K) -> Cut<I, K>
        decreases self,
    {
        let i = forest_holder(self.children, item);
        if 0 <= i < self.children.len() {
            let child = self.children[i];
            if child.item == item {
                let lowered = Tree { key: new_key, ..child };
                if key_lt(new_key, self.key) {
                    Cut { tree: self.without_child(i), cut: seq![lowered], cascade: self.mark }
                } else {
                    Cut { tree: self.with_child(i, lowered), cut: Seq::empty(), cascade: false }
                }
            } else {
                let below = child.cut_below(item, new_key);
                if below.cascade {
                    Cut {
                        tree: self.without_child(i),
                        cut: below.cut.push(below.tree),
                        cascade: self.mark,
                    }
                } else {
                    Cut { tree: self.with_child(i, below.tree), cut: below.cut, cascade: false }
                }
            }
        } else {
            Cut { tree: self, cut: Seq::empty(), cascade: false }
        }
    }
}

/// The forest as a whole: its trees in order, the place of the tree that holds the
/// cached minimum, and the number of entries.
pub ghost struct HeapModel<I, K> {
    pub roots: Seq<Tree<I, K>>,
    pub min: Option<int>,
    pub count: nat,
}

impl<I, K: Ord> HeapModel<I, K> {
    /// The forest without trees.
    pub open spec fn empty() -> HeapModel<I, K> {
        HeapModel { roots: Seq::empty(), min: None, count: 0 }
    }

    /// All entries of the forest, each as often as it occurs.
    pub open spec fn entries(self) -> Multiset<(I, K)> {
        forest_entries(self.roots)
    }

    /// The entry that the cached minimum refers to.
    pub open spec fn min_entry(self) -> Option<(I, K)> {
        match self.min {
            Some(m) => Some(self.roots[m].entry()),
            None => None,
        }
    }

    /// The item of the cached minimum.
    pub open spec fn min_item(self) -> Option<I> {
        match self.min {
            Some(m) => Some(self.roots[m].item),
            None => None,
        }
    }

    /// The key of the cached minimum.
    pub open spec fn min_key(self) -> Option<K> {
        match self.min {
            Some(m) => Some(self.roots[m].key),
            None => None,
        }
    }

    /// The key of the first node that holds `item`, searching the trees in order and
    /// each of them depth first.
    pub open spec fn find(self, item: I) -> Option<K> {
        forest_find(self.roots, item)
    }

    /// What holds of the forest between any two operations: every tree is in heap
    /// order, with the children of each node spread over the ranks, and its root
    /// unmarked; the count is the number of entries; and the cached
    /// minimum refers to a root whose key no other root's key is below, or to nothing
    /// where the forest has no trees.
    pub open spec fn wf(self) -> bool {
        &&& forall|i: int|
            0 <= i < self.roots.len() ==> (#[trigger] self.roots[i]).heap_ordered()
                && self.roots[i].ranked() && !self.roots[i].mark
        &&& self.count == forest_size(self.roots)
        &&& match self.min {
            Some(m) => 0 <= m < self.roots.len() && forall|i: int|
                0 <= i < self.roots.len() ==> key_le(self.roots[m].key, (#[trigger] self.roots[i]).key),
            None => self.roots.len() == 0,
        }
    }

    /// The forest with a new tree of the one entry `(item, key)` at the end. The cached
    /// minimum moves to it where the forest was empty or `key` is strictly below the
    /// cached minimum's key.
    pub open spec fn insert(self, item: I, key: K) -> HeapModel<I, K> {
        HeapModel {
            roots: self.roots.push(Tree { item, key, mark: false, children: Seq::empty() }),
            min: match self.min {
                Some(m) => if key_lt(key, self.roots[m].key) {
                    Some(self.roots.len() as int)
                } else {
                    Some(m)
                },
                None => Some(0),
            },
            count: self.count + 1,
        }
    }

    /// The place of the first tree that holds `item`.
    pub open spec fn holder(self, item: I) -> int {
        forest_holder(self.roots, item)
    }

    /// This forest after the key of `item` is lowered to `new_key`. Where no node holds
    /// `item`, or the first that does has a key not above `new_key`, it is this forest
    /// unchanged. Otherwise that node takes the new key. A root that holds the item keeps
    /// its place and its children. Below a root, the cascading cut is made in the node's
    /// tree: the root of that tree is unmarked again, and what was cut off comes after
    /// the roots that were there, in the order of the cuts and unmarked. The cached
    /// minimum moves to the node with the item exactly where `new_key` is strictly below
    /// the cached minimum's key.
    pub open spec fn lower(self, item: I, new_key: K) -> HeapModel<I, K> {
        match self.find(item) {
            Some(k) => if key_lt(new_key, k) {
                let h = self.holder(item);
                let root = self.roots[h];
                let lowers = key_lt(new_key, self.min_key()->0);
                if root.item == item {
                    HeapModel {
                        roots: self.roots.update(h, Tree { key: new_key, ..root }),
                        min: if lowers {
                            Some(h)
                        } else {
                            self.min
                        },
                        count: self.count,
                    }
                } else {
                    let c = root.cut_below(item, new_key);
                    HeapModel {
                        roots: self.roots.update(h, c.tree.unmarked()) + unmarked_forest(c.cut),
                        min: if lowers {
                            Some(self.roots.len() as int)
                        } else {
                            self.min
                        },
                        count: self.count,
                    }
                }
            } else {
                self
            },
            None => self,
        }
    }

    /// What lowering the key of `item` to `new_key` does to the entries, the count and
    /// the cached minimum. Where no node holds `item`, or the first that does has a key
    /// not above `new_key`, `post` is this forest unchanged. Otherwise that node's entry
    /// has the new key, the other entries and the count are as they were, and the cached
    /// minimum refers to that entry exactly where `new_key` is strictly below the cached
    /// minimum's key.
    pub open spec fn decreased(self, post: HeapModel<I, K>, item: I, new_key: K) -> bool {
        match self.find(item) {
            Some(k) => if key_lt(new_key, k) {
                &&& post.entries() == self.entries().remove((item, k)).insert((item, new_key))
                &&& post.count == self.count
                &&& post.min_entry() == if key_lt(new_key, self.min_key()->0) {
                    Some((item, new_key))
                } else {
                    self.min_entry()
                }
            } else {
                post == self
            },
            None => post == self,
        }
    }

    /// This forest after its cached minimum is taken out; an empty forest stays as it
    /// is. The root that the cached minimum refers to leaves, the last root moving to
    /// its place, and its children come after the roots. These trees are put one after
    /// the other into buckets by their rank, trees that meet in a bucket being linked.
    /// What the buckets hold in the end are the roots, unmarked and in the order of the
    /// buckets, and the cached minimum refers to the first of them whose key none is
    /// below.
    pub open spec fn pop(self) -> HeapModel<I, K> {
        match self.min {
            Some(m) => {
                let count = (self.count - 1) as nat;
                let promoted = swap_removed(self.roots, m) + self.roots[m].children;
                let buckets = gather(empty_buckets(limit_of(count)), promoted);
                let roots = unmarked_forest(bucket_forest(buckets));
                HeapModel {
                    roots,
                    min: if roots.len() == 0 {
                        None
                    } else {
                        Some(least_root(roots))
                    },
                    count,
                }
            },
            None => self,
        }
    }

    /// What taking the minimum out makes of this forest. An empty forest stays as it
    /// is and gives nothing. Otherwise the item of the cached minimum is given and its
    /// entry leaves the forest; the trees of `post` stand in the order of their ranks,
    /// no two of the same rank and none of a rank above the bound that the count sets;
    /// and the cached minimum of `post` refers to the first root whose key none is
    /// below.
    pub open spec fn popped(self, post: HeapModel<I, K>, r: Option<I>) -> bool {
        match self.min {
            Some(m) => {
                &&& r == Some(self.roots[m].item)
                &&& post.entries() == self.entries().remove(self.roots[m].entry())
                &&& post.count == self.count - 1
                &&& post.consolidated()
                &&& post.rank_bounded()
                &&& post.min_is_first()
            },
            None => r is None && post == self,
        }
    }

    /// The trees of the forest stand in the order of their ranks, and no two of them
    /// have the same rank.
    pub open spec fn consolidated(self) -> bool {
        forall|i: int, j: int|
            0 <= i < j < self.roots.len() ==> (#[trigger] self.roots[i]).rank() < (
            #[trigger] self.roots[j]).rank()
    }

    /// The count is at least the Fibonacci number two places after the rank of any root.
    pub open spec fn rank_bounded(self) -> bool {
        forall|i: int| 0 <= i < self.roots.len() ==> fib((#[trigger] self.roots[i]).rank() + 2) <= self.count
    }

    /// Every root before the cached minimum has a key strictly above its key.
    pub open spec fn min_is_first(self) -> bool {
        match self.min {
            Some(m) => forall|i: int| 0 <= i < m ==> key_lt(self.roots[m].key, (#[trigger] self.roots[i]).key),
            None => true,
        }
    }
}

/// The trees of `f`, each with its root's mark cleared.
pub open spec fn unmarked_forest<I, K: Ord>(f: Seq<Tree<I, K>>) -> Seq<Tree<I, K>> {
    Seq::new(f.len(), |i: int| f[i].unmarked())
}

/// The number of nodes of a sequence of trees.
pub open spec fn forest_size<I, K: Ord>(f: Seq<Tree<I, K>>) -> nat
    decreases f,
{
    if f.len() == 0 {
        0
    } else {
        forest_size(f.drop_last()) + f.last().size()
    }
}

/// All entries of a sequence of trees, each as often as it occurs.
pub open spec fn forest_entries<I, K: Ord>(f: Seq<Tree<I, K>>) -> Multiset<(I, K)>
    decreases f,
{
    if f.len() == 0 {
        Multiset::empty()
    } else {
        forest_entries(f.drop_last()).add(f.last().entries())
    }
}

/// The key of the first node that holds `item`, searching the trees in order and each
/// of them depth first.
pub open spec fn forest_find<I, K: Ord>(f: Seq<Tree<I, K>>, item: I) -> Option<K>
    decreases f,
{
    if f.len() == 0 {
        None
    } else {
        match f.first().find(item) {
            Some(k) => Some(k),
            None => forest_find(f.drop_first(), item),
        }
    }
}

/// The place of the first root whose key no root's key is below; 0 for no trees.
pub open spec fn least_root<I, K: Ord>(f: Seq<Tree<I, K>>) -> int
    decreases f.len(),
{
    if f.len() <= 1 {
        0
    } else {
        let m = least_root(f.drop_last());
        if key_lt(f.last().key, f[m].key) {
            f.len() - 1
        } else {
            m
        }
    }
}

/// The place of the first tree in which a search for `item` finds something; the number
/// of trees where none holds it.
pub open spec fn forest_holder<I, K: Ord>(f: Seq<Tree<I, K>>, item: I) -> int
    decreases f,
{
    if f.len() == 0 {
        0
    } else if f.first().find(item) is Some {
        0
    } else {
        1 + forest_holder(f.drop_first(), item)
    }
}

} // verus!
