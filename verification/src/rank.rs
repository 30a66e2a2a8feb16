//! Why ranks stay small: a node that became a child had as many children then as its
//! parent, and loses at most one of them while it is a child, so that a tree of rank `k`
//! has at least as many nodes as the Fibonacci number `k + 2`.

use vstd::prelude::*;
use crate::forest::lemma_entries_swap_remove;
use crate::model::{forest_size, swap_removed, Tree};

verus! {

/// The Fibonacci numbers: 0, 1, 1, 2, 3, 5, ...
pub open spec fn fib(n: nat) -> nat
    decreases n,
{
    if n == 0 {
        0
    } else if n == 1 {
        1
    } else {
        fib((n - 2) as nat) + fib((n - 1) as nat)
    }
}

impl<I, K: Ord> Tree<I, K> {
    /// The rank that this tree had when it last became a child, given that a marked
    /// node has lost one child since and an unmarked node none.
    pub open spec fn linked_rank(self) -> nat {
        if self.mark {
            self.rank() + 1
        } else {
            self.rank()
        }
    }

    /// In every node of this tree, the children are spread over the ranks as `spread`
    /// says.
    pub open spec fn ranked(self) -> bool
        decreases self,
    {
        &&& spread(self.children)
        &&& forall|i: int| 0 <= i < self.children.len() ==> (#[trigger] self.children[i]).ranked()
    }
}

/// How many trees of `f` had a rank of at most `m` when they last became children.
pub open spec fn low_count<I, K: Ord>(f: Seq<Tree<I, K>>, m: nat) -> nat
    decreases f.len(),
{
    if f.len() == 0 {
        0
    } else {
        low_count(f.drop_last(), m) + if f.last().linked_rank() <= m {
            1nat
        } else {
            0nat
        }
    }
}

/// For every `m`, at most `m + 1` trees of `f` had a rank of at most `m` when they
/// became children: what holds of the children of one node, since a node adopts only
/// trees of its own rank.
pub open spec fn spread<I, K: Ord>(f: Seq<Tree<I, K>>) -> bool {
    forall|m: nat| #[trigger] low_count(f, m) <= m + 1
}

/// The Fibonacci numbers do not fall.
pub proof fn lemma_fib_monotone(a: nat, b: nat)
    requires
        a <= b,
    ensures
        fib(a) <= fib(b),
    decreases b,
{
    if a < b {
        if b >= 2 {
            lemma_fib_monotone(a, (b - 1) as nat);
        }
    }
}

/// No more trees are counted than there are.
pub proof fn lemma_low_count_bound<I, K: Ord>(f: Seq<Tree<I, K>>, m: nat)
    ensures
        low_count(f, m) <= f.len(),
    decreases f.len(),
{
    if f.len() > 0 {
        lemma_low_count_bound(f.drop_last(), m);
    }
}

/// Where every tree had a rank of at most `m`, all are counted.
pub proof fn lemma_low_count_all<I, K: Ord>(f: Seq<Tree<I, K>>, m: nat)
    requires
        forall|i: int| 0 <= i < f.len() ==> (#[trigger] f[i]).linked_rank() <= m,
    ensures
        low_count(f, m) == f.len(),
    decreases f.len(),
{
    if f.len() > 0 {
        assert forall|i: int| 0 <= i < f.drop_last().len() implies (#[trigger] f.drop_last()[i]).linked_rank()
            <= m by {
            assert(f.drop_last()[i] == f[i]);
        }
        lemma_low_count_all(f.drop_last(), m);
        assert(f.last() == f[f.len() - 1]);
    }
}

/// Replacing the tree at place `i` by `t` counts `t` in place of it.
pub proof fn lemma_low_count_update<I, K: Ord>(f: Seq<Tree<I, K>>, i: int, t: Tree<I, K>, m: nat)
    requires
        0 <= i < f.len(),
    ensures
        low_count(f.update(i, t), m) + (if f[i].linked_rank() <= m {
            1nat
        } else {
            0nat
        }) == low_count(f, m) + (if t.linked_rank() <= m {
            1nat
        } else {
            0nat
        }),
    decreases f.len(),
{
    let g = f.update(i, t);
    assert(g.len() == f.len());
    if i == f.len() - 1 {
        assert(g.drop_last() =~= f.drop_last());
        assert(g.last() == t);
        assert(f.last() == f[i]);
    } else {
        lemma_low_count_update(f.drop_last(), i, t, m);
        assert(g.drop_last() =~= f.drop_last().update(i, t));
        assert(g.last() == f.last());
        assert(f.drop_last()[i] == f[i]);
    }
}

/// Taking the tree at place `i` out, the last tree moving to its place, counts it no
/// longer.
pub proof fn lemma_low_count_swap_remove<I, K: Ord>(f: Seq<Tree<I, K>>, i: int, m: nat)
    requires
        0 <= i < f.len(),
    ensures
        low_count(swap_removed(f, i), m) + (if f[i].linked_rank() <= m {
            1nat
        } else {
            0nat
        }) == low_count(f, m),
{
    let g = f.update(i, f.last());
    assert(g.len() == f.len());
    if i == f.len() - 1 {
        assert(g =~= f);
    } else {
        lemma_low_count_update(f, i, f.last(), m);
        assert(g.last() == f.last());
    }
}

/// Children stay spread when a tree is adopted whose rank is the number of children.
pub proof fn lemma_spread_push<I, K: Ord>(f: Seq<Tree<I, K>>, t: Tree<I, K>)
    requires
        spread(f),
        t.linked_rank() == f.len(),
    ensures
        spread(f.push(t)),
{
    assert forall|m: nat| #[trigger] low_count(f.push(t), m) <= m + 1 by {
        assert(f.push(t).drop_last() =~= f);
        lemma_low_count_bound(f, m);
        assert(low_count(f, m) <= m + 1);
    }
}

/// Children stay spread when one gives way to a tree that became a child with the same
/// rank.
pub proof fn lemma_spread_update<I, K: Ord>(f: Seq<Tree<I, K>>, i: int, t: Tree<I, K>)
    requires
        spread(f),
        0 <= i < f.len(),
        t.linked_rank() == f[i].linked_rank(),
    ensures
        spread(f.update(i, t)),
{
    assert forall|m: nat| #[trigger] low_count(f.update(i, t), m) <= m + 1 by {
        lemma_low_count_update(f, i, t, m);
        assert(low_count(f, m) <= m + 1);
    }
}

/// Children stay spread when one is taken out and the last child moves to its place.
pub proof fn lemma_spread_swap_remove<I, K: Ord>(f: Seq<Tree<I, K>>, i: int)
    requires
        spread(f),
        0 <= i < f.len(),
    ensures
        spread(swap_removed(f, i)),
{
    assert forall|m: nat| #[trigger] low_count(swap_removed(f, i), m) <= m + 1 by {
        lemma_low_count_swap_remove(f, i, m);
        assert(low_count(f, m) <= m + 1);
    }
}

/// A tree keeps its children spread in every node when one child gives way to a tree of
/// that kind which became a child with the same rank.
pub proof fn lemma_ranked_replaced<I, K: Ord>(p: Tree<I, K>, q: Tree<I, K>, i: int, c: Tree<I, K>)
    requires
        p.ranked(),
        0 <= i < p.children.len(),
        q.children == p.children.update(i, c),
        c.ranked(),
        c.linked_rank() == p.children[i].linked_rank(),
    ensures
        q.ranked(),
{
    lemma_spread_update(p.children, i, c);
    assert forall|j: int| 0 <= j < q.children.len() implies (#[trigger] q.children[j]).ranked() by {
        if j != i {
            assert(q.children[j] == p.children[j]);
        }
    }
}

/// A tree keeps its children spread in every node when one child is taken out and the
/// last child moves to its place.
pub proof fn lemma_ranked_removed<I, K: Ord>(p: Tree<I, K>, q: Tree<I, K>, i: int)
    requires
        p.ranked(),
        0 <= i < p.children.len(),
        q.children == swap_removed(p.children, i),
    ensures
        q.ranked(),
{
    let n = p.children.len() - 1;
    lemma_spread_swap_remove(p.children, i);
    assert forall|j: int| 0 <= j < q.children.len() implies (#[trigger] q.children[j]).ranked() by {
        if j != i {
            assert(q.children[j] == p.children[j]);
        } else {
            assert(q.children[j] == p.children[n]);
        }
    }
}

/// A tree whose nodes all have their children spread has at least as many nodes as the
/// Fibonacci number two places after its rank.
pub proof fn lemma_size_bound<I, K: Ord>(t: Tree<I, K>)
    requires
        t.ranked(),
    ensures
        fib(t.rank() + 2) <= t.size(),
    decreases t.size(), 0nat,
{
    lemma_forest_bound(t.children);
}

/// Spread trees, each with its children spread in every node, have together at least as
/// many nodes as the Fibonacci number two places after their number, less one.
pub proof fn lemma_forest_bound<I, K: Ord>(f: Seq<Tree<I, K>>)
    requires
        spread(f),
        forall|i: int| 0 <= i < f.len() ==> (#[trigger] f[i]).ranked(),
    ensures
        fib(f.len() + 2) <= forest_size(f) + 1,
    decreases forest_size(f), 1nat,
{
    let k = f.len();
    if k > 0 {
        // Some tree had a rank of at least k - 1 when it became a child: else all k
        // trees would count among those of rank at most k - 2.
        let j = if k == 1 {
            0int
        } else {
            let m = (k - 2) as nat;
            if forall|i: int| 0 <= i < f.len() ==> (#[trigger] f[i]).linked_rank() <= m {
                lemma_low_count_all(f, m);
                assert(low_count(f, m) <= m + 1);
                0int
            } else {
                choose|i: int| 0 <= i < f.len() && !((#[trigger] f[i]).linked_rank() <= m)
            }
        };
        let t = f[j];
        let rest = swap_removed(f, j);
        lemma_entries_swap_remove(f, j);
        lemma_spread_swap_remove(f, j);
        assert forall|i: int| 0 <= i < rest.len() implies (#[trigger] rest[i]).ranked() by {
            assert(rest.len() == k - 1);
            if i == j {
                assert(rest[i] == f[k - 1]);
            } else {
                assert(rest[i] == f[i]);
            }
        }
        lemma_size_bound(t);
        lemma_forest_bound(rest);
        assert(t.linked_rank() + 1 >= k);
        lemma_fib_monotone(k as nat, t.rank() + 2);
        assert(rest.len() + 2 == k + 1);
        assert(fib(k + 2) == fib(k as nat) + fib(k + 1));
    } else {
        assert(fib(2) == 1) by {
            reveal_with_fuel(fib, 3);
        }
    }
}

/// A tree with the children of each node spread over the ranks, and of at most `n`
/// nodes, has a rank below every `limit` whose Fibonacci number two places on is above
/// `n`.
pub proof fn lemma_rank_below_limit<I, K: Ord>(t: Tree<I, K>, n: nat, limit: nat)
    requires
        t.ranked(),
        t.size() <= n,
        fib(limit + 2) > n,
    ensures
        t.rank() < limit,
{
    lemma_size_bound(t);
    if t.rank() >= limit {
        lemma_fib_monotone(limit + 2, t.rank() + 2);
    }
}

/// The least number from `k` on whose Fibonacci number two places on is above `n`.
pub open spec fn limit_from(k: nat, n: nat) -> nat
    decreases
        (if fib(k + 2) > n {
            0
        } else {
            n + 1 - fib(k + 2)
        }),
{
    if fib(k + 2) > n {
        k
    } else {
        proof {
            lemma_fib_monotone(1, k + 1);
        }
        limit_from(k + 1, n)
    }
}

/// The number of buckets that trees of `n` nodes in all can need: the least `k` whose
/// Fibonacci number two places on is above `n`, so that every rank is below `k`.
pub open spec fn limit_of(n: nat) -> nat {
    limit_from(0, n)
}

/// From `k` on, the limit is the first number whose Fibonacci number two places on is
/// above `n`.
pub proof fn lemma_limit_from(k: nat, n: nat)
    ensures
        limit_from(k, n) >= k,
        fib(limit_from(k, n) + 2) > n,
        limit_from(k, n) > k ==> fib(limit_from(k, n) + 1) <= n,
    decreases
        (if fib(k + 2) > n {
            0
        } else {
            n + 1 - fib(k + 2)
        }),
{
    if fib(k + 2) <= n {
        lemma_fib_monotone(1, k + 1);
        lemma_limit_from(k + 1, n);
    }
}

/// The number of buckets that trees of `n` nodes in all can need.
pub fn rank_limit(n: usize) -> (k: usize)
    ensures
        k == limit_of(n as nat),
        fib((k + 2) as nat) > n,
        k > 0 ==> fib((k + 1) as nat) <= n,
{
    let mut k: usize = 0;
    let mut a: usize = 1;
    let mut b: usize = 1;
    proof {
        reveal_with_fuel(fib, 3);
    }
    while b <= n
        invariant
            a == fib((k + 1) as nat),
            b == fib((k + 2) as nat),
            a <= b,
            k < b,
            k > 0 ==> a <= n,
            limit_from(k as nat, n as nat) == limit_of(n as nat),
        decreases n - b,
    {
        assert(fib((k + 3) as nat) == a + b);
        assert(limit_from(k as nat, n as nat) == limit_from((k + 1) as nat, n as nat));
        if a > n - b {
            return k + 1;
        }
        let c: usize = a + b;
        a = b;
        b = c;
        k += 1;
    }
    k
}

} // verus!
