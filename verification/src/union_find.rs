//! The disjoint-set-union structure, with three interchangeable strategies
//! behind one find/union/connected contract: quick-find (flat labels),
//! quick-union (unbalanced parent forest) and weighted quick-union
//! (size-balanced parent forest).
//!
//! The model is the parent array read as a sequence of integers:
//! `root_of` follows parents to a fixpoint, two elements are connected when
//! their roots agree, and `count` always equals the number of roots — which
//! is why it falls by exactly one on every union of two separate sets and
//! never moves otherwise.

use vstd::prelude::*;
use vstd::set_lib::{lemma_int_range, set_int_range};
use core::marker::PhantomData;

verus! {

/// Every parent pointer stays inside the array.
pub open spec fn in_range(id: Seq<int>) -> bool {
    forall|i: int| 0 <= i < id.len() ==> 0 <= #[trigger] id[i] < id.len()
}

/// The element reached from `i` after `k` parent steps.
pub open spec fn step_n(id: Seq<int>, i: int, k: nat) -> int
    decreases k,
{
    if k == 0 {
        i
    } else {
        let nxt = if 0 <= i < id.len() {
            id[i]
        } else {
            i
        };
        step_n(id, nxt, (k - 1) as nat)
    }
}

/// `r` is its own parent.
pub open spec fn is_root(id: Seq<int>, r: int) -> bool {
    0 <= r < id.len() && id[r] == r
}

/// Following parents from `i` eventually reaches a root.
pub open spec fn rooted(id: Seq<int>, i: int) -> bool {
    exists|k: nat| is_root(id, step_n(id, i, k))
}

/// The root that the parent chain from `i` reaches; the set `i` belongs to
/// is named by this element.
pub open spec fn root_of(id: Seq<int>, i: int) -> int {
    step_n(id, i, choose|k: nat| is_root(id, step_n(id, i, k)))
}

/// A well-formed parent forest: pointers in range, every chain rooted.
pub open spec fn uf_wf(id: Seq<int>) -> bool {
    in_range(id) && forall|i: int| 0 <= i < id.len() ==> rooted(id, i)
}

/// The roots — one per disjoint set.
pub open spec fn roots_of(id: Seq<int>) -> Set<int> {
    set_int_range(0, id.len() as int).filter(|i: int| id[i] == i)
}

/// A root's chain never leaves it.
proof fn lemma_root_stays(id: Seq<int>, r: int, k: nat)
    requires
        is_root(id, r),
    ensures
        step_n(id, r, k) == r,
    decreases k,
{
    if k > 0 {
        lemma_root_stays(id, r, (k - 1) as nat);
    }
}

/// Once a chain hits a root it stays there for any larger step count.
proof fn lemma_fix_monotone(id: Seq<int>, i: int, k: nat, k2: nat)
    requires
        is_root(id, step_n(id, i, k)),
        k <= k2,
    ensures
        step_n(id, i, k2) == step_n(id, i, k),
    decreases k2,
{
    if k == 0 {
        lemma_root_stays(id, i, k2);
    } else {
        let nxt = if 0 <= i < id.len() {
            id[i]
        } else {
            i
        };
        lemma_fix_monotone(id, nxt, (k - 1) as nat, (k2 - 1) as nat);
    }
}

/// `root_of` really is the root every witness chain reaches.
pub proof fn lemma_root_of(id: Seq<int>, i: int)
    requires
        rooted(id, i),
    ensures
        is_root(id, root_of(id, i)),
        forall|k: nat| is_root(id, step_n(id, i, k)) ==> step_n(id, i, k) == root_of(id, i),
{
    let k0 = choose|k: nat| is_root(id, step_n(id, i, k));
    assert forall|k: nat| is_root(id, step_n(id, i, k)) implies step_n(id, i, k) == root_of(
        id,
        i,
    ) by {
        if k <= k0 {
            lemma_fix_monotone(id, i, k, k0);
        } else {
            lemma_fix_monotone(id, i, k0, k);
        }
    }
}

/// A non-root's chain is its parent's chain, one step on.
proof fn lemma_step_shift(id: Seq<int>, i: int, k: nat)
    requires
        0 <= i < id.len(),
    ensures
        step_n(id, i, k + 1) == step_n(id, id[i], k),
{
    assert(step_n(id, i, k + 1) == step_n(id, id[i], ((k + 1) - 1) as nat));
}

/// The parent of a rooted non-root element is rooted with the same root.
pub proof fn lemma_root_of_step(id: Seq<int>, i: int)
    requires
        0 <= i < id.len(),
        rooted(id, i),
        !is_root(id, i),
    ensures
        rooted(id, id[i]),
        root_of(id, id[i]) == root_of(id, i),
{
    let k0 = choose|k: nat| is_root(id, step_n(id, i, k));
    assert(k0 > 0) by {
        if k0 == 0 {
            assert(step_n(id, i, 0) == i);
        }
    }
    lemma_step_shift(id, i, (k0 - 1) as nat);
    assert(is_root(id, step_n(id, id[i], (k0 - 1) as nat)));
    lemma_root_of(id, i);
    lemma_root_of(id, id[i]);
    assert forall|k: nat| is_root(id, step_n(id, id[i], k)) implies step_n(id, id[i], k)
        == root_of(id, i) by {
        lemma_step_shift(id, i, k);
        assert(step_n(id, i, k + 1) == step_n(id, id[i], k));
    }
}

/// The identity forest (everyone their own root) is well-formed and has one
/// root per element.
pub proof fn lemma_identity_forest(id: Seq<int>)
    requires
        forall|i: int| 0 <= i < id.len() ==> #[trigger] id[i] == i,
    ensures
        uf_wf(id),
        roots_of(id).finite(),
        roots_of(id).len() == id.len(),
        forall|i: int| 0 <= i < id.len() ==> root_of(id, i) == i,
{
    assert forall|i: int| 0 <= i < id.len() implies rooted(id, i) && root_of(id, i) == i by {
        assert(is_root(id, step_n(id, i, 0)));
        lemma_root_of(id, i);
    }
    lemma_int_range(0, id.len() as int);
    assert(roots_of(id) =~= set_int_range(0, id.len() as int));
}

/// Redirecting root `rp` to root `rq` merges exactly their two sets: the
/// forest stays well-formed, everything rooted in `rp` now answers `rq`,
/// everything else keeps its root, and one root disappears.
pub proof fn lemma_union_roots(id: Seq<int>, rp: int, rq: int)
    requires
        uf_wf(id),
        is_root(id, rp),
        is_root(id, rq),
        rp != rq,
    ensures
        uf_wf(id.update(rp, rq)),
        forall|x: int|
            0 <= x < id.len() ==> root_of(id.update(rp, rq), x) == (if root_of(id, x) == rp {
                rq
            } else {
                root_of(id, x)
            }),
        roots_of(id.update(rp, rq)) =~= roots_of(id).remove(rp),
{
    let id2 = id.update(rp, rq);
    assert forall|x: int| 0 <= x < id.len() implies rooted(id2, x) && root_of(id2, x) == (
    if root_of(id, x) == rp {
        rq
    } else {
        root_of(id, x)
    }) by {
        assert(rooted(id, x));
        let k = choose|k: nat| is_root(id, step_n(id, x, k));
        assert(is_root(id, step_n(id, x, k)));
        lemma_chain_transfer(id, rp, rq, x, k);
    }
    assert(roots_of(id2) =~= roots_of(id).remove(rp));
}

/// The chain-by-chain core of `lemma_union_roots`.
proof fn lemma_chain_transfer(id: Seq<int>, rp: int, rq: int, x: int, k: nat)
    requires
        uf_wf(id),
        is_root(id, rp),
        is_root(id, rq),
        rp != rq,
        0 <= x < id.len(),
        is_root(id, step_n(id, x, k)),
    ensures
        rooted(id.update(rp, rq), x),
        root_of(id.update(rp, rq), x) == (if root_of(id, x) == rp {
            rq
        } else {
            root_of(id, x)
        }),
    decreases k,
{
    let id2 = id.update(rp, rq);
    lemma_root_of(id, x);
    if x == rp {
        assert(root_of(id, x) == rp) by {
            assert(is_root(id, step_n(id, x, 0)));
        }
        assert(step_n(id2, x, 1) == rq) by {
            lemma_step_shift(id2, x, 0);
        }
        assert(is_root(id2, rq));
        assert(rooted(id2, x));
        lemma_root_of(id2, x);
        assert(root_of(id2, x) == rq) by {
            lemma_step_shift(id2, x, 0);
        }
    } else if id[x] == x {
        assert(root_of(id, x) == x) by {
            assert(is_root(id, step_n(id, x, 0)));
        }
        assert(is_root(id2, x));
        assert(rooted(id2, x)) by {
            assert(is_root(id2, step_n(id2, x, 0)));
        }
        lemma_root_of(id2, x);
        assert(root_of(id2, x) == x) by {
            assert(is_root(id2, step_n(id2, x, 0)));
        }
    } else {
        assert(k > 0) by {
            if k == 0 {
                assert(step_n(id, x, 0) == x);
            }
        }
        assert(step_n(id, x, k) == step_n(id, id[x], (k - 1) as nat)) by {
            lemma_step_shift(id, x, (k - 1) as nat);
        }
        lemma_chain_transfer(id, rp, rq, id[x], (k - 1) as nat);
        lemma_root_of_step(id, x);
        assert(id2[x] == id[x]);
        let j = choose|j: nat| is_root(id2, step_n(id2, id[x], j));
        assert(is_root(id2, step_n(id2, x, j + 1))) by {
            lemma_step_shift(id2, x, j);
        }
        assert(rooted(id2, x));
        lemma_root_of(id2, x);
        lemma_root_of(id2, id[x]);
        assert(root_of(id2, x) == root_of(id2, id[x])) by {
            lemma_step_shift(id2, x, j);
            assert(step_n(id2, x, j + 1) == step_n(id2, id2[x], j));
        }
    }
}

/// Two distinct roots mean at least two sets.
proof fn lemma_two_roots(id: Seq<int>, rp: int, rq: int)
    requires
        is_root(id, rp),
        is_root(id, rq),
        rp != rq,
        roots_of(id).finite(),
    ensures
        roots_of(id).len() >= 2,
{
    let roots = roots_of(id);
    assert(roots.contains(rp));
    assert(roots.contains(rq));
    let rest = roots.remove(rp);
    assert(rest.contains(rq));
    if rest.len() == 0 {
        rest.lemma_len0_is_empty();
        assert(!rest.contains(rq));
    }
}

/// Marker for the quick-find strategy: O(1) find, O(n) union.
#[derive(Debug)]
pub struct QuickFind;

/// Marker for the quick-union strategy: unbalanced parent forest.
#[derive(Debug)]
pub struct QuickUnion;

/// Marker for the weighted quick-union strategy: size-balanced forest.
#[derive(Debug)]
pub struct WeightedQuickUnion;

/// Marker for weighted quick union with path compression.
#[derive(Debug)]
pub struct WQupc;

/// The disjoint-set structure: parent (or label) array, number of disjoint
/// sets, and — for the weighted strategy — a parallel tree-size array.
#[derive(Debug)]
pub struct UnionFind<A, T, RankContainer = PhantomData<()>> {
    pub id: Vec<T>,
    pub count: usize,
    pub rank: RankContainer,
    pub phantom: PhantomData<A>,
}

impl<A> UnionFind<A, i32> {
    /// The parent array as a sequence of integers.
    pub open spec fn ids(self) -> Seq<int> {
        self.id@.map_values(|x: i32| x as int)
    }

    /// Well-formed: a rooted forest whose set count matches `count`.
    pub open spec fn wf(self) -> bool {
        uf_wf(self.ids()) && roots_of(self.ids()).finite() && self.count == roots_of(
            self.ids(),
        ).len()
    }

    /// `n` disjoint singletons.
    pub fn new(n: i32) -> (r: Self)
        requires
            n >= 0,
        ensures
            r.wf(),
            r.ids().len() == n,
            forall|i: int| 0 <= i < n ==> #[trigger] r.ids()[i] == i,
            forall|i: int| 0 <= i < n ==> root_of(r.ids(), i) == i,
            r.count == n,
    {
        let mut id: Vec<i32> = Vec::new();
        let mut i: i32 = 0;
        while i < n
            invariant
                0 <= i <= n,
                id@.len() == i,
                forall|k: int| 0 <= k < i ==> #[trigger] id@[k] == k,
            decreases n - i,
        {
            id.push(i);
            i = i + 1;
        }
        let r = UnionFind { id, count: n as usize, rank: PhantomData, phantom: PhantomData };
        proof {
            lemma_identity_forest(r.ids());
        }
        r
    }
}

impl UnionFind<QuickUnion, i32> {
    /// Follow parent pointers to the representative of `i`'s set.
    pub fn find(&self, i: i32) -> (r: i32)
        requires
            self.wf(),
            0 <= i < self.ids().len(),
        ensures
            r as int == root_of(self.ids(), i as int),
            is_root(self.ids(), r as int),
    {
        let ghost ids = self.ids();
        proof {
            assert(rooted(ids, i as int));
        }
        let ghost k0 = choose|k: nat| is_root(ids, step_n(ids, i as int, k));
        proof {
            assert(is_root(ids, step_n(ids, i as int, k0)));
        }
        let ghost mut kk: nat = 0;
        let mut cur: i32 = i;
        loop
            invariant_except_break
                self.wf(),
                ids == self.ids(),
                0 <= cur < ids.len(),
                kk <= k0,
                cur as int == step_n(ids, i as int, kk),
                is_root(ids, step_n(ids, i as int, k0)),
            ensures
                is_root(ids, cur as int),
                cur as int == root_of(ids, i as int),
            decreases k0 - kk,
        {
            let parent = self.id[cur as usize];
            proof {
                assert(ids[cur as int] == parent as int);
            }
            if parent == cur {
                proof {
                    lemma_root_of(ids, i as int);
                    assert(is_root(ids, step_n(ids, i as int, kk)));
                }
                break;
            }
            proof {
                assert(kk < k0) by {
                    if kk == k0 {
                        assert(is_root(ids, cur as int));
                    }
                }
                lemma_step_shift(ids, cur as int, 0);
                assert(step_n(ids, i as int, kk + 1) == ids[cur as int]) by {
                    lemma_unroll_one(ids, i as int, kk);
                }
            }
            cur = parent;
            proof {
                kk = kk + 1;
            }
        }
        cur
    }

    /// Merge the sets of `p` and `q` by attaching `p`'s root under `q`'s.
    /// A no-op when they already share a set; otherwise the set count falls
    /// by exactly one.
    pub fn union(&mut self, p: i32, q: i32)
        requires
            old(self).wf(),
            0 <= p < old(self).ids().len(),
            0 <= q < old(self).ids().len(),
        ensures
            final(self).wf(),
            final(self).ids().len() == old(self).ids().len(),
            root_of(old(self).ids(), p as int) == root_of(old(self).ids(), q as int)
                ==> final(self).ids() == old(self).ids() && final(self).count == old(self).count,
            root_of(old(self).ids(), p as int) != root_of(old(self).ids(), q as int)
                ==> final(self).ids() == old(self).ids().update(
                root_of(old(self).ids(), p as int),
                root_of(old(self).ids(), q as int),
            ) && final(self).count == old(self).count - 1,
            forall|x: int|
                0 <= x < old(self).ids().len() ==> root_of(final(self).ids(), x) == (
                if root_of(old(self).ids(), x) == root_of(old(self).ids(), p as int) {
                    root_of(old(self).ids(), q as int)
                } else {
                    root_of(old(self).ids(), x)
                }),
            root_of(final(self).ids(), p as int) == root_of(final(self).ids(), q as int),
    {
        let ghost ids0 = self.ids();
        let root_p = self.find(p);
        let root_q = self.find(q);

        if root_p == root_q {
            proof {
                assert(self.ids() =~= ids0);
            }
            return;
        }
        proof {
            lemma_two_roots(ids0, root_p as int, root_q as int);
        }
        self.count = self.count - 1;
        self.id.set(root_p as usize, root_q);
        proof {
            assert(self.ids() =~= ids0.update(root_p as int, root_q as int));
            lemma_union_roots(ids0, root_p as int, root_q as int);
        }
    }

    /// Whether `p` and `q` share a set.
    pub fn connected(&self, p: i32, q: i32) -> (r: bool)
        requires
            self.wf(),
            0 <= p < self.ids().len(),
            0 <= q < self.ids().len(),
        ensures
            r == (root_of(self.ids(), p as int) == root_of(self.ids(), q as int)),
    {
        self.find(q) == self.find(p)
    }
}

/// A flat forest — every label points straight at a root — is well-formed
/// and answers `find` in one step.
pub proof fn lemma_flat_forest(id: Seq<int>)
    requires
        in_range(id),
        forall|i: int| 0 <= i < id.len() ==> id[#[trigger] id[i]] == id[i],
    ensures
        uf_wf(id),
        forall|x: int| 0 <= x < id.len() ==> root_of(id, x) == id[x],
{
    assert forall|x: int| 0 <= x < id.len() implies rooted(id, x) && root_of(id, x) == id[x] by {
        lemma_step_shift(id, x, 0);
        assert(step_n(id, x, 1) == id[x]);
        assert(is_root(id, id[x]));
        assert(is_root(id, step_n(id, x, 1)));
        assert(rooted(id, x));
        lemma_root_of(id, x);
    }
}

impl UnionFind<QuickFind, i32> {
    /// The flat-label invariant: every label is itself a root.
    pub open spec fn flat(self) -> bool {
        forall|i: int|
            0 <= i < self.ids().len() ==> self.ids()[#[trigger] self.ids()[i]] == self.ids()[i]
    }

    /// Read off the representative of `data`'s set in one step.
    pub fn find(&self, data: i32) -> (r: i32)
        requires
            self.wf(),
            self.flat(),
            0 <= data < self.ids().len(),
        ensures
            r as int == self.ids()[data as int],
            r as int == root_of(self.ids(), data as int),
    {
        proof {
            lemma_flat_forest(self.ids());
        }
        self.id[data as usize]
    }

    /// Merge the sets of `p` and `q` by relabelling everything carrying
    /// `p`'s representative to `q`'s.  A no-op when they already share a
    /// set; otherwise the set count falls by exactly one.
    #[verifier::loop_isolation(false)]
    pub fn union(&mut self, p: i32, q: i32)
        requires
            old(self).wf(),
            old(self).flat(),
            0 <= p < old(self).ids().len(),
            0 <= q < old(self).ids().len(),
        ensures
            final(self).wf(),
            final(self).flat(),
            final(self).ids().len() == old(self).ids().len(),
            root_of(old(self).ids(), p as int) == root_of(old(self).ids(), q as int)
                ==> final(self).ids() == old(self).ids() && final(self).count == old(self).count,
            root_of(old(self).ids(), p as int) != root_of(old(self).ids(), q as int) ==> (forall|
                x: int,
            |
                0 <= x < old(self).ids().len() ==> final(self).ids()[x] == (if old(self).ids()[x]
                    == old(self).ids()[p as int] {
                    old(self).ids()[q as int]
                } else {
                    old(self).ids()[x]
                })) && final(self).count == old(self).count - 1,
            forall|x: int|
                0 <= x < old(self).ids().len() ==> root_of(final(self).ids(), x) == (
                if root_of(old(self).ids(), x) == root_of(old(self).ids(), p as int) {
                    root_of(old(self).ids(), q as int)
                } else {
                    root_of(old(self).ids(), x)
                }),
            root_of(final(self).ids(), p as int) == root_of(final(self).ids(), q as int),
    {
        let ghost ids0 = self.ids();
        proof {
            lemma_flat_forest(ids0);
        }
        let representative_p = self.id[p as usize];
        let representative_q = self.id[q as usize];
        proof {
            assert(ids0[p as int] == self.id@[p as int] as int);
            assert(ids0[q as int] == self.id@[q as int] as int);
        }
        if representative_p == representative_q {
            proof {
                assert(self.ids() =~= ids0);
            }
            return;
        }
        let ghost rp = representative_p as int;
        let ghost rq = representative_q as int;
        proof {
            assert(is_root(ids0, rp));
            assert(is_root(ids0, rq));
            lemma_two_roots(ids0, rp, rq);
        }
        let n = self.id.len();
        for i in 0..n
            invariant
                n == self.ids().len(),
                ids0.len() == n,
                self.count == old(self).count,
                old(self).count == roots_of(ids0).len(),
                roots_of(ids0).len() >= 2,
                rp == ids0[p as int],
                rq == ids0[q as int],
                forall|k: int|
                    0 <= k < i ==> self.ids()[k] == (if ids0[k] == rp {
                        rq
                    } else {
                        ids0[k]
                    }),
                forall|k: int| i <= k < n ==> self.ids()[k] == ids0[k],
        {
            let ghost before = self.ids();
            let ghost v0 = self.id@;
            proof {
                assert(before.len() == n);
                assert forall|t: int| 0 <= t < n implies before[t] == v0[t] as int by {
                    assert(v0.map_values(|x: i32| x as int)[t] == v0[t] as int);
                }
            }
            if self.id[i] == representative_p {
                self.id.set(i, representative_q);
                proof {
                    let vafter = self.id@;
                    assert(vafter == v0.update(i as int, representative_q));
                    assert forall|t: int| 0 <= t < n implies self.ids()[t] == before.update(
                        i as int,
                        rq,
                    )[t] by {
                        assert(self.ids()[t] == vafter[t] as int);
                        if t != i {
                            assert(vafter[t] == v0[t]);
                        }
                    }
                    assert(self.ids() =~= before.update(i as int, rq));
                }
            }
        }
        self.count = self.count - 1;
        let ghost ids1 = self.ids();
        proof {
            assert forall|t: int| 0 <= t < ids1.len() implies 0 <= #[trigger] ids1[t]
                < ids1.len() by {
                if ids0[t] == rp {
                    assert(ids1[t] == rq);
                } else {
                    assert(ids1[t] == ids0[t]);
                }
            }
            assert(in_range(ids1));
            assert forall|x: int| 0 <= x < n implies ids1[#[trigger] ids1[x]] == ids1[x] by {
                if ids0[x] == rp {
                    assert(ids1[x] == rq);
                    assert(ids0[rq] == rq);
                    assert(ids1[rq] == rq);
                } else {
                    let s = ids0[x];
                    assert(ids0[s] == s);
                    assert(s != rp);
                    assert(ids1[s] == s);
                }
            }
            lemma_flat_forest(ids1);
            assert(roots_of(ids1) =~= roots_of(ids0).remove(rp)) by {
                assert forall|x: int| roots_of(ids1).contains(x) implies roots_of(
                    ids0,
                ).remove(rp).contains(x) by {
                    if ids0[x] == rp {
                        assert(ids1[x] == rq);
                        assert(x != rq || ids0[rq] == rq);
                        assert(x != rp || ids1[x] != x);
                    }
                }
                assert forall|x: int| roots_of(ids0).remove(rp).contains(x) implies roots_of(
                    ids1,
                ).contains(x) by {
                    assert(ids0[x] == x && x != rp);
                    assert(ids1[x] == x);
                }
            }
        }
    }

    /// Whether `p` and `q` share a set.
    pub fn connected(&self, p: i32, q: i32) -> (r: bool)
        requires
            self.wf(),
            self.flat(),
            0 <= p < self.ids().len(),
            0 <= q < self.ids().len(),
        ensures
            r == (root_of(self.ids(), p as int) == root_of(self.ids(), q as int)),
    {
        self.find(q) == self.find(p)
    }
}

/// Tree sizes are merged with saturating addition; the sum is capped at the
/// machine limit, which only matters for balance, never for correctness.
pub open spec fn rank_sum(a: usize, b: usize) -> usize {
    if a + b > usize::MAX {
        usize::MAX
    } else {
        (a + b) as usize
    }
}

impl UnionFind<WeightedQuickUnion, usize, Vec<usize>> {
    /// The parent array as a sequence of integers.
    pub open spec fn ids(self) -> Seq<int> {
        self.id@.map_values(|x: usize| x as int)
    }

    /// Well-formed: a rooted forest whose set count matches `count`, with
    /// one size entry per element.
    pub open spec fn wf(self) -> bool {
        uf_wf(self.ids()) && roots_of(self.ids()).finite() && self.count == roots_of(
            self.ids(),
        ).len() && self.rank@.len() == self.ids().len()
    }

    /// `n` disjoint singletons, each tree of size one.
    pub fn new(n: usize) -> (r: Self)
        ensures
            r.wf(),
            r.ids().len() == n,
            forall|i: int| 0 <= i < n ==> #[trigger] r.ids()[i] == i,
            forall|i: int| 0 <= i < n ==> root_of(r.ids(), i) == i,
            forall|i: int| 0 <= i < n ==> r.rank@[i] == 1usize,
            r.count == n,
    {
        let mut id: Vec<usize> = Vec::new();
        let mut rank: Vec<usize> = Vec::new();
        let mut i: usize = 0;
        while i < n
            invariant
                0 <= i <= n,
                id@.len() == i,
                rank@.len() == i,
                forall|k: int| 0 <= k < i ==> #[trigger] id@[k] == k,
                forall|k: int| 0 <= k < i ==> #[trigger] rank@[k] == 1usize,
            decreases n - i,
        {
            id.push(i);
            rank.push(1);
            i = i + 1;
        }
        let r = UnionFind { id, count: n, rank, phantom: PhantomData };
        proof {
            lemma_identity_forest(r.ids());
        }
        r
    }

    /// Follow parent pointers to the representative of `i`'s set.
    pub fn find(&self, i: usize) -> (r: usize)
        requires
            self.wf(),
            i < self.ids().len(),
        ensures
            r as int == root_of(self.ids(), i as int),
            is_root(self.ids(), r as int),
    {
        let ghost ids = self.ids();
        proof {
            assert(rooted(ids, i as int));
        }
        let ghost k0 = choose|k: nat| is_root(ids, step_n(ids, i as int, k));
        proof {
            assert(is_root(ids, step_n(ids, i as int, k0)));
        }
        let ghost mut kk: nat = 0;
        let mut cur: usize = i;
        loop
            invariant_except_break
                self.wf(),
                ids == self.ids(),
                cur < ids.len(),
                kk <= k0,
                cur as int == step_n(ids, i as int, kk),
                is_root(ids, step_n(ids, i as int, k0)),
            ensures
                is_root(ids, cur as int),
                cur as int == root_of(ids, i as int),
            decreases k0 - kk,
        {
            let parent = self.id[cur];
            proof {
                assert(ids[cur as int] == parent as int);
            }
            if parent == cur {
                proof {
                    lemma_root_of(ids, i as int);
                    assert(is_root(ids, step_n(ids, i as int, kk)));
                }
                break;
            }
            proof {
                assert(kk < k0) by {
                    if kk == k0 {
                        assert(is_root(ids, cur as int));
                    }
                }
                assert(step_n(ids, i as int, kk + 1) == ids[cur as int]) by {
                    lemma_unroll_one(ids, i as int, kk);
                }
            }
            cur = parent;
            proof {
                kk = kk + 1;
            }
        }
        cur
    }

    /// Merge the sets of `p` and `q`, attaching the smaller-sized tree's
    /// root under the larger's (ties attach `q`'s root under `p`'s).  A
    /// no-op when they already share a set; otherwise the set count falls
    /// by exactly one.
    pub fn union(&mut self, p: usize, q: usize)
        requires
            old(self).wf(),
            p < old(self).ids().len(),
            q < old(self).ids().len(),
        ensures
            final(self).wf(),
            final(self).ids().len() == old(self).ids().len(),
            root_of(old(self).ids(), p as int) == root_of(old(self).ids(), q as int)
                ==> final(self).ids() == old(self).ids() && final(self).rank == old(self).rank
                && final(self).count == old(self).count,
            ({
                let rp = root_of(old(self).ids(), p as int);
                let rq = root_of(old(self).ids(), q as int);
                rp != rq ==> final(self).count == old(self).count - 1 && (if old(self).rank@[rp]
                    < old(self).rank@[rq] {
                    final(self).ids() == old(self).ids().update(rp, rq) && final(self).rank@
                        == old(self).rank@.update(
                        rq,
                        rank_sum(old(self).rank@[rq] as usize, old(self).rank@[rp] as usize),
                    )
                } else {
                    final(self).ids() == old(self).ids().update(rq, rp) && final(self).rank@
                        == old(self).rank@.update(
                        rp,
                        rank_sum(old(self).rank@[rp] as usize, old(self).rank@[rq] as usize),
                    )
                })
            }),
            forall|a: int, b: int|
                0 <= a < old(self).ids().len() && 0 <= b < old(self).ids().len() && root_of(
                    old(self).ids(),
                    a,
                ) == root_of(old(self).ids(), b) ==> root_of(final(self).ids(), a) == root_of(
                    final(self).ids(),
                    b,
                ),
            root_of(final(self).ids(), p as int) == root_of(final(self).ids(), q as int),
    {
        let ghost ids0 = self.ids();
        let root_p = self.find(p);
        let root_q = self.find(q);

        if root_p == root_q {
            proof {
                assert(self.ids() =~= ids0);
            }
            return;
        }
        proof {
            lemma_two_roots(ids0, root_p as int, root_q as int);
        }
        let size_p = self.rank[root_p];
        let size_q = self.rank[root_q];
        if size_p < size_q {
            self.id.set(root_p, root_q);
            self.rank.set(root_q, size_q.saturating_add(size_p));
            proof {
                assert(self.ids() =~= ids0.update(root_p as int, root_q as int));
                lemma_union_roots(ids0, root_p as int, root_q as int);
            }
        } else {
            self.id.set(root_q, root_p);
            self.rank.set(root_p, size_p.saturating_add(size_q));
            proof {
                assert(self.ids() =~= ids0.update(root_q as int, root_p as int));
                lemma_union_roots(ids0, root_q as int, root_p as int);
            }
        }
        self.count = self.count - 1;
    }

    /// Whether `p` and `q` share a set.
    pub fn connected(&self, p: usize, q: usize) -> (r: bool)
        requires
            self.wf(),
            p < self.ids().len(),
            q < self.ids().len(),
        ensures
            r == (root_of(self.ids(), p as int) == root_of(self.ids(), q as int)),
    {
        self.find(q) == self.find(p)
    }
}

impl UnionFind<WeightedQuickUnion, i32, Vec<i32>> {
    /// The parent array as a sequence of integers.
    pub open spec fn ids(self) -> Seq<int> {
        self.id@.map_values(|x: i32| x as int)
    }

    /// `n` disjoint singletons, each tree of size one.
    pub fn new(n: i32) -> (r: Self)
        requires
            n >= 0,
        ensures
            uf_wf(r.ids()),
            r.ids().len() == n,
            forall|i: int| 0 <= i < n ==> #[trigger] r.ids()[i] == i,
            r.count == n,
            r.rank@.len() == n,
    {
        let mut id: Vec<i32> = Vec::new();
        let mut rank: Vec<i32> = Vec::new();
        let mut i: i32 = 0;
        while i < n
            invariant
                0 <= i <= n,
                id@.len() == i,
                rank@.len() == i,
                forall|k: int| 0 <= k < i ==> #[trigger] id@[k] == k,
            decreases n - i,
        {
            id.push(i);
            rank.push(1);
            i = i + 1;
        }
        let r = UnionFind { id, count: n as usize, rank, phantom: PhantomData };
        proof {
            lemma_identity_forest(r.ids());
        }
        r
    }
}

/// Law: once connected, always connected.  A union either leaves the
/// forest unchanged or redirects one root to another root, and any pair
/// whose roots agreed before such a redirection still agrees after it; so
/// a connection established by `union(p, q)` survives every later union.
pub proof fn lemma_connected_persists(id: Seq<int>, rp: int, rq: int, a: int, b: int)
    requires
        uf_wf(id),
        is_root(id, rp),
        is_root(id, rq),
        0 <= a < id.len(),
        0 <= b < id.len(),
        root_of(id, a) == root_of(id, b),
    ensures
        root_of(id.update(rp, rq), a) == root_of(id.update(rp, rq), b),
{
    if rp == rq {
        assert(id.update(rp, rq) =~= id);
    } else {
        lemma_union_roots(id, rp, rq);
    }
}

/// Law: once connected, always connected, in quick-find's relabelling
/// form: a union that relabels `rp`-labelled elements to `rq` keeps every
/// agreeing pair of labels agreeing.
pub proof fn lemma_connected_persists_relabel(
    id: Seq<int>,
    id2: Seq<int>,
    rp: int,
    rq: int,
    a: int,
    b: int,
)
    requires
        in_range(id),
        forall|i: int| 0 <= i < id.len() ==> id[#[trigger] id[i]] == id[i],
        is_root(id, rq),
        id2.len() == id.len(),
        forall|x: int|
            0 <= x < id.len() ==> #[trigger] id2[x] == (if id[x] == rp {
                rq
            } else {
                id[x]
            }),
        0 <= a < id.len(),
        0 <= b < id.len(),
        root_of(id, a) == root_of(id, b),
    ensures
        root_of(id2, a) == root_of(id2, b),
{
    lemma_flat_forest(id);
    assert(in_range(id2));
    assert forall|t: int| 0 <= t < id2.len() implies id2[#[trigger] id2[t]] == id2[t] by {
        if id[t] == rp {
            assert(id2[t] == rq);
            assert(id[rq] == rq);
        } else {
            let s = id[t];
            assert(id[s] == s);
            if s == rp {
                assert(id[t] == rp);
            }
            assert(id2[s] == s);
        }
    }
    lemma_flat_forest(id2);
    assert(id[a as int] == id[b as int]);
}

/// Unrolling one step at the far end of a chain.
proof fn lemma_unroll_one(id: Seq<int>, i: int, k: nat)
    requires
        0 <= step_n(id, i, k) < id.len(),
    ensures
        step_n(id, i, k + 1) == id[step_n(id, i, k)],
    decreases k,
{
    if k == 0 {
        lemma_step_shift(id, i, 0);
    } else {
        let nxt = if 0 <= i < id.len() {
            id[i]
        } else {
            i
        };
        lemma_unroll_one(id, nxt, (k - 1) as nat);
        assert(step_n(id, i, k + 1) == step_n(id, nxt, k));
    }
}

} // verus!
