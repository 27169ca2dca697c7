//! Heapsort: build a max-heap over the buffer, then repeatedly swap the
//! root behind the shrinking heap region and let the new root sink.

use vstd::prelude::*;
use crate::test_utils::{sorted, sorted_range};

verus! {

pub struct HeapSort;

/// `i` lies in the subtree rooted at `r` of the implicit binary heap.
/// Kept opaque: all reasoning goes through the membership lemmas below.
#[verifier::opaque]
pub open spec fn in_subtree(i: int, r: int) -> bool
    decreases (if i > r {
        i - r
    } else {
        0int
    }),
{
    i == r || (i > r && r >= 0 && in_subtree((i - 1) / 2, r))
}

/// Within `[0, end)`, every subtree entry below `r` is beaten by its
/// parent: the subtree at `r` is a max-heap.
pub open spec fn subtree_heap(s: Seq<u32>, end: int, r: int) -> bool {
    forall|j: int| 1 <= j < end && in_subtree(j, r) && j != r ==> s[(j - 1) / 2] >= #[trigger] s[j]
}

/// Every subtree link except those leaving the root itself.
pub open spec fn links_below(s: Seq<u32>, end: int, r: int) -> bool {
    forall|j: int|
        1 <= j < end && in_subtree(j, r) && j != r && (j - 1) / 2 != r ==> s[(j - 1) / 2]
            >= #[trigger] s[j]
}

/// A root belongs to its own subtree.
proof fn lemma_subtree_self(r: int)
    ensures
        in_subtree(r, r),
{
    reveal_with_fuel(in_subtree, 1);
}

/// Subtree membership only ever looks downwards.
proof fn lemma_subtree_bound(i: int, r: int)
    ensures
        in_subtree(i, r) ==> i >= r && r >= 0 || i == r,
{
    reveal_with_fuel(in_subtree, 1);
}

/// A direct child belongs to its parent's subtree.
proof fn lemma_subtree_child(child: int, r: int)
    requires
        r >= 0,
        child == 2 * r + 1 || child == 2 * r + 2,
    ensures
        in_subtree(child, r),
{
    reveal_with_fuel(in_subtree, 2);
}

/// A non-root subtree member's parent is a subtree member too.
proof fn lemma_subtree_parent(j: int, r: int)
    requires
        in_subtree(j, r),
        j != r,
    ensures
        j > r,
        r >= 0,
        in_subtree((j - 1) / 2, r),
        (j - 1) / 2 >= r,
{
    reveal_with_fuel(in_subtree, 1);
    lemma_subtree_bound((j - 1) / 2, r);
}

/// A subtree member's child is a subtree member.
proof fn lemma_subtree_extend(j: int, r: int)
    requires
        in_subtree((j - 1) / 2, r),
        j >= 1,
        r >= 0,
    ensures
        in_subtree(j, r),
{
    reveal_with_fuel(in_subtree, 1);
    lemma_subtree_bound((j - 1) / 2, r);
}

/// Nothing above a root belongs to its subtree.
proof fn lemma_subtree_not_above(k: int, r: int)
    requires
        k < r,
    ensures
        !in_subtree(k, r),
{
    reveal_with_fuel(in_subtree, 1);
}

/// Everything is in the root's subtree.
proof fn lemma_all_in_subtree0(j: int)
    requires
        j >= 0,
    ensures
        in_subtree(j, 0),
    decreases j,
{
    if j == 0 {
        lemma_subtree_self(0);
    } else {
        lemma_all_in_subtree0((j - 1) / 2);
        lemma_subtree_extend(j, 0);
    }
}

/// A member of a deeper subtree is a member of any enclosing one.
proof fn lemma_subtree_up(j: int, c: int, r: int)
    requires
        in_subtree(c, r),
        in_subtree(j, c),
    ensures
        in_subtree(j, r),
    decreases (if j > c {
        j - c
    } else {
        0int
    }),
{
    if j == c {
    } else {
        lemma_subtree_parent(j, c);
        lemma_subtree_up((j - 1) / 2, c, r);
        lemma_subtree_bound(c, r);
        lemma_subtree_extend(j, r);
    }
}

/// Exchange two entries of a buffer.
fn swap_entries(v: &mut Vec<u32>, i: usize, j: usize)
    requires
        i < old(v).len(),
        j < old(v).len(),
    ensures
        final(v)@ == old(v)@.update(i as int, old(v)@[j as int]).update(
            j as int,
            old(v)@[i as int],
        ),
{
    let a = v[i];
    let b = v[j];
    v.set(i, b);
    v.set(j, a);
}

/// Replacing a prefix by a permutation of itself, leaving the rest alone,
/// permutes the whole.
proof fn lemma_patch_multiset(s: Seq<u32>, t: Seq<u32>, end: int)
    requires
        s.len() == t.len(),
        0 <= end <= s.len(),
        t.subrange(0, end).to_multiset() == s.subrange(0, end).to_multiset(),
        forall|k: int| end <= k < s.len() ==> t[k] == s[k],
    ensures
        t.to_multiset() == s.to_multiset(),
{
    assert(t =~= t.subrange(0, end) + t.subrange(end, t.len() as int));
    assert(s =~= s.subrange(0, end) + s.subrange(end, s.len() as int));
    vstd::seq_lib::lemma_multiset_commutative(t.subrange(0, end), t.subrange(end, t.len() as int));
    vstd::seq_lib::lemma_multiset_commutative(s.subrange(0, end), s.subrange(end, s.len() as int));
    assert(t.subrange(end, t.len() as int) =~= s.subrange(end, s.len() as int));
}

/// Exchanging two prefix entries leaves the prefix multiset alone.
proof fn lemma_swap_prefix_multiset(s: Seq<u32>, end: int, x: int, y: int)
    requires
        0 <= x < end <= s.len(),
        0 <= y < end,
    ensures
        s.update(x, s[y]).update(y, s[x]).subrange(0, end).to_multiset() == s.subrange(
            0,
            end,
        ).to_multiset(),
{
    crate::insertion_sort::lemma_swap_submultiset(s, 0, end, x, y);
}

/// The root of a max-heap subtree beats every entry of the subtree.
proof fn lemma_subtree_root_max(s: Seq<u32>, end: int, r: int, i: int)
    requires
        subtree_heap(s, end, r),
        in_subtree(i, r),
        0 <= r <= i < end,
    ensures
        s[r] >= s[i],
    decreases i - r,
{
    if i != r {
        lemma_subtree_parent(i, r);
        lemma_subtree_root_max(s, end, r, (i - 1) / 2);
        assert(s[(i - 1) / 2] >= s[i]);
    }
}

/// A childless root already heads a max-heap subtree.
proof fn lemma_heapify_leaf(s: Seq<u32>, end: int, r: int)
    requires
        0 <= r < end <= s.len(),
        r >= end / 2,
        links_below(s, end, r),
    ensures
        subtree_heap(s, end, r),
{
    assert forall|j: int|
        1 <= j < end && in_subtree(j, r) && j != r implies s[(j - 1) / 2] >= #[trigger] s[j] by {
        lemma_subtree_parent(j, r);
        assert((j - 1) / 2 != r) by {
            if (j - 1) / 2 == r {
                assert(j == 2 * r + 1 || j == 2 * r + 2);
            }
        }
    }
}

/// After swapping the root with its larger child, the child's subtree was
/// already a heap and keeps its internal links.
proof fn lemma_heapify_pre_swap(s0: Seq<u32>, s1: Seq<u32>, end: int, root: int, c: int)
    requires
        0 <= root < end <= s0.len(),
        c == 2 * root + 1 || c == 2 * root + 2,
        c < end,
        links_below(s0, end, root),
        s1 == s0.update(root, s0[c]).update(c, s0[root]),
    ensures
        subtree_heap(s0, end, c),
        links_below(s1, end, c),
{
    lemma_subtree_child(c, root);
    assert forall|j: int|
        1 <= j < end && in_subtree(j, c) && j != c implies s0[(j - 1) / 2] >= #[trigger] s0[j] by {
        lemma_subtree_up(j, c, root);
        lemma_subtree_parent(j, c);
        assert(j != root && (j - 1) / 2 != root);
    }
    assert forall|j: int|
        1 <= j < end && in_subtree(j, c) && j != c && (j - 1) / 2 != c implies s1[(j - 1) / 2]
        >= #[trigger] s1[j] by {
        lemma_subtree_up(j, c, root);
        lemma_subtree_parent(j, c);
        assert(s1[j] == s0[j]);
        assert(s1[(j - 1) / 2] == s0[(j - 1) / 2]);
    }
}

/// After the recursive sift of the child's subtree, the whole subtree at
/// the root is a max-heap again, headed by the old child value.
proof fn lemma_heapify_post(s0: Seq<u32>, s1: Seq<u32>, s2: Seq<u32>, end: int, root: int, c: int)
    requires
        0 <= root < end <= s0.len(),
        s1.len() == s0.len(),
        s2.len() == s0.len(),
        c == 2 * root + 1 || c == 2 * root + 2,
        c == 2 * root + 2 ==> 2 * root + 1 < end && s0[2 * root + 1] < s0[c],
        c == 2 * root + 1 && 2 * root + 2 < end ==> s0[2 * root + 2] <= s0[c],
        c < end,
        s0[c] >= s0[root],
        links_below(s0, end, root),
        s1 == s0.update(root, s0[c]).update(c, s0[root]),
        subtree_heap(s2, end, c),
        forall|k: int| 0 <= k < s1.len() && !(in_subtree(k, c) && k < end) ==> s2[k] == s1[k],
        exists|k: int| c <= k < end && in_subtree(k, c) && s2[c] == s1[k],
    ensures
        subtree_heap(s2, end, root),
        s2[root] == s0[c],
{
    lemma_heapify_pre_swap(s0, s1, end, root, c);
    assert(s2[root] == s1[root]) by {
        lemma_subtree_not_above(root, c);
    }
    assert(s2[root] == s0[c]);
    assert(s2[c] <= s0[c]) by {
        lemma_subtree_self(c);
        let k0 = choose|k: int| c <= k < end && in_subtree(k, c) && s2[c] == s1[k];
        if k0 == c {
            assert(s1[c] == s0[root]);
        } else {
            assert(s1[k0] == s0[k0]);
            lemma_subtree_root_max(s0, end, c, k0);
        }
    }
    assert forall|j: int|
        1 <= j < end && in_subtree(j, root) && j != root implies s2[(j - 1) / 2]
        >= #[trigger] s2[j] by {
        lemma_subtree_parent(j, root);
        lemma_subtree_self(c);
        if j == c {
        } else if in_subtree(j, c) {
            lemma_subtree_parent(j, c);
        } else if (j - 1) / 2 == root {
            assert(j == 2 * root + 1 || j == 2 * root + 2);
            lemma_subtree_not_above(root, c);
            assert(s2[j] == s1[j]);
            assert(s1[j] == s0[j]);
            assert(s0[j] <= s0[c]);
        } else {
            assert(!in_subtree((j - 1) / 2, c)) by {
                if in_subtree((j - 1) / 2, c) {
                    lemma_subtree_bound((j - 1) / 2, c);
                    lemma_subtree_extend(j, c);
                }
            }
            assert((j - 1) / 2 != c);
            assert(s2[j] == s1[j] && s1[j] == s0[j]);
            assert(s2[(j - 1) / 2] == s1[(j - 1) / 2] && s1[(j - 1) / 2] == s0[(j - 1) / 2]);
        }
    }
}


impl HeapSort {
    /// The heap indices of `idx`'s two children.
    pub fn child_idx(idx: usize) -> (r: (usize, usize))
        requires
            idx < usize::MAX / 2,
        ensures
            r.0 == 2 * idx + 1,
            r.1 == 2 * idx + 2,
    {
        (2 * idx + 1, 2 * idx + 2)
    }

    /// The heap index of `idx`'s parent.
    #[allow(dead_code)]
    pub fn parent_idx(idx: usize) -> (r: usize)
        requires
            idx >= 1,
        ensures
            r == (idx - 1) / 2,
    {
        (idx - 1) / 2
    }

    /// Fix one violation at the subtree root, then recursively fix the
    /// affected child subtree.  Touches only the subtree of `root_idx`
    /// inside `[0, end)`, permutes the region, and never raises the root
    /// above the subtree's old contents.
    #[verifier::rlimit(60)]
    pub fn heapify(buf: &mut Vec<u32>, end: usize, root_idx: usize)
        requires
            root_idx < end <= old(buf).len(),
            links_below(old(buf)@, end as int, root_idx as int),
        ensures
            final(buf)@.len() == old(buf)@.len(),
            subtree_heap(final(buf)@, end as int, root_idx as int),
            forall|k: int|
                0 <= k < old(buf)@.len() && !(in_subtree(k, root_idx as int) && k < end)
                    ==> final(buf)@[k] == old(buf)@[k],
            final(buf)@.subrange(0, end as int).to_multiset() == old(buf)@.subrange(
                0,
                end as int,
            ).to_multiset(),
            exists|k: int|
                root_idx <= k < end && in_subtree(k, root_idx as int)
                    && final(buf)@[root_idx as int] == old(buf)@[k],
        decreases end - root_idx,
    {
        let ghost s0 = buf@;
        if root_idx >= end / 2 {
            proof {
                lemma_heapify_leaf(s0, end as int, root_idx as int);
                lemma_subtree_self(root_idx as int);
            }
            return;
        }
        let l = 2 * root_idx + 1;
        let r = l + 1;
        let valid_r = r < end;
        let mut large_child_idx = l;
        if valid_r {
            if buf[l] < buf[r] {
                large_child_idx = r;
            }
        }
        let c = large_child_idx;
        proof {
            lemma_subtree_self(root_idx as int);
            lemma_subtree_child(c as int, root_idx as int);
        }
        if buf[c] >= buf[root_idx] {
            swap_entries(buf, root_idx, c);
            let ghost s1 = buf@;
            proof {
                lemma_heapify_pre_swap(s0, s1, end as int, root_idx as int, c as int);
            }
            Self::heapify(buf, end, c);
            let ghost s2 = buf@;
            proof {
                assert forall|k: int|
                    0 <= k < s1.len() && !(in_subtree(k, c as int) && k < end) implies s2[k]
                    == s1[k] by {}
                lemma_heapify_post(s0, s1, s2, end as int, root_idx as int, c as int);
                lemma_swap_prefix_multiset(s0, end as int, root_idx as int, c as int);
                assert forall|k: int|
                    0 <= k < s0.len() && !(in_subtree(k, root_idx as int) && k < end) implies s2[k]
                    == s0[k] by {
                    assert(!(in_subtree(k, c as int) && k < end)) by {
                        if in_subtree(k, c as int) && k < end {
                            lemma_subtree_up(k, c as int, root_idx as int);
                        }
                    }
                    assert(s1.len() == s0.len());
                    assert(0 <= k < s1.len() && !(in_subtree(k, c as int) && k < end));
                    assert(s2[k] == s1[k]);
                    assert(k != root_idx && k != c) by {
                        if k < end {
                            lemma_subtree_self(c as int);
                        }
                    }
                }
                assert(exists|k: int|
                    root_idx <= k < end && in_subtree(k, root_idx as int) && s2[root_idx as int]
                        == s0[k]);
            }
        } else {
            proof {
                assert forall|j: int|
                    1 <= j < end && in_subtree(j, root_idx as int) && j
                        != root_idx implies buf@[(j - 1) / 2] >= #[trigger] buf@[j] by {
                    lemma_subtree_parent(j, root_idx as int);
                    if (j - 1) / 2 == root_idx {
                        assert(j == l as int || j == r as int);
                        assert(buf@[c as int] >= buf@[j]);
                    }
                }
            }
        }
    }
}


/// In a heap region the root beats everything.
proof fn lemma_heap_root_bound(s: Seq<u32>, end: int)
    requires
        subtree_heap(s, end, 0),
        0 < end <= s.len(),
    ensures
        forall|k: int| 0 <= k < end ==> s[0] >= #[trigger] s[k],
{
    assert forall|k: int| 0 <= k < end implies s[0] >= #[trigger] s[k] by {
        lemma_all_in_subtree0(k);
        lemma_subtree_root_max(s, end, 0, k);
    }
}

/// The bottom-up pass's invariant implies the next `heapify` call's
/// precondition.
proof fn lemma_build_links(pre: Seq<u32>, n: int, i: int)
    requires
        0 <= i < n <= pre.len(),
        forall|j: int| 1 <= j < n && (j - 1) / 2 >= i + 1 ==> pre[(j - 1) / 2] >= #[trigger] pre[j],
    ensures
        links_below(pre, n, i),
{
    assert forall|j: int|
        1 <= j < n && in_subtree(j, i) && j != i && (j - 1) / 2 != i implies pre[(j - 1) / 2]
        >= #[trigger] pre[j] by {
        lemma_subtree_parent(j, i);
    }
}

/// After one bottom-up `heapify`, every pair with parent at or past `i`
/// is ordered again.
proof fn lemma_build_restore(pre: Seq<u32>, post: Seq<u32>, n: int, i: int)
    requires
        0 <= i < n,
        pre.len() == n,
        post.len() == n,
        forall|j: int| 1 <= j < n && (j - 1) / 2 >= i + 1 ==> pre[(j - 1) / 2] >= #[trigger] pre[j],
        subtree_heap(post, n, i),
        forall|k: int| 0 <= k < n && !(in_subtree(k, i) && k < n) ==> post[k] == pre[k],
        post.subrange(0, n).to_multiset() == pre.subrange(0, n).to_multiset(),
    ensures
        forall|j: int| 1 <= j < n && (j - 1) / 2 >= i ==> post[(j - 1) / 2] >= #[trigger] post[j],
        post.to_multiset() == pre.to_multiset(),
{
    assert forall|j: int|
        1 <= j < n && (j - 1) / 2 >= i implies post[(j - 1) / 2] >= #[trigger] post[j] by {
        assert(j != i);
        if in_subtree(j, i) {
            assert(post[(j - 1) / 2] >= post[j]);
        } else {
            assert((j - 1) / 2 != i) by {
                if (j - 1) / 2 == i {
                    assert(j == 2 * i + 1 || j == 2 * i + 2);
                    lemma_subtree_child(j, i);
                }
            }
            assert(!in_subtree((j - 1) / 2, i)) by {
                if in_subtree((j - 1) / 2, i) {
                    lemma_subtree_bound((j - 1) / 2, i);
                    lemma_subtree_extend(j, i);
                }
            }
            assert(post[j] == pre[j] && post[(j - 1) / 2] == pre[(j - 1) / 2]);
        }
    }
    assert(pre.subrange(0, n) =~= pre);
    assert(post.subrange(0, n) =~= post);
}

/// One selection round of the sort: the old root lands at `last`, the
/// shrunken region is re-heapified, the tail stays sorted and dominated.
proof fn lemma_sort_step(pre: Seq<u32>, mid: Seq<u32>, post: Seq<u32>, n: int, last: int)
    requires
        1 <= last < n,
        pre.len() == n,
        mid.len() == n,
        post.len() == n,
        subtree_heap(pre, last + 1, 0),
        sorted_range(pre, last + 1, n),
        forall|a: int, b: int|
            #![trigger pre[a], pre[b]]
            0 <= a < last + 1 <= b < n ==> pre[a] <= pre[b],
        mid == pre.update(0, pre[last]).update(last, pre[0]),
        subtree_heap(post, last, 0),
        forall|k: int| 0 <= k < n && !(in_subtree(k, 0) && k < last) ==> post[k] == mid[k],
        post.subrange(0, last).to_multiset() == mid.subrange(0, last).to_multiset(),
    ensures
        sorted_range(post, last, n),
        forall|a: int, b: int|
            #![trigger post[a], post[b]]
            0 <= a < last <= b < n ==> post[a] <= post[b],
        post.to_multiset() == pre.to_multiset(),
{
    broadcast use vstd::seq_lib::group_to_multiset_ensures;

    lemma_heap_root_bound(pre, last + 1);
    assert forall|k: int| last <= k < n implies post[k] == mid[k] by {
        assert(!(in_subtree(k, 0) && k < last));
    }
    assert(post[last] == mid[last] && mid[last] == pre[0]);
    assert forall|a: int, b: int|
        #![trigger post[a], post[b]]
        last <= a <= b < n implies post[a] <= post[b] by {
        if a == last && b > last {
            assert(post[b] == mid[b] && mid[b] == pre[b]);
            assert(pre[0] <= pre[b]);
        } else if a > last {
            assert(post[a] == mid[a] && mid[a] == pre[a]);
            assert(post[b] == mid[b] && mid[b] == pre[b]);
            assert(pre[a] <= pre[b]);
        }
    }
    assert forall|a: int, b: int|
        #![trigger post[a], post[b]]
        0 <= a < last <= b < n implies post[a] <= post[b] by {
        assert(post.subrange(0, last).to_multiset().contains(post[a])) by {
            assert(post.subrange(0, last)[a] == post[a]);
        }
        assert(mid.subrange(0, last).contains(post[a]));
        let k = choose|k: int| 0 <= k < last && #[trigger] mid.subrange(0, last)[k] == post[a];
        assert(mid[k] == post[a]);
        assert(mid[k] <= pre[0]) by {
            if k == 0 {
                assert(mid[0] == pre[last]);
                assert(pre[0] >= pre[last]);
            } else {
                assert(mid[k] == pre[k]);
            }
        }
        if b == last {
            assert(post[b] == pre[0]);
        } else {
            assert(post[b] == mid[b] && mid[b] == pre[b]);
            assert(pre[0] <= pre[b]);
        }
    }
    crate::insertion_sort::lemma_swap_submultiset(pre, 0, last + 1, 0, last);
    assert(mid.subrange(0, last + 1).to_multiset() == pre.subrange(0, last + 1).to_multiset());
    lemma_patch_multiset(pre, mid, last + 1);
    lemma_patch_multiset(mid, post, last);
}

/// The swap of root and region end keeps every link the next `heapify`
/// call relies on.
proof fn lemma_sort_links(pre: Seq<u32>, mid: Seq<u32>, n: int, last: int)
    requires
        1 <= last < n,
        pre.len() == n,
        mid.len() == n,
        subtree_heap(pre, last + 1, 0),
        mid == pre.update(0, pre[last]).update(last, pre[0]),
    ensures
        links_below(mid, last, 0),
{
    assert forall|j: int|
        1 <= j < last && in_subtree(j, 0) && j != 0 && (j - 1) / 2 != 0 implies mid[(j - 1) / 2]
        >= #[trigger] mid[j] by {
        assert(mid[j] == pre[j] && mid[(j - 1) / 2] == pre[(j - 1) / 2]);
    }
}

impl HeapSort {
    /// Convert the whole buffer into a max heap.
    #[verifier::rlimit(60)]
    pub fn build_max_heap(buf: &mut Vec<u32>)
        requires
            old(buf).len() >= 2,
        ensures
            final(buf)@.len() == old(buf)@.len(),
            subtree_heap(final(buf)@, final(buf)@.len() as int, 0),
            final(buf)@.to_multiset() == old(buf)@.to_multiset(),
    {
        let ghost s0 = buf@;
        let n = buf.len();
        let last_parent = (n - 2) / 2;
        let mut i = last_parent + 1;
        while i > 0
            invariant
                i <= last_parent + 1,
                last_parent == (n - 2) / 2,
                n == buf@.len(),
                n >= 2,
                buf@.to_multiset() == s0.to_multiset(),
                forall|j: int|
                    1 <= j < n && (j - 1) / 2 >= i ==> buf@[(j - 1) / 2] >= #[trigger] buf@[j],
            decreases i,
        {
            i = i - 1;
            let ghost pre = buf@;
            proof {
                lemma_build_links(pre, n as int, i as int);
            }
            Self::heapify(buf, n, i);
            proof {
                lemma_build_restore(pre, buf@, n as int, i as int);
            }
        }
        proof {
            assert forall|j: int|
                1 <= j < buf@.len() && in_subtree(j, 0) && j != 0 implies buf@[(j - 1) / 2]
                >= #[trigger] buf@[j] by {
                assert((j - 1) / 2 >= 0);
            }
        }
    }

    /// Sort the whole buffer in place.
    #[verifier::rlimit(60)]
    pub fn sort(buf: &mut Vec<u32>)
        ensures
            final(buf)@.len() == old(buf)@.len(),
            sorted(final(buf)@),
            final(buf)@.to_multiset() == old(buf)@.to_multiset(),
    {
        let n = buf.len();
        if n <= 1 {
            return;
        }
        let ghost s0 = buf@;
        Self::build_max_heap(buf);
        let mut last = n;
        while last > 1
            invariant
                1 <= last <= n,
                n == buf@.len(),
                buf@.to_multiset() == s0.to_multiset(),
                subtree_heap(buf@, last as int, 0),
                sorted_range(buf@, last as int, n as int),
                forall|a: int, b: int|
                    #![trigger buf@[a], buf@[b]]
                    0 <= a < last <= b < n ==> buf@[a] <= buf@[b],
            decreases last,
        {
            last = last - 1;
            let ghost pre = buf@;
            swap_entries(buf, 0, last);
            let ghost mid = buf@;
            proof {
                lemma_sort_links(pre, mid, n as int, last as int);
            }
            Self::heapify(buf, last, 0);
            proof {
                lemma_sort_step(pre, mid, buf@, n as int, last as int);
            }
        }
        proof {
            assert forall|a: int, b: int|
                #![trigger buf@[a], buf@[b]]
                0 <= a <= b < n implies buf@[a] <= buf@[b] by {
                if a < 1 && b >= 1 {
                    assert(buf@[a] <= buf@[b]);
                }
            }
        }
    }
}

} // verus!
