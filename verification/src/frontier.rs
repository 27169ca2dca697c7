//! The frontier layer: two interchangeable priority structures used by the
//! shortest-path and spanning-tree engines to select the cheapest discovered
//! vertex, behind one push/pop/is-empty contract.
//!
//! Both strategies order entries by weight ascending and break weight ties by
//! preferring the larger vertex index; the pair makes `edge_le` a total
//! order, so the entry a `pop` must return is pinned down exactly.  Stale
//! (duplicate) entries for one vertex are allowed; the engines discard them
//! with their own visited check, never the frontier itself.

use vstd::prelude::*;
use vstd::multiset::Multiset;
use crate::graph::Edge;

verus! {

broadcast use vstd::seq_lib::group_to_multiset_ensures;

/// The frontier ordering: weight ascending, and on tied weights the larger
/// vertex index first.
pub open spec fn edge_le(a: Edge, b: Edge) -> bool {
    a.0 < b.0 || (a.0 == b.0 && a.1 >= b.1)
}

/// `e` is an entry of `m` no other entry of `m` beats.
pub open spec fn is_min_entry(m: Multiset<Edge>, e: Edge) -> bool {
    m.contains(e) && forall|x: Edge| m.contains(x) ==> edge_le(e, x)
}

/// The least entry of `m` under `edge_le`; meaningful whenever `m` is
/// nonempty, and then unique because the order is total.
pub open spec fn min_entry(m: Multiset<Edge>) -> Edge {
    choose|e: Edge| is_min_entry(m, e)
}

/// A nonempty multiset of entries has a least entry, and any two least
/// entries are the same value.
pub proof fn lemma_min_entry(m: Multiset<Edge>)
    requires
        m.len() > 0,
    ensures
        is_min_entry(m, min_entry(m)),
        forall|e: Edge| is_min_entry(m, e) ==> e == min_entry(m),
    decreases m.len(),
{
    let x = m.choose();
    assert(m.count(x) > 0);
    let rest = m.remove(x);
    if rest.len() == 0 {
        assert(rest =~= Multiset::empty());
        assert forall|y: Edge| m.contains(y) implies edge_le(x, y) by {
            if y != x {
                assert(rest.count(y) == m.count(y));
            }
        }
        assert(is_min_entry(m, x));
    } else {
        lemma_min_entry(rest);
        let mn = min_entry(rest);
        assert(rest.contains(mn) && m.count(mn) > 0);
        if edge_le(x, mn) {
            assert forall|y: Edge| m.contains(y) implies edge_le(x, y) by {
                if y != x {
                    assert(rest.count(y) == m.count(y));
                    assert(rest.contains(y));
                    assert(edge_le(mn, y));
                }
            }
            assert(is_min_entry(m, x));
        } else {
            assert(edge_le(mn, x));
            assert forall|y: Edge| m.contains(y) implies edge_le(mn, y) by {
                if y != x {
                    assert(rest.count(y) == m.count(y));
                    assert(rest.contains(y));
                }
            }
            assert(is_min_entry(m, mn));
        }
    }
    let w = min_entry(m);
    assert(is_min_entry(m, w));
    assert forall|e: Edge| is_min_entry(m, e) implies e == w by {
        assert(edge_le(e, w) && edge_le(w, e));
        assert(e.0 == w.0 && e.1 == w.1);
    }
}

/// What the engines ask of a priority strategy: push anything, pop the least
/// entry, say when nothing is left.
pub trait Frontier: Sized {
    spec fn contents(&self) -> Multiset<Edge>;

    spec fn inv(&self) -> bool;

    /// A frontier holding exactly one entry.
    fn singleton(e: Edge) -> (f: Self)
        ensures
            f.inv(),
            f.contents() == Multiset::<Edge>::empty().insert(e),
    ;

    fn push(&mut self, item: Edge)
        requires
            old(self).inv(),
        ensures
            final(self).inv(),
            final(self).contents() == old(self).contents().insert(item),
    ;

    fn is_empty(&self) -> (r: bool)
        requires
            self.inv(),
        ensures
            r <==> self.contents().len() == 0,
    ;

    fn pop(&mut self) -> (r: Option<Edge>)
        requires
            old(self).inv(),
        ensures
            final(self).inv(),
            old(self).contents().len() == 0 ==> r is None && final(self).contents()
                == old(self).contents(),
            old(self).contents().len() > 0 ==> r == Some(min_entry(old(self).contents()))
                && final(self).contents() == old(self).contents().remove(
                min_entry(old(self).contents()),
            ),
    ;
}

/// Exchange two entries of a buffer.
fn vec_swap(v: &mut Vec<Edge>, i: usize, j: usize)
    requires
        i < old(v).len(),
        j < old(v).len(),
    ensures
        final(v)@ == old(v)@.update(i as int, old(v)@[j as int]).update(
            j as int,
            old(v)@[i as int],
        ),
{
    let a = v[i];
    let b = v[j];
    v.set(i, b);
    v.set(j, a);
}

/// Exchanging two entries of a sequence leaves its multiset alone.
proof fn lemma_swap_to_multiset(s: Seq<Edge>, i: int, j: int)
    requires
        0 <= i < s.len(),
        0 <= j < s.len(),
    ensures
        s.update(i, s[j]).update(j, s[i]).to_multiset() == s.to_multiset(),
{
    let t = s.update(i, s[j]);
    let u = t.update(j, s[i]);
    assert(t.to_multiset() == s.to_multiset().insert(s[j]).remove(s[i]));
    assert(u.to_multiset() == t.to_multiset().insert(s[i]).remove(t[j]));
    if i == j {
        assert(u.to_multiset() =~= s.to_multiset());
    } else {
        assert(t[j] == s[j]);
        assert(u.to_multiset() =~= s.to_multiset());
    }
}

/// Removing index `i` by a last-entry swap removes one occurrence of `s[i]`
/// from the multiset.
proof fn lemma_swap_remove_to_multiset(s: Seq<Edge>, i: int)
    requires
        0 <= i < s.len(),
    ensures
        s.update(i, s.last()).drop_last().to_multiset() == s.to_multiset().remove(s[i]),
{
    let n = s.len() as int;
    let t = s.update(i, s.last());
    assert(t.to_multiset() == s.to_multiset().insert(s.last()).remove(s[i]));
    assert(t.drop_last() =~= t.remove(n - 1));
    assert(t.remove(n - 1).to_multiset() == t.to_multiset().remove(t[n - 1]));
    if i == n - 1 {
        assert(t.drop_last().to_multiset() =~= s.to_multiset().remove(s[i]));
    } else {
        assert(t[n - 1] == s.last());
        assert(t.drop_last().to_multiset() =~= s.to_multiset().remove(s[i]));
    }
}

/// The linear-scan strategy: `push` appends in O(1); `pop` scans the whole
/// buffer for the least entry.
#[derive(Debug, Clone, PartialEq, Eq)]
pub struct ArrayPriorityQueue<T> {
    data: Vec<T>,
}

impl<T> ArrayPriorityQueue<T> {
    /// The stored entries, in insertion order.
    pub closed spec fn items(&self) -> Seq<T> {
        self.data@
    }

    pub fn from(data: Vec<T>) -> (q: Self)
        ensures
            q.items() == data@,
    {
        ArrayPriorityQueue { data }
    }

    pub fn push(&mut self, item: T)
        ensures
            final(self).items() == old(self).items().push(item),
    {
        self.data.push(item);
    }

    pub fn is_empty(&self) -> (r: bool)
        ensures
            r <==> self.items().len() == 0,
    {
        self.data.len() == 0
    }
}

impl ArrayPriorityQueue<Edge> {
    /// Pop the least entry under the frontier ordering, scanning the whole
    /// buffer.
    pub fn pop(&mut self) -> (r: Option<Edge>)
        ensures
            old(self).items().len() == 0 ==> r is None && final(self).items() == old(self).items(),
            old(self).items().len() > 0 ==> (r matches Some(e) && is_min_entry(
                old(self).items().to_multiset(),
                e,
            ) && final(self).items().to_multiset() == old(self).items().to_multiset().remove(e)),
    {
        if self.data.len() == 0 {
            return None;
        }
        let ghost s = self.data@;
        let n = self.data.len();
        let mut best: Edge = self.data[0];
        let mut best_i: usize = 0;
        for j in 1..n
            invariant
                n == self.data@.len(),
                self.data@ == s,
                best_i < n,
                best == s[best_i as int],
                forall|k: int| 0 <= k < j ==> edge_le(best, #[trigger] s[k]),
        {
            let e = self.data[j];
            if e.0 < best.0 || (e.0 == best.0 && e.1 > best.1) {
                best = e;
                best_i = j;
            }
        }
        let e = self.data.swap_remove(best_i);
        proof {
            lemma_swap_remove_to_multiset(s, best_i as int);
            assert forall|x: Edge| s.to_multiset().contains(x) implies edge_le(e, x) by {
                assert(s.contains(x));
            }
            assert(s.to_multiset().count(e) > 0);
        }
        Some(e)
    }
}

impl ArrayPriorityQueue<u32> {
    /// Pop the least value, scanning the whole buffer.
    pub fn pop(&mut self) -> (r: Option<u32>)
        ensures
            old(self).items().len() == 0 ==> r is None && final(self).items() == old(self).items(),
            old(self).items().len() > 0 ==> (r matches Some(v)
                && old(self).items().to_multiset().contains(v)
                && (forall|x: u32| old(self).items().to_multiset().contains(x) ==> v <= x)
                && final(self).items().to_multiset() == old(self).items().to_multiset().remove(v)),
    {
        if self.data.len() == 0 {
            return None;
        }
        let ghost s = self.data@;
        let n = self.data.len();
        let mut best: u32 = self.data[0];
        let mut best_i: usize = 0;
        for j in 1..n
            invariant
                n == self.data@.len(),
                self.data@ == s,
                best_i < n,
                best == s[best_i as int],
                forall|k: int| 0 <= k < j ==> best <= #[trigger] s[k],
        {
            let v = self.data[j];
            if v <= best {
                best = v;
                best_i = j;
            }
        }
        let v = self.data.swap_remove(best_i);
        proof {
            lemma_swap_remove_u32_to_multiset(s, best_i as int);
            assert forall|x: u32| s.to_multiset().contains(x) implies v <= x by {
                assert(s.contains(x));
            }
            assert(s.to_multiset().count(v) > 0);
        }
        Some(v)
    }
}

/// Removing index `i` by a last-entry swap removes one occurrence of `s[i]`
/// from the multiset.
proof fn lemma_swap_remove_u32_to_multiset(s: Seq<u32>, i: int)
    requires
        0 <= i < s.len(),
    ensures
        s.update(i, s.last()).drop_last().to_multiset() == s.to_multiset().remove(s[i]),
{
    let n = s.len() as int;
    let t = s.update(i, s.last());
    assert(t.to_multiset() == s.to_multiset().insert(s.last()).remove(s[i]));
    assert(t.drop_last() =~= t.remove(n - 1));
    assert(t.remove(n - 1).to_multiset() == t.to_multiset().remove(t[n - 1]));
    if i == n - 1 {
        assert(t.drop_last().to_multiset() =~= s.to_multiset().remove(s[i]));
    } else {
        assert(t[n - 1] == s.last());
        assert(t.drop_last().to_multiset() =~= s.to_multiset().remove(s[i]));
    }
}

impl Frontier for ArrayPriorityQueue<Edge> {
    open spec fn contents(&self) -> Multiset<Edge> {
        self.items().to_multiset()
    }

    open spec fn inv(&self) -> bool {
        true
    }

    fn singleton(e: Edge) -> (f: Self) {
        let mut data: Vec<Edge> = Vec::new();
        data.push(e);
        proof {
            assert(data@ =~= Seq::empty().push(e));
            assert(data@.to_multiset() =~= Multiset::<Edge>::empty().insert(e));
        }
        ArrayPriorityQueue { data }
    }

    fn push(&mut self, item: Edge) {
        self.data.push(item);
    }

    fn is_empty(&self) -> (r: bool) {
        self.data.len() == 0
    }

    fn pop(&mut self) -> (r: Option<Edge>) {
        let ghost m = self.items().to_multiset();
        let r = ArrayPriorityQueue::<Edge>::pop(self);
        proof {
            if m.len() > 0 {
                lemma_min_entry(m);
            }
        }
        r
    }
}

/// The binary min-heap strategy: `push` and `pop` are O(log n).
#[derive(Debug, Clone)]
pub struct BinaryMinHeap {
    data: Vec<Edge>,
}

/// The heap shape: every entry is beaten by its parent.
pub open spec fn heap_shape(s: Seq<Edge>) -> bool {
    forall|i: int| 1 <= i < s.len() ==> edge_le(s[(i - 1) / 2], #[trigger] s[i])
}

/// The heap shape, tolerated to be broken at `idx` while an entry bubbles
/// up: `idx`'s own parent link may fail, but `idx`'s parent still beats
/// `idx`'s children.
spec fn shape_except_up(s: Seq<Edge>, idx: int) -> bool {
    &&& forall|i: int| 1 <= i < s.len() && i != idx ==> edge_le(s[(i - 1) / 2], #[trigger] s[i])
    &&& forall|c: int|
        1 <= c < s.len() && (c - 1) / 2 == idx && idx >= 1 ==> edge_le(
            s[(idx - 1) / 2],
            #[trigger] s[c],
        )
}

/// The heap shape, tolerated to be broken at `idx` while an entry sinks
/// down: the links from `idx` to its children may fail, but `idx`'s parent
/// still beats `idx`'s children.
spec fn shape_except_down(s: Seq<Edge>, idx: int) -> bool {
    &&& forall|i: int| 1 <= i < s.len() && (i - 1) / 2 != idx ==> edge_le(s[(i - 1) / 2], #[trigger] s[i])
    &&& forall|c: int|
        1 <= c < s.len() && (c - 1) / 2 == idx && idx >= 1 ==> edge_le(
            s[(idx - 1) / 2],
            #[trigger] s[c],
        )
}

/// In a well-shaped heap the root beats everything.
proof fn lemma_heap_root_min(s: Seq<Edge>, j: int)
    requires
        heap_shape(s),
        0 <= j < s.len(),
    ensures
        edge_le(s[0], s[j]),
    decreases j,
{
    if j > 0 {
        lemma_heap_root_min(s, (j - 1) / 2);
    }
}

impl BinaryMinHeap {
    /// The stored entries, in heap order.
    pub closed spec fn items(&self) -> Seq<Edge> {
        self.data@
    }

    pub closed spec fn wf(&self) -> bool {
        heap_shape(self.data@)
    }

    pub fn new() -> (h: Self)
        ensures
            h.wf(),
            h.items() == Seq::<Edge>::empty(),
    {
        BinaryMinHeap { data: Vec::new() }
    }

    pub fn is_empty(&self) -> (r: bool)
        ensures
            r <==> self.items().len() == 0,
    {
        self.data.len() == 0
    }

    /// Append the entry and let it bubble up to its place.
    pub fn push(&mut self, item: Edge)
        requires
            old(self).wf(),
        ensures
            final(self).wf(),
            final(self).items().to_multiset() == old(self).items().to_multiset().insert(item),
    {
        let ghost m_target = old(self).items().to_multiset().insert(item);
        self.data.push(item);
        let mut idx = self.data.len() - 1;
        proof {
            assert(shape_except_up(self.data@, idx as int));
        }
        loop
            invariant_except_break
                idx < self.data@.len(),
                shape_except_up(self.data@, idx as int),
                self.data@.to_multiset() == m_target,
            ensures
                heap_shape(self.data@),
                self.data@.to_multiset() == m_target,
            decreases idx,
        {
            if idx == 0 {
                break;
            }
            let p = (idx - 1) / 2;
            let a = self.data[p];
            let b = self.data[idx];
            if a.0 < b.0 || (a.0 == b.0 && a.1 >= b.1) {
                break;
            }
            let ghost s = self.data@;
            vec_swap(&mut self.data, p, idx);
            proof {
                lemma_swap_to_multiset(s, p as int, idx as int);
                let t = self.data@;
                assert forall|i: int| 1 <= i < t.len() && i != p implies edge_le(
                    t[(i - 1) / 2],
                    #[trigger] t[i],
                ) by {
                    if i == idx {
                    } else if (i - 1) / 2 == idx {
                        assert(edge_le(s[(idx as int - 1) / 2], s[i]));
                    } else if (i - 1) / 2 == p {
                        assert(edge_le(s[p as int], s[i]));
                        assert(edge_le(s[idx as int], s[p as int]));
                    } else {
                        assert(edge_le(s[(i - 1) / 2], s[i]));
                    }
                }
                assert forall|c: int|
                    1 <= c < t.len() && (c - 1) / 2 == p && p >= 1 implies edge_le(
                    t[(p as int - 1) / 2],
                    #[trigger] t[c],
                ) by {
                    assert(edge_le(s[(p as int - 1) / 2], s[p as int]));
                    if c == idx {
                    } else {
                        assert(edge_le(s[p as int], s[c]));
                    }
                }
                assert(shape_except_up(t, p as int));
            }
            idx = p;
        }
    }

    /// Pop the root — the least entry — and let the last entry sink down
    /// from the root's place.
    pub fn pop(&mut self) -> (r: Option<Edge>)
        requires
            old(self).wf(),
        ensures
            final(self).wf(),
            old(self).items().len() == 0 ==> r is None && final(self).items() == old(self).items(),
            old(self).items().len() > 0 ==> (r matches Some(e) && is_min_entry(
                old(self).items().to_multiset(),
                e,
            ) && final(self).items().to_multiset() == old(self).items().to_multiset().remove(e)),
    {
        if self.data.len() == 0 {
            return None;
        }
        let ghost s0 = self.data@;
        proof {
            assert forall|x: Edge| s0.to_multiset().contains(x) implies edge_le(s0[0], x) by {
                assert(s0.contains(x));
                let k = choose|k: int| 0 <= k < s0.len() && s0[k] == x;
                lemma_heap_root_min(s0, k);
            }
            assert(s0.to_multiset().count(s0[0]) > 0);
            lemma_swap_remove_to_multiset(s0, 0);
        }
        let root = self.data.swap_remove(0);
        let ghost m_target = s0.to_multiset().remove(s0[0]);
        if self.data.len() == 0 {
            return Some(root);
        }
        let mut idx: usize = 0;
        proof {
            assert forall|i: int|
                1 <= i < self.data@.len() && (i - 1) / 2 != 0 implies edge_le(
                self.data@[(i - 1) / 2],
                #[trigger] self.data@[i],
            ) by {
                assert(self.data@[i] == s0[i]);
                assert(self.data@[(i - 1) / 2] == s0[(i - 1) / 2]);
            }
            assert(shape_except_down(self.data@, 0));
        }
        loop
            invariant_except_break
                idx < self.data@.len(),
                shape_except_down(self.data@, idx as int),
                self.data@.to_multiset() == m_target,
            ensures
                heap_shape(self.data@),
                self.data@.to_multiset() == m_target,
            decreases self.data@.len() - idx,
        {
            if idx >= self.data.len() / 2 {
                proof {
                    assert forall|i: int| 1 <= i < self.data@.len() implies edge_le(
                        self.data@[(i - 1) / 2],
                        #[trigger] self.data@[i],
                    ) by {
                        assert((i - 1) / 2 < self.data@.len() / 2);
                    }
                }
                break;
            }
            let l = 2 * idx + 1;
            let rt = l + 1;
            let mut c = l;
            if rt < self.data.len() {
                let el = self.data[l];
                let er = self.data[rt];
                if er.0 < el.0 || (er.0 == el.0 && er.1 >= el.1) {
                    c = rt;
                }
            }
            let a = self.data[idx];
            let b = self.data[c];
            if a.0 < b.0 || (a.0 == b.0 && a.1 >= b.1) {
                proof {
                    assert forall|i: int| 1 <= i < self.data@.len() implies edge_le(
                        self.data@[(i - 1) / 2],
                        #[trigger] self.data@[i],
                    ) by {
                        if (i - 1) / 2 == idx {
                            assert(edge_le(self.data@[c as int], self.data@[i]));
                        }
                    }
                }
                break;
            }
            let ghost s = self.data@;
            vec_swap(&mut self.data, idx, c);
            proof {
                lemma_swap_to_multiset(s, idx as int, c as int);
                let t = self.data@;
                assert forall|i: int|
                    1 <= i < t.len() && (i - 1) / 2 != c implies edge_le(
                    t[(i - 1) / 2],
                    #[trigger] t[i],
                ) by {
                    if i == idx {
                        assert(edge_le(s[(idx as int - 1) / 2], s[c as int]));
                    } else if i == c {
                        assert((c as int - 1) / 2 == idx as int);
                    } else if (i - 1) / 2 == idx {
                        assert(edge_le(s[c as int], s[i]));
                    } else {
                        assert(edge_le(s[(i - 1) / 2], s[i]));
                    }
                }
                assert forall|g: int|
                    1 <= g < t.len() && (g - 1) / 2 == c && c >= 1 implies edge_le(
                    t[(c as int - 1) / 2],
                    #[trigger] t[g],
                ) by {
                    assert(edge_le(s[c as int], s[g]));
                }
                assert(shape_except_down(t, c as int));
            }
            idx = c;
        }
        Some(root)
    }
}

impl Frontier for BinaryMinHeap {
    open spec fn contents(&self) -> Multiset<Edge> {
        self.items().to_multiset()
    }

    open spec fn inv(&self) -> bool {
        self.wf()
    }

    fn singleton(e: Edge) -> (f: Self) {
        let mut h = BinaryMinHeap::new();
        h.push(e);
        proof {
            assert(h.items().to_multiset() =~= Multiset::<Edge>::empty().insert(e));
        }
        h
    }

    fn push(&mut self, item: Edge) {
        BinaryMinHeap::push(self, item);
    }

    fn is_empty(&self) -> (r: bool) {
        BinaryMinHeap::is_empty(self)
    }

    fn pop(&mut self) -> (r: Option<Edge>) {
        let ghost m = self.items().to_multiset();
        let r = BinaryMinHeap::pop(self);
        proof {
            if m.len() > 0 {
                lemma_min_entry(m);
            }
        }
        r
    }
}

} // verus!
