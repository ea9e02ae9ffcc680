//! A stable sort over any total order, and operations on ascending lists of file ids.

use vstd::prelude::*;

verus! {

/// A total preorder that code can decide.
pub trait TotalOrder: Sized {
    spec fn at_most(&self, other: &Self) -> bool;

    proof fn lemma_total(a: &Self, b: &Self)
        ensures
            a.at_most(b) || b.at_most(a),
    ;

    proof fn lemma_transitive(a: &Self, b: &Self, c: &Self)
        requires
            a.at_most(b),
            b.at_most(c),
        ensures
            a.at_most(c),
    ;

    fn is_at_most(&self, other: &Self) -> (result: bool)
        ensures
            result == self.at_most(other),
    ;
}

impl TotalOrder for u32 {
    open spec fn at_most(&self, other: &Self) -> bool {
        *self <= *other
    }

    proof fn lemma_total(a: &Self, b: &Self) {
    }

    proof fn lemma_transitive(a: &Self, b: &Self, c: &Self) {
    }

    fn is_at_most(&self, other: &Self) -> (result: bool) {
        *self <= *other
    }
}

impl TotalOrder for usize {
    open spec fn at_most(&self, other: &Self) -> bool {
        *self <= *other
    }

    proof fn lemma_total(a: &Self, b: &Self) {
    }

    proof fn lemma_transitive(a: &Self, b: &Self, c: &Self) {
    }

    fn is_at_most(&self, other: &Self) -> (result: bool) {
        *self <= *other
    }
}

/// Position `p` comes before position `q` in a stable sort of `items`.
pub open spec fn sorts_before<T: TotalOrder>(items: Seq<T>, p: usize, q: usize) -> bool {
    &&& items[p as int].at_most(&items[q as int])
    &&& items[q as int].at_most(&items[p as int]) ==> p < q
}

/// `order` lists every position of `items` once, in the order of a stable sort.
pub open spec fn is_sorting_order<T: TotalOrder>(items: Seq<T>, order: Seq<usize>) -> bool {
    &&& order.len() == items.len()
    &&& forall|i: int| 0 <= i < order.len() ==> #[trigger] order[i] < items.len()
    &&& forall|p: usize| p < items.len() ==> #[trigger] order.contains(p)
    &&& forall|i: int, j: int|
        0 <= i < j < order.len() ==> sorts_before(items, #[trigger] order[i], #[trigger] order[j])
}

spec fn orders_range<T: TotalOrder>(items: Seq<T>, order: Seq<usize>, lo: int, hi: int) -> bool {
    &&& order.len() == hi - lo
    &&& forall|i: int| 0 <= i < order.len() ==> lo <= #[trigger] order[i] < hi
    &&& forall|p: usize| lo <= p < hi ==> #[trigger] order.contains(p)
    &&& forall|i: int, j: int|
        0 <= i < j < order.len() ==> sorts_before(items, #[trigger] order[i], #[trigger] order[j])
}

proof fn lemma_sorts_before_transitive<T: TotalOrder>(
    items: Seq<T>,
    p: usize,
    q: usize,
    r: usize,
)
    requires
        sorts_before(items, p, q),
        sorts_before(items, q, r),
    ensures
        sorts_before(items, p, r),
{
    let (a, b, c) = (items[p as int], items[q as int], items[r as int]);
    T::lemma_transitive(&a, &b, &c);
    if c.at_most(&a) {
        T::lemma_transitive(&b, &c, &a);
        T::lemma_transitive(&c, &a, &b);
    }
}

fn merge_orders<T: TotalOrder>(
    items: &[T],
    left: &Vec<usize>,
    right: &Vec<usize>,
    Ghost(lo): Ghost<int>,
    Ghost(mid): Ghost<int>,
    Ghost(hi): Ghost<int>,
) -> (merged: Vec<usize>)
    requires
        0 <= lo <= mid <= hi <= items@.len(),
        orders_range(items@, left@, lo, mid),
        orders_range(items@, right@, mid, hi),
    ensures
        orders_range(items@, merged@, lo, hi),
{
    let mut merged: Vec<usize> = Vec::with_capacity(left.len());
    let mut i: usize = 0;
    let mut j: usize = 0;
    while i < left.len() || j < right.len()
        invariant
            0 <= lo <= mid <= hi <= items@.len(),
            orders_range(items@, left@, lo, mid),
            orders_range(items@, right@, mid, hi),
            i <= left@.len(),
            j <= right@.len(),
            merged@.len() == i + j,
            forall|k: int| 0 <= k < merged@.len() ==> lo <= #[trigger] merged@[k] < hi,
            forall|k: int| 0 <= k < i ==> merged@.contains(#[trigger] left@[k]),
            forall|k: int| 0 <= k < j ==> merged@.contains(#[trigger] right@[k]),
            forall|a: int, b: int|
                0 <= a < b < merged@.len() ==> sorts_before(
                    items@,
                    #[trigger] merged@[a],
                    #[trigger] merged@[b],
                ),
            forall|a: int|
                #![trigger merged@[a]]
                0 <= a < merged@.len() ==> {
                    &&& i < left@.len() ==> sorts_before(items@, merged@[a], left@[i as int])
                    &&& j < right@.len() ==> sorts_before(items@, merged@[a], right@[j as int])
                },
        decreases left@.len() - i + right@.len() - j,
    {
        let take_left: bool = if i >= left.len() {
            false
        } else if j >= right.len() {
            true
        } else {
            items[left[i]].is_at_most(&items[right[j]])
        };
        let ghost before = merged@;
        let next: usize = if take_left {
            left[i]
        } else {
            right[j]
        };
        proof {
            if i < left@.len() && j < right@.len() {
                T::lemma_total(&items@[left@[i as int] as int], &items@[right@[j as int] as int]);
            }
            if take_left {
                if j < right@.len() {
                    assert(sorts_before(items@, next, right@[j as int]));
                }
            } else if i < left@.len() {
                assert(sorts_before(items@, next, left@[i as int]));
            }
        }
        merged.push(next);
        proof {
            assert(merged@[before.len() as int] == next);
            assert forall|k: int| 0 <= k < i implies merged@.contains(#[trigger] left@[k]) by {
                let m = before.index_of(left@[k]);
                assert(before.contains(left@[k]));
                assert(merged@[m] == left@[k]);
            }
            assert forall|k: int| 0 <= k < j implies merged@.contains(#[trigger] right@[k]) by {
                let m = before.index_of(right@[k]);
                assert(before.contains(right@[k]));
                assert(merged@[m] == right@[k]);
            }
            if take_left && j < right@.len() {
                assert forall|a: int| 0 <= a < merged@.len() implies sorts_before(
                    items@,
                    #[trigger] merged@[a],
                    right@[j as int],
                ) by {
                    if a < before.len() {
                        assert(before[a] == merged@[a]);
                    }
                }
            }
            if !take_left && i < left@.len() {
                assert forall|a: int| 0 <= a < merged@.len() implies sorts_before(
                    items@,
                    #[trigger] merged@[a],
                    left@[i as int],
                ) by {
                    if a < before.len() {
                        assert(before[a] == merged@[a]);
                    }
                }
            }
            if take_left && i + 1 < left@.len() {
                assert forall|a: int| 0 <= a < merged@.len() implies sorts_before(
                    items@,
                    #[trigger] merged@[a],
                    left@[i + 1],
                ) by {
                    assert(sorts_before(items@, left@[i as int], left@[i + 1]));
                    if a < before.len() {
                        assert(before[a] == merged@[a]);
                        lemma_sorts_before_transitive(
                            items@,
                            merged@[a],
                            left@[i as int],
                            left@[i + 1],
                        );
                    }
                }
            }
            if !take_left && j + 1 < right@.len() {
                assert forall|a: int| 0 <= a < merged@.len() implies sorts_before(
                    items@,
                    #[trigger] merged@[a],
                    right@[j + 1],
                ) by {
                    assert(sorts_before(items@, right@[j as int], right@[j + 1]));
                    if a < before.len() {
                        assert(before[a] == merged@[a]);
                        lemma_sorts_before_transitive(
                            items@,
                            merged@[a],
                            right@[j as int],
                            right@[j + 1],
                        );
                    }
                }
            }
        }
        if take_left {
            i += 1;
        } else {
            j += 1;
        }
    }
    proof {
        assert forall|p: usize| lo <= p < hi implies #[trigger] merged@.contains(p) by {
            if p < mid {
                let k = left@.index_of(p);
                assert(left@.contains(p));
                assert(merged@.contains(left@[k]));
            } else {
                let k = right@.index_of(p);
                assert(right@.contains(p));
                assert(merged@.contains(right@[k]));
            }
        }
    }
    merged
}

fn sort_range<T: TotalOrder>(items: &[T], lo: usize, hi: usize) -> (order: Vec<usize>)
    requires
        lo <= hi <= items@.len(),
    ensures
        orders_range(items@, order@, lo as int, hi as int),
    decreases hi - lo,
{
    if hi - lo <= 1 {
        let mut order: Vec<usize> = Vec::new();
        if lo < hi {
            order.push(lo);
            assert(order@[0] == lo);
        }
        return order;
    }
    let mid: usize = lo + (hi - lo) / 2;
    let left = sort_range(items, lo, mid);
    let right = sort_range(items, mid, hi);
    merge_orders(items, &left, &right, Ghost(lo as int), Ghost(mid as int), Ghost(hi as int))
}

/// The positions of `items` in the order of a stable sort.
pub fn sorting_order<T: TotalOrder>(items: &[T]) -> (order: Vec<usize>)
    ensures
        is_sorting_order(items@, order@),
{
    sort_range(items, 0, items.len())
}

/// Ascending without repetition.
pub open spec fn strictly_ascending(ids: Seq<u32>) -> bool {
    forall|i: int, j: int| 0 <= i < j < ids.len() ==> #[trigger] ids[i] < #[trigger] ids[j]
}

/// Two strictly ascending lists with the same members are equal.
pub proof fn lemma_ascending_lists_are_determined(left: Seq<u32>, right: Seq<u32>)
    requires
        strictly_ascending(left),
        strictly_ascending(right),
        forall|id: u32| left.contains(id) <==> right.contains(id),
    ensures
        left == right,
    decreases left.len(),
{
    if left.len() == 0 {
        if right.len() > 0 {
            assert(right.contains(right[0]));
            assert(left.contains(right[0]));
        }
        assert(left =~= right);
    } else {
        assert(left.contains(left.last()));
        assert(right.contains(left.last()));
        let k = right.index_of(left.last());
        assert(right.contains(right.last()));
        assert(left.contains(right.last()));
        let m = left.index_of(right.last());
        assert(right[k] <= right.last());
        assert(left[m] <= left.last());
        assert(left.last() == right.last());
        let (l, r) = (left.drop_last(), right.drop_last());
        assert forall|id: u32| l.contains(id) <==> r.contains(id) by {
            if l.contains(id) {
                let n = l.index_of(id);
                assert(left[n] == id);
                assert(left.contains(id));
                assert(right.contains(id));
                let o = right.index_of(id);
                assert(id != right.last());
                assert(r[o] == id);
            }
            if r.contains(id) {
                let n = r.index_of(id);
                assert(right[n] == id);
                assert(right.contains(id));
                assert(left.contains(id));
                let o = left.index_of(id);
                assert(id != left.last());
                assert(l[o] == id);
            }
        }
        lemma_ascending_lists_are_determined(l, r);
        assert(left =~= l.push(left.last()));
        assert(right =~= r.push(right.last()));
    }
}

/// An ascending list with one more member.
pub proof fn lemma_ascending_insert(ids: Seq<u32>, id: u32)
    requires
        strictly_ascending(ids),
    ensures
        exists|wider: Seq<u32>|
            strictly_ascending(wider) && forall|x: u32| #[trigger]
                wider.contains(x) <==> ids.contains(x) || x == id,
    decreases ids.len(),
{
    if ids.contains(id) {
        assert(strictly_ascending(ids));
        assert forall|x: u32| #[trigger] ids.contains(x) <==> ids.contains(x) || x == id by {}
    } else if ids.len() == 0 || ids.last() < id {
        let wider = ids.push(id);
        assert forall|x: u32| #[trigger] wider.contains(x) <==> ids.contains(x) || x == id by {
            if ids.contains(x) {
                let k = ids.index_of(x);
                assert(wider[k] == x);
            }
            assert(wider[ids.len() as int] == id);
            if wider.contains(x) && x != id {
                let k = wider.index_of(x);
                assert(ids[k] == x);
            }
        }
        assert(strictly_ascending(wider));
    } else {
        let prev = ids.drop_last();
        let last = ids.last();
        assert(ids[ids.len() - 1] == last);
        lemma_ascending_insert(prev, id);
        let small = choose|wider: Seq<u32>|
            strictly_ascending(wider) && forall|x: u32| #[trigger]
                wider.contains(x) <==> prev.contains(x) || x == id;
        let wider = small.push(last);
        assert(ids.contains(last));
        assert forall|i: int| 0 <= i < small.len() implies #[trigger] small[i] < last by {
            assert(small.contains(small[i]));
            if prev.contains(small[i]) {
                let k = prev.index_of(small[i]);
                assert(ids[k] < ids[ids.len() - 1]);
            }
        }
        assert forall|x: u32| #[trigger] wider.contains(x) <==> ids.contains(x) || x == id by {
            assert(small.contains(x) <==> prev.contains(x) || x == id);
            if prev.contains(x) {
                let k = prev.index_of(x);
                assert(ids[k] == x);
            }
            if ids.contains(x) && x != last {
                let k = ids.index_of(x);
                assert(prev[k] == x);
            }
            if small.contains(x) {
                let k = small.index_of(x);
                assert(wider[k] == x);
            }
            assert(wider[small.len() as int] == last);
            if wider.contains(x) && x != last {
                let k = wider.index_of(x);
                assert(small[k] == x);
            }
        }
        assert(strictly_ascending(wider));
    }
}

/// `ids` sorted, each value once.
pub fn sort_and_dedup(ids: &Vec<u32>) -> (sorted: Vec<u32>)
    ensures
        strictly_ascending(sorted@),
        forall|id: u32| sorted@.contains(id) <==> ids@.contains(id),
{
    let order = sorting_order(ids.as_slice());
    let mut sorted: Vec<u32> = Vec::with_capacity(ids.len());
    let mut k: usize = 0;
    while k < order.len()
        invariant
            is_sorting_order(ids@, order@),
            k <= order@.len(),
            strictly_ascending(sorted@),
            forall|i: int| 0 <= i < sorted@.len() ==> ids@.contains(#[trigger] sorted@[i]),
            forall|i: int| 0 <= i < k ==> sorted@.contains(ids@[#[trigger] order@[i] as int]),
            sorted@.len() > 0 ==> k > 0 && sorted@.last() == ids@[order@[k - 1] as int],
            k > 0 ==> sorted@.len() > 0,
        decreases order@.len() - k,
    {
        let id: u32 = ids[order[k]];
        proof {
            assert(ids@[order@[k as int] as int] == id);
            if k > 0 {
                assert(sorts_before(ids@, order@[k - 1], order@[k as int]));
            }
        }
        let ghost before = sorted@;
        let is_new: bool = sorted.len() == 0 || sorted[sorted.len() - 1] < id;
        if is_new {
            sorted.push(id);
        }
        k += 1;
        proof {
            assert(is_new ==> sorted@[before.len() as int] == id);
            assert(sorted@.contains(id)) by {
                if !is_new {
                    assert(sorted@[sorted@.len() - 1] == id);
                }
            }
            assert forall|i: int| 0 <= i < k implies sorted@.contains(
                ids@[#[trigger] order@[i] as int],
            ) by {
                if i < k - 1 {
                    let m = before.index_of(ids@[order@[i] as int]);
                    assert(before.contains(ids@[order@[i] as int]));
                    assert(sorted@[m] == before[m]);
                }
            }
        }
    }
    proof {
        assert forall|id: u32| sorted@.contains(id) <==> ids@.contains(id) by {
            if ids@.contains(id) {
                let p = ids@.index_of(id);
                assert(order@.contains(p as usize));
                let i = order@.index_of(p as usize);
                assert(sorted@.contains(ids@[order@[i] as int]));
            }
        }
    }
    sorted
}

/// Members of both lists.
pub fn intersect_sorted_ids(left: &[u32], right: &[u32]) -> (merged: Vec<u32>)
    requires
        strictly_ascending(left@),
        strictly_ascending(right@),
    ensures
        strictly_ascending(merged@),
        forall|id: u32|
            #[trigger] merged@.contains(id) <==> left@.contains(id) && right@.contains(id),
{
    let mut merged: Vec<u32> = Vec::new();
    let mut i: usize = 0;
    let mut j: usize = 0;
    while i < left.len() && j < right.len()
        invariant
            strictly_ascending(left@),
            strictly_ascending(right@),
            i <= left@.len(),
            j <= right@.len(),
            strictly_ascending(merged@),
            forall|k: int|
                0 <= k < merged@.len() ==> left@.contains(#[trigger] merged@[k])
                    && right@.contains(merged@[k]),
            forall|k: int|
                #![trigger merged@[k]]
                0 <= k < merged@.len() ==> {
                    &&& i < left@.len() ==> merged@[k] < left@[i as int]
                    &&& j < right@.len() ==> merged@[k] < right@[j as int]
                },
            forall|a: int, b: int|
                0 <= a < left@.len() && 0 <= b < right@.len() && (a < i || b < j)
                    && #[trigger] left@[a] == #[trigger] right@[b] ==> merged@.contains(left@[a]),
        decreases left@.len() - i + right@.len() - j,
    {
        let l: u32 = left[i];
        let r: u32 = right[j];
        let ghost before = merged@;
        if l < r {
            i += 1;
        } else if r < l {
            j += 1;
        } else {
            merged.push(l);
            proof {
                assert(merged@[before.len() as int] == l);
                assert forall|a: int, b: int|
                    0 <= a < left@.len() && 0 <= b < right@.len() && (a < i + 1 || b < j + 1)
                        && #[trigger] left@[a] == #[trigger] right@[b] implies merged@.contains(
                    left@[a],
                ) by {
                    if a == i || b == j {
                    } else {
                        assert(before.contains(left@[a]));
                        let m = before.index_of(left@[a]);
                        assert(merged@[m] == left@[a]);
                    }
                }
            }
            i += 1;
            j += 1;
        }
    }
    proof {
        assert forall|id: u32|
            left@.contains(id) && right@.contains(id) implies #[trigger] merged@.contains(id) by {
            let a = left@.index_of(id);
            let b = right@.index_of(id);
            assert(left@[a] == right@[b]);
        }
    }
    merged
}

/// Members of either list.
pub fn union_sorted_ids(left: &[u32], right: &[u32]) -> (merged: Vec<u32>)
    requires
        strictly_ascending(left@),
        strictly_ascending(right@),
    ensures
        strictly_ascending(merged@),
        forall|id: u32|
            #[trigger] merged@.contains(id) <==> left@.contains(id) || right@.contains(id),
{
    let mut merged: Vec<u32> = Vec::new();
    let mut i: usize = 0;
    let mut j: usize = 0;
    while i < left.len() || j < right.len()
        invariant
            strictly_ascending(left@),
            strictly_ascending(right@),
            i <= left@.len(),
            j <= right@.len(),
            strictly_ascending(merged@),
            forall|k: int|
                0 <= k < merged@.len() ==> left@.contains(#[trigger] merged@[k]) || right@.contains(
                    merged@[k],
                ),
            forall|k: int|
                #![trigger merged@[k]]
                0 <= k < merged@.len() ==> {
                    &&& i < left@.len() ==> merged@[k] < left@[i as int]
                    &&& j < right@.len() ==> merged@[k] < right@[j as int]
                },
            forall|a: int| 0 <= a < i ==> merged@.contains(#[trigger] left@[a]),
            forall|b: int| 0 <= b < j ==> merged@.contains(#[trigger] right@[b]),
        decreases left@.len() - i + right@.len() - j,
    {
        let ghost before = merged@;
        let take_left: bool = i < left.len() && (j >= right.len() || left[i] <= right[j]);
        let take_right: bool = j < right.len() && (i >= left.len() || right[j] <= left[i]);
        let next: u32 = if take_left {
            left[i]
        } else {
            right[j]
        };
        merged.push(next);
        proof {
            assert(merged@[before.len() as int] == next);
            assert forall|a: int| 0 <= a < i implies merged@.contains(#[trigger] left@[a]) by {
                assert(before.contains(left@[a]));
                let m = before.index_of(left@[a]);
                assert(merged@[m] == left@[a]);
            }
            assert forall|b: int| 0 <= b < j implies merged@.contains(#[trigger] right@[b]) by {
                assert(before.contains(right@[b]));
                let m = before.index_of(right@[b]);
                assert(merged@[m] == right@[b]);
            }
        }
        if take_left {
            i += 1;
        }
        if take_right {
            j += 1;
        }
    }
    proof {
        assert forall|id: u32|
            #[trigger] merged@.contains(id) <==> left@.contains(id) || right@.contains(id) by {
            if left@.contains(id) {
                let a = left@.index_of(id);
                assert(merged@.contains(left@[a]));
            }
            if right@.contains(id) {
                let b = right@.index_of(id);
                assert(merged@.contains(right@[b]));
            }
        }
    }
    merged
}

} // verus!
