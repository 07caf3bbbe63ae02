//! Ordering by keys: a stable sort of indices and the first least value.
use crate::ieee;
use crate::ieee::total_place;
use vstd::prelude::*;

verus! {

/// Whether index `a` comes before index `b`: by the first key, then by the
/// second, then as they stand.
pub open spec fn precedes(keys: Seq<(i64, i64)>, a: int, b: int) -> bool {
    ||| keys[a].0 < keys[b].0
    ||| keys[a].0 == keys[b].0 && keys[a].1 < keys[b].1
    ||| keys[a].0 == keys[b].0 && keys[a].1 == keys[b].1 && a < b
}

/// Whether `order` lists the indices `lo..hi`, each after all that precede
/// it.
pub open spec fn orders_range(keys: Seq<(i64, i64)>, lo: int, hi: int, order: Seq<usize>) -> bool {
    &&& order.len() == hi - lo
    &&& forall|k: int| 0 <= k < order.len() ==> lo <= #[trigger] order[k] < hi
    &&& forall|i: int, j: int| 0 <= i < j < order.len() ==> precedes(keys, #[trigger] order[i] as int, #[trigger] order[j] as int)
    &&& forall|x: usize| lo <= x < hi ==> #[trigger] order.contains(x)
}

/// Whether `order` is the stable sort of all indices of `keys`.
pub open spec fn stable_order(keys: Seq<(i64, i64)>, order: Seq<usize>) -> bool {
    orders_range(keys, 0, keys.len() as int, order)
}

/// Whether `k` is the first place of a least value, in the total order.
pub open spec fn first_least(values: Seq<u64>, k: int) -> bool {
    &&& 0 <= k < values.len()
    &&& forall|j: int| 0 <= j < values.len() ==> total_place(values[k]) <= #[trigger] total_place(values[j])
    &&& forall|j: int| 0 <= j < k ==> total_place(values[k]) < #[trigger] total_place(values[j])
}

fn comes_before(keys: &Vec<(i64, i64)>, a: usize, b: usize) -> (r: bool)
    requires
        a < keys@.len(),
        b < keys@.len(),
    ensures
        r == precedes(keys@, a as int, b as int),
{
    let p: (i64, i64) = keys[a];
    let q: (i64, i64) = keys[b];
    p.0 < q.0 || (p.0 == q.0 && (p.1 < q.1 || (p.1 == q.1 && a < b)))
}

/// Merges two sorted neighbouring ranges.
fn merge(keys: &Vec<(i64, i64)>, left: &Vec<usize>, right: &Vec<usize>, Ghost(lo): Ghost<int>, Ghost(mid): Ghost<int>, Ghost(hi): Ghost<int>) -> (out: Vec<usize>)
    requires
        0 <= lo <= mid <= hi <= keys@.len(),
        orders_range(keys@, lo, mid, left@),
        orders_range(keys@, mid, hi, right@),
    ensures
        orders_range(keys@, lo, hi, out@),
{
    let mut out: Vec<usize> = Vec::new();
    let mut i: usize = 0;
    let mut j: usize = 0;
    while i < left.len() || j < right.len()
        invariant
            0 <= lo <= mid <= hi <= keys@.len(),
            orders_range(keys@, lo, mid, left@),
            orders_range(keys@, mid, hi, right@),
            i <= left@.len(),
            j <= right@.len(),
            out@.len() == i + j,
            forall|k: int| 0 <= k < out@.len() ==> lo <= #[trigger] out@[k] < hi,
            forall|a: int, b: int| 0 <= a < b < out@.len() ==> precedes(keys@, #[trigger] out@[a] as int, #[trigger] out@[b] as int),
            forall|a: int, b: int|
                0 <= a < out@.len() && i <= b < left@.len() ==> precedes(keys@, #[trigger] out@[a] as int, #[trigger] left@[b] as int),
            forall|a: int, b: int|
                0 <= a < out@.len() && j <= b < right@.len() ==> precedes(keys@, #[trigger] out@[a] as int, #[trigger] right@[b] as int),
            forall|a: int| 0 <= a < i ==> out@.contains(#[trigger] left@[a]),
            forall|b: int| 0 <= b < j ==> out@.contains(#[trigger] right@[b]),
        decreases left@.len() - i + right@.len() - j,
    {
        let ghost before = out@;
        let from_left: bool = j >= right.len() || (i < left.len() && comes_before(keys, left[i], right[j]));
        if from_left {
            out.push(left[i]);
            assert(out@[before.len() as int] == left@[i as int]);
            assert forall|a: int, b: int| 0 <= a < out@.len() && j <= b < right@.len() implies precedes(
                keys@,
                #[trigger] out@[a] as int,
                #[trigger] right@[b] as int,
            ) by {
                if a == before.len() && b > j {
                    assert(precedes(keys@, left@[i as int] as int, right@[j as int] as int));
                    assert(precedes(keys@, right@[j as int] as int, right@[b] as int));
                }
            }
            i = i + 1;
        } else {
            out.push(right[j]);
            assert(out@[before.len() as int] == right@[j as int]);
            assert forall|a: int, b: int| 0 <= a < out@.len() && i <= b < left@.len() implies precedes(
                keys@,
                #[trigger] out@[a] as int,
                #[trigger] left@[b] as int,
            ) by {
                if a == before.len() {
                    // The right head is not preceded by the left head, and
                    // the two are different indices.
                    assert(precedes(keys@, right@[j as int] as int, left@[i as int] as int));
                    if b > i {
                        assert(precedes(keys@, left@[i as int] as int, left@[b] as int));
                    }
                }
            }
            j = j + 1;
        }
        assert forall|a: int| 0 <= a < i implies out@.contains(#[trigger] left@[a]) by {
            if from_left && a == i - 1 {
                assert(out@[before.len() as int] == left@[a]);
            } else {
                let w = choose|w: int| 0 <= w < before.len() && before[w] == left@[a];
                assert(out@[w] == left@[a]);
            }
        }
        assert forall|b: int| 0 <= b < j implies out@.contains(#[trigger] right@[b]) by {
            if !from_left && b == j - 1 {
                assert(out@[before.len() as int] == right@[b]);
            } else {
                let w = choose|w: int| 0 <= w < before.len() && before[w] == right@[b];
                assert(out@[w] == right@[b]);
            }
        }
    }
    assert forall|x: usize| lo <= x < hi implies #[trigger] out@.contains(x) by {
        if x < mid {
            assert(left@.contains(x));
            let w = choose|w: int| 0 <= w < left@.len() && left@[w] == x;
            assert(out@.contains(left@[w]));
        } else {
            assert(right@.contains(x));
            let w = choose|w: int| 0 <= w < right@.len() && right@[w] == x;
            assert(out@.contains(right@[w]));
        }
    }
    out
}

/// Merge sort of the indices `lo..hi`.
fn sort_range(keys: &Vec<(i64, i64)>, lo: usize, hi: usize) -> (out: Vec<usize>)
    requires
        lo <= hi <= keys@.len(),
    ensures
        orders_range(keys@, lo as int, hi as int, out@),
    decreases hi - lo,
{
    if hi - lo <= 1 {
        let mut out: Vec<usize> = Vec::new();
        if lo < hi {
            out.push(lo);
            assert(out@[0] == lo);
            assert forall|x: usize| lo <= x < hi implies #[trigger] out@.contains(x) by {
                assert(x == out@[0]);
            }
        }
        return out;
    }
    let mid: usize = lo + (hi - lo) / 2;
    let left: Vec<usize> = sort_range(keys, lo, mid);
    let right: Vec<usize> = sort_range(keys, mid, hi);
    merge(keys, &left, &right, Ghost(lo as int), Ghost(mid as int), Ghost(hi as int))
}

/// The indices of `keys` in stable order of their keys.
pub fn sorted_indices(keys: &Vec<(i64, i64)>) -> (out: Vec<usize>)
    ensures
        stable_order(keys@, out@),
{
    sort_range(keys, 0, keys.len())
}

/// The first place of a least value; `None` when there is no value at all.
pub fn least_index(values: &Vec<u64>) -> (r: Option<usize>)
    ensures
        r is None <==> values@.len() == 0,
        r matches Some(k) ==> first_least(values@, k as int),
{
    if values.len() == 0 {
        return None;
    }
    let mut k: usize = 0;
    let mut i: usize = 1;
    while i < values.len()
        invariant
            k < i <= values@.len(),
            forall|j: int| 0 <= j < i ==> total_place(values@[k as int]) <= #[trigger] total_place(values@[j]),
            forall|j: int| 0 <= j < k ==> total_place(values@[k as int]) < #[trigger] total_place(values@[j]),
        decreases values@.len() - i,
    {
        if ieee::total_key(values[i]) < ieee::total_key(values[k]) {
            k = i;
        }
        i = i + 1;
    }
    Some(k)
}

/// A stable order is the only one: two lists that both sort the same keys
/// are the same list.
pub proof fn law_stable_order_is_unique(keys: Seq<(i64, i64)>, p: Seq<usize>, q: Seq<usize>)
    requires
        stable_order(keys, p),
        stable_order(keys, q),
    ensures
        p == q,
{
    lemma_orders_agree(keys, p, q, p.len() as int);
    assert(p =~= q);
}

proof fn lemma_orders_agree(keys: Seq<(i64, i64)>, p: Seq<usize>, q: Seq<usize>, n: int)
    requires
        stable_order(keys, p),
        stable_order(keys, q),
        0 <= n <= p.len(),
    ensures
        forall|i: int| 0 <= i < n ==> p[i] == q[i],
    decreases n,
{
    if n > 0 {
        let m = n - 1;
        lemma_orders_agree(keys, p, q, m);
        assert(q.contains(p[m]));
        let a = choose|a: int| 0 <= a < q.len() && q[a] == p[m];
        assert(p.contains(q[m]));
        let b = choose|b: int| 0 <= b < p.len() && p[b] == q[m];
        if a < m {
            assert(p[a] == q[a]);
            assert(precedes(keys, p[a] as int, p[m] as int));
        }
        if b < m {
            assert(p[b] == q[b]);
            assert(precedes(keys, q[b] as int, q[m] as int));
        }
        if a > m {
            assert(precedes(keys, q[m] as int, q[a] as int));
            assert(b >= m);
            if b > m {
                assert(precedes(keys, p[m] as int, p[b] as int));
            }
        }
    }
}

} // verus!
