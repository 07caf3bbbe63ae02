//! Finding the opposite (180 degrees apart) projection pairs the tilt and
//! center-of-rotation estimation is built on.
use crate::ieee;
use crate::ieee::{absolute, at_most, finite, total_place};
use crate::order;
use crate::order::precedes;
use crate::unit::FloatUnit;
use vstd::prelude::*;

verus! {

/// One opposite pair: projection indices and their angles (bits of doubles,
/// in degrees).
#[derive(Clone, Copy, Debug, PartialEq, Eq, Structural)]
pub struct Pair {
    pub i: usize,
    pub j: usize,
    pub angle_i: u64,
    pub angle_j: u64,
    /// How far `angle_j - angle_i`, taken modulo 360, is from 180, degrees.
    pub error_deg: u64,
}

/// `e` is how far `b` is from being opposite to `a`: the distance from 180 of
/// the difference taken modulo 360.
pub open spec fn opposition_error<A: FloatUnit>(a: u64, b: u64, e: u64) -> bool {
    exists|t: u64, d: u64, m: u64|
        #[trigger] call_ensures(A::minus, (b, a), t) && #[trigger] call_ensures(A::remainder, (t, ieee::FULL_TURN), d)
            && #[trigger] call_ensures(A::minus, (d, ieee::HALF_TURN), m) && e == absolute(m)
}

/// Whether `p` pairs two projections of the scan that are opposite within
/// `tol`.
pub open spec fn is_opposite<A: FloatUnit>(angles: Seq<u64>, tol: u64, p: Pair) -> bool {
    &&& p.i < p.j < angles.len()
    &&& finite(angles[p.i as int]) && finite(angles[p.j as int])
    &&& p.angle_i == angles[p.i as int] && p.angle_j == angles[p.j as int]
    &&& opposition_error::<A>(p.angle_i, p.angle_j, p.error_deg)
    &&& at_most(p.error_deg, tol)
}

/// Whether the projections `i` and `j` were found not to be opposite.
pub open spec fn rejected<A: FloatUnit>(angles: Seq<u64>, tol: u64, i: int, j: int) -> bool {
    ||| !finite(angles[i])
    ||| !finite(angles[j])
    ||| exists|e: u64| #[trigger] opposition_error::<A>(angles[i], angles[j], e) && !at_most(e, tol)
}

/// Whether `pairs` lists the projections `i` and `j`.
pub open spec fn lists(pairs: Seq<Pair>, i: int, j: int) -> bool {
    exists|k: int| 0 <= k < pairs.len() && (#[trigger] pairs[k]).i == i && pairs[k].j == j
}

/// Whether `p` stands before `q`: the more exact pair first, then the smaller
/// first angle, then as the scan was taken.
pub open spec fn pair_precedes(p: Pair, q: Pair) -> bool {
    let (ep, eq) = (total_place(p.error_deg), total_place(q.error_deg));
    let (ap, aq) = (total_place(p.angle_i), total_place(q.angle_i));
    ||| ep < eq
    ||| ep == eq && ap < aq
    ||| ep == eq && ap == aq && scanned_before(p, q)
}

/// Whether `p` comes before `q` in the order of their indices.
pub open spec fn scanned_before(p: Pair, q: Pair) -> bool {
    p.i < q.i || (p.i == q.i && p.j < q.j)
}

/// `text` is the pair as the pair list shows it: both angles and how far they
/// are from being opposite, with two digits behind the point.
pub open spec fn labelled<A: FloatUnit>(p: Pair, text: Seq<char>) -> bool {
    exists|x: String, y: String, z: String|
        #[trigger] call_ensures(A::fixed2, (p.angle_i,), x) && #[trigger] call_ensures(A::fixed2, (p.angle_j,), y)
            && #[trigger] call_ensures(A::fixed2, (p.error_deg,), z) && text == x@ + "° / "@ + y@ + "°  (Δ "@ + z@ + "°)"@
}

/// The distance from being opposite.
fn error_of<A: FloatUnit>(a: u64, b: u64) -> (e: u64)
    ensures
        opposition_error::<A>(a, b, e),
{
    let t: u64 = A::minus(b, a);
    let d: u64 = A::remainder(t, ieee::FULL_TURN);
    let m: u64 = A::minus(d, ieee::HALF_TURN);
    ieee::abs(m)
}

impl Pair {
    /// The pair as the pair list shows it.
    pub fn label<A: FloatUnit>(&self) -> (r: String)
        ensures
            labelled::<A>(*self, r@),
    {
        let x: String = A::fixed2(self.angle_i);
        let y: String = A::fixed2(self.angle_j);
        let z: String = A::fixed2(self.error_deg);
        let mut r: String = String::new();
        r.append(x.as_str());
        r.append("° / ");
        r.append(y.as_str());
        r.append("°  (Δ ");
        r.append(z.as_str());
        r.append("°)");
        assert(r@ =~= x@ + "° / "@ + y@ + "°  (Δ "@ + z@ + "°)"@);
        r
    }
}

/// The pairs of the scan within `tol`, in the order of their indices.
fn scan<A: FloatUnit>(angles_deg: &[u64], tol_deg: u64) -> (found: Vec<Pair>)
    ensures
        forall|k: int| 0 <= k < found@.len() ==> is_opposite::<A>(angles_deg@, tol_deg, #[trigger] found@[k]),
        forall|k: int, l: int| 0 <= k < l < found@.len() ==> scanned_before(#[trigger] found@[k], #[trigger] found@[l]),
        forall|i: int, j: int|
            0 <= i < j < angles_deg@.len() ==> #[trigger] lists(found@, i, j) || rejected::<A>(angles_deg@, tol_deg, i, j),
{
    let mut found: Vec<Pair> = Vec::new();
    let n: usize = angles_deg.len();
    let mut i: usize = 0;
    while i < n
        invariant
            n == angles_deg@.len(),
            i <= n,
            forall|k: int| 0 <= k < found@.len() ==> is_opposite::<A>(angles_deg@, tol_deg, #[trigger] found@[k]) && found@[k].i < i,
            forall|k: int, l: int| 0 <= k < l < found@.len() ==> scanned_before(#[trigger] found@[k], #[trigger] found@[l]),
            forall|p: int, q: int|
                0 <= p < q < n && p < i ==> #[trigger] lists(found@, p, q) || rejected::<A>(angles_deg@, tol_deg, p, q),
        decreases n - i,
    {
        let a: u64 = angles_deg[i];
        if ieee::is_finite(a) {
            let mut j: usize = i + 1;
            while j < n
                invariant
                    n == angles_deg@.len(),
                    i < j <= n,
                    a == angles_deg@[i as int],
                    finite(a),
                    forall|k: int|
                        0 <= k < found@.len() ==> is_opposite::<A>(angles_deg@, tol_deg, #[trigger] found@[k])
                            && (found@[k].i < i || (found@[k].i == i && found@[k].j < j)),
                    forall|k: int, l: int|
                        0 <= k < l < found@.len() ==> scanned_before(#[trigger] found@[k], #[trigger] found@[l]),
                    forall|p: int, q: int|
                        0 <= p < q < n && (p < i || (p == i && q < j)) ==> #[trigger] lists(found@, p, q)
                            || rejected::<A>(angles_deg@, tol_deg, p, q),
                decreases n - j,
            {
                let ghost before = found@;
                let b: u64 = angles_deg[j];
                if ieee::is_finite(b) {
                    let error: u64 = error_of::<A>(a, b);
                    if ieee::less_or_equal(error, tol_deg) {
                        found.push(Pair { i, j, angle_i: a, angle_j: b, error_deg: error });
                        assert(found@[before.len() as int].i == i);
                        assert(lists(found@, i as int, j as int));
                    }
                }
                assert forall|p: int, q: int|
                    0 <= p < q < n && (p < i || (p == i && q < j + 1)) implies #[trigger] lists(found@, p, q)
                    || rejected::<A>(angles_deg@, tol_deg, p, q) by {
                    if lists(before, p, q) {
                        let k = choose|k: int| 0 <= k < before.len() && (#[trigger] before[k]).i == p && before[k].j == q;
                        assert(found@[k] == before[k]);
                    }
                }
                j = j + 1;
            }
        }
        i = i + 1;
    }
    found
}

/// Every pair of projections 180° apart within `tol_deg`, sorted by how
/// exactly opposite they are (then by angle). Angles are compared modulo
/// 360 so a 0–360 scan pairs 350° with 170° too; NaN angles never pair.
pub fn opposite_pairs<A: FloatUnit>(angles_deg: &[u64], tol_deg: u64) -> (pairs: Vec<Pair>)
    ensures
        forall|k: int| 0 <= k < pairs@.len() ==> is_opposite::<A>(angles_deg@, tol_deg, #[trigger] pairs@[k]),
        forall|k: int, l: int| 0 <= k < l < pairs@.len() ==> pair_precedes(#[trigger] pairs@[k], #[trigger] pairs@[l]),
        forall|i: int, j: int|
            0 <= i < j < angles_deg@.len() ==> #[trigger] lists(pairs@, i, j) || rejected::<A>(angles_deg@, tol_deg, i, j),
{
    let found: Vec<Pair> = scan::<A>(angles_deg, tol_deg);
    let mut keys: Vec<(i64, i64)> = Vec::new();
    let mut k: usize = 0;
    while k < found.len()
        invariant
            k <= found@.len(),
            keys@.len() == k,
            forall|l: int|
                0 <= l < k ==> (#[trigger] keys@[l]).0 == total_place(found@[l].error_deg) && keys@[l].1 == total_place(
                    found@[l].angle_i,
                ),
        decreases found@.len() - k,
    {
        keys.push((ieee::total_key(found[k].error_deg), ieee::total_key(found[k].angle_i)));
        k = k + 1;
    }
    let sorted: Vec<usize> = order::sorted_indices(&keys);
    let mut pairs: Vec<Pair> = Vec::new();
    let mut m: usize = 0;
    while m < sorted.len()
        invariant
            m <= sorted@.len() == found@.len(),
            pairs@.len() == m,
            forall|l: int| 0 <= l < sorted@.len() ==> 0 <= #[trigger] sorted@[l] < found@.len(),
            forall|l: int| 0 <= l < m ==> #[trigger] pairs@[l] == found@[sorted@[l] as int],
        decreases sorted@.len() - m,
    {
        pairs.push(found[sorted[m]]);
        m = m + 1;
    }
    assert forall|k: int, l: int| 0 <= k < l < pairs@.len() implies pair_precedes(#[trigger] pairs@[k], #[trigger] pairs@[l]) by {
        assert(precedes(keys@, sorted@[k] as int, sorted@[l] as int));
    }
    assert forall|i: int, j: int| 0 <= i < j < angles_deg@.len() implies #[trigger] lists(pairs@, i, j) || rejected::<A>(
        angles_deg@,
        tol_deg,
        i,
        j,
    ) by {
        if lists(found@, i, j) {
            let x = choose|x: int| 0 <= x < found@.len() && (#[trigger] found@[x]).i == i && found@[x].j == j;
            assert(sorted@.contains(x as usize));
            let l = choose|l: int| 0 <= l < sorted@.len() && sorted@[l] == x as usize;
            assert(pairs@[l] == found@[x]);
        }
    }
    pairs
}

/// The order of the pairs is a strict one: of two pairs that stand one before
/// the other, the other does not stand before the one, so no pair is listed
/// twice; and it carries on along the list.
pub proof fn law_pairs_are_strictly_ordered(p: Pair, q: Pair, r: Pair)
    requires
        pair_precedes(p, q),
    ensures
        !pair_precedes(q, p),
        p != q,
        pair_precedes(q, r) ==> pair_precedes(p, r),
{
}

} // verus!
