//! Which projections are paired, in values: with a unit that rounds only where
//! it has to, exactly those that are opposite within the tolerance.
use crate::app::pairs_of;
use crate::fit_laws::unity;
use crate::ieee;
use crate::ieee::{
    absolute, at_most, finite, law_rank_orders_the_values, lemma_turns, nan, representable, scaled, total_place,
};
use crate::pairs;
use crate::pairs::{is_opposite, lists, opposition_error, pair_precedes, rejected, Pair};
use crate::unit::{rounds_only_if_needed, FloatUnit};
use vstd::prelude::*;

verus! {

/// How far two angles are from being opposite: the distance from 180 degrees
/// of their difference modulo 360 degrees.
pub open spec fn opposition_value(a: int, b: int) -> int {
    let d = (b - a) % (360 * unity());
    if d >= 180 * unity() {
        d - 180 * unity()
    } else {
        180 * unity() - d
    }
}

/// Whether that distance is made of doubles.
pub open spec fn opposition_fits(a: int, b: int) -> bool {
    let d = (b - a) % (360 * unity());
    &&& representable(b - a)
    &&& representable(d)
    &&& representable(d - 180 * unity())
}

/// Whether the distances of all finite angles are made of doubles.
pub open spec fn angles_fit(angles: Seq<u64>) -> bool {
    forall|i: int, j: int|
        0 <= i < j < angles.len() && finite(#[trigger] angles[i]) && finite(#[trigger] angles[j]) ==> opposition_fits(
            scaled(angles[i]),
            scaled(angles[j]),
        )
}

proof fn lemma_opposition_value<A: FloatUnit>(a: u64, b: u64, e: u64)
    requires
        rounds_only_if_needed::<A>(),
        finite(a),
        finite(b),
        opposition_fits(scaled(a), scaled(b)),
        opposition_error::<A>(a, b, e),
    ensures
        finite(e),
        !ieee::negative(e),
        scaled(e) == opposition_value(scaled(a), scaled(b)),
{
    lemma_turns();
    let (t, d, m) = choose|t: u64, d: u64, m: u64|
        #[trigger] call_ensures(A::minus, (b, a), t) && #[trigger] call_ensures(A::remainder, (t, ieee::FULL_TURN), d)
            && #[trigger] call_ensures(A::minus, (d, ieee::HALF_TURN), m) && e == absolute(m);
    assert(finite(ieee::FULL_TURN) && finite(ieee::HALF_TURN));
    assert(finite(t) && scaled(t) == scaled(b) - scaled(a));
    assert(finite(d) && scaled(d) == (scaled(b) - scaled(a)) % (360 * unity()));
    assert(finite(m) && scaled(m) == scaled(d) - 180 * unity());
    law_rank_orders_the_values(ieee::ZERO, m);
    law_rank_orders_the_values(m, ieee::ZERO);
}

/// Whether `r` lists exactly the pairs of finite angles whose difference modulo
/// 360 degrees is within the tolerance of 180 degrees: each of them once, with
/// its angles and how far it is off, the most exact first, then the smaller
/// first angle, then as the scan was taken.
pub open spec fn lists_those_within(angles: Seq<u64>, tol: u64, r: Seq<Pair>) -> bool {
    &&& forall|i: int, j: int|
        0 <= i < j < angles.len() ==> ((exists|k: int| 0 <= k < r.len() && (#[trigger] r[k]).i == i && r[k].j == j) <==> finite(
            #[trigger] angles[i],
        ) && finite(#[trigger] angles[j]) && opposition_value(scaled(angles[i]), scaled(angles[j])) <= scaled(tol))
    &&& forall|k: int|
        0 <= k < r.len() ==> {
            let p = #[trigger] r[k];
            &&& p.i < p.j < angles.len()
            &&& p.angle_i == angles[p.i as int]
            &&& p.angle_j == angles[p.j as int]
            &&& finite(p.error_deg)
            &&& scaled(p.error_deg) == opposition_value(scaled(p.angle_i), scaled(p.angle_j))
        }
    &&& forall|k: int, l: int|
        0 <= k < l < r.len() ==> {
            let (p, q) = (#[trigger] r[k], #[trigger] r[l]);
            &&& (p.i, p.j) != (q.i, q.j)
            &&& scaled(p.error_deg) <= scaled(q.error_deg)
            &&& scaled(p.error_deg) == scaled(q.error_deg) ==> scaled(p.angle_i) <= scaled(q.angle_i)
            &&& scaled(p.error_deg) == scaled(q.error_deg) && p.angle_i == q.angle_i ==> p.i < q.i || p.i == q.i && p.j < q.j
        }
}

pub proof fn lemma_lists_those_within<A: FloatUnit>(angles: Seq<u64>, tol: u64, r: Seq<Pair>)
    requires
        rounds_only_if_needed::<A>(),
        angles_fit(angles),
        !nan(tol),
        pairs_of::<A>(angles, tol, r),
    ensures
        lists_those_within(angles, tol, r),
{
    assert forall|k: int| 0 <= k < r.len() implies {
        let p = #[trigger] r[k];
        &&& p.i < p.j < angles.len()
        &&& p.angle_i == angles[p.i as int]
        &&& p.angle_j == angles[p.j as int]
        &&& finite(p.error_deg)
        &&& !ieee::negative(p.error_deg)
        &&& finite(p.angle_i)
        &&& finite(p.angle_j)
        &&& scaled(p.error_deg) == opposition_value(scaled(p.angle_i), scaled(p.angle_j))
        &&& scaled(p.error_deg) <= scaled(tol)
    } by {
        let p = r[k];
        assert(is_opposite::<A>(angles, tol, p));
        lemma_opposition_value::<A>(p.angle_i, p.angle_j, p.error_deg);
        law_rank_orders_the_values(p.error_deg, tol);
    }
    assert forall|i: int, j: int| 0 <= i < j < angles.len() implies ((exists|k: int|
        0 <= k < r.len() && (#[trigger] r[k]).i == i && r[k].j == j) <==> finite(#[trigger] angles[i]) && finite(
        #[trigger] angles[j],
    ) && opposition_value(scaled(angles[i]), scaled(angles[j])) <= scaled(tol)) by {
        let (a, b) = (angles[i], angles[j]);
        if finite(a) && finite(b) && opposition_value(scaled(a), scaled(b)) <= scaled(tol) {
            assert(lists(r, i, j) || rejected::<A>(angles, tol, i, j));
            if rejected::<A>(angles, tol, i, j) {
                let e = choose|e: u64| #[trigger] opposition_error::<A>(a, b, e) && !at_most(e, tol);
                lemma_opposition_value::<A>(a, b, e);
                law_rank_orders_the_values(e, tol);
            }
        }
    }
    assert forall|k: int, l: int| 0 <= k < l < r.len() implies {
        let (p, q) = (#[trigger] r[k], #[trigger] r[l]);
        &&& (p.i, p.j) != (q.i, q.j)
        &&& scaled(p.error_deg) <= scaled(q.error_deg)
        &&& scaled(p.error_deg) == scaled(q.error_deg) ==> scaled(p.angle_i) <= scaled(q.angle_i)
        &&& scaled(p.error_deg) == scaled(q.error_deg) && p.angle_i == q.angle_i ==> p.i < q.i || p.i == q.i && p.j < q.j
    } by {
        let (p, q) = (r[k], r[l]);
        assert(pair_precedes(p, q));
        law_rank_orders_the_values(p.error_deg, q.error_deg);
        law_rank_orders_the_values(q.error_deg, p.error_deg);
        law_rank_orders_the_values(p.angle_i, q.angle_i);
        assert(total_place(p.error_deg) <= total_place(q.error_deg));
    }
}

/// The pairs that are listed are exactly those of finite angles whose
/// difference modulo 360 degrees is within the tolerance of 180 degrees.
pub proof fn law_pairs_are_those_within_the_tolerance<A: FloatUnit>(angles: &[u64], tol: u64, r: Vec<Pair>)
    requires
        rounds_only_if_needed::<A>(),
        angles_fit(angles@),
        !nan(tol),
        call_ensures(pairs::opposite_pairs::<A>, (angles, tol), r),
    ensures
        lists_those_within(angles@, tol, r@),
{
    lemma_lists_those_within::<A>(angles@, tol, r@);
}

/// Nothing is opposite within a tolerance that is no number.
pub proof fn law_no_number_tolerates_nothing<A: FloatUnit>(angles: &[u64], tol: u64, r: Vec<Pair>)
    requires
        nan(tol),
        call_ensures(pairs::opposite_pairs::<A>, (angles, tol), r),
    ensures
        r@.len() == 0,
{
    if r@.len() > 0 {
        assert(is_opposite::<A>(angles@, tol, r@[0]));
    }
}

} // verus!
