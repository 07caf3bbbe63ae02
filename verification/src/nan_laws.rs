//! What becomes of samples that are no numbers.
use crate::algorithms::{consensus_error, single_errors, Profiles};
use crate::ieee;
use crate::ieee::{finite, nan, nan32};
use crate::profile;
use crate::profile::{
    column_sum, column_sums, deviation, difference_added, difference_sum, matching_error, mean_of, overlap_from, overlap_to,
    sample_added, standardized, sum,
};
use crate::recon;
use crate::recon::{carrying, sampled_row, sinogram_sample, sinogram_through};
use crate::resample::{resampled, rotation_by, Rotation};
use crate::stack::Stack;
use crate::unit::{hands_on_nan, FloatUnit};
use crate::value_laws::has_partner;
use vstd::prelude::*;

verus! {

proof fn lemma_column_sum_is_nan<A: FloatUnit>(plane: Seq<u32>, width: usize, y0: int, x: int, row: int, k: int, acc: u64)
    requires
        hands_on_nan::<A>(),
        0 <= row < k,
        nan32(plane[(y0 + row) * width + x]),
        column_sum::<A>(plane, width, y0, x, k, acc),
    ensures
        nan(acc),
    decreases k,
{
    let prev = choose|prev: u64|
        column_sum::<A>(plane, width, y0, x, k - 1, prev) && #[trigger] sample_added::<A>(prev, plane[(y0 + k - 1) * width + x], acc);
    if row < k - 1 {
        lemma_column_sum_is_nan::<A>(plane, width, y0, x, row, k - 1, prev);
    } else {
        assert(y0 + row == y0 + k - 1);
    }
}

proof fn lemma_sum_is_nan<A: FloatUnit>(values: Seq<u64>, at: int, k: int, s: u64)
    requires
        hands_on_nan::<A>(),
        0 <= at < k,
        nan(values[at]),
        sum::<A>(values, k, s),
    ensures
        nan(s),
    decreases k,
{
    let prev = choose|prev: u64| sum::<A>(values, k - 1, prev) && #[trigger] call_ensures(A::plus, (prev, values[k - 1]), s);
    if at < k - 1 {
        lemma_sum_is_nan::<A>(values, at, k - 1, prev);
    }
}

/// A sample of the band that is no number leaves no number in the profile: none
/// is passed over.
pub proof fn law_nan_spreads_over_the_profile<A: FloatUnit>(
    plane: &[u32],
    width: usize,
    y0: usize,
    band: usize,
    row: int,
    x: int,
    out: Vec<u64>,
)
    requires
        hands_on_nan::<A>(),
        0 <= row < band,
        0 <= x < width,
        nan32(plane@[(y0 + row) * width + x]),
        call_ensures(profile::band_profile::<A>, (plane, width, y0, band), out),
    ensures
        out@.len() == width,
        forall|c: int| 0 <= c < width ==> nan(#[trigger] out@[c]),
{
    let (sums, mean, std) = choose|sums: Seq<u64>, mean: u64, std: u64|
        #[trigger] column_sums::<A>(plane@, width, y0 as int, band as int, sums) && #[trigger] mean_of::<A>(sums, mean)
            && #[trigger] deviation::<A>(sums, mean, std) && out@.len() == width && (forall|c: int|
            0 <= c < width ==> standardized::<A>(sums[c], mean, std, #[trigger] out@[c]));
    assert(column_sum::<A>(plane@, width, y0 as int, x, band as int, sums[x]));
    lemma_column_sum_is_nan::<A>(plane@, width, y0 as int, x, row, band as int, sums[x]);
    let (s, n) = choose|s: u64, n: u64|
        #[trigger] sum::<A>(sums, sums.len() as int, s) && #[trigger] call_ensures(A::count, (sums.len() as usize,), n)
            && call_ensures(A::over, (s, n), mean);
    lemma_sum_is_nan::<A>(sums, x, sums.len() as int, s);
    assert forall|c: int| 0 <= c < width implies nan(#[trigger] out@[c]) by {
        assert(standardized::<A>(sums[c], mean, std, out@[c]));
    }
}

proof fn lemma_difference_sum_is_nan<A: FloatUnit>(a: Seq<u64>, f: Seq<u64>, s: int, at: int, k: int, acc: u64)
    requires
        hands_on_nan::<A>(),
        0 <= at < k,
        nan(a[overlap_from(s) + at]) || nan(f[overlap_from(s) + at + s]),
        difference_sum::<A>(a, f, s, k, acc),
    ensures
        nan(acc),
    decreases k,
{
    let prev = choose|prev: u64|
        difference_sum::<A>(a, f, s, k - 1, prev) && #[trigger] difference_added::<A>(
            prev,
            a[overlap_from(s) + k - 1],
            f[overlap_from(s) + k - 1 + s],
            acc,
        );
    if at < k - 1 {
        lemma_difference_sum_is_nan::<A>(a, f, s, at, k - 1, prev);
    } else {
        assert(overlap_from(s) + at == overlap_from(s) + k - 1);
    }
}

/// A column that is no number and has a partner, on either side, leaves no
/// number as the error of the shift.
pub proof fn law_nan_spreads_to_the_shift_error<A: FloatUnit>(a: &Vec<u64>, f: &Vec<u64>, s: isize, x: int, e: u64)
    requires
        hands_on_nan::<A>(),
        a@.len() == f@.len(),
        has_partner(a@.len() as int, x, s as int),
        nan(a@[x]) || nan(f@[x + s]),
        call_ensures(profile::shift_error::<A>, (a, f, s), e),
    ensures
        nan(e),
{
    lemma_error_is_nan::<A>(a@, f@, s as int, x, e);
}

proof fn lemma_error_is_nan<A: FloatUnit>(a: Seq<u64>, f: Seq<u64>, s: int, x: int, e: u64)
    requires
        hands_on_nan::<A>(),
        a.len() == f.len(),
        has_partner(a.len() as int, x, s),
        nan(a[x]) || nan(f[x + s]),
        matching_error::<A>(a, f, s, e),
    ensures
        nan(e),
{
    let w = a.len() as int;
    let (total, n) = choose|total: u64, n: u64|
        #[trigger] difference_sum::<A>(a, f, s, overlap_to(w, s) - overlap_from(s), total) && #[trigger] call_ensures(
            A::offset,
            (profile::overlap_count(w, s) as isize,),
            n,
        ) && call_ensures(A::over, (total, n), e);
    lemma_difference_sum_is_nan::<A>(a, f, s, x - overlap_from(s), overlap_to(w, s) - overlap_from(s), total);
}

/// A pair whose error is no number is not passed over in the consensus.
pub proof fn law_nan_spreads_to_the_consensus<A: FloatUnit>(profiles: Seq<Profiles>, s: int, j: int, x: int, e: u64)
    requires
        hands_on_nan::<A>(),
        0 <= j < profiles.len(),
        profiles[j].0.len() == profiles[j].1.len(),
        has_partner(profiles[j].0.len() as int, x, s),
        nan(profiles[j].0[x]) || nan(profiles[j].1[x + s]),
        consensus_error::<A>(profiles, s, e),
    ensures
        nan(e),
{
    let each = choose|each: Seq<u64>| #[trigger] single_errors::<A>(profiles, s, each) && sum::<A>(each, each.len() as int, e);
    assert(matching_error::<A>(profiles[j].0, profiles[j].1, s, each[j]));
    lemma_error_is_nan::<A>(profiles[j].0, profiles[j].1, s, x, each[j]);
    lemma_sum_is_nan::<A>(each, j, each.len() as int, e);
}

/// A sinogram holds numbers only, whatever the projections hold.
pub proof fn law_sinogram_holds_numbers<A: FloatUnit>(
    stack: &Stack,
    row: usize,
    tilt: u64,
    r: (Vec<u32>, Vec<u64>),
    k: int,
    x: usize,
)
    requires
        hands_on_nan::<A>(),
        stack.wf(),
        call_ensures(recon::extract_sinogram::<A>, (stack, row, tilt), r),
        0 <= k < r.1@.len(),
        x < stack.width,
    ensures
        !nan32(r.0@[k * stack.width + x]),
{
    let (w, h) = (stack.width, stack.height);
    let list = carrying(stack.angles_deg@, stack.n as int);
    let t = choose|t: Rotation|
        #[trigger] rotation_by::<A>(w, h, tilt, t) && sinogram_through::<A>(stack, row, t, r.0@);
    let p = r.0@[k * w + x];
    assert(sinogram_sample::<A>(stack.plane_at(list[k]), w, h, t, x, sampled_row(h, row), p));
    let v = choose|v: u64|
        #[trigger] resampled::<A>(stack.plane_at(list[k]), w, h, t, x, sampled_row(h, row), v) && if finite(v) {
            call_ensures(A::narrow, (v,), p)
        } else {
            p == ieee::ZERO_32
        };
    assert(!nan32(ieee::ZERO_32));
    assert(finite(v) ==> !nan(v));
}

} // verus!
