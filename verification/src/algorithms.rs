//! Tilt and center-of-rotation estimation from opposite projection pairs.
//!
//! Geometry: with the rotation axis at (possibly tilted) column `c(y)`, a
//! parallel-beam projection and its 180° opposite mirror into each other,
//! `p_θ(y, x) = p_{θ+180}(y, 2·c(y) − x)`. Flipping the opposite projection
//! horizontally turns that mirror relation into a plain shift per row,
//! `s(y) = w − 1 − 2·c(y)`, so estimating the axis is: find the sub-pixel
//! shift best aligning each row band, convert to an axis column, and fit a
//! line through the per-row columns.
//!
//! The shifts are signed: the estimators take stacks of up to `isize::MAX / 4`
//! columns. No plane of singles that fits in memory has more.
use crate::fit;
use crate::fit::estimated;
pub use crate::fit::{Estimate, RowEstimate};
use crate::ieee;
use crate::pairs::{labelled, Pair};
use crate::profile;
use crate::profile::{
    aligning_shift, degenerate, law_only_empty_profiles_are_degenerate, matching_error, normalized_profile, refined_shift,
    search_radius, sum,
};
use crate::resample;
use crate::resample::{rotated, rotation_by, Rotation};
use crate::stack::{lemma_plane_fits, Stack};
use crate::text;
use crate::text::decimal;
use crate::unit;
use crate::unit::{last_place, middle, FloatUnit};
use vstd::prelude::*;

verus! {

/// How the row bands are sampled and matched.
#[derive(Clone, Copy, Debug, PartialEq, Eq, Structural)]
pub struct Params {
    /// Inclusive row range used (clamped to the stack).
    pub y_top: usize,
    pub y_bottom: usize,
    /// Every `ystep`-th row starts a band.
    pub ystep: usize,
    /// Rows averaged into each band's profile (SNR boost).
    pub band: usize,
    /// Largest |shift| searched, px (axis assumed within `max_shift/2` of
    /// the detector center).
    pub max_shift: usize,
}

/// The larger of two counts.
pub open spec fn at_least(n: usize, least: usize) -> usize {
    if n < least {
        least
    } else {
        n
    }
}

/// The smaller of two counts.
pub open spec fn no_more_than(n: usize, most: int) -> int {
    if n > most {
        most
    } else {
        n as int
    }
}

impl Params {
    /// The rows of a band.
    pub open spec fn band_rows(&self) -> usize {
        at_least(self.band, 1)
    }

    /// The rows from one band to the next.
    pub open spec fn step(&self) -> usize {
        at_least(self.ystep, 1)
    }

    /// The first row used.
    pub open spec fn top(&self, height: usize) -> int {
        no_more_than(self.y_top, height - 1)
    }

    /// The last row used.
    pub open spec fn bottom(&self, height: usize) -> int {
        no_more_than(self.y_bottom, height - 1)
    }

    /// The settings for a stack of this size: the rows but a margin of a
    /// twentieth at either end, about sixty bands of five rows, and shifts up
    /// to a third of the width.
    pub fn defaults_for(height: usize, width: usize) -> (r: Self)
        requires
            height > 0,
        ensures
            r.y_top == height / 20,
            r.y_bottom == height - 1 - height / 20,
            r.ystep == at_least(height / 60, 1),
            r.band == 5,
            r.max_shift == at_least(width / 3, 10),
    {
        let ystep: usize = height / 60;
        let max_shift: usize = width / 3;
        Params {
            y_top: height / 20,
            y_bottom: height - 1 - height / 20,
            ystep: if ystep < 1 {
                1
            } else {
                ystep
            },
            band: 5,
            max_shift: if max_shift < 10 {
                10
            } else {
                max_shift
            },
        }
    }
}

/// `row` is the center of a band of `band` rows from `y` on.
pub open spec fn band_center<A: FloatUnit>(y: usize, band: usize, row: u64) -> bool {
    exists|start: u64, half: u64|
        #[trigger] call_ensures(A::count, (y,), start) && #[trigger] middle::<A>(band, half) && call_ensures(
            A::plus,
            (start, half),
            row,
        )
}

/// `out` lists all bands: they start at the top row and then at every step, as
/// long as they end at or above the bottom row. What does not fit into the row
/// range is no band.
pub open spec fn bands_of<A: FloatUnit>(height: usize, params: Params, out: Seq<(usize, u64)>) -> bool {
    let (band, step) = (params.band_rows(), params.step());
    let (top, bottom) = (params.top(height), params.bottom(height));
    &&& forall|k: int|
        0 <= k < out.len() ==> (#[trigger] out[k]).0 == top + k * step && out[k].0 + band <= bottom + 1 && band_center::<A>(
            out[k].0,
            band,
            out[k].1,
        )
    &&& top + out.len() * step + band > bottom + 1
}

/// Row bands of `params`, clamped to the stack: `(band_start, center_row)`.
/// Public so the UI can show how many sample points the settings produce.
pub fn bands<A: FloatUnit>(height: usize, params: &Params) -> (out: Vec<(usize, u64)>)
    requires
        height > 0,
    ensures
        bands_of::<A>(height, *params, out@),
        forall|k: int| 0 <= k < out@.len() ==> (#[trigger] out@[k]).0 + params.band_rows() <= height,
{
    let band: usize = if params.band < 1 {
        1
    } else {
        params.band
    };
    let step: usize = if params.ystep < 1 {
        1
    } else {
        params.ystep
    };
    let top: usize = if params.y_top > height - 1 {
        height - 1
    } else {
        params.y_top
    };
    let bottom: usize = if params.y_bottom > height - 1 {
        height - 1
    } else {
        params.y_bottom
    };
    let mut out: Vec<(usize, u64)> = Vec::new();
    assert(0 * step == 0) by (nonlinear_arith);
    if band > bottom + 1 || top > bottom + 1 - band {
        return out;
    }
    let limit: usize = bottom + 1 - band;
    let mut y: usize = top;
    loop
        invariant
            band == params.band_rows(),
            step == params.step(),
            top == params.top(height),
            bottom == params.bottom(height),
            bottom < height,
            limit == bottom + 1 - band,
            y == top + out@.len() * step,
            y <= limit,
            forall|k: int|
                0 <= k < out@.len() ==> (#[trigger] out@[k]).0 == top + k * step && out@[k].0 + band <= bottom + 1
                    && band_center::<A>(out@[k].0, band, out@[k].1),
        decreases limit - y,
    {
        let start: u64 = A::count(y);
        let half: u64 = unit::middle_of::<A>(band);
        let row: u64 = A::plus(start, half);
        assert(band_center::<A>(y, band, row));
        let ghost n = out@.len();
        out.push((y, row));
        assert((n + 1) * step == n * step + step) by (nonlinear_arith);
        if step > limit - y {
            return out;
        }
        y = y + step;
    }
}

/// `c` is the axis column that the shift `s` of a flipped projection stands
/// for.
pub open spec fn axis_column<A: FloatUnit>(w: usize, s: u64, c: u64) -> bool {
    exists|last: u64, d: u64|
        #[trigger] last_place::<A>(w, last) && #[trigger] call_ensures(A::minus, (last, s), d) && call_ensures(
            A::over,
            (d, ieee::TWO),
            c,
        )
}

/// `a` is the profile of a projection and `f` the flipped profile of its
/// opposite, over the same rows.
pub open spec fn pair_profiles<A: FloatUnit>(stack: &Stack, pair: Pair, y0: int, band: int, a: Seq<u64>, f: Seq<u64>) -> bool {
    &&& normalized_profile::<A>(stack.plane_at(pair.i as int), stack.width, y0, band, a)
    &&& exists|g: Seq<u64>|
        #[trigger] normalized_profile::<A>(stack.plane_at(pair.j as int), stack.width, y0, band, g) && f == g.reverse()
}

/// `c` is the axis column that one pair gives at a band.
pub open spec fn pair_axis<A: FloatUnit>(stack: &Stack, pair: Pair, y0: int, band: int, max_shift: usize, c: u64) -> bool {
    exists|a: Seq<u64>, f: Seq<u64>, s: u64|
        #[trigger] pair_profiles::<A>(stack, pair, y0, band, a, f) && #[trigger] aligning_shift::<A>(a, f, max_shift, s)
            && axis_column::<A>(stack.width, s, c)
}

/// Whether `b` mirrors `a` about the column `c` (`twice_c` is `2·c`), as far as
/// both have the columns.
pub open spec fn mirrored(a: Seq<u64>, b: Seq<u64>, twice_c: int) -> bool {
    &&& a.len() == b.len()
    &&& forall|x: int| 0 <= x < a.len() && 0 <= twice_c - x < a.len() ==> #[trigger] b[x] == a[twice_c - x]
}

/// The geometry behind the estimators: where `b` mirrors `a` about the column
/// `c` (`twice_c` is `2·c`), flipping `b` turns the mirror relation into the
/// plain shift `s = w − 1 − 2·c` over the overlapping columns, and the shift
/// gives the column back.
pub proof fn law_flipping_turns_the_mirror_into_a_shift(a: Seq<u64>, b: Seq<u64>, twice_c: int)
    requires
        mirrored(a, b, twice_c),
    ensures
        ({
            let w = a.len() as int;
            let s = w - 1 - twice_c;
            &&& forall|x: int|
                profile::overlap_from(s) <= x < profile::overlap_to(w, s) ==> #[trigger] a[x] == b.reverse()[x + s]
            &&& w - 1 - s == twice_c
        }),
{
    let w = a.len() as int;
    let s = w - 1 - twice_c;
    assert forall|x: int| profile::overlap_from(s) <= x < profile::overlap_to(w, s) implies #[trigger] a[x] == b.reverse()[x
        + s] by {
        assert(b.reverse()[x + s] == b[w - 1 - (x + s)]);
        assert(w - 1 - (x + s) == twice_c - x);
        assert(b[twice_c - x] == a[twice_c - (twice_c - x)]);
    }
}

/// The values back to front.
fn reversed(v: &Vec<u64>) -> (r: Vec<u64>)
    ensures
        r@ == v@.reverse(),
{
    let mut r: Vec<u64> = Vec::new();
    let n: usize = v.len();
    let mut k: usize = 0;
    while k < n
        invariant
            n == v@.len(),
            k <= n,
            r@.len() == k,
            forall|j: int| 0 <= j < k ==> #[trigger] r@[j] == v@[n - 1 - j],
        decreases n - k,
    {
        r.push(v[n - 1 - k]);
        k = k + 1;
    }
    assert(r@ =~= v@.reverse());
    r
}

fn axis_of<A: FloatUnit>(w: usize, s: u64) -> (c: u64)
    ensures
        axis_column::<A>(w, s, c),
{
    let last: u64 = unit::last_place_of::<A>(w);
    let d: u64 = A::minus(last, s);
    A::over(d, ieee::TWO)
}

fn profiles_of<A: FloatUnit>(stack: &Stack, pair: &Pair, y0: usize, band: usize) -> (r: (Vec<u64>, Vec<u64>))
    requires
        stack.wf(),
        pair.i < stack.n,
        pair.j < stack.n,
        y0 + band <= stack.height,
    ensures
        pair_profiles::<A>(stack, *pair, y0 as int, band as int, r.0@, r.1@),
        r.0@.len() == stack.width,
        r.1@.len() == stack.width,
{
    proof {
        lemma_plane_fits(stack, pair.i);
        lemma_plane_fits(stack, pair.j);
        assert((y0 + band) * stack.width <= stack.height * stack.width) by (nonlinear_arith)
            requires
                y0 + band <= stack.height,
        ;
    }
    let a: Vec<u64> = profile::band_profile::<A>(stack.plane(pair.i), stack.width, y0, band);
    let g: Vec<u64> = profile::band_profile::<A>(stack.plane(pair.j), stack.width, y0, band);
    let f: Vec<u64> = reversed(&g);
    (a, f)
}

fn pair_axis_of<A: FloatUnit>(stack: &Stack, pair: &Pair, y0: usize, band: usize, max_shift: usize) -> (c: Option<u64>)
    requires
        stack.wf(),
        stack.width <= isize::MAX / 4,
        pair.i < stack.n,
        pair.j < stack.n,
        y0 + band <= stack.height,
    ensures
        c is None <==> degenerate(stack.width as int, max_shift),
        c matches Some(column) ==> pair_axis::<A>(stack, *pair, y0 as int, band as int, max_shift, column),
{
    let (a, f) = profiles_of::<A>(stack, pair, y0, band);
    let s: u64 = match profile::best_shift::<A>(&a, &f, max_shift) {
        Some(s) => s,
        None => {
            return None;
        },
    };
    assert(aligning_shift::<A>(a@, f@, max_shift, s));
    Some(axis_of::<A>(stack.width, s))
}

/// The axis column that one flipped opposite pair gives at one band, with the
/// band's center row. None when the search range is degenerate.
pub fn pair_column<A: FloatUnit>(stack: &Stack, pair: &Pair, params: &Params, at: (usize, u64)) -> (r: Option<(u64, u64)>)
    requires
        stack.wf(),
        stack.width <= isize::MAX / 4,
        pair.i < stack.n,
        pair.j < stack.n,
        at.0 + params.band_rows() <= stack.height,
    ensures
        r is None <==> degenerate(stack.width as int, params.max_shift),
        r matches Some((row, c)) ==> row == at.1 && pair_axis::<A>(
            stack,
            *pair,
            at.0 as int,
            params.band_rows() as int,
            params.max_shift,
            c,
        ),
{
    let band: usize = if params.band < 1 {
        1
    } else {
        params.band
    };
    match pair_axis_of::<A>(stack, pair, at.0, band, params.max_shift) {
        Some(c) => Some((at.1, c)),
        None => None,
    }
}

/// `columns` are the axis columns that one pair gives at the bands: none when
/// the search range is degenerate.
pub open spec fn pair_columns<A: FloatUnit>(
    stack: &Stack,
    pair: Pair,
    params: Params,
    list: Seq<(usize, u64)>,
    columns: Seq<(u64, u64)>,
) -> bool {
    if degenerate(stack.width as int, params.max_shift) {
        columns.len() == 0
    } else {
        &&& columns.len() == list.len()
        &&& forall|k: int|
            0 <= k < list.len() ==> (#[trigger] columns[k]).0 == list[k].1 && pair_axis::<A>(
                stack,
                pair,
                list[k].0 as int,
                params.band_rows() as int,
                params.max_shift,
                columns[k].1,
            )
    }
}

/// What the estimate from one pair is called.
pub open spec fn single_method<A: FloatUnit>(pair: Pair, text: Seq<char>) -> bool {
    exists|label: Seq<char>| #[trigger] labelled::<A>(pair, label) && text == "0/180 pair "@ + label
}

/// The name of the estimate from one pair.
pub fn single_pair_method<A: FloatUnit>(pair: &Pair) -> (r: String)
    ensures
        single_method::<A>(*pair, r@),
{
    let label: String = pair.label::<A>();
    let mut r: String = "0/180 pair ".to_owned();
    r.append(label.as_str());
    r
}

/// `r` is what the registration of one pair gives.
pub open spec fn registered<A: FloatUnit>(stack: &Stack, pair: Pair, params: Params, r: Result<Estimate, String>) -> bool {
    exists|list: Seq<(usize, u64)>, columns: Seq<(u64, u64)>, method: Seq<char>|
        #[trigger] bands_of::<A>(stack.height, params, list) && #[trigger] pair_columns::<A>(stack, pair, params, list, columns)
            && #[trigger] single_method::<A>(pair, method) && estimated::<A>(method, stack.height, columns, r)
}

/// Per-row shift of one flipped opposite pair → axis column per band →
/// line fit. The classic (neutompy/MuhRec-style) estimator, with band
/// averaging, normalized profiles and sub-pixel shifts.
pub fn single_pair<A: FloatUnit>(stack: &Stack, pair: &Pair, params: &Params) -> (r: Result<Estimate, String>)
    requires
        stack.wf(),
        stack.width <= isize::MAX / 4,
        pair.i < stack.n,
        pair.j < stack.n,
    ensures
        registered::<A>(stack, *pair, *params, r),
{
    let list: Vec<(usize, u64)> = bands::<A>(stack.height, params);
    let mut columns: Vec<(u64, u64)> = Vec::new();
    let mut k: usize = 0;
    proof {
        law_only_empty_profiles_are_degenerate(stack.width as int, params.max_shift);
    }
    while k < list.len()
        invariant
            stack.wf(),
            stack.width <= isize::MAX / 4,
            !degenerate(stack.width as int, params.max_shift),
            pair.i < stack.n,
            pair.j < stack.n,
            forall|j: int| 0 <= j < list@.len() ==> (#[trigger] list@[j]).0 + params.band_rows() <= stack.height,
            k <= list@.len(),
            columns@.len() == k,
            forall|j: int|
                0 <= j < k ==> (#[trigger] columns@[j]).0 == list@[j].1 && pair_axis::<A>(
                    stack,
                    *pair,
                    list@[j].0 as int,
                    params.band_rows() as int,
                    params.max_shift,
                    columns@[j].1,
                ),
        decreases list@.len() - k,
    {
        if let Some(column) = pair_column::<A>(stack, pair, params, list[k]) {
            columns.push(column);
        }
        k = k + 1;
    }
    let method: String = single_pair_method::<A>(pair);
    let ghost name = method@;
    assert(pair_columns::<A>(stack, *pair, *params, list@, columns@));
    let r: Result<Estimate, String> = fit::fit_estimate::<A>(method, stack.height, &columns);
    assert(estimated::<A>(name, stack.height, columns@, r));
    r
}

/// Every band lies within the rows used, and those within the stack.
pub proof fn law_bands_stay_in_the_row_range<A: FloatUnit>(height: usize, params: Params, list: Seq<(usize, u64)>, k: int)
    requires
        height > 0,
        bands_of::<A>(height, params, list),
        0 <= k < list.len(),
    ensures
        params.top(height) <= list[k].0,
        list[k].0 + params.band_rows() <= params.bottom(height) + 1 <= height,
{
    assert(0 <= k * params.step()) by (nonlinear_arith)
        requires
            0 <= k,
            0 <= params.step(),
    ;
}

/// Two lists of the bands of the same settings start at the same rows.
pub proof fn law_band_starts_are_determined<A: FloatUnit>(height: usize, params: Params, a: Seq<(usize, u64)>, b: Seq<(usize, u64)>)
    requires
        bands_of::<A>(height, params, a),
        bands_of::<A>(height, params, b),
    ensures
        a.len() == b.len(),
        forall|k: int| 0 <= k < a.len() ==> (#[trigger] a[k]).0 == b[k].0,
{
    let (m, n) = (a.len() as int, b.len() as int);
    if m < n {
        assert(b[m].0 == params.top(height) + m * params.step());
    } else if n < m {
        assert(a[n].0 == params.top(height) + n * params.step());
    }
}

/// The settings for a stack stay within it: the rows leave the same margin at
/// either end.
pub proof fn law_defaults_stay_within_the_stack(height: usize, p: Params)
    requires
        height > 0,
        p.y_top == height / 20,
        p.y_bottom == height - 1 - height / 20,
    ensures
        p.y_top <= p.y_bottom < height,
        p.y_top == height - 1 - p.y_bottom,
{
}

/// The two profiles of a pair.
pub type Profiles = (Seq<u64>, Seq<u64>);

/// `profiles` are the profiles of the pairs at a band.
pub open spec fn all_profiles<A: FloatUnit>(stack: &Stack, pairs: Seq<Pair>, y0: int, band: int, profiles: Seq<Profiles>) -> bool {
    &&& profiles.len() == pairs.len()
    &&& forall|k: int|
        0 <= k < pairs.len() ==> pair_profiles::<A>(stack, pairs[k], y0, band, (#[trigger] profiles[k]).0, profiles[k].1)
}

/// `e` is the shift error summed across all pairs.
pub open spec fn consensus_error<A: FloatUnit>(profiles: Seq<Profiles>, s: int, e: u64) -> bool {
    exists|each: Seq<u64>| #[trigger] single_errors::<A>(profiles, s, each) && sum::<A>(each, each.len() as int, e)
}

/// `each` are the errors of the pairs at one shift.
pub open spec fn single_errors<A: FloatUnit>(profiles: Seq<Profiles>, s: int, each: Seq<u64>) -> bool {
    &&& each.len() == profiles.len()
    &&& forall|k: int|
        0 <= k < profiles.len() ==> matching_error::<A>(profiles[k].0, profiles[k].1, s, #[trigger] each[k])
}

/// `errors` are the summed errors of the shifts `-m..=m`.
pub open spec fn consensus_curve<A: FloatUnit>(profiles: Seq<Profiles>, m: int, errors: Seq<u64>) -> bool {
    &&& errors.len() == 2 * m + 1
    &&& forall|k: int| 0 <= k <= 2 * m ==> consensus_error::<A>(profiles, k - m, #[trigger] errors[k])
}

/// `c` is the axis column that all the pairs together give at a band.
pub open spec fn consensus_axis<A: FloatUnit>(stack: &Stack, pairs: Seq<Pair>, y0: int, band: int, max_shift: usize, c: u64) -> bool {
    let m = search_radius(stack.width as int, max_shift);
    exists|profiles: Seq<Profiles>, errors: Seq<u64>, s: u64|
        #[trigger] all_profiles::<A>(stack, pairs, y0, band, profiles) && #[trigger] consensus_curve::<A>(profiles, m, errors)
            && #[trigger] refined_shift::<A>(errors, m, s) && axis_column::<A>(stack.width, s, c)
}

/// The profiles that vectors hold.
spec fn profile_views(list: Seq<(Vec<u64>, Vec<u64>)>) -> Seq<Profiles> {
    Seq::new(list.len(), |k: int| (list[k].0@, list[k].1@))
}

fn all_profiles_of<A: FloatUnit>(stack: &Stack, pairs: &[Pair], y0: usize, band: usize) -> (r: Vec<(Vec<u64>, Vec<u64>)>)
    requires
        stack.wf(),
        forall|k: int| 0 <= k < pairs@.len() ==> (#[trigger] pairs@[k]).i < stack.n && pairs@[k].j < stack.n,
        y0 + band <= stack.height,
    ensures
        all_profiles::<A>(stack, pairs@, y0 as int, band as int, profile_views(r@)),
        forall|k: int| 0 <= k < r@.len() ==> (#[trigger] r@[k]).0@.len() == stack.width && r@[k].1@.len() == stack.width,
{
    let mut r: Vec<(Vec<u64>, Vec<u64>)> = Vec::new();
    let mut k: usize = 0;
    while k < pairs.len()
        invariant
            stack.wf(),
            forall|j: int| 0 <= j < pairs@.len() ==> (#[trigger] pairs@[j]).i < stack.n && pairs@[j].j < stack.n,
            y0 + band <= stack.height,
            k <= pairs@.len(),
            r@.len() == k,
            forall|j: int|
                0 <= j < k ==> pair_profiles::<A>(stack, pairs@[j], y0 as int, band as int, (#[trigger] r@[j]).0@, r@[j].1@),
            forall|j: int| 0 <= j < k ==> (#[trigger] r@[j]).0@.len() == stack.width && r@[j].1@.len() == stack.width,
        decreases pairs@.len() - k,
    {
        let item: (Vec<u64>, Vec<u64>) = profiles_of::<A>(stack, &pairs[k], y0, band);
        r.push(item);
        k = k + 1;
    }
    r
}

fn consensus_error_of<A: FloatUnit>(list: &Vec<(Vec<u64>, Vec<u64>)>, s: isize, Ghost(w): Ghost<nat>) -> (e: u64)
    requires
        forall|k: int| 0 <= k < list@.len() ==> (#[trigger] list@[k]).0@.len() == w && list@[k].1@.len() == w,
        w <= isize::MAX / 4,
        -(isize::MAX / 2) <= s <= isize::MAX / 2,
    ensures
        consensus_error::<A>(profile_views(list@), s as int, e),
{
    let mut each: Vec<u64> = Vec::new();
    let mut k: usize = 0;
    while k < list.len()
        invariant
            forall|j: int| 0 <= j < list@.len() ==> (#[trigger] list@[j]).0@.len() == w && list@[j].1@.len() == w,
            w <= isize::MAX / 4,
            -(isize::MAX / 2) <= s <= isize::MAX / 2,
            k <= list@.len(),
            each@.len() == k,
            forall|j: int| 0 <= j < k ==> matching_error::<A>(list@[j].0@, list@[j].1@, s as int, #[trigger] each@[j]),
        decreases list@.len() - k,
    {
        let item: &(Vec<u64>, Vec<u64>) = &list[k];
        let one: u64 = profile::shift_error::<A>(&item.0, &item.1, s);
        each.push(one);
        k = k + 1;
    }
    assert(single_errors::<A>(profile_views(list@), s as int, each@));
    profile::sum_of::<A>(&each)
}

fn consensus_axis_of<A: FloatUnit>(stack: &Stack, pairs: &[Pair], y0: usize, band: usize, max_shift: usize) -> (c: Option<u64>)
    requires
        stack.wf(),
        stack.width <= isize::MAX / 4,
        forall|k: int| 0 <= k < pairs@.len() ==> (#[trigger] pairs@[k]).i < stack.n && pairs@[k].j < stack.n,
        y0 + band <= stack.height,
    ensures
        c is None <==> degenerate(stack.width as int, max_shift),
        c matches Some(column) ==> consensus_axis::<A>(stack, pairs@, y0 as int, band as int, max_shift, column),
{
    proof {
        law_only_empty_profiles_are_degenerate(stack.width as int, max_shift);
    }
    if stack.width == 0 {
        return None;
    }
    let list: Vec<(Vec<u64>, Vec<u64>)> = all_profiles_of::<A>(stack, pairs, y0, band);
    let m: usize = profile::radius(stack.width, max_shift);
    let mut errors: Vec<u64> = Vec::new();
    let mut k: usize = 0;
    while k <= 2 * m
        invariant
            forall|j: int|
                0 <= j < list@.len() ==> (#[trigger] list@[j]).0@.len() == stack.width && list@[j].1@.len() == stack.width,
            stack.width <= isize::MAX / 4,
            m <= isize::MAX / 4,
            k <= 2 * m + 1,
            errors@.len() == k,
            forall|j: int| 0 <= j < k ==> consensus_error::<A>(profile_views(list@), j - m, #[trigger] errors@[j]),
        decreases 2 * m + 1 - k,
    {
        let e: u64 = consensus_error_of::<A>(&list, k as isize - m as isize, Ghost(stack.width as nat));
        errors.push(e);
        k = k + 1;
    }
    let s: u64 = profile::refine_shift::<A>(&errors, m);
    assert(consensus_curve::<A>(profile_views(list@), m as int, errors@));
    Some(axis_of::<A>(stack.width, s))
}

/// The axis column that all the pairs together give at one band, with the
/// band's center row. None when the search range is degenerate.
pub fn consensus_column<A: FloatUnit>(stack: &Stack, pairs: &[Pair], params: &Params, at: (usize, u64)) -> (r: Option<(u64, u64)>)
    requires
        stack.wf(),
        stack.width <= isize::MAX / 4,
        forall|k: int| 0 <= k < pairs@.len() ==> (#[trigger] pairs@[k]).i < stack.n && pairs@[k].j < stack.n,
        at.0 + params.band_rows() <= stack.height,
    ensures
        r is None <==> degenerate(stack.width as int, params.max_shift),
        r matches Some((row, c)) ==> row == at.1 && consensus_axis::<A>(
            stack,
            pairs@,
            at.0 as int,
            params.band_rows() as int,
            params.max_shift,
            c,
        ),
{
    let band: usize = if params.band < 1 {
        1
    } else {
        params.band
    };
    match consensus_axis_of::<A>(stack, pairs, at.0, band, params.max_shift) {
        Some(c) => Some((at.1, c)),
        None => None,
    }
}

/// `columns` are the axis columns that all the pairs together give at the
/// bands: none when the search range is degenerate.
pub open spec fn consensus_columns<A: FloatUnit>(
    stack: &Stack,
    pairs: Seq<Pair>,
    params: Params,
    list: Seq<(usize, u64)>,
    columns: Seq<(u64, u64)>,
) -> bool {
    if degenerate(stack.width as int, params.max_shift) {
        columns.len() == 0
    } else {
        &&& columns.len() == list.len()
        &&& forall|k: int|
            0 <= k < list.len() ==> (#[trigger] columns[k]).0 == list[k].1 && consensus_axis::<A>(
                stack,
                pairs,
                list[k].0 as int,
                params.band_rows() as int,
                params.max_shift,
                columns[k].1,
            )
    }
}

/// What the estimate from `n` pairs is called.
pub open spec fn multi_method(n: nat) -> Seq<char> {
    "consensus of "@ + decimal(n) + " opposite pairs"@
}

/// The name of the estimate from `n` pairs.
pub fn multi_pair_method(n: usize) -> (r: String)
    ensures
        r@ == multi_method(n as nat),
{
    let mut r: String = "consensus of ".to_owned();
    text::append_decimal(&mut r, n);
    r.append(" opposite pairs");
    r
}

/// `r` is the consensus of the pairs: an error when there are none.
pub open spec fn consensus<A: FloatUnit>(stack: &Stack, pairs: Seq<Pair>, params: Params, r: Result<Estimate, String>) -> bool {
    if pairs.len() == 0 {
        r matches Err(e) && e@ == "no opposite (0/180) pairs in the angle list"@
    } else {
        exists|list: Seq<(usize, u64)>, columns: Seq<(u64, u64)>|
            #[trigger] bands_of::<A>(stack.height, params, list) && #[trigger] consensus_columns::<A>(
                stack,
                pairs,
                params,
                list,
                columns,
            ) && estimated::<A>(multi_method(pairs.len()), stack.height, columns, r)
    }
}

/// Consensus over every opposite pair: for each band the shift error is
/// summed across all pairs before the minimum is taken, so a single noisy
/// pair cannot pull the axis. The strongest estimator when the scan has
/// many opposite pairs.
pub fn multi_pair<A: FloatUnit>(stack: &Stack, pairs: &[Pair], params: &Params) -> (r: Result<Estimate, String>)
    requires
        stack.wf(),
        stack.width <= isize::MAX / 4,
        forall|k: int| 0 <= k < pairs@.len() ==> (#[trigger] pairs@[k]).i < stack.n && pairs@[k].j < stack.n,
    ensures
        consensus::<A>(stack, pairs@, *params, r),
{
    if pairs.len() == 0 {
        return Err("no opposite (0/180) pairs in the angle list".to_owned());
    }
    let list: Vec<(usize, u64)> = bands::<A>(stack.height, params);
    let mut columns: Vec<(u64, u64)> = Vec::new();
    let mut k: usize = 0;
    proof {
        law_only_empty_profiles_are_degenerate(stack.width as int, params.max_shift);
    }
    while k < list.len()
        invariant
            stack.wf(),
            stack.width <= isize::MAX / 4,
            !degenerate(stack.width as int, params.max_shift),
            forall|j: int| 0 <= j < pairs@.len() ==> (#[trigger] pairs@[j]).i < stack.n && pairs@[j].j < stack.n,
            forall|j: int| 0 <= j < list@.len() ==> (#[trigger] list@[j]).0 + params.band_rows() <= stack.height,
            k <= list@.len(),
            columns@.len() == k,
            forall|j: int|
                0 <= j < k ==> (#[trigger] columns@[j]).0 == list@[j].1 && consensus_axis::<A>(
                    stack,
                    pairs@,
                    list@[j].0 as int,
                    params.band_rows() as int,
                    params.max_shift,
                    columns@[j].1,
                ),
        decreases list@.len() - k,
    {
        if let Some(column) = consensus_column::<A>(stack, pairs, params, list[k]) {
            columns.push(column);
        }
        k = k + 1;
    }
    assert(consensus_columns::<A>(stack, pairs@, *params, list@, columns@));
    fit::fit_estimate::<A>(multi_pair_method(pairs.len()), stack.height, &columns)
}

/// The rows of the whole-range shift: its first row and how many. From the top
/// row to the bottom row, and at least two where there are two from the top row
/// on.
pub open spec fn whole_range(height: usize, params: Params) -> (int, int) {
    let (top, bottom) = (params.top(height), params.bottom(height));
    (top, (if bottom > top {
        bottom - top + 1
    } else if height - top >= 2 {
        2
    } else {
        1
    }))
}

/// The rows of the whole-range shift lie within the stack.
pub proof fn law_whole_range_lies_within_the_stack(height: usize, params: Params)
    requires
        height > 0,
    ensures
        0 <= whole_range(height, params).0,
        1 <= whole_range(height, params).1,
        whole_range(height, params).0 + whole_range(height, params).1 <= height,
{
}

/// Whole-range single shift of one pair: no tilt, one global center. A
/// quick cross-check of the fitted estimates.
pub fn global_cor<A: FloatUnit>(stack: &Stack, pair: &Pair, params: &Params) -> (r: Result<u64, String>)
    requires
        stack.wf(),
        stack.width <= isize::MAX / 4,
        pair.i < stack.n,
        pair.j < stack.n,
    ensures
        r is Err <==> degenerate(stack.width as int, params.max_shift),
        r matches Err(e) ==> e@ == "degenerate search range for the global shift"@,
        r matches Ok(c) ==> pair_axis::<A>(
            stack,
            *pair,
            whole_range(stack.height, *params).0,
            whole_range(stack.height, *params).1,
            params.max_shift,
            c,
        ),
{
    let last: usize = stack.height - 1;
    let top: usize = if params.y_top > last {
        last
    } else {
        params.y_top
    };
    let bottom: usize = if params.y_bottom > last {
        last
    } else {
        params.y_bottom
    };
    let rows: usize = if bottom > top {
        bottom - top + 1
    } else if top < last {
        2
    } else {
        1
    };
    match pair_axis_of::<A>(stack, pair, top, rows, params.max_shift) {
        Some(c) => Ok(c),
        None => Err("degenerate search range for the global shift".to_owned()),
    }
}

/// `after` is the stack `before` with every projection rotated by `angle`
/// about the image center, and nothing else changed.
pub open spec fn stack_rotated<A: FloatUnit>(before: Stack, angle: u64, after: Stack) -> bool {
    &&& after.wf()
    &&& (after.path, after.n, after.height, after.width) == (before.path, before.n, before.height, before.width)
    &&& after.angles_deg == before.angles_deg
    &&& after.center_of_rotation == before.center_of_rotation
    &&& after.previous_corrections == before.previous_corrections
    &&& exists|t: Rotation|
        #[trigger] rotation_by::<A>(before.width, before.height, angle, t) && (forall|i: int|
            0 <= i < before.n ==> rotated::<A>(before.plane_at(i), before.width, before.height, t, #[trigger] after.plane_at(i)))
}

/// Straighten a measured axis tilt: rotate every projection so the fitted
/// axis becomes vertical.
pub fn apply_tilt<A: FloatUnit>(stack: &mut Stack, tilt_deg: u64)
    requires
        old(stack).wf(),
    ensures
        stack_rotated::<A>(*old(stack), tilt_deg, *final(stack)),
{
    rotate_stack::<A>(stack, tilt_deg);
}

/// Rotate every projection by `angle_deg` about the image center (bilinear,
/// edge-clamped).
pub fn rotate_stack<A: FloatUnit>(stack: &mut Stack, angle_deg: u64)
    requires
        old(stack).wf(),
    ensures
        stack_rotated::<A>(*old(stack), angle_deg, *final(stack)),
{
    let (n, h, w) = (stack.n, stack.height, stack.width);
    let t: Rotation = resample::rotation::<A>(w, h, angle_deg);
    let mut data: Vec<u32> = Vec::new();
    let ghost size = stack.plane_size();
    let ghost before = *stack;
    let mut i: usize = 0;
    assert(0 * size == 0);
    while i < n
        invariant
            *stack == before,
            before.wf(),
            (n, h, w) == (before.n, before.height, before.width),
            size == before.plane_size() == h * w,
            size >= 0,
            i <= n,
            data@.len() == i * size,
            forall|k: int|
                0 <= k < i ==> rotated::<A>(before.plane_at(k), w, h, t, #[trigger] data@.subrange(k * size, (k + 1) * size)),
        decreases n - i,
    {
        proof {
            lemma_plane_fits(&before, i);
            assert((i + 1) * size == i * size + size) by (nonlinear_arith);
        }
        let ghost was = data@;
        let mut plane: Vec<u32> = resample::rotate_plane::<A>(stack.plane(i), w, h, &t);
        let ghost new = plane@;
        data.append(&mut plane);
        assert forall|k: int| 0 <= k < i + 1 implies rotated::<A>(
            before.plane_at(k),
            w,
            h,
            t,
            #[trigger] data@.subrange(k * size, (k + 1) * size),
        ) by {
            if k < i {
                assert(0 <= k * size <= (k + 1) * size <= i * size) by (nonlinear_arith)
                    requires
                        0 <= k < i,
                        0 <= size,
                ;
                assert(data@.subrange(k * size, (k + 1) * size) =~= was.subrange(k * size, (k + 1) * size));
            } else {
                assert(data@.subrange(k * size, (k + 1) * size) =~= new);
            }
        }
        i = i + 1;
    }
    stack.data = data;
    assert forall|k: int| 0 <= k < n implies rotated::<A>(before.plane_at(k), w, h, t, #[trigger] stack.plane_at(k)) by {
        assert(stack.plane_at(k) == data@.subrange(k * size, (k + 1) * size));
    }
}

} // verus!
