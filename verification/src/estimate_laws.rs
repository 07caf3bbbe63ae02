//! What an estimate is, in values: the rows it was taken at, the line of least
//! squares through the columns that fit best, and the tilt and the center that
//! the line stands for.
use crate::algorithms;
use crate::algorithms::{band_center, bands_of, consensus, registered, Params};
use crate::axis_laws::{
    consensus_search_fits, is_consensus_axis, is_pair_axis, lemma_consensus_axis_value, lemma_pair_axis_value, pair_search_fits,
};
use crate::fit;
use crate::fit::{
    estimate_of, estimated, fitted, keep_count, law_kept_points_fit_better, law_number_of_kept_points, marked,
    marks_best, refitted, residual, residuals, trimmed, Estimate, Line, RowEstimate,
};
use crate::fit_laws::{
    fit_exact, law_fit_is_least_squares, law_level_points_are_explained, law_quality_is_the_explained_share,
    law_rows_that_spread_have_a_line, residual_value, row_spread, squared_residuals, total_x, total_y, unity,
};
use crate::ieee;
use crate::ieee::{absolute, finite, law_rank_orders_the_values, lemma_scaled_constants, representable, scaled};
use crate::job::{law_job_answers_as_the_estimators, EstimateJob};
use crate::pairs::Pair;
use crate::profile::law_only_empty_profiles_are_degenerate;
use crate::stack::Stack;
use crate::turn_laws::{lemma_middle_value, mid, product, product_fits};
use crate::unit::{adds_to_nothing, cancels, keeps_signs, middle, rounds_only_if_needed, FloatUnit};
use vstd::prelude::*;

verus! {

/// How many of `n` points a trimmed fit keeps: three quarters, and two at least
/// where there are two.
pub open spec fn kept_of(n: int) -> int {
    if n <= 2 {
        n
    } else {
        3 * n / 4
    }
}

/// How many flags are set.
pub open spec fn flags_set(used: Seq<bool>) -> int
    decreases used.len(),
{
    if used.len() == 0 {
        0
    } else {
        flags_set(used.drop_last()) + if used.last() {
            1int
        } else {
            0int
        }
    }
}

/// The sum of the squared residuals of the flagged ones of the first `k` points
/// about the line with slope `p / n` and intercept `q / n`.
pub open spec fn flagged_residuals(points: Seq<(u64, u64)>, used: Seq<bool>, p: int, q: int, n: int, k: int) -> int
    decreases k,
{
    if k <= 0 {
        0
    } else {
        let r = residual_value(points[k - 1], p, q, n);
        flagged_residuals(points, used, p, q, n, k - 1) + if used[k - 1] {
            r * r
        } else {
            0
        }
    }
}

/// The absolute value.
pub open spec fn size_of(v: int) -> int {
    if v < 0 {
        -v
    } else {
        v
    }
}

/// Whether no line has a smaller sum of squared residuals than the one with
/// slope `s` and intercept `b`, over the flagged points.
pub open spec fn least_squares(points: Seq<(u64, u64)>, used: Seq<bool>, s: int, b: int) -> bool {
    let (u, k) = (unity(), points.len() as int);
    forall|p: int, q: int, n: int|
        n > 0 ==> (n * n) * flagged_residuals(points, used, s, b, u, k) <= (u * u) * #[trigger] flagged_residuals(points, used, p, q, n, k)
}

/// The sum of what `f` gives for the flagged ones of the first `k` points.
pub open spec fn flagged_sum(points: Seq<(u64, u64)>, used: Seq<bool>, f: spec_fn((u64, u64)) -> int, k: int) -> int
    decreases k,
{
    if k <= 0 {
        0
    } else {
        flagged_sum(points, used, f, k - 1) + if used[k - 1] {
            f(points[k - 1])
        } else {
            0
        }
    }
}

/// The row of a point.
pub open spec fn row_value() -> spec_fn((u64, u64)) -> int {
    |p: (u64, u64)| scaled(p.0)
}

/// The column of a point.
pub open spec fn column_value() -> spec_fn((u64, u64)) -> int {
    |p: (u64, u64)| scaled(p.1)
}

/// The square of the distance of the row of a point from the row `c`.
pub open spec fn row_distance(c: int) -> spec_fn((u64, u64)) -> int {
    |p: (u64, u64)| (scaled(p.0) - c) * (scaled(p.0) - c)
}

/// Whether the rows of the flagged points spread about their mean.
pub open spec fn rows_spread(points: Seq<(u64, u64)>, used: Seq<bool>) -> bool {
    exists|c: int|
        c * flags_set(used) == flagged_sum(points, used, row_value(), points.len() as int) && flagged_sum(
            points,
            used,
            #[trigger] row_distance(c),
            points.len() as int,
        ) >= unity() * scaled(ieee::TINY)
}

/// Whether `q` is the share of the spread of the flagged columns about their
/// mean that the line with slope `s` and intercept `b` explains: all of it
/// where they do not spread, and otherwise all but the squared residuals.
pub open spec fn explains(points: Seq<(u64, u64)>, used: Seq<bool>, s: int, b: int, q: int) -> bool {
    let (u, k) = (unity(), points.len() as int);
    forall|c: int|
        c * flags_set(used) == flagged_sum(points, used, column_value(), k) ==> {
            let spread = #[trigger] flagged_residuals(points, used, 0, c, u, k);
            if spread < (u * u * u) * scaled(ieee::TINY) {
                q == u
            } else {
                (u - q) * spread == u * flagged_residuals(points, used, s, b, u, k)
            }
        }
}

/// All flags set.
pub open spec fn all_flagged(n: nat) -> Seq<bool> {
    Seq::new(n, |k: int| true)
}

/// Whether the residual of a point about a line is made of doubles.
pub open spec fn residual_fits(point: (u64, u64), s: int, b: int) -> bool {
    let (x, y) = (scaled(point.0), scaled(point.1));
    &&& finite(point.0) && finite(point.1)
    &&& product_fits(s, x)
    &&& representable(product(s, x) + b)
    &&& representable(y - (product(s, x) + b))
}

proof fn lemma_product_times(a: int, b: int)
    requires
        product_fits(a, b),
    ensures
        product(a, b) * unity() == a * b,
{
    vstd::arithmetic::div_mod::lemma_fundamental_div_mod(a * b, unity());
    let (q, u) = (product(a, b), unity());
    assert(u * q == q * u) by (nonlinear_arith);
}

proof fn lemma_residual_size<A: FloatUnit>(point: (u64, u64), line: Line, e: u64)
    requires
        rounds_only_if_needed::<A>(),
        finite(line.0),
        finite(line.1),
        residual_fits(point, scaled(line.0), scaled(line.1)),
        residual::<A>(point, line, e),
    ensures
        !ieee::negative(e),
        finite(e),
        scaled(e) * unity() == size_of(residual_value(point, scaled(line.0), scaled(line.1), unity())),
{
    lemma_scaled_constants();
    let (x, y, s, b, u) = (scaled(point.0), scaled(point.1), scaled(line.0), scaled(line.1), unity());
    let (q, c, d) = choose|q: u64, c: u64, d: u64|
        #[trigger] call_ensures(A::times, (line.0, point.0), q) && #[trigger] call_ensures(A::plus, (q, line.1), c)
            && #[trigger] call_ensures(A::minus, (point.1, c), d) && e == absolute(d);
    assert(finite(q) && scaled(q) == product(s, x));
    assert(finite(c) && scaled(c) == product(s, x) + b);
    let v = y - (product(s, x) + b);
    assert(finite(d) && scaled(d) == v);
    law_rank_orders_the_values(d, ieee::ZERO);
    law_rank_orders_the_values(ieee::ZERO, d);
    assert(scaled(e) == size_of(v));
    lemma_product_times(s, x);
    let (r, pr) = (residual_value(point, s, b, u), product(s, x));
    assert(v * u == r) by (nonlinear_arith)
        requires
            r == u * y - s * x - b * u,
            pr * u == s * x,
            v == y - (pr + b),
    ;
    assert(size_of(v) * u == size_of(v * u)) by (nonlinear_arith)
        requires
            u > 0,
            size_of(v) == (if v < 0 {
                -v
            } else {
                v
            }),
            size_of(v * u) == (if v * u < 0 {
                -(v * u)
            } else {
                v * u
            }),
    ;
}

proof fn lemma_marked_count(points: Seq<(u64, u64)>, used: Seq<bool>)
    requires
        points.len() <= used.len(),
    ensures
        marked(points, used).len() == flags_set(used.take(points.len() as int)),
    decreases points.len(),
{
    if points.len() > 0 {
        let n = points.len() as int;
        lemma_marked_count(points.drop_last(), used);
        assert(used.take(n).drop_last() =~= used.take(n - 1));
    }
}

proof fn lemma_pushed_residuals(points: Seq<(u64, u64)>, last: (u64, u64), p: int, q: int, n: int, k: int)
    requires
        0 <= k <= points.len(),
    ensures
        squared_residuals(points.push(last), p, q, n, k) == squared_residuals(points, p, q, n, k),
    decreases k,
{
    if k > 0 {
        lemma_pushed_residuals(points, last, p, q, n, k - 1);
    }
}

proof fn lemma_marked_residuals(points: Seq<(u64, u64)>, used: Seq<bool>, p: int, q: int, n: int)
    requires
        points.len() <= used.len(),
    ensures
        squared_residuals(marked(points, used), p, q, n, marked(points, used).len() as int) == flagged_residuals(
            points,
            used,
            p,
            q,
            n,
            points.len() as int,
        ),
    decreases points.len(),
{
    if points.len() > 0 {
        let shorter = points.drop_last();
        lemma_marked_residuals(shorter, used, p, q, n);
        let list = marked(shorter, used);
        if used[points.len() - 1] {
            lemma_pushed_residuals(list, points.last(), p, q, n, list.len() as int);
        }
        lemma_flagged_prefix(points, used, p, q, n, points.len() - 1);
    }
}

proof fn lemma_flagged_prefix(points: Seq<(u64, u64)>, used: Seq<bool>, p: int, q: int, n: int, k: int)
    requires
        0 <= k < points.len(),
    ensures
        flagged_residuals(points.drop_last(), used, p, q, n, k) == flagged_residuals(points, used, p, q, n, k),
    decreases k,
{
    if k > 0 {
        lemma_flagged_prefix(points, used, p, q, n, k - 1);
    }
}

/// The sum of what `f` gives for the first `k` points.
spec fn plain_sum(points: Seq<(u64, u64)>, f: spec_fn((u64, u64)) -> int, k: int) -> int
    decreases k,
{
    if k <= 0 {
        0
    } else {
        plain_sum(points, f, k - 1) + f(points[k - 1])
    }
}

proof fn lemma_plain_sums(points: Seq<(u64, u64)>, c: int, k: int)
    ensures
        plain_sum(points, row_value(), k) == total_x(points, k),
        plain_sum(points, column_value(), k) == total_y(points, k),
        plain_sum(points, row_distance(c), k) == row_spread(points, c, k),
    decreases k,
{
    if k > 0 {
        lemma_plain_sums(points, c, k - 1);
    }
}

proof fn lemma_pushed_sum(points: Seq<(u64, u64)>, last: (u64, u64), f: spec_fn((u64, u64)) -> int, k: int)
    requires
        0 <= k <= points.len(),
    ensures
        plain_sum(points.push(last), f, k) == plain_sum(points, f, k),
    decreases k,
{
    if k > 0 {
        lemma_pushed_sum(points, last, f, k - 1);
    }
}

proof fn lemma_flagged_sum_prefix(points: Seq<(u64, u64)>, used: Seq<bool>, f: spec_fn((u64, u64)) -> int, k: int)
    requires
        0 <= k < points.len(),
    ensures
        flagged_sum(points.drop_last(), used, f, k) == flagged_sum(points, used, f, k),
    decreases k,
{
    if k > 0 {
        lemma_flagged_sum_prefix(points, used, f, k - 1);
    }
}

proof fn lemma_marked_sum(points: Seq<(u64, u64)>, used: Seq<bool>, f: spec_fn((u64, u64)) -> int)
    requires
        points.len() <= used.len(),
    ensures
        plain_sum(marked(points, used), f, marked(points, used).len() as int) == flagged_sum(points, used, f, points.len() as int),
    decreases points.len(),
{
    if points.len() > 0 {
        let shorter = points.drop_last();
        lemma_marked_sum(shorter, used, f);
        let list = marked(shorter, used);
        if used[points.len() - 1] {
            lemma_pushed_sum(list, points.last(), f, list.len() as int);
        }
        lemma_flagged_sum_prefix(points, used, f, points.len() - 1);
    }
}

proof fn lemma_all_flagged_marked(points: Seq<(u64, u64)>, used: Seq<bool>)
    requires
        points.len() <= used.len(),
        forall|k: int| 0 <= k < points.len() ==> #[trigger] used[k],
    ensures
        marked(points, used) == points,
    decreases points.len(),
{
    if points.len() > 0 {
        lemma_all_flagged_marked(points.drop_last(), used);
        assert(points.drop_last().push(points.last()) =~= points);
    } else {
        assert(marked(points, used) =~= points);
    }
}

proof fn lemma_fit_of_marked<A: FloatUnit>(points: Seq<(u64, u64)>, used: Seq<bool>, line: Line)
    requires
        points.len() <= usize::MAX,
        points.len() == used.len(),
        marked(points, used).len() <= usize::MAX,
        fit_exact::<A>(marked(points, used)),
        fitted::<A>(marked(points, used), Some(line)),
    ensures
        least_squares(points, used, scaled(line.0), scaled(line.1)),
        explains(points, used, scaled(line.0), scaled(line.1), scaled(line.2)),
{
    lemma_scaled_constants();
    let (u, n) = (unity(), points.len() as int);
    let (s, b) = (scaled(line.0), scaled(line.1));
    let kept = marked(points, used);
    let len = kept.len() as int;
    lemma_marked_count(points, used);
    assert(used.take(n) =~= used);
    assert forall|p: int, q: int, m: int| m > 0 implies (m * m) * flagged_residuals(points, used, s, b, u, n) <= (u * u)
        * #[trigger] flagged_residuals(points, used, p, q, m, n) by {
        law_fit_is_least_squares::<A>(kept, line, p, q, m);
        lemma_marked_residuals(points, used, s, b, u);
        lemma_marked_residuals(points, used, p, q, m);
    }
    assert forall|c: int| c * flags_set(used) == flagged_sum(points, used, column_value(), n) implies {
        let spread = #[trigger] flagged_residuals(points, used, 0, c, u, n);
        if spread < (u * u * u) * scaled(ieee::TINY) {
            scaled(line.2) == u
        } else {
            (u - scaled(line.2)) * spread == u * flagged_residuals(points, used, s, b, u, n)
        }
    } by {
        lemma_marked_sum(points, used, column_value());
        lemma_plain_sums(kept, 0, len);
        lemma_marked_residuals(points, used, s, b, u);
        lemma_marked_residuals(points, used, 0, c, u);
        if flagged_residuals(points, used, 0, c, u, n) < (u * u * u) * scaled(ieee::TINY) {
            law_level_points_are_explained::<A>(kept, line, c);
        } else {
            law_quality_is_the_explained_share::<A>(kept, line, c);
        }
    }
}

proof fn lemma_marked_fit_exists<A: FloatUnit>(points: Seq<(u64, u64)>, used: Seq<bool>, r: Option<Line>)
    requires
        points.len() <= usize::MAX,
        points.len() == used.len(),
        marked(points, used).len() <= usize::MAX,
        fit_exact::<A>(marked(points, used)),
        fitted::<A>(marked(points, used), r),
        flags_set(used) >= 2,
        rows_spread(points, used),
    ensures
        r is Some,
{
    let n = points.len() as int;
    let kept = marked(points, used);
    lemma_marked_count(points, used);
    assert(used.take(n) =~= used);
    let c = choose|c: int|
        c * flags_set(used) == flagged_sum(points, used, row_value(), points.len() as int) && flagged_sum(
            points,
            used,
            #[trigger] row_distance(c),
            points.len() as int,
        ) >= unity() * scaled(ieee::TINY);
    lemma_marked_sum(points, used, row_value());
    lemma_marked_sum(points, used, row_distance(c));
    lemma_plain_sums(kept, c, kept.len() as int);
    law_rows_that_spread_have_a_line::<A>(kept, c, r);
}

/// Whether the trimmed fit of the points does not round: neither the fit of all
/// of them, nor the residuals about it, nor the fit of those that are kept.
pub open spec fn trimmed_exact<A: FloatUnit>(points: Seq<(u64, u64)>) -> bool {
    &&& fit_exact::<A>(points)
    &&& forall|line: Line| #[trigger]
        fitted::<A>(points, Some(line)) ==> finite(line.0) && finite(line.1) && (forall|k: int|
            0 <= k < points.len() ==> residual_fits(#[trigger] points[k], scaled(line.0), scaled(line.1)))
    &&& forall|used: Seq<bool>|
        used.len() == points.len() && flags_set(used) == kept_of(points.len() as int) ==> fit_exact::<A>(
            #[trigger] marked(points, used),
        )
}

/// Whether the flags are those of a trimmed fit and the line with slope `s` and
/// intercept `b` is the one of least squares of the flagged points: as many are
/// flagged as are to be kept, and about some line of least squares of all the
/// points, every flagged point has no larger residual than every other one, and
/// of two with the same the first one is kept.
pub open spec fn is_trimmed_fit(points: Seq<(u64, u64)>, used: Seq<bool>, s: int, b: int) -> bool {
    &&& used.len() == points.len()
    &&& flags_set(used) == kept_of(points.len() as int)
    &&& least_squares(points, used, s, b)
    &&& exists|s0: int, b0: int| #[trigger]
        least_squares(points, all_flagged(points.len()), s0, b0) && (forall|i: int, j: int|
            0 <= i < points.len() && 0 <= j < points.len() && used[i] && !used[j] ==> size_of(
                #[trigger] residual_value(points[i], s0, b0, unity()),
            ) <= size_of(#[trigger] residual_value(points[j], s0, b0, unity())) && (j < i ==> size_of(
                residual_value(points[i], s0, b0, unity()),
            ) < size_of(residual_value(points[j], s0, b0, unity()))))
}

pub proof fn lemma_trimmed_fit<A: FloatUnit>(points: Seq<(u64, u64)>, line: Line, used: Seq<bool>)
    requires
        rounds_only_if_needed::<A>(),
        points.len() <= usize::MAX,
        trimmed_exact::<A>(points),
        trimmed::<A>(points, Some((line, used))),
    ensures
        is_trimmed_fit(points, used, scaled(line.0), scaled(line.1)),
        explains(points, used, scaled(line.0), scaled(line.1), scaled(line.2)),
{
    lemma_scaled_constants();
    let u = unity();
    let n = points.len() as int;
    let first = choose|first: Option<Line>|
        #[trigger] fitted::<A>(points, first) && match first {
            None => Some((line, used)) is None,
            Some(l) => refitted::<A>(points, l, Some((line, used))),
        };
    let whole = first->0;
    assert(fitted::<A>(points, Some(whole)));
    let (res, flags, second) = choose|res: Seq<u64>, flags: Seq<bool>, second: Option<Line>|
        #[trigger] residuals::<A>(points, whole, res) && #[trigger] marks_best(res, flags) && #[trigger] fitted::<A>(
            marked(points, flags),
            second,
        ) && Some((line, used)) == match second {
            None => None,
            Some(l) => Some((l, flags)),
        };
    assert(flags == used && second == Some(line));
    assert(used.len() == n);
    law_number_of_kept_points(points, res, used);
    lemma_marked_count(points, used);
    assert(used.take(n) =~= used);
    assert(keep_count(n) == kept_of(n));
    assert(fit_exact::<A>(marked(points, used)));
    lemma_fit_of_marked::<A>(points, used, line);
    let (s0, b0) = (scaled(whole.0), scaled(whole.1));
    let all = all_flagged(points.len());
    lemma_all_flagged_marked(points, all);
    lemma_fit_of_marked::<A>(points, all, whole);
    assert forall|i: int, j: int| 0 <= i < points.len() && 0 <= j < points.len() && used[i] && !used[j] implies size_of(
        #[trigger] residual_value(points[i], s0, b0, u),
    ) <= size_of(#[trigger] residual_value(points[j], s0, b0, u)) && (j < i ==> size_of(residual_value(points[i], s0, b0, u)) < size_of(
        residual_value(points[j], s0, b0, u),
    )) by {
        law_kept_points_fit_better(res, used, i, j);
        assert(residual::<A>(points[i], whole, res[i]) && residual::<A>(points[j], whole, res[j]));
        assert(residual_fits(points[i], s0, b0) && residual_fits(points[j], s0, b0));
        lemma_residual_size::<A>(points[i], whole, res[i]);
        lemma_residual_size::<A>(points[j], whole, res[j]);
        law_rank_orders_the_values(res[i], res[j]);
        let (a, c) = (scaled(res[i]), scaled(res[j]));
        assert(a * u <= c * u && (a < c ==> a * u < c * u)) by (nonlinear_arith)
            requires
                a <= c,
                u > 0,
        ;
        law_rank_orders_the_values(res[j], res[i]);
    }
    assert(least_squares(points, all, s0, b0));
}

/// A fit gives the line of least squares and the share of the spread that it
/// explains, where nothing rounds; there is one for two or more points whose rows
/// spread.
pub proof fn law_linear_fit_is_least_squares<A: FloatUnit>(points: &Vec<(u64, u64)>, r: Option<(u64, u64, u64)>)
    requires
        points@.len() <= usize::MAX,
        fit_exact::<A>(points@),
        call_ensures(fit::linear_fit::<A>, (points,), r),
    ensures
        points@.len() < 2 ==> r is None,
        points@.len() >= 2 && rows_spread(points@, all_flagged(points@.len())) ==> r is Some,
        r matches Some(line) ==> least_squares(points@, all_flagged(points@.len()), scaled(line.0), scaled(line.1)) && explains(
            points@,
            all_flagged(points@.len()),
            scaled(line.0),
            scaled(line.1),
            scaled(line.2),
        ),
{
    let all = all_flagged(points@.len());
    lemma_all_flagged_marked(points@, all);
    lemma_marked_count(points@, all);
    assert(all.take(points@.len() as int) =~= all);
    if points@.len() >= 2 && rows_spread(points@, all) {
        lemma_marked_fit_exists::<A>(points@, all, r);
    }
    if let Some(line) = r {
        lemma_fit_of_marked::<A>(points@, all, line);
    }
}

/// A trimmed fit keeps three quarters of the points, those that fit the line of
/// least squares of all of them best, and gives the line of least squares of
/// those.
pub proof fn law_trimmed_fit_keeps_the_best<A: FloatUnit>(points: &Vec<(u64, u64)>, line: (u64, u64, u64), used: Vec<bool>)
    requires
        rounds_only_if_needed::<A>(),
        points@.len() <= usize::MAX,
        trimmed_exact::<A>(points@),
        call_ensures(fit::trimmed_fit::<A>, (points,), Some((line, used))),
    ensures
        is_trimmed_fit(points@, used@, scaled(line.0), scaled(line.1)),
        explains(points@, used@, scaled(line.0), scaled(line.1), scaled(line.2)),
{
    lemma_trimmed_fit::<A>(points@, line, used@);
}

/// The points of the rows of an estimate.
pub open spec fn row_points(rows: Seq<RowEstimate>) -> Seq<(u64, u64)> {
    Seq::new(rows.len(), |k: int| (rows[k].row, rows[k].cor))
}

/// The flags of the rows of an estimate.
pub open spec fn row_flags(rows: Seq<RowEstimate>) -> Seq<bool> {
    Seq::new(rows.len(), |k: int| rows[k].used)
}

/// Whether the center of rotation of a line is made of doubles.
pub open spec fn center_fits(height: int, s: int, b: int) -> bool {
    &&& representable(height * unity())
    &&& representable((height - 1) * unity())
    &&& (height - 1) * unity() % 2 == 0
    &&& representable(mid(height))
    &&& product_fits(s, mid(height))
    &&& representable(product(s, mid(height)) + b)
}

/// Whether `tan` takes the angle that the unit gives for a slope, in degrees,
/// back to the slope.
pub open spec fn inverts_the_tilt<A: FloatUnit>(tan: spec_fn(u64) -> u64, slope: u64) -> bool {
    forall|a: u64, d: u64| #[trigger]
        call_ensures(A::arctan, (slope,), a) && #[trigger] call_ensures(A::degrees, (a,), d) ==> tan(d) == slope
}

/// Whether an estimate says what its rows say: its line is that of a trimmed
/// fit of them, its quality the share that the line explains, its center the
/// column of the line at mid-height, and its tilt the angle of the line.
pub open spec fn says_what_its_rows_say(e: Estimate, height: int, tan: spec_fn(u64) -> u64) -> bool {
    &&& e.rows@.len() >= 2
    &&& is_trimmed_fit(row_points(e.rows@), row_flags(e.rows@), scaled(e.slope), scaled(e.intercept))
    &&& explains(row_points(e.rows@), row_flags(e.rows@), scaled(e.slope), scaled(e.intercept), scaled(e.r2))
    &&& scaled(e.cor) == product(scaled(e.slope), mid(height)) + scaled(e.intercept)
    &&& tan(e.tilt_deg) == e.slope
}

pub proof fn lemma_estimate<A: FloatUnit>(
    method: Seq<char>,
    height: usize,
    columns: Seq<(u64, u64)>,
    e: Estimate,
    tan: spec_fn(u64) -> u64,
)
    requires
        rounds_only_if_needed::<A>(),
        columns.len() <= usize::MAX,
        trimmed_exact::<A>(columns),
        finite(e.slope),
        finite(e.intercept),
        center_fits(height as int, scaled(e.slope), scaled(e.intercept)),
        inverts_the_tilt::<A>(tan, e.slope),
        estimated::<A>(method, height, columns, Ok(e)),
    ensures
        e.method@ == method,
        row_points(e.rows@) == columns,
        says_what_its_rows_say(e, height as int, tan),
{
    let fit = choose|fit: Option<(Line, Seq<bool>)>|
        #[trigger] trimmed::<A>(columns, fit) && match fit {
            None => Ok::<Estimate, String>(e) matches Err(t) && t@ == "degenerate row range for the axis fit"@,
            Some((line, used)) => Ok::<Estimate, String>(e) matches Ok(o) && estimate_of::<A>(method, height, columns, line, used, o),
        };
    let (line, used) = fit->0;
    lemma_trimmed_fit::<A>(columns, line, used);
    assert(row_points(e.rows@) =~= columns) by {
        assert forall|k: int| 0 <= k < columns.len() implies row_points(e.rows@)[k] == columns[k] by {
            assert(e.rows@[k] == (RowEstimate { row: columns[k].0, cor: columns[k].1, used: used[k] }));
        }
    }
    assert(row_flags(e.rows@) =~= used) by {
        assert forall|k: int| 0 <= k < used.len() implies row_flags(e.rows@)[k] == used[k] by {
            assert(e.rows@[k] == (RowEstimate { row: columns[k].0, cor: columns[k].1, used: used[k] }));
        }
    }
    let (m, q) = choose|m: u64, q: u64|
        #[trigger] middle::<A>(height, m) && #[trigger] call_ensures(A::times, (e.slope, m), q) && call_ensures(
            A::plus,
            (q, e.intercept),
            e.cor,
        );
    lemma_middle_value::<A>(height, m);
    assert(finite(q) && scaled(q) == product(scaled(e.slope), mid(height as int)));
}

/// Whether the rows spread: those of all the points, and those of any of them
/// that a trimmed fit may keep.
pub open spec fn kept_rows_spread(points: Seq<(u64, u64)>) -> bool {
    &&& rows_spread(points, all_flagged(points.len()))
    &&& forall|used: Seq<bool>|
        used.len() == points.len() && #[trigger] flags_set(used) == kept_of(points.len() as int) ==> rows_spread(points, used)
}

/// There is an estimate for two or more columns whose rows spread, and none for
/// fewer.
pub proof fn law_two_columns_make_an_estimate<A: FloatUnit>(
    method: String,
    height: usize,
    columns: &Vec<(u64, u64)>,
    r: Result<Estimate, String>,
)
    requires
        rounds_only_if_needed::<A>(),
        columns@.len() <= usize::MAX,
        trimmed_exact::<A>(columns@),
        call_ensures(fit::fit_estimate::<A>, (method, height, columns), r),
    ensures
        columns@.len() < 2 ==> (r matches Err(e) && e@ == "fewer than 2 row bands gave a usable shift"@),
        columns@.len() >= 2 && kept_rows_spread(columns@) ==> r is Ok,
{
    let points = columns@;
    let n = points.len() as int;
    if n >= 2 && kept_rows_spread(points) && r is Err {
        let first = choose|first: Option<Line>|
            #[trigger] fitted::<A>(points, first) && match first {
                None => None::<(Line, Seq<bool>)> is None,
                Some(l) => refitted::<A>(points, l, None),
            };
        let all = all_flagged(points.len());
        lemma_all_flagged_marked(points, all);
        lemma_marked_count(points, all);
        assert(all.take(n) =~= all);
        lemma_marked_fit_exists::<A>(points, all, first);
        let whole = first->0;
        let (res, flags, second) = choose|res: Seq<u64>, flags: Seq<bool>, second: Option<Line>|
            #[trigger] residuals::<A>(points, whole, res) && #[trigger] marks_best(res, flags) && #[trigger] fitted::<A>(
                marked(points, flags),
                second,
            ) && None::<(Line, Seq<bool>)> == match second {
                None => None,
                Some(l) => Some((l, flags)),
            };
        assert(flags.len() == n);
        law_number_of_kept_points(points, res, flags);
        lemma_marked_count(points, flags);
        assert(flags.take(n) =~= flags);
        assert(keep_count(n) == kept_of(n));
        assert(fit_exact::<A>(marked(points, flags)));
        lemma_marked_fit_exists::<A>(points, flags, second);
    }
}

/// The estimate of columns says what they say: the line of least squares of the
/// three quarters of them that fit best, its column at mid-height, and its
/// angle from the vertical.
pub proof fn law_estimate_says_what_the_columns_say<A: FloatUnit>(
    method: String,
    height: usize,
    columns: &Vec<(u64, u64)>,
    e: Estimate,
    tan: spec_fn(u64) -> u64,
)
    requires
        rounds_only_if_needed::<A>(),
        columns@.len() <= usize::MAX,
        trimmed_exact::<A>(columns@),
        finite(e.slope),
        finite(e.intercept),
        center_fits(height as int, scaled(e.slope), scaled(e.intercept)),
        inverts_the_tilt::<A>(tan, e.slope),
        call_ensures(fit::fit_estimate::<A>, (method, height, columns), Ok(e)),
    ensures
        e.method@ == method@,
        row_points(e.rows@) == columns@,
        says_what_its_rows_say(e, height as int, tan),
{
    lemma_estimate::<A>(method@, height, columns@, e, tan);
}

/// How many bands of `band` rows the rows from `top` to `bottom` hold, when one
/// starts at every `step`-th row.
pub open spec fn band_number(top: int, bottom: int, step: int, band: int) -> int {
    if bottom + 1 - top < band {
        0
    } else {
        (bottom + 1 - top - band) / step + 1
    }
}

/// The middle row of `band` rows from `y` on.
pub open spec fn middle_row(y: int, band: int) -> int {
    y * unity() + mid(band)
}

/// Whether the middle row is made of doubles.
pub open spec fn middle_row_fits(y: int, band: int) -> bool {
    &&& representable(y * unity())
    &&& representable(band * unity())
    &&& representable((band - 1) * unity())
    &&& (band - 1) * unity() % 2 == 0
    &&& representable(mid(band))
    &&& representable(middle_row(y, band))
}

/// The settings as they are: a row range within the stack, and a step and a
/// band of at least one row.
pub open spec fn settings_fit(params: Params, height: usize) -> bool {
    params.y_top <= params.y_bottom < height && params.ystep >= 1 && params.band >= 1
}

pub proof fn lemma_bands<A: FloatUnit>(height: usize, params: Params, list: Seq<(usize, u64)>)
    requires
        settings_fit(params, height),
        bands_of::<A>(height, params, list),
    ensures
        list.len() == band_number(params.y_top as int, params.y_bottom as int, params.ystep as int, params.band as int),
        list.len() <= height,
        forall|k: int|
            0 <= k < list.len() ==> (#[trigger] list[k]).0 == params.y_top + k * params.ystep && list[k].0 + params.band
                <= params.y_bottom + 1,
{
    let (top, bottom, step, band) = (params.y_top as int, params.y_bottom as int, params.ystep as int, params.band as int);
    let n = list.len() as int;
    let room = bottom + 1 - top - band;
    if n == 0 {
        assert(0 * step == 0) by (nonlinear_arith);
    } else {
        assert(list[n - 1].0 == top + (n - 1) * step);
        assert(room / step == n - 1) by {
            assert(0 <= room - (n - 1) * step < step) by (nonlinear_arith)
                requires
                    top + (n - 1) * step + band <= bottom + 1,
                    top + n * step + band > bottom + 1,
                    room == bottom + 1 - top - band,
            ;
            vstd::arithmetic::div_mod::lemma_fundamental_div_mod_converse(room, step, n - 1, room - (n - 1) * step);
        }
        assert(n - 1 <= (n - 1) * step && 0 <= (n - 1) * step) by (nonlinear_arith)
            requires
                n >= 1,
                step >= 1,
        ;
    }
}

proof fn lemma_band_center<A: FloatUnit>(y: usize, band: usize, row: u64)
    requires
        rounds_only_if_needed::<A>(),
        middle_row_fits(y as int, band as int),
        band_center::<A>(y, band, row),
    ensures
        finite(row),
        scaled(row) == middle_row(y as int, band as int),
{
    let (start, half) = choose|start: u64, half: u64|
        #[trigger] call_ensures(A::count, (y,), start) && #[trigger] middle::<A>(band, half) && call_ensures(
            A::plus,
            (start, half),
            row,
        );
    lemma_middle_value::<A>(band, half);
    assert(finite(start) && scaled(start) == y * unity());
}

/// The bands start at the top row and at every step after it, as long as they
/// end at or above the bottom row; each comes with its middle row.
pub proof fn law_bands_fill_the_row_range<A: FloatUnit>(height: usize, params: &Params, out: Vec<(usize, u64)>)
    requires
        rounds_only_if_needed::<A>(),
        settings_fit(*params, height),
        forall|y: int| params.y_top <= y <= params.y_bottom ==> #[trigger] middle_row_fits(y, params.band as int),
        call_ensures(algorithms::bands::<A>, (height, params), out),
    ensures
        out@.len() == band_number(params.y_top as int, params.y_bottom as int, params.ystep as int, params.band as int),
        forall|k: int|
            0 <= k < out@.len() ==> (#[trigger] out@[k]).0 == params.y_top + k * params.ystep && scaled(out@[k].1) == middle_row(
                params.y_top + k * params.ystep,
                params.band as int,
            ),
{
    lemma_bands::<A>(height, *params, out@);
    assert forall|k: int| 0 <= k < out@.len() implies (#[trigger] out@[k]).0 == params.y_top + k * params.ystep && scaled(out@[k].1)
        == middle_row(params.y_top + k * params.ystep, params.band as int) by {
        assert(0 <= k * params.ystep) by (nonlinear_arith)
            requires
                k >= 0,
                params.ystep >= 1,
        ;
        assert(middle_row_fits(out@[k].0 as int, params.band as int));
        lemma_band_center::<A>(out@[k].0, params.band, out@[k].1);
    }
}

/// The settings brought into the range of a stack: the rows within it, and a
/// step and a band of one row at least.
pub open spec fn brought_into_range(params: Params, height: usize) -> Params {
    Params {
        y_top: if params.y_top < height {
            params.y_top
        } else {
            (height - 1) as usize
        },
        y_bottom: if params.y_bottom < height {
            params.y_bottom
        } else {
            (height - 1) as usize
        },
        ystep: if params.ystep == 0 {
            1
        } else {
            params.ystep
        },
        band: if params.band == 0 {
            1
        } else {
            params.band
        },
        max_shift: params.max_shift,
    }
}

/// Settings beyond the range of a stack stand for those at its ends: the bands
/// and the whole range are the same.
pub proof fn law_settings_are_brought_into_range<A: FloatUnit>(height: usize, params: Params, list: Seq<(usize, u64)>)
    requires
        height > 0,
    ensures
        bands_of::<A>(height, params, list) <==> bands_of::<A>(height, brought_into_range(params, height), list),
        algorithms::whole_range(height, params) == algorithms::whole_range(height, brought_into_range(params, height)),
        params.band_rows() == brought_into_range(params, height).band,
{
}

/// Nor do the estimates change.
pub proof fn law_estimates_keep_to_the_stack<A: FloatUnit>(
    stack: &Stack,
    pair: Pair,
    pairs: Seq<Pair>,
    params: Params,
    r: Result<Estimate, String>,
)
    requires
        stack.wf(),
    ensures
        registered::<A>(stack, pair, params, r) ==> registered::<A>(stack, pair, brought_into_range(params, stack.height), r),
        consensus::<A>(stack, pairs, params, r) ==> consensus::<A>(stack, pairs, brought_into_range(params, stack.height), r),
{
    let near = brought_into_range(params, stack.height);
    if registered::<A>(stack, pair, params, r) {
        let (list, columns, method) = choose|list: Seq<(usize, u64)>, columns: Seq<(u64, u64)>, method: Seq<char>|
            #[trigger] bands_of::<A>(stack.height, params, list) && #[trigger] algorithms::pair_columns::<A>(
                stack,
                pair,
                params,
                list,
                columns,
            ) && #[trigger] algorithms::single_method::<A>(pair, method) && estimated::<A>(method, stack.height, columns, r);
        law_settings_are_brought_into_range::<A>(stack.height, params, list);
        assert(algorithms::pair_columns::<A>(stack, pair, near, list, columns));
    }
    if pairs.len() > 0 && consensus::<A>(stack, pairs, params, r) {
        let (list, columns) = choose|list: Seq<(usize, u64)>, columns: Seq<(u64, u64)>|
            #[trigger] bands_of::<A>(stack.height, params, list) && #[trigger] algorithms::consensus_columns::<A>(
                stack,
                pairs,
                params,
                list,
                columns,
            ) && estimated::<A>(algorithms::multi_method(pairs.len()), stack.height, columns, r);
        law_settings_are_brought_into_range::<A>(stack.height, params, list);
        assert(algorithms::consensus_columns::<A>(stack, pairs, near, list, columns));
    }
}

/// Rows that stop above the top row hold no band.
pub proof fn law_empty_row_range_has_no_band<A: FloatUnit>(height: usize, params: &Params, out: Vec<(usize, u64)>)
    requires
        params.y_bottom < params.y_top < height,
        call_ensures(algorithms::bands::<A>, (height, params), out),
    ensures
        out@.len() == 0,
{
    if out@.len() > 0 {
        assert(out@[0].0 == params.y_top + 0 * params.step());
    }
}

/// The number of the bands of the settings.
pub open spec fn bands_in(params: Params) -> int {
    band_number(params.y_top as int, params.y_bottom as int, params.ystep as int, params.band as int)
}

/// The first row of band `k`.
pub open spec fn band_start(params: Params, k: int) -> int {
    params.y_top + k * params.ystep
}

/// Whether the middle rows of the bands are made of doubles.
pub open spec fn middle_rows_fit(params: Params) -> bool {
    forall|y: int| params.y_top <= y <= params.y_bottom ==> #[trigger] middle_row_fits(y, params.band as int)
}

/// Whether the search at every band is made of doubles, for one pair; `s` are
/// the deviations of the two profiles at each band.
pub open spec fn pair_searches_fit(stack: &Stack, pair: Pair, params: Params, s: Seq<(int, int)>) -> bool {
    forall|k: int|
        0 <= k < bands_in(params) ==> pair_search_fits(
            stack,
            pair,
            band_start(params, k),
            params.band as int,
            params.max_shift as int,
            #[trigger] s[k],
        )
}

/// Whether the rows are those of the bands, each with the axis column of the
/// pair over the rows of its band.
pub open spec fn rows_hold_pair_axes(
    stack: &Stack,
    pair: Pair,
    params: Params,
    s: Seq<(int, int)>,
    rows: Seq<RowEstimate>,
) -> bool {
    &&& rows.len() == bands_in(params)
    &&& forall|k: int|
        0 <= k < rows.len() ==> scaled((#[trigger] rows[k]).row) == middle_row(band_start(params, k), params.band as int)
            && is_pair_axis(
            stack,
            pair,
            band_start(params, k),
            params.band as int,
            params.max_shift as int,
            s[k],
            scaled(rows[k].cor),
        )
}

/// Whether the search at every band is made of doubles, for all pairs.
pub open spec fn consensus_searches_fit(stack: &Stack, pairs: Seq<Pair>, params: Params, s: Seq<Seq<(int, int)>>) -> bool {
    forall|k: int|
        0 <= k < bands_in(params) ==> consensus_search_fits(
            stack,
            pairs,
            band_start(params, k),
            params.band as int,
            params.max_shift as int,
            #[trigger] s[k],
        )
}

/// Whether the rows are those of the bands, each with the axis column of all
/// the pairs together over the rows of its band.
pub open spec fn rows_hold_consensus_axes(
    stack: &Stack,
    pairs: Seq<Pair>,
    params: Params,
    s: Seq<Seq<(int, int)>>,
    rows: Seq<RowEstimate>,
) -> bool {
    &&& rows.len() == bands_in(params)
    &&& forall|k: int|
        0 <= k < rows.len() ==> scaled((#[trigger] rows[k]).row) == middle_row(band_start(params, k), params.band as int)
            && is_consensus_axis(
            stack,
            pairs,
            band_start(params, k),
            params.band as int,
            params.max_shift as int,
            s[k],
            scaled(rows[k].cor),
        )
}

/// Whether the estimate itself is made of doubles, given its rows, and `tan`
/// takes its tilt back to its slope.
pub open spec fn estimate_fits<A: FloatUnit>(e: Estimate, height: int, tan: spec_fn(u64) -> u64) -> bool {
    &&& trimmed_exact::<A>(row_points(e.rows@))
    &&& finite(e.slope)
    &&& finite(e.intercept)
    &&& center_fits(height, scaled(e.slope), scaled(e.intercept))
    &&& inverts_the_tilt::<A>(tan, e.slope)
}

proof fn lemma_rows_are_columns<A: FloatUnit>(method: Seq<char>, height: usize, columns: Seq<(u64, u64)>, e: Estimate)
    requires
        estimated::<A>(method, height, columns, Ok(e)),
    ensures
        row_points(e.rows@) == columns,
{
    let fit = choose|fit: Option<(Line, Seq<bool>)>|
        #[trigger] trimmed::<A>(columns, fit) && match fit {
            None => Ok::<Estimate, String>(e) matches Err(t) && t@ == "degenerate row range for the axis fit"@,
            Some((line, used)) => Ok::<Estimate, String>(e) matches Ok(o) && estimate_of::<A>(method, height, columns, line, used, o),
        };
    let (line, used) = fit->0;
    assert forall|k: int| 0 <= k < columns.len() implies row_points(e.rows@)[k] == columns[k] by {
        assert(e.rows@[k] == (RowEstimate { row: columns[k].0, cor: columns[k].1, used: used[k] }));
    }
    assert(row_points(e.rows@) =~= columns);
}

pub proof fn lemma_registered_values<A: FloatUnit>(
    stack: &Stack,
    pair: Pair,
    params: Params,
    s: Seq<(int, int)>,
    e: Estimate,
    tan: spec_fn(u64) -> u64,
)
    requires
        rounds_only_if_needed::<A>(),
        keeps_signs::<A>(),
        stack.wf(),
        stack.width <= isize::MAX,
        pair.i < stack.n,
        pair.j < stack.n,
        settings_fit(params, stack.height),
        middle_rows_fit(params),
        pair_searches_fit(stack, pair, params, s),
        estimate_fits::<A>(e, stack.height as int, tan),
        registered::<A>(stack, pair, params, Ok(e)),
    ensures
        rows_hold_pair_axes(stack, pair, params, s, e.rows@),
        says_what_its_rows_say(e, stack.height as int, tan),
{
    law_only_empty_profiles_are_degenerate(stack.width as int, params.max_shift);
    let (list, columns, method) = choose|list: Seq<(usize, u64)>, columns: Seq<(u64, u64)>, method: Seq<char>|
        #[trigger] bands_of::<A>(stack.height, params, list) && #[trigger] algorithms::pair_columns::<A>(
            stack,
            pair,
            params,
            list,
            columns,
        ) && #[trigger] algorithms::single_method::<A>(pair, method) && estimated::<A>(method, stack.height, columns, Ok(e));
    lemma_bands::<A>(stack.height, params, list);
    lemma_rows_are_columns::<A>(method, stack.height, columns, e);
    lemma_estimate::<A>(method, stack.height, columns, e, tan);
    assert forall|k: int| 0 <= k < e.rows@.len() implies scaled((#[trigger] e.rows@[k]).row) == middle_row(
        band_start(params, k),
        params.band as int,
    ) && is_pair_axis(
        stack,
        pair,
        band_start(params, k),
        params.band as int,
        params.max_shift as int,
        s[k],
        scaled(e.rows@[k].cor),
    ) by {
        assert(0 <= k * params.ystep) by (nonlinear_arith)
            requires
                k >= 0,
                params.ystep >= 1,
        ;
        assert(row_points(e.rows@)[k] == columns[k]);
        assert(columns[k].0 == list[k].1);
        assert(middle_row_fits(list[k].0 as int, params.band as int));
        lemma_band_center::<A>(list[k].0, params.band, list[k].1);
        assert(pair_search_fits(stack, pair, band_start(params, k), params.band as int, params.max_shift as int, s[k]));
        lemma_pair_axis_value::<A>(stack, pair, list[k].0 as int, params.band as int, params.max_shift, s[k], columns[k].1);
    }
}

/// The estimate from one pair is taken at every band of the row range: the axis
/// column of each is that of the pair over the rows of the band, at its middle
/// row, and the estimate says what these columns say.
pub proof fn law_single_pair_values<A: FloatUnit>(
    stack: &Stack,
    pair: &Pair,
    params: &Params,
    s: Seq<(int, int)>,
    e: Estimate,
    tan: spec_fn(u64) -> u64,
)
    requires
        rounds_only_if_needed::<A>(),
        keeps_signs::<A>(),
        stack.wf(),
        stack.width <= isize::MAX,
        pair.i < stack.n,
        pair.j < stack.n,
        settings_fit(*params, stack.height),
        middle_rows_fit(*params),
        pair_searches_fit(stack, *pair, *params, s),
        estimate_fits::<A>(e, stack.height as int, tan),
        call_ensures(algorithms::single_pair::<A>, (stack, pair, params), Ok(e)),
    ensures
        rows_hold_pair_axes(stack, *pair, *params, s, e.rows@),
        says_what_its_rows_say(e, stack.height as int, tan),
{
    lemma_registered_values::<A>(stack, *pair, *params, s, e, tan);
}

pub proof fn lemma_consensus_values<A: FloatUnit>(
    stack: &Stack,
    pairs: Seq<Pair>,
    params: Params,
    s: Seq<Seq<(int, int)>>,
    e: Estimate,
    tan: spec_fn(u64) -> u64,
)
    requires
        rounds_only_if_needed::<A>(),
        keeps_signs::<A>(),
        cancels::<A>(),
        adds_to_nothing::<A>(),
        stack.wf(),
        stack.width <= isize::MAX,
        forall|j: int| 0 <= j < pairs.len() ==> (#[trigger] pairs[j]).i < stack.n && pairs[j].j < stack.n,
        settings_fit(params, stack.height),
        middle_rows_fit(params),
        consensus_searches_fit(stack, pairs, params, s),
        estimate_fits::<A>(e, stack.height as int, tan),
        consensus::<A>(stack, pairs, params, Ok(e)),
    ensures
        rows_hold_consensus_axes(stack, pairs, params, s, e.rows@),
        says_what_its_rows_say(e, stack.height as int, tan),
{
    law_only_empty_profiles_are_degenerate(stack.width as int, params.max_shift);
    let method = algorithms::multi_method(pairs.len());
    let (list, columns) = choose|list: Seq<(usize, u64)>, columns: Seq<(u64, u64)>|
        #[trigger] bands_of::<A>(stack.height, params, list) && #[trigger] algorithms::consensus_columns::<A>(
            stack,
            pairs,
            params,
            list,
            columns,
        ) && estimated::<A>(algorithms::multi_method(pairs.len()), stack.height, columns, Ok(e));
    lemma_bands::<A>(stack.height, params, list);
    lemma_rows_are_columns::<A>(method, stack.height, columns, e);
    lemma_estimate::<A>(method, stack.height, columns, e, tan);
    assert forall|k: int| 0 <= k < e.rows@.len() implies scaled((#[trigger] e.rows@[k]).row) == middle_row(
        band_start(params, k),
        params.band as int,
    ) && is_consensus_axis(
        stack,
        pairs,
        band_start(params, k),
        params.band as int,
        params.max_shift as int,
        s[k],
        scaled(e.rows@[k].cor),
    ) by {
        assert(0 <= k * params.ystep) by (nonlinear_arith)
            requires
                k >= 0,
                params.ystep >= 1,
        ;
        assert(row_points(e.rows@)[k] == columns[k]);
        assert(columns[k].0 == list[k].1);
        assert(middle_row_fits(list[k].0 as int, params.band as int));
        lemma_band_center::<A>(list[k].0, params.band, list[k].1);
        assert(consensus_search_fits(stack, pairs, band_start(params, k), params.band as int, params.max_shift as int, s[k]));
        lemma_consensus_axis_value::<A>(stack, pairs, list[k].0 as int, params.band as int, params.max_shift, s[k], columns[k].1);
    }
}

/// The consensus is taken at every band of the row range: the axis column of
/// each is that of all the pairs together over the rows of the band, at its
/// middle row, and the estimate says what these columns say.
pub proof fn law_multi_pair_values<A: FloatUnit>(
    stack: &Stack,
    pairs: &[Pair],
    params: &Params,
    s: Seq<Seq<(int, int)>>,
    e: Estimate,
    tan: spec_fn(u64) -> u64,
)
    requires
        rounds_only_if_needed::<A>(),
        keeps_signs::<A>(),
        cancels::<A>(),
        adds_to_nothing::<A>(),
        stack.wf(),
        stack.width <= isize::MAX,
        forall|j: int| 0 <= j < pairs@.len() ==> (#[trigger] pairs@[j]).i < stack.n && pairs@[j].j < stack.n,
        settings_fit(*params, stack.height),
        middle_rows_fit(*params),
        consensus_searches_fit(stack, pairs@, *params, s),
        estimate_fits::<A>(e, stack.height as int, tan),
        call_ensures(algorithms::multi_pair::<A>, (stack, pairs, params), Ok(e)),
    ensures
        rows_hold_consensus_axes(stack, pairs@, *params, s, e.rows@),
        says_what_its_rows_say(e, stack.height as int, tan),
{
    lemma_consensus_values::<A>(stack, pairs@, *params, s, e, tan);
}

/// Without a pair there is no consensus.
pub proof fn law_no_pairs_no_consensus<A: FloatUnit>(stack: &Stack, pairs: &[Pair], params: &Params, r: Result<Estimate, String>)
    requires
        pairs@.len() == 0,
        call_ensures(algorithms::multi_pair::<A>, (stack, pairs, params), r),
    ensures
        r is Err,
{
}

/// Whether the whole range of a pair is searched in doubles.
pub open spec fn whole_search_fits(stack: &Stack, pair: Pair, params: Params, s: (int, int)) -> bool {
    pair_search_fits(
        stack,
        pair,
        params.y_top as int,
        params.y_bottom - params.y_top + 1,
        params.max_shift as int,
        s,
    )
}

/// Whether `c` is the axis column of a pair over all the rows from the top row
/// to the bottom row.
pub open spec fn is_whole_range_axis(stack: &Stack, pair: Pair, params: Params, s: (int, int), c: int) -> bool {
    is_pair_axis(
        stack,
        pair,
        params.y_top as int,
        params.y_bottom - params.y_top + 1,
        params.max_shift as int,
        s,
        c,
    )
}

/// What a job answers: the estimate of the selected pair or of all of them, as
/// it was asked for, and beside it in either way the axis column of the selected
/// pair over the whole row range.
pub proof fn law_job_values<A: FloatUnit>(
    job: &EstimateJob,
    stack: &Stack,
    one: Seq<(int, int)>,
    all: Seq<Seq<(int, int)>>,
    whole: (int, int),
    r: (Estimate, Option<u64>),
    tan: spec_fn(u64) -> u64,
)
    requires
        rounds_only_if_needed::<A>(),
        keeps_signs::<A>(),
        cancels::<A>(),
        adds_to_nothing::<A>(),
        stack.wf(),
        stack.width <= isize::MAX,
        job.fits(stack.n),
        job.params.y_top < job.params.y_bottom < stack.height,
        job.params.ystep >= 1,
        job.params.band >= 1,
        middle_rows_fit(job.params),
        pair_searches_fit(stack, job.pair, job.params, one),
        consensus_searches_fit(stack, job.pairs@, job.params, all),
        whole_search_fits(stack, job.pair, job.params, whole),
        estimate_fits::<A>(r.0, stack.height as int, tan),
        call_ensures(EstimateJob::run::<A>, (job, stack), Ok(r)),
    ensures
        !job.all_pairs ==> rows_hold_pair_axes(stack, job.pair, job.params, one, r.0.rows@),
        job.all_pairs ==> rows_hold_consensus_axes(stack, job.pairs@, job.params, all, r.0.rows@),
        says_what_its_rows_say(r.0, stack.height as int, tan),
        r.1 matches Some(c) && is_whole_range_axis(stack, job.pair, job.params, whole, scaled(c)),
{
    law_only_empty_profiles_are_degenerate(stack.width as int, job.params.max_shift);
    law_job_answers_as_the_estimators::<A>(job, stack, Ok(r));
    if job.all_pairs {
        lemma_consensus_values::<A>(stack, job.pairs@, job.params, all, r.0, tan);
    } else {
        lemma_registered_values::<A>(stack, job.pair, job.params, one, r.0, tan);
    }
    lemma_pair_axis_value::<A>(
        stack,
        job.pair,
        job.params.y_top as int,
        job.params.y_bottom - job.params.y_top + 1,
        job.params.max_shift,
        whole,
        r.1->0,
    );
}

/// What a job gives at one band: the middle row that came with it, and the axis
/// column of the selected pair or of all of them.
pub proof fn law_job_column_value<A: FloatUnit>(
    job: &EstimateJob,
    stack: &Stack,
    at: (usize, u64),
    one: (int, int),
    all: Seq<(int, int)>,
    r: Option<(u64, u64)>,
)
    requires
        rounds_only_if_needed::<A>(),
        keeps_signs::<A>(),
        cancels::<A>(),
        adds_to_nothing::<A>(),
        stack.wf(),
        stack.width <= isize::MAX,
        job.fits(stack.n),
        job.all_pairs ==> job.pairs@.len() > 0,
        job.params.band >= 1,
        at.0 + job.params.band <= stack.height,
        pair_search_fits(stack, job.pair, at.0 as int, job.params.band as int, job.params.max_shift as int, one),
        consensus_search_fits(stack, job.pairs@, at.0 as int, job.params.band as int, job.params.max_shift as int, all),
        call_ensures(EstimateJob::column::<A>, (job, stack, at), r),
    ensures
        r matches Some((row, c)) && row == at.1 && if job.all_pairs {
            is_consensus_axis(
                stack,
                job.pairs@,
                at.0 as int,
                job.params.band as int,
                job.params.max_shift as int,
                all,
                scaled(c),
            )
        } else {
            is_pair_axis(stack, job.pair, at.0 as int, job.params.band as int, job.params.max_shift as int, one, scaled(c))
        },
{
    law_only_empty_profiles_are_degenerate(stack.width as int, job.params.max_shift);
    let (y, band, m) = (at.0 as int, job.params.band as int, job.params.max_shift);
    let c = (r->0).1;
    if job.all_pairs {
        lemma_consensus_axis_value::<A>(stack, job.pairs@, y, band, m, all, c);
    } else {
        lemma_pair_axis_value::<A>(stack, job.pair, y, band, m, one, c);
    }
}

} // verus!
