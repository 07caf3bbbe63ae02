//! What the fitted line is: the one of least squares.
use crate::fit::{
    center, explained, fitted, line_of, moment_added, moments, point_added, point_sums, product_added, Line,
    Moments,
};
use crate::ieee;
use crate::ieee::{absolute, below, law_rank_orders_the_values, lemma_scaled_constants, scaled};
use crate::unit::{count_exact, minus_exact, over_exact, plus_exact, times_exact, FloatUnit};
use vstd::prelude::*;

verus! {

/// The value of one.
pub open spec fn unity() -> int {
    scaled(ieee::ONE)
}

/// The sum of the squared residuals of the first `k` points about the line
/// with slope `p / n` and intercept `q / n`, in units of `n` squared.
pub open spec fn squared_residuals(points: Seq<(u64, u64)>, p: int, q: int, n: int, k: int) -> int
    decreases k,
{
    if k <= 0 {
        0
    } else {
        let r = residual_value(points[k - 1], p, q, n);
        squared_residuals(points, p, q, n, k - 1) + r * r
    }
}

/// The residual of a point about the line with slope `p / n` and intercept
/// `q / n`, in units of `n`.
pub open spec fn residual_value(point: (u64, u64), p: int, q: int, n: int) -> int {
    n * scaled(point.1) - p * scaled(point.0) - q * unity()
}

/// Whether all the points lie on the line with slope `p / n` and intercept
/// `q / n`.
pub open spec fn on_a_line(points: Seq<(u64, u64)>, p: int, q: int, n: int) -> bool {
    forall|k: int| 0 <= k < points.len() ==> residual_value(#[trigger] points[k], p, q, n) == 0
}

/// Whether adding the points up does not round.
pub open spec fn point_sums_exact<A: FloatUnit>(points: Seq<(u64, u64)>) -> bool {
    forall|k: int, s: (u64, u64)|
        0 <= k < points.len() && #[trigger] point_sums::<A>(points, k, s) ==> plus_exact::<A>(s.0, points[k].0)
            && plus_exact::<A>(s.1, points[k].1)
}

/// Whether the center of the points does not round.
pub open spec fn center_exact<A: FloatUnit>(points: Seq<(u64, u64)>) -> bool {
    &&& point_sums_exact::<A>(points)
    &&& count_exact::<A>(points.len() as usize)
    &&& forall|n: u64, s: (u64, u64)| #[trigger]
        call_ensures(A::count, (points.len() as usize,), n) && #[trigger] point_sums::<A>(points, points.len() as int, s)
            ==> over_exact::<A>(s.0, n) && over_exact::<A>(s.1, n)
}

/// Whether `prev + x * y` does not round.
pub open spec fn product_exact<A: FloatUnit>(prev: u64, x: u64, y: u64) -> bool {
    &&& times_exact::<A>(x, y)
    &&& forall|q: u64| #[trigger] call_ensures(A::times, (x, y), q) ==> plus_exact::<A>(prev, q)
}

/// Whether the moments of the points about `m` do not round.
pub open spec fn moments_exact<A: FloatUnit>(points: Seq<(u64, u64)>, m: (u64, u64)) -> bool {
    &&& forall|k: int|
        0 <= k < points.len() ==> minus_exact::<A>((#[trigger] points[k]).0, m.0) && minus_exact::<A>(points[k].1, m.1)
    &&& forall|k: int, prev: Moments, dx: u64, dy: u64|
        0 <= k < points.len() && #[trigger] moments::<A>(points, m, k, prev) && #[trigger] call_ensures(
            A::minus,
            (points[k].0, m.0),
            dx,
        ) && #[trigger] call_ensures(A::minus, (points[k].1, m.1), dy) ==> product_exact::<A>(prev.0, dx, dx)
            && product_exact::<A>(prev.1, dx, dy) && product_exact::<A>(prev.2, dy, dy)
}

/// Whether the slope and the intercept that the moments give do not round.
pub open spec fn line_exact<A: FloatUnit>(m: (u64, u64), t: Moments) -> bool {
    &&& over_exact::<A>(t.1, t.0)
    &&& forall|slope: u64| #[trigger] call_ensures(A::over, (t.1, t.0), slope) ==> times_exact::<A>(slope, m.0)
    &&& forall|slope: u64, q: u64| #[trigger]
        call_ensures(A::over, (t.1, t.0), slope) && #[trigger] call_ensures(A::times, (slope, m.0), q) ==> minus_exact::<A>(m.1, q)
}

/// Whether the quality of the fit does not round.
pub open spec fn quality_exact<A: FloatUnit>(t: Moments) -> bool {
    &&& times_exact::<A>(t.1, t.1)
    &&& times_exact::<A>(t.0, t.2)
    &&& forall|n: u64, d: u64| #[trigger]
        call_ensures(A::times, (t.1, t.1), n) && #[trigger] call_ensures(A::times, (t.0, t.2), d) ==> over_exact::<A>(n, d)
}

/// Whether the least-squares fit of the points does not round, as far as there
/// is a line.
pub open spec fn fit_exact<A: FloatUnit>(points: Seq<(u64, u64)>) -> bool {
    &&& center_exact::<A>(points)
    &&& forall|m: (u64, u64)| #[trigger] center::<A>(points, m) ==> moments_exact::<A>(points, m)
    &&& forall|m: (u64, u64), t: Moments| #[trigger]
        center::<A>(points, m) && #[trigger] moments::<A>(points, m, points.len() as int, t) ==> (below(absolute(t.0), ieee::TINY)
            || line_exact::<A>(m, t)) && quality_exact::<A>(t)
}

/// The sum of the rows of the first `k` points.
pub open spec fn total_x(points: Seq<(u64, u64)>, k: int) -> int
    decreases k,
{
    if k <= 0 {
        0
    } else {
        total_x(points, k - 1) + scaled(points[k - 1].0)
    }
}

/// The sum of the columns of the first `k` points.
pub open spec fn total_y(points: Seq<(u64, u64)>, k: int) -> int
    decreases k,
{
    if k <= 0 {
        0
    } else {
        total_y(points, k - 1) + scaled(points[k - 1].1)
    }
}

/// The sums of the products of the distances of the first `k` points from
/// `(mx, my)`: row by row, row by column, column by column.
spec fn moment_xx(points: Seq<(u64, u64)>, mx: int, k: int) -> int
    decreases k,
{
    if k <= 0 {
        0
    } else {
        moment_xx(points, mx, k - 1) + (scaled(points[k - 1].0) - mx) * (scaled(points[k - 1].0) - mx)
    }
}

spec fn moment_xy(points: Seq<(u64, u64)>, mx: int, my: int, k: int) -> int
    decreases k,
{
    if k <= 0 {
        0
    } else {
        moment_xy(points, mx, my, k - 1) + (scaled(points[k - 1].0) - mx) * (scaled(points[k - 1].1) - my)
    }
}

spec fn moment_yy(points: Seq<(u64, u64)>, my: int, k: int) -> int
    decreases k,
{
    if k <= 0 {
        0
    } else {
        moment_yy(points, my, k - 1) + (scaled(points[k - 1].1) - my) * (scaled(points[k - 1].1) - my)
    }
}

proof fn lemma_point_totals<A: FloatUnit>(points: Seq<(u64, u64)>, k: int, s: (u64, u64))
    requires
        point_sums_exact::<A>(points),
        k <= points.len(),
        point_sums::<A>(points, k, s),
    ensures
        scaled(s.0) == total_x(points, k),
        scaled(s.1) == total_y(points, k),
    decreases k,
{
    lemma_scaled_constants();
    if k > 0 {
        let prev = choose|prev: (u64, u64)|
            point_sums::<A>(points, k - 1, prev) && #[trigger] point_added::<A>(prev, points[k - 1], s);
        lemma_point_totals::<A>(points, k - 1, prev);
    }
}

/// The mean of the points, as values.
proof fn lemma_center_values<A: FloatUnit>(points: Seq<(u64, u64)>, m: (u64, u64))
    requires
        center_exact::<A>(points),
        points.len() <= usize::MAX,
        center::<A>(points, m),
    ensures
        scaled(m.0) * points.len() == total_x(points, points.len() as int),
        scaled(m.1) * points.len() == total_y(points, points.len() as int),
{
    lemma_scaled_constants();
    let len = points.len() as int;
    let u = unity();
    let (n, s) = choose|n: u64, s: (u64, u64)|
        #[trigger] call_ensures(A::count, (points.len() as usize,), n) && #[trigger] point_sums::<A>(
            points,
            points.len() as int,
            s,
        ) && call_ensures(A::over, (s.0, n), m.0) && call_ensures(A::over, (s.1, n), m.1);
    lemma_point_totals::<A>(points, len, s);
    let (a, b, c, d) = (scaled(m.0), scaled(m.1), scaled(s.0), scaled(s.1));
    assert(a * len == c && b * len == d) by (nonlinear_arith)
        requires
            a * scaled(n) == c * u,
            b * scaled(n) == d * u,
            scaled(n) == len * u,
            u > 0,
    ;
}

proof fn lemma_product_value<A: FloatUnit>(prev: u64, x: u64, y: u64, s: u64)
    requires
        product_exact::<A>(prev, x, y),
        product_added::<A>(prev, x, y, s),
    ensures
        scaled(s) * unity() == scaled(prev) * unity() + scaled(x) * scaled(y),
{
    let q = choose|q: u64| #[trigger] call_ensures(A::times, (x, y), q) && call_ensures(A::plus, (prev, q), s);
    let (a, b, u) = (scaled(prev), scaled(q), unity());
    assert((a + b) * u == a * u + b * u) by (nonlinear_arith);
}

/// The moments of the points, as values.
proof fn lemma_moment_values<A: FloatUnit>(points: Seq<(u64, u64)>, m: (u64, u64), k: int, t: Moments)
    requires
        moments_exact::<A>(points, m),
        k <= points.len(),
        moments::<A>(points, m, k, t),
    ensures
        scaled(t.0) * unity() == moment_xx(points, scaled(m.0), k),
        scaled(t.1) * unity() == moment_xy(points, scaled(m.0), scaled(m.1), k),
        scaled(t.2) * unity() == moment_yy(points, scaled(m.1), k),
    decreases k,
{
    lemma_scaled_constants();
    if k <= 0 {
        assert(0 * unity() == 0) by (nonlinear_arith);
    } else {
        let at = points[k - 1];
        let prev = choose|prev: Moments|
            moments::<A>(points, m, k - 1, prev) && #[trigger] moment_added::<A>(prev, points[k - 1], m, t);
        lemma_moment_values::<A>(points, m, k - 1, prev);
        let (dx, dy) = choose|dx: u64, dy: u64|
            #[trigger] call_ensures(A::minus, (at.0, m.0), dx) && #[trigger] call_ensures(A::minus, (at.1, m.1), dy)
                && product_added::<A>(prev.0, dx, dx, t.0) && product_added::<A>(prev.1, dx, dy, t.1) && product_added::<A>(
                prev.2,
                dy,
                dy,
                t.2,
            );
        assert(minus_exact::<A>(points[k - 1].0, m.0) && minus_exact::<A>(points[k - 1].1, m.1));
        lemma_product_value::<A>(prev.0, dx, dx, t.0);
        lemma_product_value::<A>(prev.1, dx, dy, t.1);
        lemma_product_value::<A>(prev.2, dy, dy, t.2);
    }
}

/// The residual about any line in terms of the distances from `(mx, my)` and
/// of the residual about the line with slope `s / u` through that point.
proof fn lemma_residual_splits(x: int, y: int, mx: int, my: int, s: int, p: int, q: int, n: int, u: int)
    ensures
        u * (n * y - p * x - q * u) == n * (u * (y - my) - s * (x - mx)) + (n * s - u * p) * (x - mx) + u * (n * my - p * mx - q
            * u),
{
    let (dx, dy) = (x - mx, y - my);
    assert(u * (n * y - p * x - q * u) == u * (n * y) - u * (p * x) - u * (q * u)) by (nonlinear_arith);
    assert(u * (n * my - p * mx - q * u) == u * (n * my) - u * (p * mx) - u * (q * u)) by (nonlinear_arith);
    assert(n * (u * dy - s * dx) == u * (n * dy) - (n * s) * dx) by (nonlinear_arith);
    assert((n * s - u * p) * dx == (n * s) * dx - u * (p * dx)) by (nonlinear_arith);
    assert(u * (n * dy) == u * (n * y) - u * (n * my)) by (nonlinear_arith)
        requires
            dy == y - my,
    ;
    assert(u * (p * dx) == u * (p * x) - u * (p * mx)) by (nonlinear_arith)
        requires
            dx == x - mx,
    ;
}

/// The square of a residual that splits, but for a square that is not negative.
proof fn lemma_square_splits(u: int, t: int, n: int, r: int, alpha: int, beta: int, s: int, dx: int, dy: int)
    requires
        u * t == n * r + alpha * dx + beta,
        r == u * dy - s * dx,
    ensures
        (u * u) * (t * t) >= (n * n) * (r * r) + (2 * n * alpha) * (u * (dx * dy) - s * (dx * dx)) + (2 * n * beta) * (u * dy - s
            * dx),
{
    let w = alpha * dx + beta;
    assert((u * u) * (t * t) == (u * t) * (u * t)) by (nonlinear_arith);
    assert((u * t) * (u * t) == (n * n) * (r * r) + 2 * (n * (r * w)) + w * w) by (nonlinear_arith)
        requires
            u * t == n * r + w,
    ;
    assert(w * w >= 0) by (nonlinear_arith);
    assert(r * w == alpha * (r * dx) + beta * r) by (nonlinear_arith)
        requires
            w == alpha * dx + beta,
    ;
    assert(r * dx == u * (dx * dy) - s * (dx * dx)) by (nonlinear_arith)
        requires
            r == u * dy - s * dx,
    ;
    assert(2 * (n * (alpha * (r * dx) + beta * r)) == (2 * n * alpha) * (r * dx) + (2 * n * beta) * r) by (nonlinear_arith);
}

/// The residuals about any line against those about the line with slope
/// `s / u` and intercept `b / u` through `(mx, my)`.
proof fn lemma_residuals_compare(points: Seq<(u64, u64)>, mx: int, my: int, s: int, b: int, p: int, q: int, n: int, k: int)
    requires
        0 <= k <= points.len(),
        b * unity() == my * unity() - s * mx,
    ensures
        ({
            let u = unity();
            let (ca, cb) = (2 * n * (n * s - u * p), 2 * n * (u * (n * my - p * mx - q * u)));
            let a = u * moment_xy(points, mx, my, k) - s * moment_xx(points, mx, k);
            let d = u * (total_y(points, k) - k * my) - s * (total_x(points, k) - k * mx);
            (u * u) * squared_residuals(points, p, q, n, k) >= (n * n) * squared_residuals(points, s, b, u, k) + ca * a + cb * d
        }),
    decreases k,
{
    let u = unity();
    let (alpha, beta) = (n * s - u * p, u * (n * my - p * mx - q * u));
    let (ca, cb) = (2 * n * alpha, 2 * n * beta);
    let a = u * moment_xy(points, mx, my, k) - s * moment_xx(points, mx, k);
    let d = u * (total_y(points, k) - k * my) - s * (total_x(points, k) - k * mx);
    if k == 0 {
        assert(a == 0 && d == 0) by (nonlinear_arith)
            requires
                a == u * 0 - s * 0,
                d == u * (0 - 0 * my) - s * (0 - 0 * mx),
        ;
        assert((u * u) * 0 == 0 && (n * n) * 0 == 0 && ca * 0 == 0 && cb * 0 == 0) by (nonlinear_arith);
    } else {
        lemma_residuals_compare(points, mx, my, s, b, p, q, n, k - 1);
        let (x, y) = (scaled(points[k - 1].0), scaled(points[k - 1].1));
        let (dx, dy) = (x - mx, y - my);
        let r = u * dy - s * dx;
        let t = n * y - p * x - q * u;
        assert(residual_value(points[k - 1], p, q, n) == t);
        assert(residual_value(points[k - 1], s, b, u) == r) by (nonlinear_arith)
            requires
                residual_value(points[k - 1], s, b, u) == u * y - s * x - b * u,
                b * u == my * u - s * mx,
                r == u * dy - s * dx,
                dx == x - mx,
                dy == y - my,
        ;
        lemma_residual_splits(x, y, mx, my, s, p, q, n, u);
        lemma_square_splits(u, t, n, r, alpha, beta, s, dx, dy);
        let (e0, f0) = (squared_residuals(points, p, q, n, k - 1), squared_residuals(points, s, b, u, k - 1));
        assert((u * u) * (e0 + t * t) == (u * u) * e0 + (u * u) * (t * t)) by (nonlinear_arith);
        assert((n * n) * (f0 + r * r) == (n * n) * f0 + (n * n) * (r * r)) by (nonlinear_arith);
        let (xy0, xx0) = (moment_xy(points, mx, my, k - 1), moment_xx(points, mx, k - 1));
        let a0 = u * xy0 - s * xx0;
        let a1 = u * (dx * dy) - s * (dx * dx);
        assert(a == a0 + a1) by (nonlinear_arith)
            requires
                a == u * (xy0 + dx * dy) - s * (xx0 + dx * dx),
                a0 == u * xy0 - s * xx0,
                a1 == u * (dx * dy) - s * (dx * dx),
        ;
        let (ty0, tx0) = (total_y(points, k - 1), total_x(points, k - 1));
        let d0 = u * (ty0 - (k - 1) * my) - s * (tx0 - (k - 1) * mx);
        assert(d == d0 + r) by (nonlinear_arith)
            requires
                d == u * (ty0 + y - k * my) - s * (tx0 + x - k * mx),
                d0 == u * (ty0 - (k - 1) * my) - s * (tx0 - (k - 1) * mx),
                r == u * dy - s * dx,
                dx == x - mx,
                dy == y - my,
        ;
        assert(ca * (a0 + a1) == ca * a0 + ca * a1) by (nonlinear_arith);
        assert(cb * (d0 + r) == cb * d0 + cb * r) by (nonlinear_arith);
    }
}

/// The fitted line is the one of least squares: where nothing rounds, no line
/// has a smaller sum of squared residuals. (The slope and the intercept of the
/// other line are the fractions `p / n` and `q / n`; both sums are brought to
/// the same units.)
pub proof fn law_fit_is_least_squares<A: FloatUnit>(points: Seq<(u64, u64)>, line: Line, p: int, q: int, n: int)
    requires
        points.len() <= usize::MAX,
        fit_exact::<A>(points),
        fitted::<A>(points, Some(line)),
        n > 0,
    ensures
        ({
            let (u, k) = (unity(), points.len() as int);
            (n * n) * squared_residuals(points, scaled(line.0), scaled(line.1), u, k) <= (u * u) * squared_residuals(
                points,
                p,
                q,
                n,
                k,
            )
        }),
{
    lemma_scaled_constants();
    let len = points.len() as int;
    let u = unity();
    let (m, t) = choose|m: (u64, u64), t: Moments|
        #[trigger] center::<A>(points, m) && #[trigger] moments::<A>(points, m, points.len() as int, t) && line_of::<A>(
            m,
            t,
            Some(line),
        );
    lemma_center_values::<A>(points, m);
    lemma_moment_values::<A>(points, m, len, t);
    let (mx, my, s, b) = (scaled(m.0), scaled(m.1), scaled(line.0), scaled(line.1));
    let z = choose|z: u64| #[trigger] call_ensures(A::times, (line.0, m.0), z) && call_ensures(A::minus, (m.1, z), line.1);
    assert(b * u == my * u - s * mx) by (nonlinear_arith)
        requires
            b == my - scaled(z),
            scaled(z) * u == s * mx,
    ;
    lemma_residuals_compare(points, mx, my, s, b, p, q, n, len);
    let (xx, xy) = (moment_xx(points, mx, len), moment_xy(points, mx, my, len));
    let (sxx, sxy) = (scaled(t.0), scaled(t.1));
    assert(u * xy - s * xx == 0) by (nonlinear_arith)
        requires
            xx == sxx * u,
            xy == sxy * u,
            s * sxx == sxy * u,
    ;
    let (tx, ty) = (total_x(points, len), total_y(points, len));
    assert(u * (ty - len * my) - s * (tx - len * mx) == 0) by (nonlinear_arith)
        requires
            mx * len == tx,
            my * len == ty,
    ;
    let (ca, cb) = (2 * n * (n * s - u * p), 2 * n * (u * (n * my - p * mx - q * u)));
    assert(ca * 0 == 0 && cb * 0 == 0) by (nonlinear_arith);
}

/// On a line, the distances of the columns are those of the rows times the
/// slope.
proof fn lemma_moments_on_a_line(points: Seq<(u64, u64)>, mx: int, my: int, p: int, q: int, n: int, k: int)
    requires
        0 <= k <= points.len(),
        on_a_line(points, p, q, n),
        n * my == p * mx + q * unity(),
    ensures
        n * moment_xy(points, mx, my, k) == p * moment_xx(points, mx, k),
        n * moment_yy(points, my, k) == p * moment_xy(points, mx, my, k),
    decreases k,
{
    if k == 0 {
        assert(n * 0 == 0 && p * 0 == 0) by (nonlinear_arith);
    } else {
        lemma_moments_on_a_line(points, mx, my, p, q, n, k - 1);
        let (x, y, u) = (scaled(points[k - 1].0), scaled(points[k - 1].1), unity());
        let (dx, dy) = (x - mx, y - my);
        assert(residual_value(points[k - 1], p, q, n) == 0);
        assert(n * dy == p * dx) by (nonlinear_arith)
            requires
                n * y - p * x - q * u == 0,
                n * my == p * mx + q * u,
                dx == x - mx,
                dy == y - my,
        ;
        let (xx, xy, yy) = (moment_xx(points, mx, k - 1), moment_xy(points, mx, my, k - 1), moment_yy(points, my, k - 1));
        assert(n * (xy + dx * dy) == p * (xx + dx * dx)) by (nonlinear_arith)
            requires
                n * xy == p * xx,
                n * dy == p * dx,
        ;
        assert(n * (yy + dy * dy) == p * (xy + dx * dy)) by (nonlinear_arith)
            requires
                n * yy == p * xy,
                n * dy == p * dx,
        ;
    }
}

proof fn lemma_totals_on_a_line(points: Seq<(u64, u64)>, p: int, q: int, n: int, k: int)
    requires
        0 <= k <= points.len(),
        on_a_line(points, p, q, n),
    ensures
        n * total_y(points, k) == p * total_x(points, k) + k * (q * unity()),
    decreases k,
{
    if k == 0 {
        assert(n * 0 == p * 0 + 0 * (q * unity())) by (nonlinear_arith);
    } else {
        lemma_totals_on_a_line(points, p, q, n, k - 1);
        let (x, y, c) = (scaled(points[k - 1].0), scaled(points[k - 1].1), q * unity());
        let (tx, ty) = (total_x(points, k - 1), total_y(points, k - 1));
        assert(residual_value(points[k - 1], p, q, n) == 0);
        assert(n * (ty + y) == p * (tx + x) + k * c) by (nonlinear_arith)
            requires
                n * ty == p * tx + (k - 1) * c,
                n * y - p * x - c == 0,
        ;
    }
}

/// The quality of the fit is one when the points lie on a line, where nothing
/// rounds.
pub proof fn law_points_on_a_line_are_explained<A: FloatUnit>(points: Seq<(u64, u64)>, line: Line, p: int, q: int, n: int)
    requires
        points.len() <= usize::MAX,
        fit_exact::<A>(points),
        fitted::<A>(points, Some(line)),
        n > 0,
        on_a_line(points, p, q, n),
    ensures
        line.2 == ieee::ONE,
{
    lemma_scaled_constants();
    let len = points.len() as int;
    let u = unity();
    let (m, t) = choose|m: (u64, u64), t: Moments|
        #[trigger] center::<A>(points, m) && #[trigger] moments::<A>(points, m, points.len() as int, t) && line_of::<A>(
            m,
            t,
            Some(line),
        );
    lemma_center_values::<A>(points, m);
    lemma_moment_values::<A>(points, m, len, t);
    assert(explained::<A>(t, line.2));
    if !below(absolute(t.2), ieee::TINY) {
        let (mx, my) = (scaled(m.0), scaled(m.1));
        let (xx, xy, yy) = (moment_xx(points, mx, len), moment_xy(points, mx, my, len), moment_yy(points, my, len));
        let (tx, ty) = (total_x(points, len), total_y(points, len));
        lemma_totals_on_a_line(points, p, q, n, len);
        assert(n * my == p * mx + q * u) by (nonlinear_arith)
            requires
                n * ty == p * tx + len * (q * u),
                mx * len == tx,
                my * len == ty,
                len > 0,
        ;
        lemma_moments_on_a_line(points, mx, my, p, q, n, len);
        assert(xy * xy == xx * yy) by (nonlinear_arith)
            requires
                n * xy == p * xx,
                n * yy == p * xy,
                n > 0,
        ;
        let (c, d, z) = choose|c: u64, d: u64, z: u64|
            #[trigger] call_ensures(A::times, (t.1, t.1), c) && #[trigger] call_ensures(A::times, (t.0, t.2), d)
                && #[trigger] call_ensures(A::over, (c, d), z) && line.2 == ieee::lowered(z, ieee::ONE);
        let (sxx, sxy, syy) = (scaled(t.0), scaled(t.1), scaled(t.2));
        law_rank_orders_the_values(t.0, t.0);
        law_rank_orders_the_values(t.2, t.2);
        assert(sxx != 0 && syy != 0);
        assert(sxy * sxy == sxx * syy) by (nonlinear_arith)
            requires
                xy * xy == xx * yy,
                xx == sxx * u,
                xy == sxy * u,
                yy == syy * u,
                u > 0,
        ;
        let (vc, vd, vz) = (scaled(c), scaled(d), scaled(z));
        assert(vc == vd && vd != 0) by (nonlinear_arith)
            requires
                vc * u == sxy * sxy,
                vd * u == sxx * syy,
                sxy * sxy == sxx * syy,
                sxx != 0,
                syy != 0,
                u > 0,
        ;
        assert(vz == u) by (nonlinear_arith)
            requires
                vz * vd == vc * u,
                vc == vd,
                vd != 0,
        ;
        law_rank_orders_the_values(ieee::ONE, z);
    }
}

proof fn lemma_square_of_difference(a: int, x: int, b: int, y: int)
    ensures
        (a * x - b * y) * (a * x - b * y) == (a * a) * (x * x) - 2 * (a * b) * (x * y) + (b * b) * (y * y),
{
    let (p, q) = (a * x, b * y);
    assert((p - q) * (p - q) == p * p - 2 * (p * q) + q * q) by (nonlinear_arith);
    assert(p * p == (a * a) * (x * x)) by (nonlinear_arith)
        requires
            p == a * x,
    ;
    assert(q * q == (b * b) * (y * y)) by (nonlinear_arith)
        requires
            q == b * y,
    ;
    assert(p * q == (a * b) * (x * y)) by (nonlinear_arith)
        requires
            p == a * x,
            q == b * y,
    ;
    assert(2 * (a * b) * (x * y) == 2 * ((a * b) * (x * y))) by (nonlinear_arith);
}

/// The residuals about a line through the center, in terms of the moments.
proof fn lemma_residuals_by_moments(points: Seq<(u64, u64)>, mx: int, my: int, s: int, b: int, k: int)
    requires
        0 <= k <= points.len(),
        b * unity() == my * unity() - s * mx,
    ensures
        squared_residuals(points, s, b, unity(), k) == (unity() * unity()) * moment_yy(points, my, k) - 2 * (unity() * s)
            * moment_xy(points, mx, my, k) + (s * s) * moment_xx(points, mx, k),
    decreases k,
{
    let u = unity();
    if k == 0 {
        assert((u * u) * 0 - 2 * (u * s) * 0 + (s * s) * 0 == 0) by (nonlinear_arith);
    } else {
        lemma_residuals_by_moments(points, mx, my, s, b, k - 1);
        let (x, y) = (scaled(points[k - 1].0), scaled(points[k - 1].1));
        let (dx, dy) = (x - mx, y - my);
        let r = u * dy - s * dx;
        assert(residual_value(points[k - 1], s, b, u) == r) by (nonlinear_arith)
            requires
                residual_value(points[k - 1], s, b, u) == u * y - s * x - b * u,
                b * u == my * u - s * mx,
                r == u * dy - s * dx,
                dx == x - mx,
                dy == y - my,
        ;
        lemma_square_of_difference(u, dy, s, dx);
        assert(dy * dx == dx * dy) by (nonlinear_arith);
        let (yy, xy, xx) = (moment_yy(points, my, k - 1), moment_xy(points, mx, my, k - 1), moment_xx(points, mx, k - 1));
        assert((u * u) * (yy + dy * dy) == (u * u) * yy + (u * u) * (dy * dy)) by (nonlinear_arith);
        assert(2 * (u * s) * (xy + dx * dy) == 2 * (u * s) * xy + 2 * (u * s) * (dx * dy)) by (nonlinear_arith);
        assert((s * s) * (xx + dx * dx) == (s * s) * xx + (s * s) * (dx * dx)) by (nonlinear_arith);
    }
}

/// The residuals about the level line through the center.
proof fn lemma_level_residuals(points: Seq<(u64, u64)>, my: int, k: int)
    requires
        0 <= k <= points.len(),
    ensures
        squared_residuals(points, 0, my, unity(), k) == (unity() * unity()) * moment_yy(points, my, k),
    decreases k,
{
    let u = unity();
    if k == 0 {
        assert((u * u) * 0 == 0) by (nonlinear_arith);
    } else {
        lemma_level_residuals(points, my, k - 1);
        let (x, y) = (scaled(points[k - 1].0), scaled(points[k - 1].1));
        let r = residual_value(points[k - 1], 0, my, u);
        assert(r == u * (y - my)) by (nonlinear_arith)
            requires
                r == u * y - 0 * x - my * u,
        ;
        let (dy, yy) = (y - my, moment_yy(points, my, k - 1));
        assert(r * r == (u * u) * (dy * dy)) by (nonlinear_arith)
            requires
                r == u * dy,
        ;
        assert((u * u) * (yy + dy * dy) == (u * u) * yy + (u * u) * (dy * dy)) by (nonlinear_arith);
    }
}

/// The quality of a fit is the share of the spread of the columns about their
/// mean `c` that the line explains, where nothing rounds and the columns spread:
/// what it leaves is the sum of the squared residuals.
pub proof fn law_quality_is_the_explained_share<A: FloatUnit>(points: Seq<(u64, u64)>, line: Line, c: int)
    requires
        points.len() <= usize::MAX,
        fit_exact::<A>(points),
        fitted::<A>(points, Some(line)),
        c * points.len() == total_y(points, points.len() as int),
        squared_residuals(points, 0, c, unity(), points.len() as int) >= (unity() * unity() * unity()) * scaled(ieee::TINY),
    ensures
        (unity() - scaled(line.2)) * squared_residuals(points, 0, c, unity(), points.len() as int) == unity()
            * squared_residuals(points, scaled(line.0), scaled(line.1), unity(), points.len() as int),
{
    lemma_scaled_constants();
    let len = points.len() as int;
    let u = unity();
    let (m, t) = choose|m: (u64, u64), t: Moments|
        #[trigger] center::<A>(points, m) && #[trigger] moments::<A>(points, m, points.len() as int, t) && line_of::<A>(
            m,
            t,
            Some(line),
        );
    lemma_center_values::<A>(points, m);
    lemma_moment_values::<A>(points, m, len, t);
    let (mx, my, s, b) = (scaled(m.0), scaled(m.1), scaled(line.0), scaled(line.1));
    assert(my == c) by (nonlinear_arith)
        requires
            my * len == c * len,
            len > 0,
    ;
    let z = choose|z: u64| #[trigger] call_ensures(A::times, (line.0, m.0), z) && call_ensures(A::minus, (m.1, z), line.1);
    assert(b * u == my * u - s * mx) by (nonlinear_arith)
        requires
            b == my - scaled(z),
            scaled(z) * u == s * mx,
    ;
    lemma_residuals_by_moments(points, mx, my, s, b, len);
    lemma_level_residuals(points, my, len);
    let (xx, xy, yy) = (moment_xx(points, mx, len), moment_xy(points, mx, my, len), moment_yy(points, my, len));
    let (sxx, sxy, syy) = (scaled(t.0), scaled(t.1), scaled(t.2));
    let tiny = scaled(ieee::TINY);
    assert(syy >= tiny) by (nonlinear_arith)
        requires
            (u * u) * yy >= (u * u * u) * tiny,
            yy == syy * u,
            u > 0,
    ;
    law_rank_orders_the_values(ieee::ZERO, ieee::TINY);
    law_rank_orders_the_values(ieee::TINY, ieee::ZERO);
    law_rank_orders_the_values(ieee::TINY, t.2);
    law_rank_orders_the_values(t.0, t.0);
    assert(explained::<A>(t, line.2));
    assert(!below(absolute(t.2), ieee::TINY));
    let (p, d, w) = choose|p: u64, d: u64, w: u64|
        #[trigger] call_ensures(A::times, (t.1, t.1), p) && #[trigger] call_ensures(A::times, (t.0, t.2), d)
            && #[trigger] call_ensures(A::over, (p, d), w) && line.2 == ieee::lowered(w, ieee::ONE);
    let (vp, vd, vw) = (scaled(p), scaled(d), scaled(w));
    assert(sxx != 0 && syy > 0);
    lemma_moment_is_not_negative(points, mx, len);
    lemma_moment_is_not_negative_y(points, my, len);
    assert(sxx > 0) by (nonlinear_arith)
        requires
            xx == sxx * u,
            xx >= 0,
            u > 0,
            sxx != 0,
    ;
    assert(vw * (sxx * syy) == u * (sxy * sxy)) by (nonlinear_arith)
        requires
            vw * vd == vp * u,
            vp * u == sxy * sxy,
            vd * u == sxx * syy,
            u > 0,
    ;
    lemma_moments_bound(points, mx, my, len);
    assert(sxy * sxy <= sxx * syy) by (nonlinear_arith)
        requires
            xy * xy <= xx * yy,
            xx == sxx * u,
            xy == sxy * u,
            yy == syy * u,
            u > 0,
    ;
    assert(vw <= u) by (nonlinear_arith)
        requires
            vw * (sxx * syy) == u * (sxy * sxy),
            sxy * sxy <= sxx * syy,
            sxx > 0,
            syy > 0,
            u > 0,
    ;
    assert(vw >= 0) by (nonlinear_arith)
        requires
            vw * (sxx * syy) == u * (sxy * sxy),
            sxx > 0,
            syy > 0,
            u > 0,
    ;
    law_rank_orders_the_values(w, ieee::ONE);
    law_rank_orders_the_values(ieee::ONE, w);
    law_rank_orders_the_values(ieee::ZERO, w);
    assert(scaled(line.2) == vw);
    let rest = (u * u) * yy - 2 * (u * s) * xy + (s * s) * xx;
    assert(s * xx == u * xy) by (nonlinear_arith)
        requires
            xx == sxx * u,
            xy == sxy * u,
            s * sxx == sxy * u,
    ;
    assert(rest == (u * u) * yy - (u * s) * xy) by (nonlinear_arith)
        requires
            rest == (u * u) * yy - 2 * (u * s) * xy + (s * s) * xx,
            s * xx == u * xy,
    ;
    assert((u * s) * xy == vw * (u * yy)) by (nonlinear_arith)
        requires
            vw * (sxx * syy) == u * (sxy * sxy),
            s * sxx == sxy * u,
            xy == sxy * u,
            yy == syy * u,
            sxx > 0,
    ;
    assert((u - vw) * ((u * u) * yy) == u * ((u * u) * yy - vw * (u * yy))) by (nonlinear_arith);
}

proof fn lemma_moment_is_not_negative(points: Seq<(u64, u64)>, mx: int, k: int)
    ensures
        moment_xx(points, mx, k) >= 0,
    decreases k,
{
    if k > 0 {
        lemma_moment_is_not_negative(points, mx, k - 1);
        let d = scaled(points[k - 1].0) - mx;
        assert(d * d >= 0) by (nonlinear_arith);
    }
}

proof fn lemma_moment_is_not_negative_y(points: Seq<(u64, u64)>, my: int, k: int)
    ensures
        moment_yy(points, my, k) >= 0,
    decreases k,
{
    if k > 0 {
        lemma_moment_is_not_negative_y(points, my, k - 1);
        let d = scaled(points[k - 1].1) - my;
        assert(d * d >= 0) by (nonlinear_arith);
    }
}

/// The moments of the points combine to squares.
proof fn lemma_combined_moments(points: Seq<(u64, u64)>, mx: int, my: int, a: int, b: int, k: int)
    ensures
        (a * a) * moment_xx(points, mx, k) - 2 * (a * b) * moment_xy(points, mx, my, k) + (b * b) * moment_yy(points, my, k) >= 0,
    decreases k,
{
    if k <= 0 {
        assert((a * a) * 0 - 2 * (a * b) * 0 + (b * b) * 0 == 0) by (nonlinear_arith);
    } else {
        lemma_combined_moments(points, mx, my, a, b, k - 1);
        let (dx, dy) = (scaled(points[k - 1].0) - mx, scaled(points[k - 1].1) - my);
        let (xx, xy, yy) = (moment_xx(points, mx, k - 1), moment_xy(points, mx, my, k - 1), moment_yy(points, my, k - 1));
        let r = a * dx - b * dy;
        assert(r * r >= 0) by (nonlinear_arith);
        lemma_square_of_difference(a, dx, b, dy);
        assert((a * a) * (xx + dx * dx) == (a * a) * xx + (a * a) * (dx * dx)) by (nonlinear_arith);
        assert(2 * (a * b) * (xy + dx * dy) == 2 * (a * b) * xy + 2 * (a * b) * (dx * dy)) by (nonlinear_arith);
        assert((b * b) * (yy + dy * dy) == (b * b) * yy + (b * b) * (dy * dy)) by (nonlinear_arith);
    }
}

/// The mixed moment is bounded by the others.
proof fn lemma_moments_bound(points: Seq<(u64, u64)>, mx: int, my: int, k: int)
    ensures
        moment_xy(points, mx, my, k) * moment_xy(points, mx, my, k) <= moment_xx(points, mx, k) * moment_yy(points, my, k),
{
    let (xx, xy, yy) = (moment_xx(points, mx, k), moment_xy(points, mx, my, k), moment_yy(points, my, k));
    lemma_moment_is_not_negative(points, mx, k);
    lemma_moment_is_not_negative_y(points, my, k);
    lemma_combined_moments(points, mx, my, xy, xx, k);
    lemma_combined_moments(points, mx, my, yy, xy, k);
    lemma_combined_moments(points, mx, my, 1, 1, k);
    lemma_combined_moments(points, mx, my, 1, -1, k);
    assert(xy * xy <= xx * yy) by (nonlinear_arith)
        requires
            xx >= 0,
            yy >= 0,
            (xy * xy) * xx - 2 * (xy * xx) * xy + (xx * xx) * yy >= 0,
            (yy * yy) * xx - 2 * (yy * xy) * xy + (xy * xy) * yy >= 0,
            (1int * 1int) * xx - 2 * (1int * 1int) * xy + (1int * 1int) * yy >= 0,
            (1int * 1int) * xx - 2 * (1int * -1int) * xy + (-1int * -1int) * yy >= 0,
    {
        assert(xx * (xx * yy - xy * xy) >= 0);
        assert(yy * (xx * yy - xy * xy) >= 0);
    }
}

/// The sum of the squared distances of the rows of the first `k` points from
/// the row `c`.
pub open spec fn row_spread(points: Seq<(u64, u64)>, c: int, k: int) -> int
    decreases k,
{
    if k <= 0 {
        0
    } else {
        row_spread(points, c, k - 1) + (scaled(points[k - 1].0) - c) * (scaled(points[k - 1].0) - c)
    }
}

proof fn lemma_row_spread(points: Seq<(u64, u64)>, c: int, k: int)
    ensures
        row_spread(points, c, k) == moment_xx(points, c, k),
        row_spread(points, c, k) >= 0,
    decreases k,
{
    if k > 0 {
        lemma_row_spread(points, c, k - 1);
        let d = scaled(points[k - 1].0) - c;
        assert(d * d >= 0) by (nonlinear_arith);
    }
}

proof fn lemma_size(v: u64)
    requires
        scaled(v) >= 0,
    ensures
        below(absolute(v), ieee::TINY) <==> scaled(v) < scaled(ieee::TINY),
{
    lemma_scaled_constants();
    let a = absolute(v);
    law_rank_orders_the_values(ieee::TINY, a);
    law_rank_orders_the_values(v, ieee::ZERO);
    law_rank_orders_the_values(ieee::ZERO, v);
    if ieee::negative(v) {
        assert(ieee::magnitude(v) == 0);
        assert(a == 0);
        assert(scaled(a) == 0 && scaled(v) == 0);
    } else {
        assert(a == v);
    }
}

/// Two or more points have a line exactly when their rows spread about their
/// mean `c`, where nothing rounds.
pub proof fn law_rows_that_spread_have_a_line<A: FloatUnit>(points: Seq<(u64, u64)>, c: int, r: Option<Line>)
    requires
        points.len() <= usize::MAX,
        fit_exact::<A>(points),
        fitted::<A>(points, r),
        c * points.len() == total_x(points, points.len() as int),
    ensures
        r is Some <==> points.len() >= 2 && row_spread(points, c, points.len() as int) >= unity() * scaled(ieee::TINY),
{
    lemma_scaled_constants();
    let len = points.len() as int;
    if len >= 2 {
        let u = unity();
        let (m, t) = choose|m: (u64, u64), t: Moments|
            #[trigger] center::<A>(points, m) && #[trigger] moments::<A>(points, m, points.len() as int, t) && line_of::<A>(m, t, r);
        lemma_center_values::<A>(points, m);
        lemma_moment_values::<A>(points, m, len, t);
        let mx = scaled(m.0);
        assert(mx == c) by (nonlinear_arith)
            requires
                mx * len == c * len,
                len > 0,
        ;
        lemma_row_spread(points, c, len);
        let (spread, v, tiny) = (row_spread(points, c, len), scaled(t.0), scaled(ieee::TINY));
        assert(v >= 0) by (nonlinear_arith)
            requires
                v * u == spread,
                spread >= 0,
                u > 0,
        ;
        lemma_size(t.0);
        assert(v < tiny <==> spread < u * tiny) by (nonlinear_arith)
            requires
                v * u == spread,
                u > 0,
        ;
    }
}

/// A line through points whose columns do not spread about their mean `c`
/// explains all there is, where nothing rounds.
pub proof fn law_level_points_are_explained<A: FloatUnit>(points: Seq<(u64, u64)>, line: Line, c: int)
    requires
        points.len() <= usize::MAX,
        fit_exact::<A>(points),
        fitted::<A>(points, Some(line)),
        c * points.len() == total_y(points, points.len() as int),
        squared_residuals(points, 0, c, unity(), points.len() as int) < (unity() * unity() * unity()) * scaled(ieee::TINY),
    ensures
        scaled(line.2) == unity(),
{
    lemma_scaled_constants();
    let len = points.len() as int;
    let u = unity();
    let (m, t) = choose|m: (u64, u64), t: Moments|
        #[trigger] center::<A>(points, m) && #[trigger] moments::<A>(points, m, points.len() as int, t) && line_of::<A>(
            m,
            t,
            Some(line),
        );
    lemma_center_values::<A>(points, m);
    lemma_moment_values::<A>(points, m, len, t);
    let my = scaled(m.1);
    assert(my == c) by (nonlinear_arith)
        requires
            my * len == c * len,
            len > 0,
    ;
    lemma_level_residuals(points, my, len);
    let (yy, v, tiny) = (moment_yy(points, my, len), scaled(t.2), scaled(ieee::TINY));
    let level = squared_residuals(points, 0, c, u, len);
    assert(level == (u * u) * yy);
    lemma_squares_add_up(points, my, len);
    assert(v >= 0) by (nonlinear_arith)
        requires
            v * u == yy,
            yy >= 0,
            u > 0,
    ;
    assert((u * u) * yy == (u * u * u) * v) by (nonlinear_arith)
        requires
            v * u == yy,
    ;
    assert(u * u * u > 0) by (nonlinear_arith)
        requires
            u > 0,
    ;
    let cube = u * u * u;
    assert(v < tiny) by (nonlinear_arith)
        requires
            cube * v < cube * tiny,
            cube > 0,
    ;
    lemma_size(t.2);
}

proof fn lemma_squares_add_up(points: Seq<(u64, u64)>, my: int, k: int)
    ensures
        moment_yy(points, my, k) >= 0,
    decreases k,
{
    if k > 0 {
        lemma_squares_add_up(points, my, k - 1);
        let d = scaled(points[k - 1].1) - my;
        assert(d * d >= 0) by (nonlinear_arith);
    }
}

} // verus!
