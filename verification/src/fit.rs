//! The robust line through the per-band axis columns: slope → tilt, value at
//! mid-height → center of rotation.
use crate::ieee;
use crate::ieee::{absolute, below, lowered, total_place};
use crate::order;
use crate::order::precedes;
use crate::unit;
use crate::unit::{middle, FloatUnit};
use vstd::prelude::*;

verus! {

/// A fitted line: slope, intercept and the quality `r2` of the fit.
pub type Line = (u64, u64, u64);

/// Axis column estimated at one row band (bits of doubles).
#[derive(Clone, Copy, Debug, PartialEq, Eq, Structural)]
pub struct RowEstimate {
    pub row: u64,
    pub cor: u64,
    /// `false` when the trimmed fit dropped this band as an outlier.
    pub used: bool,
}

/// One algorithm's answer (bits of doubles).
#[derive(Clone, Debug)]
pub struct Estimate {
    pub method: String,
    /// Tilt of the rotation axis from the vertical, degrees (positive =
    /// the column of the axis grows from the top of the image to its bottom).
    pub tilt_deg: u64,
    /// Axis column at the stack's vertical mid-height, px.
    pub cor: u64,
    /// The fitted line `column = slope · row + intercept` and its quality.
    pub slope: u64,
    pub intercept: u64,
    pub r2: u64,
    pub rows: Vec<RowEstimate>,
}

/// `s` sums the rows and the columns of the first `k` points, from the left.
pub open spec fn point_sums<A: FloatUnit>(points: Seq<(u64, u64)>, k: int, s: (u64, u64)) -> bool
    decreases k,
{
    if k <= 0 {
        s == (ieee::ZERO, ieee::ZERO)
    } else {
        exists|prev: (u64, u64)|
            point_sums::<A>(points, k - 1, prev) && #[trigger] point_added::<A>(prev, points[k - 1], s)
    }
}

/// `s` is `prev` plus the point `p`.
pub open spec fn point_added<A: FloatUnit>(prev: (u64, u64), p: (u64, u64), s: (u64, u64)) -> bool {
    call_ensures(A::plus, (prev.0, p.0), s.0) && call_ensures(A::plus, (prev.1, p.1), s.1)
}

/// `m` is the mean of the points.
pub open spec fn center<A: FloatUnit>(points: Seq<(u64, u64)>, m: (u64, u64)) -> bool {
    exists|n: u64, s: (u64, u64)|
        #[trigger] call_ensures(A::count, (points.len() as usize,), n) && #[trigger] point_sums::<A>(
            points,
            points.len() as int,
            s,
        ) && call_ensures(A::over, (s.0, n), m.0) && call_ensures(A::over, (s.1, n), m.1)
}

/// The sums of the products of the distances from the center: row by row, row
/// by column, column by column.
pub type Moments = (u64, u64, u64);

/// `t` are the moments of the first `k` points about `m`.
pub open spec fn moments<A: FloatUnit>(points: Seq<(u64, u64)>, m: (u64, u64), k: int, t: Moments) -> bool
    decreases k,
{
    if k <= 0 {
        t == (ieee::ZERO, ieee::ZERO, ieee::ZERO)
    } else {
        exists|prev: Moments|
            moments::<A>(points, m, k - 1, prev) && #[trigger] moment_added::<A>(prev, points[k - 1], m, t)
    }
}

/// `t` is `prev` plus the products of the distances of `p` from `m`.
pub open spec fn moment_added<A: FloatUnit>(prev: Moments, p: (u64, u64), m: (u64, u64), t: Moments) -> bool {
    exists|dx: u64, dy: u64|
        #[trigger] call_ensures(A::minus, (p.0, m.0), dx) && #[trigger] call_ensures(A::minus, (p.1, m.1), dy)
            && product_added::<A>(prev.0, dx, dx, t.0) && product_added::<A>(prev.1, dx, dy, t.1) && product_added::<A>(
            prev.2,
            dy,
            dy,
            t.2,
        )
}

/// `s` is `prev` plus `x * y`.
pub open spec fn product_added<A: FloatUnit>(prev: u64, x: u64, y: u64, s: u64) -> bool {
    exists|q: u64| #[trigger] call_ensures(A::times, (x, y), q) && call_ensures(A::plus, (prev, q), s)
}

/// `b` is `y` less `slope * x`.
pub open spec fn intercept_at<A: FloatUnit>(slope: u64, m: (u64, u64), b: u64) -> bool {
    exists|q: u64| #[trigger] call_ensures(A::times, (slope, m.0), q) && call_ensures(A::minus, (m.1, q), b)
}

/// `r2` is the share of the spread of the columns that the line explains; all
/// of it when they do not spread.
pub open spec fn explained<A: FloatUnit>(t: Moments, r2: u64) -> bool {
    if below(absolute(t.2), ieee::TINY) {
        r2 == ieee::ONE
    } else {
        exists|n: u64, d: u64, q: u64|
            #[trigger] call_ensures(A::times, (t.1, t.1), n) && #[trigger] call_ensures(A::times, (t.0, t.2), d)
                && #[trigger] call_ensures(A::over, (n, d), q) && r2 == lowered(q, ieee::ONE)
    }
}

/// `r` is the line that moments `t` about `m` give; none when the rows do not
/// spread.
pub open spec fn line_of<A: FloatUnit>(m: (u64, u64), t: Moments, r: Option<Line>) -> bool {
    if below(absolute(t.0), ieee::TINY) {
        r is None
    } else {
        r matches Some((slope, intercept, r2)) && call_ensures(A::over, (t.1, t.0), slope) && intercept_at::<A>(
            slope,
            m,
            intercept,
        ) && explained::<A>(t, r2)
    }
}

/// `r` is the least-squares line through the points; none for fewer than two
/// points, or when their rows do not spread.
pub open spec fn fitted<A: FloatUnit>(points: Seq<(u64, u64)>, r: Option<Line>) -> bool {
    if points.len() < 2 {
        r is None
    } else {
        exists|m: (u64, u64), t: Moments|
            #[trigger] center::<A>(points, m) && #[trigger] moments::<A>(points, m, points.len() as int, t) && line_of::<A>(
                m,
                t,
                r,
            )
    }
}

fn center_of<A: FloatUnit>(points: &Vec<(u64, u64)>) -> (m: (u64, u64))
    ensures
        center::<A>(points@, m),
{
    let n: u64 = A::count(points.len());
    let mut sx: u64 = ieee::ZERO;
    let mut sy: u64 = ieee::ZERO;
    let mut k: usize = 0;
    while k < points.len()
        invariant
            k <= points@.len(),
            point_sums::<A>(points@, k as int, (sx, sy)),
        decreases points@.len() - k,
    {
        let p: (u64, u64) = points[k];
        let ghost prev = (sx, sy);
        sx = A::plus(sx, p.0);
        sy = A::plus(sy, p.1);
        assert(point_added::<A>(prev, points@[k + 1 - 1], (sx, sy)));
        k = k + 1;
    }
    let mx: u64 = A::over(sx, n);
    let my: u64 = A::over(sy, n);
    assert(call_ensures(A::count, (points@.len() as usize,), n));
    assert(point_sums::<A>(points@, points@.len() as int, (sx, sy)));
    (mx, my)
}

fn add_product<A: FloatUnit>(prev: u64, x: u64, y: u64) -> (s: u64)
    ensures
        product_added::<A>(prev, x, y, s),
{
    let q: u64 = A::times(x, y);
    A::plus(prev, q)
}

fn moments_of<A: FloatUnit>(points: &Vec<(u64, u64)>, m: (u64, u64)) -> (t: (u64, u64, u64))
    ensures
        moments::<A>(points@, m, points@.len() as int, t),
{
    let mut t: (u64, u64, u64) = (ieee::ZERO, ieee::ZERO, ieee::ZERO);
    let mut k: usize = 0;
    while k < points.len()
        invariant
            k <= points@.len(),
            moments::<A>(points@, m, k as int, t),
        decreases points@.len() - k,
    {
        let p: (u64, u64) = points[k];
        let dx: u64 = A::minus(p.0, m.0);
        let dy: u64 = A::minus(p.1, m.1);
        let next: (u64, u64, u64) = (
            add_product::<A>(t.0, dx, dx),
            add_product::<A>(t.1, dx, dy),
            add_product::<A>(t.2, dy, dy),
        );
        assert(moment_added::<A>(t, points@[k + 1 - 1], m, next));
        t = next;
        k = k + 1;
    }
    t
}

fn quality<A: FloatUnit>(t: (u64, u64, u64)) -> (r2: u64)
    ensures
        explained::<A>(t, r2),
{
    if ieee::less(ieee::abs(t.2), ieee::TINY) {
        return ieee::ONE;
    }
    let n: u64 = A::times(t.1, t.1);
    let d: u64 = A::times(t.0, t.2);
    let q: u64 = A::over(n, d);
    ieee::lower(q, ieee::ONE)
}

/// Least-squares line through `(x, y)` points → `(slope, intercept, r2)`.
pub fn linear_fit<A: FloatUnit>(points: &Vec<(u64, u64)>) -> (r: Option<(u64, u64, u64)>)
    ensures
        fitted::<A>(points@, r),
{
    if points.len() < 2 {
        return None;
    }
    let m: (u64, u64) = center_of::<A>(points);
    let t: (u64, u64, u64) = moments_of::<A>(points, m);
    if ieee::less(ieee::abs(t.0), ieee::TINY) {
        assert(line_of::<A>(m, t, None));
        return None;
    }
    let slope: u64 = A::over(t.1, t.0);
    let q: u64 = A::times(slope, m.0);
    let intercept: u64 = A::minus(m.1, q);
    assert(intercept_at::<A>(slope, m, intercept));
    let r2: u64 = quality::<A>(t);
    assert(line_of::<A>(m, t, Some((slope, intercept, r2))));
    Some((slope, intercept, r2))
}

/// `e` is the distance of the point `p` from the line, along the columns.
pub open spec fn residual<A: FloatUnit>(p: (u64, u64), line: Line, e: u64) -> bool {
    exists|q: u64, y: u64, d: u64|
        #[trigger] call_ensures(A::times, (line.0, p.0), q) && #[trigger] call_ensures(A::plus, (q, line.1), y)
            && #[trigger] call_ensures(A::minus, (p.1, y), d) && e == absolute(d)
}

/// `res` are the residuals of the points.
pub open spec fn residuals<A: FloatUnit>(points: Seq<(u64, u64)>, line: Line, res: Seq<u64>) -> bool {
    &&& res.len() == points.len()
    &&& forall|k: int| 0 <= k < points.len() ==> residual::<A>(points[k], line, #[trigger] res[k])
}

/// How many of `n` points the trimmed fit keeps: three quarters, at least half
/// of them and at least two where there are two.
pub open spec fn keep_count(n: int) -> int {
    let quarters = n * 3 / 4;
    let pair = if n < 2 {
        n
    } else {
        2
    };
    let most = if quarters > pair {
        quarters
    } else {
        pair
    };
    if most > n / 2 {
        most
    } else {
        n / 2
    }
}

/// Whether the point with residual `res[i]` comes before that with `res[j]`:
/// the smaller residual first, then as they stand.
pub open spec fn fits_better(res: Seq<u64>, i: int, j: int) -> bool {
    ||| total_place(res[i]) < total_place(res[j])
    ||| total_place(res[i]) == total_place(res[j]) && i < j
}

/// Whether `order` lists the points from the smallest residual to the largest.
pub open spec fn residual_order(res: Seq<u64>, order: Seq<usize>) -> bool {
    &&& order.len() == res.len()
    &&& forall|k: int| 0 <= k < order.len() ==> 0 <= #[trigger] order[k] < res.len()
    &&& forall|i: int, j: int| 0 <= i < j < order.len() ==> fits_better(res, #[trigger] order[i] as int, #[trigger] order[j] as int)
    &&& forall|x: usize| x < res.len() ==> #[trigger] order.contains(x)
}

/// Whether `used` marks the points with the smallest residuals, as many as
/// are kept.
pub open spec fn marks_best(res: Seq<u64>, used: Seq<bool>) -> bool {
    exists|order: Seq<usize>|
        #[trigger] residual_order(res, order) && used.len() == res.len() && (forall|i: int|
            0 <= i < used.len() ==> #[trigger] used[i] == order.take(keep_count(res.len() as int)).contains(i as usize))
}

/// The points that are marked, in their order.
pub open spec fn marked(points: Seq<(u64, u64)>, used: Seq<bool>) -> Seq<(u64, u64)>
    decreases points.len(),
{
    if points.len() == 0 {
        seq![]
    } else if used[points.len() - 1] {
        marked(points.drop_last(), used).push(points.last())
    } else {
        marked(points.drop_last(), used)
    }
}

/// `r` is the trimmed fit: fit all points, drop the worst-residual quarter,
/// refit; and which points were kept. None when one of the fits is none.
pub open spec fn trimmed<A: FloatUnit>(points: Seq<(u64, u64)>, r: Option<(Line, Seq<bool>)>) -> bool {
    exists|first: Option<Line>|
        #[trigger] fitted::<A>(points, first) && match first {
            None => r is None,
            Some(line) => refitted::<A>(points, line, r),
        }
}

/// `r` is the fit of the points that fit `line` best; and which those are.
pub open spec fn refitted<A: FloatUnit>(points: Seq<(u64, u64)>, line: Line, r: Option<(Line, Seq<bool>)>) -> bool {
    exists|res: Seq<u64>, used: Seq<bool>, second: Option<Line>|
        #[trigger] residuals::<A>(points, line, res) && #[trigger] marks_best(res, used) && #[trigger] fitted::<A>(
            marked(points, used),
            second,
        ) && r == match second {
            None => None,
            Some(l) => Some((l, used)),
        }
}

fn residual_of<A: FloatUnit>(p: (u64, u64), line: (u64, u64, u64)) -> (e: u64)
    ensures
        residual::<A>(p, line, e),
{
    let q: u64 = A::times(line.0, p.0);
    let y: u64 = A::plus(q, line.1);
    let d: u64 = A::minus(p.1, y);
    ieee::abs(d)
}

fn keep_of(n: usize) -> (k: usize)
    ensures
        k == keep_count(n as int),
        k <= n,
{
    let quarters: usize = n / 4 * 3 + n % 4 * 3 / 4;
    let pair: usize = if n < 2 {
        n
    } else {
        2
    };
    let most: usize = if quarters > pair {
        quarters
    } else {
        pair
    };
    if most > n / 2 {
        most
    } else {
        n / 2
    }
}

/// Marks the points with the smallest residuals.
fn mark_best(res: &Vec<u64>) -> (used: Vec<bool>)
    ensures
        marks_best(res@, used@),
        used@.len() == res@.len(),
{
    let mut keys: Vec<(i64, i64)> = Vec::new();
    let mut k: usize = 0;
    while k < res.len()
        invariant
            k <= res@.len(),
            keys@.len() == k,
            forall|l: int| 0 <= l < k ==> (#[trigger] keys@[l]).0 == total_place(res@[l]) && keys@[l].1 == 0,
        decreases res@.len() - k,
    {
        keys.push((ieee::total_key(res[k]), 0));
        k = k + 1;
    }
    let sorted: Vec<usize> = order::sorted_indices(&keys);
    assert(residual_order(res@, sorted@)) by {
        assert forall|i: int, j: int| 0 <= i < j < sorted@.len() implies fits_better(
            res@,
            #[trigger] sorted@[i] as int,
            #[trigger] sorted@[j] as int,
        ) by {
            assert(precedes(keys@, sorted@[i] as int, sorted@[j] as int));
        }
    }
    let keep: usize = keep_of(res.len());
    let n: usize = res.len();
    let mut used: Vec<bool> = vec![false; n];
    let mut m: usize = 0;
    while m < keep
        invariant
            n == res@.len(),
            m <= keep <= sorted@.len() == res@.len(),
            used@.len() == res@.len(),
            forall|l: int| 0 <= l < sorted@.len() ==> 0 <= #[trigger] sorted@[l] < res@.len(),
            forall|i: int| 0 <= i < used@.len() ==> #[trigger] used@[i] == sorted@.take(m as int).contains(i as usize),
        decreases keep - m,
    {
        let ghost before = used@;
        used[sorted[m]] = true;
        assert forall|i: int| 0 <= i < used@.len() implies #[trigger] used@[i] == sorted@.take(m + 1).contains(i as usize) by {
            let shorter = sorted@.take(m as int);
            let longer = sorted@.take(m + 1);
            assert(longer[m as int] == sorted@[m as int]);
            if i == sorted@[m as int] {
                assert(longer.contains(i as usize));
            } else {
                assert(used@[i] == before[i]);
                if shorter.contains(i as usize) {
                    let w = choose|w: int| 0 <= w < shorter.len() && shorter[w] == i as usize;
                    assert(longer[w] == i as usize);
                }
                if longer.contains(i as usize) {
                    let w = choose|w: int| 0 <= w < longer.len() && longer[w] == i as usize;
                    assert(w < m);
                    assert(shorter[w] == i as usize);
                }
            }
        }
        m = m + 1;
    }
    used
}

fn select_marked(points: &Vec<(u64, u64)>, used: &Vec<bool>) -> (kept: Vec<(u64, u64)>)
    requires
        points@.len() == used@.len(),
    ensures
        kept@ == marked(points@, used@),
{
    let mut kept: Vec<(u64, u64)> = Vec::new();
    let mut k: usize = 0;
    assert(points@.take(0).len() == 0);
    while k < points.len()
        invariant
            points@.len() == used@.len(),
            k <= points@.len(),
            kept@ == marked(points@.take(k as int), used@),
        decreases points@.len() - k,
    {
        assert(points@.take(k + 1).drop_last() =~= points@.take(k as int));
        assert(points@.take(k + 1).last() == points@[k as int]);
        if used[k] {
            kept.push(points[k]);
        }
        k = k + 1;
    }
    assert(points@.take(points@.len() as int) =~= points@);
    kept
}

/// The result of a trimmed fit with its flags as a sequence.
pub open spec fn flags_of(r: Option<((u64, u64, u64), Vec<bool>)>) -> Option<(Line, Seq<bool>)> {
    match r {
        None => None,
        Some((line, used)) => Some((line, used@)),
    }
}

/// Trimmed fit: fit all points, drop the worst-residual quarter (keeping at
/// least half), refit. Returns the fit plus the kept flags.
pub fn trimmed_fit<A: FloatUnit>(points: &Vec<(u64, u64)>) -> (r: Option<((u64, u64, u64), Vec<bool>)>)
    ensures
        trimmed::<A>(points@, flags_of(r)),
        points@.len() < 2 ==> r is None,
        r matches Some((_, used)) ==> used@.len() == points@.len(),
{
    let first: Option<(u64, u64, u64)> = linear_fit::<A>(points);
    let line: (u64, u64, u64) = match first {
        None => {
            return None;
        },
        Some(line) => line,
    };
    let mut res: Vec<u64> = Vec::new();
    let mut k: usize = 0;
    while k < points.len()
        invariant
            k <= points@.len(),
            res@.len() == k,
            forall|j: int| 0 <= j < k ==> residual::<A>(points@[j], line, #[trigger] res@[j]),
        decreases points@.len() - k,
    {
        let e: u64 = residual_of::<A>(points[k], line);
        res.push(e);
        k = k + 1;
    }
    assert(residuals::<A>(points@, line, res@));
    let used: Vec<bool> = mark_best(&res);
    let kept: Vec<(u64, u64)> = select_marked(points, &used);
    let second: Option<(u64, u64, u64)> = linear_fit::<A>(&kept);
    match second {
        None => {
            assert(refitted::<A>(points@, line, None));
            None
        },
        Some(l) => {
            assert(refitted::<A>(points@, line, Some((l, used@))));
            Some((l, used))
        },
    }
}

/// At least half of the points are kept, at least two where there are two,
/// and from four points on a quarter or a little more is dropped.
pub proof fn law_at_least_half_is_kept(n: int)
    requires
        n >= 0,
    ensures
        2 * keep_count(n) >= n,
        n >= 2 ==> keep_count(n) >= 2,
        n >= 4 ==> n <= 4 * (n - keep_count(n)) < n + 4,
        keep_count(n) <= n,
{
}

/// Every point that is kept fits at least as well as every point that is
/// dropped.
pub proof fn law_kept_points_fit_better(res: Seq<u64>, used: Seq<bool>, i: int, j: int)
    requires
        res.len() <= usize::MAX,
        marks_best(res, used),
        0 <= i < res.len(),
        0 <= j < res.len(),
        used[i],
        !used[j],
    ensures
        fits_better(res, i, j),
{
    let keep = keep_count(res.len() as int);
    let order = choose|order: Seq<usize>|
        #[trigger] residual_order(res, order) && used.len() == res.len() && (forall|i: int|
            0 <= i < used.len() ==> #[trigger] used[i] == order.take(keep).contains(i as usize));
    let a = choose|a: int| 0 <= a < order.take(keep).len() && order.take(keep)[a] == i as usize;
    assert(order[a] == i as usize);
    assert(order.contains(j as usize));
    let b = choose|b: int| 0 <= b < order.len() && order[b] == j as usize;
    if b < keep {
        assert(order.take(keep)[b] == j as usize);
    }
    assert(fits_better(res, order[a] as int, order[b] as int));
}

/// The indices below `n` that are marked.
spec fn marked_indices(used: Seq<bool>, n: int) -> Set<usize> {
    Set::new(|i: usize| i < n && used[i as int])
}

proof fn lemma_marked_count(points: Seq<(u64, u64)>, used: Seq<bool>)
    requires
        points.len() <= used.len() <= usize::MAX,
    ensures
        marked_indices(used, points.len() as int).finite(),
        marked_indices(used, points.len() as int).len() == marked(points, used).len(),
    decreases points.len(),
{
    let n = points.len() as int;
    if n == 0 {
        assert(marked_indices(used, 0) =~= Set::empty());
    } else {
        let last = (n - 1) as usize;
        let smaller = marked_indices(used, n - 1);
        lemma_marked_count(points.drop_last(), used);
        if used[n - 1] {
            assert(marked_indices(used, n) =~= smaller.insert(last));
        } else {
            assert(marked_indices(used, n) =~= smaller);
        }
    }
}

/// The refit is made through exactly as many points as are to be kept.
pub proof fn law_number_of_kept_points(points: Seq<(u64, u64)>, res: Seq<u64>, used: Seq<bool>)
    requires
        points.len() == res.len() <= usize::MAX,
        marks_best(res, used),
    ensures
        marked(points, used).len() == keep_count(points.len() as int),
{
    let n = res.len() as int;
    let keep = keep_count(n);
    let order = choose|order: Seq<usize>|
        #[trigger] residual_order(res, order) && used.len() == res.len() && (forall|i: int|
            0 <= i < used.len() ==> #[trigger] used[i] == order.take(keep).contains(i as usize));
    let best = order.take(keep);
    law_at_least_half_is_kept(n);
    assert forall|a: int, b: int| 0 <= a < best.len() && 0 <= b < best.len() && a != b implies best[a] != best[b] by {
        if a < b {
            assert(fits_better(res, order[a] as int, order[b] as int));
        } else {
            assert(fits_better(res, order[b] as int, order[a] as int));
        }
    }
    best.unique_seq_to_set();
    lemma_marked_count(points, used);
    assert(marked_indices(used, n) =~= best.to_set()) by {
        assert forall|i: usize| best.contains(i) implies i < n by {
            let a = choose|a: int| 0 <= a < best.len() && best[a] == i;
            assert(order[a] == i);
        }
    }
}

/// Which points are kept follows from the residuals alone.
pub proof fn law_kept_points_are_determined(res: Seq<u64>, a: Seq<bool>, b: Seq<bool>)
    requires
        res.len() <= usize::MAX,
        marks_best(res, a),
        marks_best(res, b),
    ensures
        a == b,
{
    let n = res.len() as int;
    let points: Seq<(u64, u64)> = Seq::new(res.len(), |k: int| (0u64, 0u64));
    law_number_of_kept_points(points, res, a);
    law_number_of_kept_points(points, res, b);
    lemma_marked_count(points, a);
    lemma_marked_count(points, b);
    let (p, q) = (marked_indices(a, n), marked_indices(b, n));
    if p.subset_of(q) {
        vstd::set_lib::lemma_subset_equality(p, q);
    } else {
        let i = choose|i: usize| p.contains(i) && !q.contains(i);
        if q.subset_of(p) {
            vstd::set_lib::lemma_subset_equality(q, p);
        } else {
            let j = choose|j: usize| q.contains(j) && !p.contains(j);
            law_kept_points_fit_better(res, a, i as int, j as int);
            law_kept_points_fit_better(res, b, j as int, i as int);
        }
    }
    assert(p == q);
    assert forall|i: int| 0 <= i < n implies a[i] == b[i] by {
        assert(p.contains(i as usize) == q.contains(i as usize));
    }
    assert(a =~= b);
}

/// `e` is the estimate that a line and its flags make of the columns of a
/// stack of this height.
pub open spec fn estimate_of<A: FloatUnit>(
    method: Seq<char>,
    height: usize,
    columns: Seq<(u64, u64)>,
    line: Line,
    used: Seq<bool>,
    e: Estimate,
) -> bool {
    &&& e.method@ == method
    &&& (e.slope, e.intercept, e.r2) == line
    &&& exists|angle: u64|
        #[trigger] call_ensures(A::arctan, (e.slope,), angle) && call_ensures(A::degrees, (angle,), e.tilt_deg)
    &&& exists|mid: u64, q: u64|
        #[trigger] middle::<A>(height, mid) && #[trigger] call_ensures(A::times, (e.slope, mid), q) && call_ensures(
            A::plus,
            (q, e.intercept),
            e.cor,
        )
    &&& e.rows@.len() == columns.len()
    &&& forall|k: int|
        0 <= k < columns.len() ==> #[trigger] e.rows@[k] == (RowEstimate { row: columns[k].0, cor: columns[k].1, used: used[k] })
}

/// `r` is the final estimate of the columns: an error for fewer than two of
/// them and for a degenerate fit.
pub open spec fn estimated<A: FloatUnit>(
    method: Seq<char>,
    height: usize,
    columns: Seq<(u64, u64)>,
    r: Result<Estimate, String>,
) -> bool {
    if columns.len() < 2 {
        r matches Err(e) && e@ == "fewer than 2 row bands gave a usable shift"@
    } else {
        exists|fit: Option<(Line, Seq<bool>)>|
            #[trigger] trimmed::<A>(columns, fit) && match fit {
                None => r matches Err(e) && e@ == "degenerate row range for the axis fit"@,
                Some((line, used)) => r matches Ok(e) && estimate_of::<A>(method, height, columns, line, used, e),
            }
    }
}

/// Turn per-band axis columns into the final estimate.
pub fn fit_estimate<A: FloatUnit>(method: String, height: usize, columns: &Vec<(u64, u64)>) -> (r: Result<Estimate, String>)
    ensures
        estimated::<A>(method@, height, columns@, r),
{
    if columns.len() < 2 {
        return Err("fewer than 2 row bands gave a usable shift".to_owned());
    }
    let fit: Option<((u64, u64, u64), Vec<bool>)> = trimmed_fit::<A>(columns);
    let ghost outcome = flags_of(fit);
    let (line, used) = match fit {
        None => {
            assert(trimmed::<A>(columns@, outcome));
            return Err("degenerate row range for the axis fit".to_owned());
        },
        Some(f) => f,
    };
    let mid: u64 = unit::middle_of::<A>(height);
    let angle: u64 = A::arctan(line.0);
    let tilt_deg: u64 = A::degrees(angle);
    let q: u64 = A::times(line.0, mid);
    let cor: u64 = A::plus(q, line.1);
    let mut rows: Vec<RowEstimate> = Vec::new();
    let mut k: usize = 0;
    while k < columns.len()
        invariant
            k <= columns@.len() == used@.len(),
            rows@.len() == k,
            forall|j: int|
                0 <= j < k ==> #[trigger] rows@[j] == (RowEstimate { row: columns@[j].0, cor: columns@[j].1, used: used@[j] }),
        decreases columns@.len() - k,
    {
        rows.push(RowEstimate { row: columns[k].0, cor: columns[k].1, used: used[k] });
        k = k + 1;
    }
    let ghost name = method@;
    let e: Estimate = Estimate { method, tilt_deg, cor, slope: line.0, intercept: line.1, r2: line.2, rows };
    assert(call_ensures(A::arctan, (e.slope,), angle) && call_ensures(A::times, (e.slope, mid), q));
    assert(estimate_of::<A>(name, height, columns@, line, used@, e));
    assert(trimmed::<A>(columns@, Some((line, used@))));
    Ok(e)
}

} // verus!
