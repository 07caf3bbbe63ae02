//! What the central image and the plot show.
use crate::fit::{Estimate, RowEstimate};
use crate::ieee;
use crate::ieee::{absolute32, at_most, below, below32, byte_of, clamped32, finite32, total_place32};
use crate::order;
use crate::order::precedes;
use crate::pairs::Pair;
use crate::resample::{lemma_pixel_in_plane, pixel_before};
use crate::stack::{lemma_plane_fits, Stack};
use crate::unit;
use crate::unit::{last_place, middle, FloatUnit};
use vstd::prelude::*;

verus! {

/// What the central image shows.
#[derive(Clone, Copy, Debug, PartialEq, Eq, Structural)]
pub enum ImageView {
    Proj0,
    Proj180Flipped,
    /// |0° − 180° mirrored about the adopted axis|: flat where the axis
    /// is right.
    Difference,
}

impl ImageView {
    /// The name of a view.
    pub open spec fn name(self) -> Seq<char> {
        match self {
            ImageView::Proj0 => "0° projection"@,
            ImageView::Proj180Flipped => "180° flipped"@,
            ImageView::Difference => "difference about the axis"@,
        }
    }

    /// The name of the view.
    pub fn label(self) -> (r: &'static str)
        ensures
            r@ == self.name(),
    {
        match self {
            ImageView::Proj0 => "0° projection",
            ImageView::Proj180Flipped => "180° flipped",
            ImageView::Difference => "difference about the axis",
        }
    }
}

/// The place that a mirrored row shows at place `k`.
pub open spec fn mirrored_place(k: int, w: int) -> int {
    k / w * w + (w - 1 - k % w)
}

/// The image with every row back to front.
pub open spec fn flipped(p: Seq<u32>, w: int) -> Seq<u32> {
    Seq::new(p.len(), |k: int| p[mirrored_place(k, w)])
}

/// The place of a mirrored pixel, by its row and column.
proof fn lemma_mirrored_place(w: int, h: int, x: int, y: int)
    requires
        0 <= x < w,
        0 <= y < h,
    ensures
        mirrored_place(y * w + x, w) == y * w + (w - 1 - x),
        0 <= y * w + x < h * w,
        0 <= y * w + (w - 1 - x) < h * w,
{
    lemma_pixel_in_plane(w, h, x, y);
    lemma_pixel_in_plane(w, h, w - 1 - x, y);
    vstd::arithmetic::div_mod::lemma_fundamental_div_mod_converse(y * w + x, w, y, x);
}

/// Flipping an image of whole rows twice gives the image back.
pub proof fn law_flipping_twice_changes_nothing(p: Seq<u32>, w: int, h: int)
    requires
        w > 0,
        h >= 0,
        p.len() == h * w,
    ensures
        flipped(flipped(p, w), w) == p,
{
    let f = flipped(p, w);
    assert forall|k: int| 0 <= k < p.len() implies #[trigger] flipped(f, w)[k] == p[k] by {
        let (y, x) = (k / w, k % w);
        vstd::arithmetic::div_mod::lemma_fundamental_div_mod(k, w);
        assert(k == y * w + x) by (nonlinear_arith)
            requires
                k == w * y + x,
        ;
        assert(0 <= y < h) by (nonlinear_arith)
            requires
                k == w * y + x,
                0 <= x < w,
                0 <= k < h * w,
        ;
        lemma_mirrored_place(w, h, x, y);
        lemma_mirrored_place(w, h, w - 1 - x, y);
    }
    assert(flipped(f, w) =~= p);
}

fn flip(p: &[u32], w: usize, h: usize) -> (out: Vec<u32>)
    requires
        w > 0,
        p@.len() == h * w,
    ensures
        out@ == flipped(p@, w as int),
{
    let n: usize = p.len();
    let mut out: Vec<u32> = Vec::new();
    let mut k: usize = 0;
    while k < n
        invariant
            w > 0,
            n == p@.len() == h * w,
            k <= n,
            out@.len() == k,
            forall|j: int| 0 <= j < k ==> #[trigger] out@[j] == flipped(p@, w as int)[j],
        decreases n - k,
    {
        let (y, x): (usize, usize) = (k / w, k % w);
        proof {
            vstd::arithmetic::div_mod::lemma_fundamental_div_mod(k as int, w as int);
            assert(k == y * w + x) by (nonlinear_arith)
                requires
                    k == w * y + x,
            ;
            assert(y < h) by (nonlinear_arith)
                requires
                    k == w * y + x,
                    x < w,
                    k < h * w,
            ;
            lemma_mirrored_place(w as int, h as int, x as int, y as int);
            lemma_pixel_in_plane(w as int, h as int, x as int, y as int);
        }
        out.push(p[y * w + (w - 1 - x)]);
        k = k + 1;
    }
    assert(out@ =~= flipped(p@, w as int));
    out
}

fn copied(p: &[u32]) -> (out: Vec<u32>)
    ensures
        out@ == p@,
{
    let mut out: Vec<u32> = Vec::new();
    let mut k: usize = 0;
    while k < p.len()
        invariant
            k <= p@.len(),
            out@ == p@.take(k as int),
        decreases p@.len() - k,
    {
        out.push(p[k]);
        assert(p@.take(k + 1) =~= p@.take(k as int).push(p@[k as int]));
        k = k + 1;
    }
    assert(p@.take(p@.len() as int) =~= p@);
    out
}

/// The line of the axis that the image is mirrored about: slope and intercept.
pub type Axis = Option<(u64, u64)>;

/// `c` is the column of the axis at row `y`: on the line, or in the middle of
/// the image when there is none.
pub open spec fn axis_at<A: FloatUnit>(axis: Axis, w: usize, y: usize, c: u64) -> bool {
    match axis {
        Some((slope, intercept)) => exists|v: u64| #[trigger] call_ensures(A::count, (y,), v) && on_line::<A>(slope, intercept, v, c),
        None => middle::<A>(w, c),
    }
}

/// `c` is the column of the line at row `v`.
pub open spec fn on_line<A: FloatUnit>(slope: u64, intercept: u64, v: u64, c: u64) -> bool {
    exists|q: u64| #[trigger] call_ensures(A::times, (slope, v), q) && call_ensures(A::plus, (q, intercept), c)
}

/// `m` is the nearest column to `x` mirrored about `c`.
pub open spec fn mirrored_column<A: FloatUnit>(c: u64, x: usize, m: u64) -> bool {
    exists|t: u64, v: u64, d: u64|
        #[trigger] call_ensures(A::times, (ieee::TWO, c), t) && #[trigger] call_ensures(A::count, (x,), v)
            && #[trigger] call_ensures(A::minus, (t, v), d) && call_ensures(A::rounded, (d,), m)
}

/// `p` is the pixel that stands opposite to `(x, y)`: that of the 180°
/// projection at the mirrored column, or the pixel itself when that column is
/// outside the image.
pub open spec fn opposite_pixel<A: FloatUnit>(p0: Seq<u32>, p180: Seq<u32>, w: usize, m: u64, x: usize, y: usize, p: u32) -> bool {
    exists|width: u64|
        #[trigger] call_ensures(A::count, (w,), width) && p == if at_most(ieee::ZERO, m) && below(m, width) {
            p180[y * w + pixel_before(m, w)]
        } else {
            p0[y * w + x]
        }
}

/// `d` is the difference about the axis at `(x, y)`.
pub open spec fn difference_pixel<A: FloatUnit>(p0: Seq<u32>, p180: Seq<u32>, w: usize, axis: Axis, x: usize, y: usize, d: u32) -> bool {
    exists|c: u64, m: u64, p: u32, s: u32|
        #[trigger] axis_at::<A>(axis, w, y, c) && #[trigger] mirrored_column::<A>(c, x, m) && #[trigger] opposite_pixel::<A>(
            p0,
            p180,
            w,
            m,
            x,
            y,
            p,
        ) && #[trigger] call_ensures(A::minus32, (p0[y * w + x], p), s) && d == absolute32(s)
}

/// `out` is the difference of the two projections about the axis.
pub open spec fn difference<A: FloatUnit>(p0: Seq<u32>, p180: Seq<u32>, w: usize, h: usize, axis: Axis, out: Seq<u32>) -> bool {
    &&& out.len() == h * w
    &&& forall|x: usize, y: usize|
        x < w && y < h ==> #[trigger] difference_pixel::<A>(p0, p180, w, axis, x, y, out[y * w + x])
}

/// The difference goes flat where the axis is right: where the opposite pixel
/// is the pixel itself, and a value less itself is zero, so is the difference.
pub proof fn law_difference_is_flat_at_the_right_axis<A: FloatUnit>(
    p0: Seq<u32>,
    p180: Seq<u32>,
    w: usize,
    axis: Axis,
    x: usize,
    y: usize,
    d: u32,
)
    requires
        difference_pixel::<A>(p0, p180, w, axis, x, y, d),
        forall|c: u64, m: u64, p: u32| #[trigger]
            axis_at::<A>(axis, w, y, c) && #[trigger] mirrored_column::<A>(c, x, m) && #[trigger] opposite_pixel::<A>(
                p0,
                p180,
                w,
                m,
                x,
                y,
                p,
            ) ==> p == p0[y * w + x],
        forall|s: u32| #[trigger]
            call_ensures(A::minus32, (p0[y * w + x], p0[y * w + x]), s) ==> absolute32(s) == ieee::ZERO_32,
    ensures
        d == ieee::ZERO_32,
{
}

fn line_at<A: FloatUnit>(slope: u64, intercept: u64, v: u64) -> (c: u64)
    ensures
        on_line::<A>(slope, intercept, v, c),
{
    let q: u64 = A::times(slope, v);
    A::plus(q, intercept)
}

fn axis_of_row<A: FloatUnit>(axis: Option<(u64, u64)>, w: usize, y: usize) -> (c: u64)
    ensures
        axis_at::<A>(axis, w, y, c),
{
    match axis {
        Some((slope, intercept)) => {
            let v: u64 = A::count(y);
            line_at::<A>(slope, intercept, v)
        },
        None => unit::middle_of::<A>(w),
    }
}

fn mirror<A: FloatUnit>(c: u64, x: usize) -> (m: u64)
    ensures
        mirrored_column::<A>(c, x, m),
{
    let t: u64 = A::times(ieee::TWO, c);
    let v: u64 = A::count(x);
    let d: u64 = A::minus(t, v);
    A::rounded(d)
}

fn opposite_of<A: FloatUnit>(p0: &[u32], p180: &[u32], w: usize, h: usize, m: u64, x: usize, y: usize) -> (p: u32)
    requires
        x < w,
        y < h,
        p0@.len() == h * w,
        p180@.len() == h * w,
    ensures
        opposite_pixel::<A>(p0@, p180@, w, m, x, y, p),
{
    let width: u64 = A::count(w);
    proof {
        assert(p0@.len() == p0.len());
        lemma_pixel_in_plane(w as int, h as int, x as int, y as int);
    }
    if ieee::less_or_equal(ieee::ZERO, m) && ieee::less(m, width) {
        let i: usize = ieee::to_index(m);
        let at: usize = if i < w {
            i
        } else {
            w - 1
        };
        proof {
            lemma_pixel_in_plane(w as int, h as int, at as int, y as int);
        }
        p180[y * w + at]
    } else {
        p0[y * w + x]
    }
}

fn difference_at<A: FloatUnit>(p0: &[u32], p180: &[u32], w: usize, h: usize, axis: Option<(u64, u64)>, c: u64, x: usize, y: usize) -> (d: u32)
    requires
        x < w,
        y < h,
        p0@.len() == h * w,
        p180@.len() == h * w,
        axis_at::<A>(axis, w, y, c),
    ensures
        difference_pixel::<A>(p0@, p180@, w, axis, x, y, d),
{
    let m: u64 = mirror::<A>(c, x);
    let p: u32 = opposite_of::<A>(p0, p180, w, h, m, x, y);
    proof {
        assert(p0@.len() == p0.len());
        lemma_pixel_in_plane(w as int, h as int, x as int, y as int);
    }
    let s: u32 = A::minus32(p0[y * w + x], p);
    ieee::abs32(s)
}

fn difference_of<A: FloatUnit>(p0: &[u32], p180: &[u32], w: usize, h: usize, axis: Option<(u64, u64)>) -> (out: Vec<u32>)
    requires
        w > 0,
        p0@.len() == h * w,
        p180@.len() == h * w,
    ensures
        difference::<A>(p0@, p180@, w, h, axis, out@),
{
    let mut out: Vec<u32> = Vec::new();
    let mut y: usize = 0;
    assert(0 * w == 0) by (nonlinear_arith);
    while y < h
        invariant
            w > 0,
            p0@.len() == h * w,
            p180@.len() == h * w,
            y <= h,
            out@.len() == y * w,
            forall|a: usize, b: usize| a < w && b < y ==> #[trigger] difference_pixel::<A>(p0@, p180@, w, axis, a, b, out@[b * w + a]),
        decreases h - y,
    {
        let c: u64 = axis_of_row::<A>(axis, w, y);
        let mut x: usize = 0;
        while x < w
            invariant
                w > 0,
                y < h,
                p0@.len() == h * w,
                p180@.len() == h * w,
                axis_at::<A>(axis, w, y, c),
                x <= w,
                out@.len() == y * w + x,
                forall|a: usize, b: usize|
                    a < w && b < h && (b < y || (b == y && a < x)) ==> #[trigger] difference_pixel::<A>(
                        p0@,
                        p180@,
                        w,
                        axis,
                        a,
                        b,
                        out@[b * w + a],
                    ),
            decreases w - x,
        {
            let ghost before = out@;
            let d: u32 = difference_at::<A>(p0, p180, w, h, axis, c, x, y);
            out.push(d);
            assert forall|a: usize, b: usize|
                a < w && b < h && (b < y || (b == y && a < x + 1)) implies #[trigger] difference_pixel::<A>(
                p0@,
                p180@,
                w,
                axis,
                a,
                b,
                out@[b * w + a],
            ) by {
                if b == y && a == x {
                    assert(out@[y * w + x] == d);
                } else {
                    if b < y {
                        lemma_pixel_in_plane(w as int, y as int, a as int, b as int);
                    }
                    assert(out@[b * w + a] == before[b * w + a]);
                    assert(difference_pixel::<A>(p0@, p180@, w, axis, a, b, before[b * w + a]));
                }
            }
            x = x + 1;
        }
        assert((y + 1) * w == y * w + w) by (nonlinear_arith);
        y = y + 1;
    }
    out
}

/// How many samples of an image the window is taken from, about.
pub const WINDOW_SAMPLES: usize = 40_000;

/// Every how manieth pixel is sampled.
pub open spec fn sample_step(n: int) -> int {
    if n / WINDOW_SAMPLES as int > 1 {
        n / WINDOW_SAMPLES as int
    } else {
        1
    }
}

/// How many of `n` pixels are sampled at a step.
pub open spec fn sample_count(n: int, step: int) -> int {
    if n <= 0 {
        0
    } else {
        (n - 1) / step + 1
    }
}

/// The finite ones of the first `k` sampled pixels.
pub open spec fn sampled(pixels: Seq<u32>, step: int, k: int) -> Seq<u32>
    decreases k,
{
    if k <= 0 {
        seq![]
    } else if finite32(pixels[(k - 1) * step]) {
        sampled(pixels, step, k - 1).push(pixels[(k - 1) * step])
    } else {
        sampled(pixels, step, k - 1)
    }
}

/// The sample that the window is taken from.
pub open spec fn window_sample(pixels: Seq<u32>) -> Seq<u32> {
    let n = pixels.len() as int;
    sampled(pixels, sample_step(n), sample_count(n, sample_step(n)))
}

/// Whether sample `a` comes before sample `b`: the smaller first, then as they
/// stand.
pub open spec fn darker(s: Seq<u32>, a: int, b: int) -> bool {
    ||| total_place32(s[a]) < total_place32(s[b])
    ||| total_place32(s[a]) == total_place32(s[b]) && a < b
}

/// Whether `order` lists the samples from the smallest to the largest.
pub open spec fn brightness_order(s: Seq<u32>, order: Seq<usize>) -> bool {
    &&& order.len() == s.len()
    &&& forall|k: int| 0 <= k < order.len() ==> 0 <= #[trigger] order[k] < s.len()
    &&& forall|i: int, j: int| 0 <= i < j < order.len() ==> darker(s, #[trigger] order[i] as int, #[trigger] order[j] as int)
    &&& forall|x: usize| x < s.len() ==> #[trigger] order.contains(x)
}

/// The place of the 1st percentile of `n` sorted samples.
pub open spec fn low_place(n: int) -> int {
    n / 100
}

/// The place of the 99th percentile of `n` sorted samples.
pub open spec fn high_place(n: int) -> int {
    n - 1 - n / 100
}

/// `(lo, hi)` is the 1–99 percentile window of the samples; one wide from `lo`
/// on when the percentiles do not spread, and from 0 to 1 when there are no
/// samples.
pub open spec fn window<A: FloatUnit>(s: Seq<u32>, lo: u32, hi: u32) -> bool {
    if s.len() == 0 {
        (lo, hi) == (ieee::ZERO_32, ieee::ONE_32)
    } else {
        exists|order: Seq<usize>|
            #[trigger] brightness_order(s, order) && lo == s[order[low_place(s.len() as int)] as int] && widened::<A>(
                lo,
                s[order[high_place(s.len() as int)] as int],
                hi,
            )
    }
}

/// `hi` is `top`, or `lo` and one more when `top` is not above `lo`.
pub open spec fn widened<A: FloatUnit>(lo: u32, top: u32, hi: u32) -> bool {
    if below32(lo, top) {
        hi == top
    } else {
        call_ensures(A::plus32, (lo, ieee::ONE_32), hi)
    }
}

/// The window is never inverted: the lower percentile is no larger than the
/// upper one.
pub proof fn law_window_is_not_inverted(s: Seq<u32>, order: Seq<usize>)
    requires
        s.len() > 0,
        brightness_order(s, order),
    ensures
        total_place32(s[order[low_place(s.len() as int)] as int]) <= total_place32(s[order[high_place(s.len() as int)] as int]),
{
    let (a, b) = (low_place(s.len() as int), high_place(s.len() as int));
    assert(0 <= a <= b < s.len());
    if a < b {
        assert(darker(s, order[a] as int, order[b] as int));
    }
}

fn sample_pixels(pixels: &Vec<u32>) -> (r: Vec<u32>)
    ensures
        r@ == window_sample(pixels@),
{
    let n: usize = pixels.len();
    let mut r: Vec<u32> = Vec::new();
    if n == 0 {
        return r;
    }
    let step: usize = if n / WINDOW_SAMPLES > 1 {
        n / WINDOW_SAMPLES
    } else {
        1
    };
    let last: usize = (n - 1) / step;
    let mut k: usize = 0;
    loop
        invariant
            n == pixels@.len() > 0,
            step == sample_step(n as int),
            step >= 1,
            last == (n - 1) / step as int,
            k <= last,
            r@ == sampled(pixels@, step as int, k as int),
        decreases last - k,
    {
        proof {
            assert(0 <= k * step <= last * step) by (nonlinear_arith)
                requires
                    k <= last,
                    step >= 1,
            ;
            vstd::arithmetic::div_mod::lemma_fundamental_div_mod(n - 1, step as int);
            assert(last * step <= n - 1) by (nonlinear_arith)
                requires
                    n - 1 == step * last + (n - 1) % step as int,
                    0 <= (n - 1) % step as int,
            ;
        }
        let p: u32 = pixels[k * step];
        assert(k + 1 - 1 == k);
        if ieee::is_finite32(p) {
            r.push(p);
        }
        assert(r@ == sampled(pixels@, step as int, k + 1));
        if k == last {
            return r;
        }
        k = k + 1;
    }
}

fn window_of<A: FloatUnit>(s: &Vec<u32>) -> (r: (u32, u32))
    ensures
        window::<A>(s@, r.0, r.1),
{
    let n: usize = s.len();
    if n == 0 {
        return (ieee::ZERO_32, ieee::ONE_32);
    }
    let mut keys: Vec<(i64, i64)> = Vec::new();
    let mut k: usize = 0;
    while k < n
        invariant
            n == s@.len(),
            k <= n,
            keys@.len() == k,
            forall|l: int| 0 <= l < k ==> (#[trigger] keys@[l]).0 == total_place32(s@[l]) && keys@[l].1 == 0,
        decreases n - k,
    {
        keys.push((ieee::total_key32(s[k]), 0));
        k = k + 1;
    }
    let sorted: Vec<usize> = order::sorted_indices(&keys);
    assert(brightness_order(s@, sorted@)) by {
        assert forall|i: int, j: int| 0 <= i < j < sorted@.len() implies darker(
            s@,
            #[trigger] sorted@[i] as int,
            #[trigger] sorted@[j] as int,
        ) by {
            assert(precedes(keys@, sorted@[i] as int, sorted@[j] as int));
        }
    }
    let lo: u32 = s[sorted[n / 100]];
    let top: u32 = s[sorted[n - 1 - n / 100]];
    if ieee::less32(lo, top) {
        assert(widened::<A>(lo, top, top));
        (lo, top)
    } else {
        let hi: u32 = A::plus32(lo, ieee::ONE_32);
        assert(widened::<A>(lo, top, hi));
        (lo, hi)
    }
}

/// `g` is the gray of the sample `v` in the window from `lo` to `hi`.
pub open spec fn gray<A: FloatUnit>(v: u32, lo: u32, hi: u32, g: u8) -> bool {
    exists|d: u32, r: u32, q: u32, b: u32|
        #[trigger] call_ensures(A::minus32, (v, lo), d) && #[trigger] call_ensures(A::minus32, (hi, lo), r)
            && #[trigger] call_ensures(A::over32, (d, r), q) && #[trigger] call_ensures(
            A::times32,
            (clamped32(q, ieee::ZERO_32, ieee::ONE_32), ieee::WHITE_32),
            b,
        ) && g == byte_of(b)
}

/// `out` is the image in gray, with a 1–99 percentile window.
pub open spec fn grayscale<A: FloatUnit>(pixels: Seq<u32>, out: Seq<u8>) -> bool {
    exists|lo: u32, hi: u32|
        #[trigger] window::<A>(window_sample(pixels), lo, hi) && out.len() == pixels.len() && (forall|k: int|
            0 <= k < pixels.len() ==> gray::<A>(pixels[k], lo, hi, #[trigger] out[k]))
}

fn gray_of<A: FloatUnit>(v: u32, lo: u32, hi: u32) -> (g: u8)
    ensures
        gray::<A>(v, lo, hi, g),
{
    let d: u32 = A::minus32(v, lo);
    let r: u32 = A::minus32(hi, lo);
    let q: u32 = A::over32(d, r);
    let b: u32 = A::times32(ieee::clamp32(q, ieee::ZERO_32, ieee::ONE_32), ieee::WHITE_32);
    ieee::to_byte(b)
}

/// The image in gray, with a 1–99 percentile window.
pub fn grayscale_of<A: FloatUnit>(pixels: &Vec<u32>) -> (out: Vec<u8>)
    ensures
        grayscale::<A>(pixels@, out@),
{
    let s: Vec<u32> = sample_pixels(pixels);
    let (lo, hi) = window_of::<A>(&s);
    let mut out: Vec<u8> = Vec::new();
    let mut k: usize = 0;
    while k < pixels.len()
        invariant
            k <= pixels@.len(),
            out@.len() == k,
            forall|j: int| 0 <= j < k ==> gray::<A>(pixels@[j], lo, hi, #[trigger] out@[j]),
        decreases pixels@.len() - k,
    {
        let g: u8 = gray_of::<A>(pixels[k], lo, hi);
        out.push(g);
        k = k + 1;
    }
    assert(window::<A>(window_sample(pixels@), lo, hi));
    out
}

/// `out` is the plane that a view of a pair shows.
pub open spec fn shown<A: FloatUnit>(stack: &Stack, pair: Pair, view: ImageView, axis: Axis, out: Seq<u32>) -> bool {
    let (p0, p180) = (stack.plane_at(pair.i as int), stack.plane_at(pair.j as int));
    match view {
        ImageView::Proj0 => out == p0,
        ImageView::Proj180Flipped => out == flipped(p180, stack.width as int),
        ImageView::Difference => difference::<A>(p0, p180, stack.width, stack.height, axis, out),
    }
}

/// The plane that a view of a pair shows.
pub fn view_plane<A: FloatUnit>(stack: &Stack, pair: &Pair, view: ImageView, axis: Option<(u64, u64)>) -> (out: Vec<u32>)
    requires
        stack.wf(),
        pair.i < stack.n,
        pair.j < stack.n,
    ensures
        shown::<A>(stack, *pair, view, axis, out@),
        out@.len() == stack.height * stack.width,
{
    proof {
        lemma_plane_fits(stack, pair.i);
        lemma_plane_fits(stack, pair.j);
    }
    match view {
        ImageView::Proj0 => copied(stack.plane(pair.i)),
        ImageView::Proj180Flipped => flip(stack.plane(pair.j), stack.width, stack.height),
        ImageView::Difference => difference_of::<A>(stack.plane(pair.i), stack.plane(pair.j), stack.width, stack.height, axis),
    }
}

/// The points of the bands that the fit used, or of those that it dropped.
pub open spec fn band_points(rows: Seq<RowEstimate>, used: bool) -> Seq<(u64, u64)>
    decreases rows.len(),
{
    if rows.len() == 0 {
        seq![]
    } else if rows.last().used == used {
        band_points(rows.drop_last(), used).push((rows.last().row, rows.last().cor))
    } else {
        band_points(rows.drop_last(), used)
    }
}

/// The points of the bands that the fit used, or of those that it dropped.
pub fn plot_points(rows: &Vec<RowEstimate>, used: bool) -> (r: Vec<(u64, u64)>)
    ensures
        r@ == band_points(rows@, used),
{
    let mut r: Vec<(u64, u64)> = Vec::new();
    let mut k: usize = 0;
    assert(rows@.take(0).len() == 0);
    while k < rows.len()
        invariant
            k <= rows@.len(),
            r@ == band_points(rows@.take(k as int), used),
        decreases rows@.len() - k,
    {
        assert(rows@.take(k + 1).drop_last() =~= rows@.take(k as int));
        assert(rows@.take(k + 1).last() == rows@[k as int]);
        if rows[k].used == used {
            r.push((rows[k].row, rows[k].cor));
        }
        k = k + 1;
    }
    assert(rows@.take(rows@.len() as int) =~= rows@);
    r
}

/// Every band is plotted, either as used or as dropped.
pub proof fn law_every_band_is_plotted(rows: Seq<RowEstimate>)
    ensures
        band_points(rows, true).len() + band_points(rows, false).len() == rows.len(),
    decreases rows.len(),
{
    if rows.len() > 0 {
        law_every_band_is_plotted(rows.drop_last());
    }
}

/// `(last, c)` is the end of the fitted line at the last row.
pub open spec fn line_end<A: FloatUnit>(est: Estimate, height: usize, last: u64, c: u64) -> bool {
    last_place::<A>(height, last) && on_line::<A>(est.slope, est.intercept, last, c)
}

/// The ends of the fitted line, as the plot shows it: from the first row to
/// the last.
pub fn fit_line<A: FloatUnit>(est: &Estimate, height: usize) -> (r: ((u64, u64), (u64, u64)))
    ensures
        r matches (first, end) && first == (ieee::ZERO, est.intercept) && line_end::<A>(*est, height, end.0, end.1),
{
    let last: u64 = unit::last_place_of::<A>(height);
    ((ieee::ZERO, est.intercept), (last, line_at::<A>(est.slope, est.intercept, last)))
}

/// `c` is where the axis is drawn at row `v`: mirrored in the flipped view.
pub open spec fn drawn_at<A: FloatUnit>(est: Estimate, width: usize, is_flipped: bool, v: u64, c: u64) -> bool {
    exists|a: u64|
        #[trigger] on_line::<A>(est.slope, est.intercept, v, a) && if is_flipped {
            from_the_right::<A>(width, a, c)
        } else {
            c == a
        }
}

/// `c` is the column `a` counted from the right.
pub open spec fn from_the_right<A: FloatUnit>(width: usize, a: u64, c: u64) -> bool {
    exists|last: u64| #[trigger] last_place::<A>(width, last) && call_ensures(A::minus, (last, a), c)
}

/// Where the axis is drawn over the image at row `v`.
pub fn axis_overlay<A: FloatUnit>(est: &Estimate, width: usize, view: ImageView, v: u64) -> (c: u64)
    ensures
        drawn_at::<A>(*est, width, view == ImageView::Proj180Flipped, v, c),
{
    let a: u64 = line_at::<A>(est.slope, est.intercept, v);
    match view {
        ImageView::Proj180Flipped => {
            let last: u64 = unit::last_place_of::<A>(width);
            let c: u64 = A::minus(last, a);
            assert(from_the_right::<A>(width, a, c));
            c
        },
        _ => a,
    }
}

} // verus!
