//! What a rotation makes of an image, in values: every pixel is the mixture of
//! the four samples about the point that it comes from, and that is the pixel
//! turned back about the center by the angle, sign and all.
use crate::algorithms::stack_rotated;
use crate::axis_laws::{lemma_projection, projection};
use crate::correction::corrected;
use crate::fit::Estimate;
use crate::fit_laws::unity;
use crate::ieee;
use crate::ieee::{
    clamped, divides, finite, finite32, law_index_value, law_rank_orders_the_values, lemma_opposite_value,
    lemma_scaled_constants, opposite, representable, scaled, scaled32,
};
use crate::recon;
use crate::recon::{carrying, law_carrying_lists_the_finite_angles, sampled_row, sinogram, sinogram_sample, sinogram_through};
use crate::resample;
use crate::resample::{
    bilinear, distance, fraction, mixed, pixel_before, pixel_behind, resampled, rotated, rotated_pixel,
    rotation_by, source_point, sum4, weighted, within, Rotation,
};
use crate::stack::Stack;
use crate::unit::{affine, last_place, middle, product3, rounds_only_if_needed, turns_oddly, FloatUnit};
use crate::value_laws::lemma_common_factor;
use vstd::prelude::*;

verus! {

/// Rotations by opposite angles are opposite: the one by `-a` has the opposite
/// sine of the one by `a`, and the same cosine.
pub proof fn law_opposite_angles_turn_opposite_ways<A: FloatUnit>(w: usize, h: usize, angle: u64, t: Rotation, v: Rotation)
    requires
        turns_oddly::<A>(),
        call_ensures(resample::rotation::<A>, (w, h, angle), t),
        call_ensures(resample::rotation::<A>, (w, h, opposite(angle)), v),
    ensures
        v.sin == opposite(t.sin),
        v.cos == t.cos,
{
    let a = choose|rad: u64|
        #[trigger] call_ensures(A::radians, (angle,), rad) && call_ensures(A::sine_cosine, (rad,), (t.sin, t.cos));
    let b = choose|rad: u64|
        #[trigger] call_ensures(A::radians, (opposite(angle),), rad) && call_ensures(A::sine_cosine, (rad,), (v.sin, v.cos));
    assert(b == opposite(a));
    assert((v.sin, v.cos) == (opposite(t.sin), t.cos));
}

/// The product of two values.
pub open spec fn product(a: int, b: int) -> int {
    a * b / unity()
}

/// Whether the product of two values is a double.
pub open spec fn product_fits(a: int, b: int) -> bool {
    divides(a * b, unity())
}

/// The middle of `n` places.
pub open spec fn mid(n: int) -> int {
    (n - 1) * unity() / 2
}

/// How far column `x` is from the middle of `n`.
pub open spec fn off_center(x: int, n: int) -> int {
    x * unity() - mid(n)
}

/// Where a pixel comes from, along the columns and along the rows: turned back
/// about the center.
pub open spec fn turned_back(sin: int, cos: int, w: int, h: int, x: int, y: int) -> (int, int) {
    let (dx, dy) = (off_center(x, w), off_center(y, h));
    (product(cos, dx) + product(sin, dy) + mid(w), product(-sin, dx) + product(cos, dy) + mid(h))
}

/// A place brought within the `n` places.
pub open spec fn brought_within(a: int, n: int) -> int {
    if a < 0 {
        0
    } else if a > (n - 1) * unity() {
        (n - 1) * unity()
    } else {
        a
    }
}

/// Whether the places of `n` and the distance of `x` from their middle are made
/// of doubles.
pub open spec fn place_fits(x: int, n: int) -> bool {
    &&& representable(n * unity())
    &&& representable((n - 1) * unity())
    &&& (n - 1) * unity() % 2 == 0
    &&& representable(mid(n))
    &&& representable(x * unity())
    &&& representable(off_center(x, n))
}

/// Whether the point that a pixel comes from is made of doubles.
pub open spec fn source_fits(sin: int, cos: int, w: int, h: int, x: int, y: int) -> bool {
    let (dx, dy) = (off_center(x, w), off_center(y, h));
    &&& place_fits(x, w)
    &&& place_fits(y, h)
    &&& product_fits(cos, dx)
    &&& product_fits(sin, dy)
    &&& product_fits(-sin, dx)
    &&& product_fits(cos, dy)
    &&& representable(product(cos, dx) + product(sin, dy))
    &&& representable(product(-sin, dx) + product(cos, dy))
    &&& representable(turned_back(sin, cos, w, h, x, y).0)
    &&& representable(turned_back(sin, cos, w, h, x, y).1)
}

/// A sample weighted by two fractions.
pub open spec fn share(p: int, fx: int, fy: int) -> int {
    product(product(p, fx), fy)
}

/// Whether a weighted sample is made of doubles.
pub open spec fn share_fits(p: int, fx: int, fy: int) -> bool {
    product_fits(p, fx) && product_fits(product(p, fx), fy)
}

/// The place behind `k`, of `n`.
pub open spec fn next_place(k: int, n: int) -> int {
    if k + 1 < n {
        k + 1
    } else {
        n - 1
    }
}

/// The four samples about the point `(sx, sy)` of an image.
pub open spec fn samples_about(plane: Seq<u32>, w: int, h: int, sx: int, sy: int) -> (u32, u32, u32, u32) {
    let (x0, y0) = (sx / unity(), sy / unity());
    let (x1, y1) = (next_place(x0, w), next_place(y0, h));
    (plane[y0 * w + x0], plane[y0 * w + x1], plane[y1 * w + x0], plane[y1 * w + x1])
}

/// The mixture of the four samples about the point `(sx, sy)`, by how far it is
/// from them.
pub open spec fn mixture(plane: Seq<u32>, w: int, h: int, sx: int, sy: int) -> int {
    let u = unity();
    let (fx, fy) = (sx % u, sy % u);
    let (p00, p01, p10, p11) = samples_about(plane, w, h, sx, sy);
    share(scaled32(p00), u - fx, u - fy) + share(scaled32(p01), fx, u - fy) + share(scaled32(p10), u - fx, fy) + share(
        scaled32(p11),
        fx,
        fy,
    )
}

/// Whether the mixture is made of doubles.
pub open spec fn mixture_fits(plane: Seq<u32>, w: int, h: int, sx: int, sy: int) -> bool {
    let u = unity();
    let (fx, fy) = (sx % u, sy % u);
    let (p00, p01, p10, p11) = samples_about(plane, w, h, sx, sy);
    let (t00, t01, t10, t11) = (
        share(scaled32(p00), u - fx, u - fy),
        share(scaled32(p01), fx, u - fy),
        share(scaled32(p10), u - fx, fy),
        share(scaled32(p11), fx, fy),
    );
    &&& finite32(p00) && finite32(p01) && finite32(p10) && finite32(p11)
    &&& representable(sx / u * u) && representable(sy / u * u)
    &&& representable(fx) && representable(fy) && representable(u - fx) && representable(u - fy)
    &&& share_fits(scaled32(p00), u - fx, u - fy)
    &&& share_fits(scaled32(p01), fx, u - fy)
    &&& share_fits(scaled32(p10), u - fx, fy)
    &&& share_fits(scaled32(p11), fx, fy)
    &&& representable(t00 + t01)
    &&& representable(t00 + t01 + t10)
    &&& representable(t00 + t01 + t10 + t11)
}

/// The value of pixel `(x, y)` of an image that was turned by the angle with
/// this sine and cosine.
pub open spec fn turned_pixel(plane: Seq<u32>, w: int, h: int, sin: int, cos: int, x: int, y: int) -> int {
    let (a, b) = turned_back(sin, cos, w, h, x, y);
    mixture(plane, w, h, brought_within(a, w), brought_within(b, h))
}

/// Whether that value is made of doubles.
pub open spec fn turned_pixel_fits(plane: Seq<u32>, w: int, h: int, sin: int, cos: int, x: int, y: int) -> bool {
    let (a, b) = turned_back(sin, cos, w, h, x, y);
    &&& source_fits(sin, cos, w, h, x, y)
    &&& mixture_fits(plane, w, h, brought_within(a, w), brought_within(b, h))
}

/// Whether a single has the value `n`.
pub open spec fn is_single(n: int) -> bool {
    exists|p: u32| finite32(p) && #[trigger] scaled32(p) == n
}

pub proof fn lemma_last_place_value<A: FloatUnit>(n: usize, last: u64)
    requires
        rounds_only_if_needed::<A>(),
        representable(n * unity()),
        representable((n - 1) * unity()),
        last_place::<A>(n, last),
    ensures
        finite(last),
        scaled(last) == (n - 1) * unity(),
{
    let c = choose|c: u64| #[trigger] call_ensures(A::count, (n,), c) && call_ensures(A::minus, (c, ieee::ONE), last);
    let u = unity();
    assert((n - 1) * u == n * u - u) by (nonlinear_arith);
    assert(finite(ieee::ONE));
}

pub proof fn lemma_middle_value<A: FloatUnit>(n: usize, c: u64)
    requires
        rounds_only_if_needed::<A>(),
        representable(n * unity()),
        representable((n - 1) * unity()),
        (n - 1) * unity() % 2 == 0,
        representable(mid(n as int)),
        middle::<A>(n, c),
    ensures
        finite(c),
        scaled(c) == mid(n as int),
{
    lemma_scaled_constants();
    let last = choose|m: u64| #[trigger] last_place::<A>(n, m) && call_ensures(A::over, (m, ieee::TWO), c);
    lemma_last_place_value::<A>(n, last);
    lemma_common_factor((n - 1) * unity(), 2, unity());
    assert(finite(ieee::TWO));
    assert(scaled(ieee::TWO) == 2 * unity());
}

proof fn lemma_distance_value<A: FloatUnit>(x: usize, n: usize, c: u64, d: u64)
    requires
        rounds_only_if_needed::<A>(),
        place_fits(x as int, n as int),
        finite(c),
        scaled(c) == mid(n as int),
        distance::<A>(x, c, d),
    ensures
        finite(d),
        scaled(d) == off_center(x as int, n as int),
{
    let v = choose|v: u64| #[trigger] call_ensures(A::count, (x,), v) && call_ensures(A::minus, (v, c), d);
    assert(finite(v) && scaled(v) == x * unity());
}

proof fn lemma_affine_value<A: FloatUnit>(a: u64, b: u64, c: u64, d: u64, e: u64, r: u64)
    requires
        rounds_only_if_needed::<A>(),
        finite(a),
        finite(b),
        finite(c),
        finite(d),
        finite(e),
        product_fits(scaled(a), scaled(b)),
        product_fits(scaled(c), scaled(d)),
        representable(product(scaled(a), scaled(b)) + product(scaled(c), scaled(d))),
        representable(product(scaled(a), scaled(b)) + product(scaled(c), scaled(d)) + scaled(e)),
        affine::<A>(a, b, c, d, e, r),
    ensures
        finite(r),
        scaled(r) == product(scaled(a), scaled(b)) + product(scaled(c), scaled(d)) + scaled(e),
{
}

proof fn lemma_within_value<A: FloatUnit>(a: u64, n: usize, s: u64)
    requires
        rounds_only_if_needed::<A>(),
        n > 0,
        finite(a),
        representable(n * unity()),
        representable((n - 1) * unity()),
        within::<A>(a, n, s),
    ensures
        finite(s),
        scaled(s) == brought_within(scaled(a), n as int),
        pixel_before(s, n) == brought_within(scaled(a), n as int) / unity(),
        0 <= brought_within(scaled(a), n as int) / unity() < n,
{
    lemma_scaled_constants();
    let u = unity();
    let last = choose|last: u64| #[trigger] last_place::<A>(n, last) && s == clamped(a, ieee::ZERO, last);
    lemma_last_place_value::<A>(n, last);
    law_rank_orders_the_values(a, ieee::ZERO);
    law_rank_orders_the_values(ieee::ZERO, a);
    law_rank_orders_the_values(a, last);
    law_rank_orders_the_values(last, a);
    assert(0 <= (n - 1) * u) by (nonlinear_arith)
        requires
            n > 0,
            u > 0,
    ;
    let v = scaled(s);
    assert(v == brought_within(scaled(a), n as int));
    assert((n - 1) * u < usize::MAX * u) by (nonlinear_arith)
        requires
            n <= usize::MAX,
            u > 0,
    ;
    law_index_value(s);
    vstd::arithmetic::div_mod::lemma_fundamental_div_mod(v, u);
    let k = v / u;
    assert(0 <= k <= n - 1) by (nonlinear_arith)
        requires
            v == u * k + v % u,
            0 <= v % u < u,
            0 <= v <= (n - 1) * u,
    ;
}

proof fn lemma_fraction_value<A: FloatUnit>(s: u64, p: usize, f: u64)
    requires
        rounds_only_if_needed::<A>(),
        finite(s),
        p == scaled(s) / unity(),
        representable(p * unity()),
        representable(scaled(s) % unity()),
        fraction::<A>(s, p, f),
    ensures
        finite(f),
        scaled(f) == scaled(s) % unity(),
{
    lemma_scaled_constants();
    let c = choose|c: u64| #[trigger] call_ensures(A::count, (p,), c) && call_ensures(A::minus, (s, c), f);
    let u = unity();
    vstd::arithmetic::div_mod::lemma_fundamental_div_mod(scaled(s), u);
    assert(u * (p as int) == p * u) by (nonlinear_arith);
}

proof fn lemma_share_value<A: FloatUnit>(p: u32, fx: u64, fy: u64, t: u64)
    requires
        rounds_only_if_needed::<A>(),
        finite32(p),
        finite(fx),
        finite(fy),
        share_fits(scaled32(p), scaled(fx), scaled(fy)),
        weighted::<A>(p, fx, fy, t),
    ensures
        finite(t),
        scaled(t) == share(scaled32(p), scaled(fx), scaled(fy)),
{
    let v = choose|v: u64| #[trigger] call_ensures(A::widen, (p,), v) && product3::<A>(v, fx, fy, t);
    let q = choose|q: u64| #[trigger] call_ensures(A::times, (v, fx), q) && call_ensures(A::times, (q, fy), t);
    assert(finite(v) && scaled(v) == scaled32(p));
    assert(finite(q) && scaled(q) == product(scaled32(p), scaled(fx)));
}

proof fn lemma_mixture_value<A: FloatUnit>(plane: Seq<u32>, w: usize, h: usize, sx: u64, sy: u64, v: u64)
    requires
        rounds_only_if_needed::<A>(),
        finite(sx),
        finite(sy),
        mixture_fits(plane, w as int, h as int, scaled(sx), scaled(sy)),
        pixel_before(sx, w) == scaled(sx) / unity(),
        pixel_before(sy, h) == scaled(sy) / unity(),
        0 <= scaled(sx) / unity() < w,
        0 <= scaled(sy) / unity() < h,
        bilinear::<A>(plane, w, h, sx, sy, v),
    ensures
        finite(v),
        scaled(v) == mixture(plane, w as int, h as int, scaled(sx), scaled(sy)),
{
    lemma_scaled_constants();
    let u = unity();
    let x0 = pixel_before(sx, w);
    let y0 = pixel_before(sy, h);
    let x1 = pixel_behind(x0, w);
    let y1 = pixel_behind(y0, h);
    let (p00, p01, p10, p11) = (plane[y0 * w + x0], plane[y0 * w + x1], plane[y1 * w + x0], plane[y1 * w + x1]);
    assert(samples_about(plane, w as int, h as int, scaled(sx), scaled(sy)) == (p00, p01, p10, p11));
    let (fx, fy) = choose|fx: u64, fy: u64|
        #[trigger] fraction::<A>(sx, x0 as usize, fx) && #[trigger] fraction::<A>(sy, y0 as usize, fy) && mixed::<A>(
            p00,
            p01,
            p10,
            p11,
            fx,
            fy,
            v,
        );
    lemma_fraction_value::<A>(sx, x0 as usize, fx);
    lemma_fraction_value::<A>(sy, y0 as usize, fy);
    let (gx, gy, t00, t01, t10, t11) = choose|gx: u64, gy: u64, t00: u64, t01: u64, t10: u64, t11: u64|
        call_ensures(A::minus, (ieee::ONE, fx), gx) && call_ensures(A::minus, (ieee::ONE, fy), gy) && #[trigger] weighted::<A>(
            p00,
            gx,
            gy,
            t00,
        ) && #[trigger] weighted::<A>(p01, fx, gy, t01) && #[trigger] weighted::<A>(p10, gx, fy, t10)
            && #[trigger] weighted::<A>(p11, fx, fy, t11) && sum4::<A>(t00, t01, t10, t11, v);
    assert(finite(ieee::ONE));
    assert(finite(gx) && scaled(gx) == u - scaled(fx));
    assert(finite(gy) && scaled(gy) == u - scaled(fy));
    lemma_share_value::<A>(p00, gx, gy, t00);
    lemma_share_value::<A>(p01, fx, gy, t01);
    lemma_share_value::<A>(p10, gx, fy, t10);
    lemma_share_value::<A>(p11, fx, fy, t11);
    let (a, b) = choose|a: u64, b: u64|
        #[trigger] call_ensures(A::plus, (t00, t01), a) && #[trigger] call_ensures(A::plus, (a, t10), b) && call_ensures(
            A::plus,
            (b, t11),
            v,
        );
    assert(finite(a) && scaled(a) == scaled(t00) + scaled(t01));
    assert(finite(b) && scaled(b) == scaled(t00) + scaled(t01) + scaled(t10));
}

/// Whether `t` turns by this sine and cosine about the center of a `w` by `h`
/// image.
pub open spec fn turns_by<A: FloatUnit>(t: Rotation, w: usize, h: usize, sin: int, cos: int) -> bool {
    &&& finite(t.sin) && scaled(t.sin) == sin
    &&& finite(t.cos) && scaled(t.cos) == cos
    &&& middle::<A>(w, t.cx)
    &&& middle::<A>(h, t.cy)
}

pub proof fn lemma_resampled_value<A: FloatUnit>(
    plane: Seq<u32>,
    w: usize,
    h: usize,
    t: Rotation,
    sin: int,
    cos: int,
    x: usize,
    y: usize,
    v: u64,
)
    requires
        rounds_only_if_needed::<A>(),
        w > 0,
        h > 0,
        turns_by::<A>(t, w, h, sin, cos),
        turned_pixel_fits(plane, w as int, h as int, sin, cos, x as int, y as int),
        resampled::<A>(plane, w, h, t, x, y, v),
    ensures
        finite(v),
        scaled(v) == turned_pixel(plane, w as int, h as int, sin, cos, x as int, y as int),
{
    let (sx, sy) = choose|sx: u64, sy: u64|
        #[trigger] source_point::<A>(t, w, h, x, y, sx, sy) && bilinear::<A>(plane, w, h, sx, sy, v);
    let (dx, dy, a, b) = choose|dx: u64, dy: u64, a: u64, b: u64|
        #[trigger] distance::<A>(x, t.cx, dx) && #[trigger] distance::<A>(y, t.cy, dy) && #[trigger] affine::<A>(
            t.cos,
            dx,
            t.sin,
            dy,
            t.cx,
            a,
        ) && #[trigger] affine::<A>(opposite(t.sin), dx, t.cos, dy, t.cy, b) && within::<A>(a, w, sx) && within::<A>(b, h, sy);
    lemma_middle_value::<A>(w, t.cx);
    lemma_middle_value::<A>(h, t.cy);
    lemma_distance_value::<A>(x, w, t.cx, dx);
    lemma_distance_value::<A>(y, h, t.cy, dy);
    lemma_opposite_value(t.sin);
    lemma_affine_value::<A>(t.cos, dx, t.sin, dy, t.cx, a);
    lemma_affine_value::<A>(opposite(t.sin), dx, t.cos, dy, t.cy, b);
    lemma_within_value::<A>(a, w, sx);
    lemma_within_value::<A>(b, h, sy);
    lemma_mixture_value::<A>(plane, w, h, sx, sy, v);
}

proof fn lemma_rotated_pixel_value<A: FloatUnit>(
    plane: Seq<u32>,
    w: usize,
    h: usize,
    t: Rotation,
    sin: int,
    cos: int,
    x: usize,
    y: usize,
    p: u32,
)
    requires
        rounds_only_if_needed::<A>(),
        w > 0,
        h > 0,
        turns_by::<A>(t, w, h, sin, cos),
        turned_pixel_fits(plane, w as int, h as int, sin, cos, x as int, y as int),
        is_single(turned_pixel(plane, w as int, h as int, sin, cos, x as int, y as int)),
        rotated_pixel::<A>(plane, w, h, t, x, y, p),
    ensures
        scaled32(p) == turned_pixel(plane, w as int, h as int, sin, cos, x as int, y as int),
{
    let v = choose|v: u64| #[trigger] resampled::<A>(plane, w, h, t, x, y, v) && call_ensures(A::narrow, (v,), p);
    lemma_resampled_value::<A>(plane, w, h, t, sin, cos, x, y, v);
    let q = choose|q: u32| finite32(q) && #[trigger] scaled32(q) == turned_pixel(
        plane,
        w as int,
        h as int,
        sin,
        cos,
        x as int,
        y as int,
    );
    assert(scaled32(q) == scaled(v));
}

/// A pixel of a rotated plane is the mixture of the four samples about the
/// point that it comes from: the pixel turned back about the center of the
/// image, and kept within it.
pub proof fn law_rotated_plane_values<A: FloatUnit>(
    plane: &[u32],
    w: usize,
    h: usize,
    t: &Rotation,
    sin: int,
    cos: int,
    x: usize,
    y: usize,
    out: Vec<u32>,
)
    requires
        rounds_only_if_needed::<A>(),
        x < w,
        y < h,
        turns_by::<A>(*t, w, h, sin, cos),
        turned_pixel_fits(plane@, w as int, h as int, sin, cos, x as int, y as int),
        is_single(turned_pixel(plane@, w as int, h as int, sin, cos, x as int, y as int)),
        call_ensures(resample::rotate_plane::<A>, (plane, w, h, t), out),
    ensures
        scaled32(out@[y * w + x]) == turned_pixel(plane@, w as int, h as int, sin, cos, x as int, y as int),
{
    assert(rotated_pixel::<A>(plane@, w, h, *t, x, y, out@[y * w + x]));
    lemma_rotated_pixel_value::<A>(plane@, w, h, *t, sin, cos, x, y, out@[y * w + x]);
}

/// Whether the sine and the cosine that the unit has for an angle in degrees
/// have these values, whatever else it may give.
pub open spec fn has_sine_cosine<A: FloatUnit>(angle: u64, sin: int, cos: int) -> bool {
    forall|rad: u64, r: (u64, u64)| #[trigger]
        call_ensures(A::radians, (angle,), rad) && #[trigger] call_ensures(A::sine_cosine, (rad,), r) ==> finite(r.0) && scaled(r.0)
            == sin && finite(r.1) && scaled(r.1) == cos
}

proof fn lemma_rotation_turns<A: FloatUnit>(w: usize, h: usize, angle: u64, sin: int, cos: int, t: Rotation)
    requires
        has_sine_cosine::<A>(angle, sin, cos),
        rotation_by::<A>(w, h, angle, t),
    ensures
        turns_by::<A>(t, w, h, sin, cos),
{
    let rad = choose|rad: u64|
        #[trigger] call_ensures(A::radians, (angle,), rad) && call_ensures(A::sine_cosine, (rad,), (t.sin, t.cos));
}

/// Rotating the stack by an angle turns every projection by the sine and the
/// cosine of that angle.
pub proof fn law_rotated_stack_values<A: FloatUnit>(
    before: Stack,
    angle: u64,
    after: Stack,
    sin: int,
    cos: int,
    i: int,
    x: usize,
    y: usize,
)
    requires
        rounds_only_if_needed::<A>(),
        before.wf(),
        stack_rotated::<A>(before, angle, after),
        has_sine_cosine::<A>(angle, sin, cos),
        0 <= i < before.n,
        x < before.width,
        y < before.height,
        turned_pixel_fits(projection(&before, i), before.width as int, before.height as int, sin, cos, x as int, y as int),
        is_single(turned_pixel(projection(&before, i), before.width as int, before.height as int, sin, cos, x as int, y as int)),
    ensures
        scaled32(projection(&after, i)[y * before.width + x]) == turned_pixel(
            projection(&before, i),
            before.width as int,
            before.height as int,
            sin,
            cos,
            x as int,
            y as int,
        ),
{
    let (w, h) = (before.width, before.height);
    lemma_projection(&before, i);
    lemma_projection(&after, i);
    let t = choose|t: Rotation|
        #[trigger] rotation_by::<A>(w, h, angle, t) && (forall|i: int|
            0 <= i < before.n ==> rotated::<A>(before.plane_at(i), w, h, t, #[trigger] after.plane_at(i)));
    lemma_rotation_turns::<A>(w, h, angle, sin, cos, t);
    assert(rotated::<A>(before.plane_at(i), w, h, t, after.plane_at(i)));
    let p = after.plane_at(i)[y * w + x];
    assert(rotated_pixel::<A>(before.plane_at(i), w, h, t, x, y, p));
    lemma_rotated_pixel_value::<A>(before.plane_at(i), w, h, t, sin, cos, x, y, p);
}

/// A correction turns every projection by the tilt of the estimate, and sets
/// the center of rotation to that of the estimate.
pub proof fn law_corrected_stack_values<A: FloatUnit>(
    before: Stack,
    est: Estimate,
    after: Stack,
    sin: int,
    cos: int,
    i: int,
    x: usize,
    y: usize,
)
    requires
        rounds_only_if_needed::<A>(),
        before.wf(),
        corrected::<A>(before, est, after),
        has_sine_cosine::<A>(est.tilt_deg, sin, cos),
        0 <= i < before.n,
        x < before.width,
        y < before.height,
        turned_pixel_fits(projection(&before, i), before.width as int, before.height as int, sin, cos, x as int, y as int),
        is_single(turned_pixel(projection(&before, i), before.width as int, before.height as int, sin, cos, x as int, y as int)),
    ensures
        after.center_of_rotation == Some(est.cor),
        after.angles_deg == before.angles_deg,
        (after.n, after.height, after.width) == (before.n, before.height, before.width),
        scaled32(projection(&after, i)[y * before.width + x]) == turned_pixel(
            projection(&before, i),
            before.width as int,
            before.height as int,
            sin,
            cos,
            x as int,
            y as int,
        ),
{
    let mid_stack = Stack { center_of_rotation: before.center_of_rotation, ..after };
    law_rotated_stack_values::<A>(before, est.tilt_deg, mid_stack, sin, cos, i, x, y);
    assert(projection(&mid_stack, i) =~= projection(&after, i));
}

/// A rotation of the stack changes its samples and nothing else, and a
/// correction sets the center of rotation beside them to that of the estimate.
pub proof fn law_correction_keeps_the_rest<A: FloatUnit>(before: Stack, est: Estimate, rotated: Stack, after: Stack)
    requires
        stack_rotated::<A>(before, est.tilt_deg, rotated),
        corrected::<A>(before, est, after),
    ensures
        rotated == (Stack { data: rotated.data, ..before }),
        after == (Stack { data: after.data, center_of_rotation: Some(est.cor), ..before }),
        rotated.wf(),
        after.wf(),
{
}

/// How many of the first `k` angles are finite.
pub open spec fn finite_angles(angles: Seq<u64>, k: int) -> int
    decreases k,
{
    if k <= 0 {
        0
    } else {
        finite_angles(angles, k - 1) + if finite(angles[k - 1]) {
            1int
        } else {
            0int
        }
    }
}

pub proof fn lemma_carrying_counts(angles: Seq<u64>, k: int)
    requires
        0 <= k <= angles.len(),
    ensures
        carrying(angles, k).len() == finite_angles(angles, k),
        forall|j: int|
            0 <= j < carrying(angles, k).len() ==> finite_angles(angles, #[trigger] carrying(angles, k)[j]) == j,
    decreases k,
{
    if k > 0 {
        lemma_carrying_counts(angles, k - 1);
        assert forall|j: int| 0 <= j < carrying(angles, k).len() implies finite_angles(angles, #[trigger] carrying(angles, k)[j]) == j by {
            if j < carrying(angles, k - 1).len() {
                assert(carrying(angles, k)[j] == carrying(angles, k - 1)[j]);
            }
        }
    }
}

pub proof fn lemma_sinogram_value<A: FloatUnit>(
    stack: &Stack,
    row: usize,
    tilt: u64,
    sin: int,
    cos: int,
    k: int,
    x: usize,
    sino: Seq<u32>,
) -> (i: int)
    requires
        rounds_only_if_needed::<A>(),
        stack.wf(),
        row < stack.height,
        has_sine_cosine::<A>(tilt, sin, cos),
        sinogram::<A>(stack, row, tilt, sino),
        0 <= k < finite_angles(stack.angles_deg@, stack.n as int),
        x < stack.width,
        row_fits(stack, sin, cos, x as int, row as int),
    ensures
        sino.len() == finite_angles(stack.angles_deg@, stack.n as int) * stack.width,
        i == carrying(stack.angles_deg@, stack.n as int)[k],
        carries(stack.angles_deg@, stack.n as int, k, i),
        scaled32(sino[k * stack.width + x]) == turned_pixel(
            projection(stack, i),
            stack.width as int,
            stack.height as int,
            sin,
            cos,
            x as int,
            row as int,
        ),
{
    let (w, h) = (stack.width, stack.height);
    let list = carrying(stack.angles_deg@, stack.n as int);
    law_carrying_lists_the_finite_angles(stack.angles_deg@, stack.n as int);
    lemma_carrying_counts(stack.angles_deg@, stack.n as int);
    let i = list[k];
    let t = choose|t: Rotation|
        #[trigger] rotation_by::<A>(w, h, tilt, t) && sinogram_through::<A>(stack, row, t, sino);
    lemma_rotation_turns::<A>(w, h, tilt, sin, cos, t);
    let p = sino[k * w + x];
    assert(sampled_row(h, row) == row);
    assert(sinogram_sample::<A>(stack.plane_at(i), w, h, t, x, row, p));
    lemma_projection(stack, i);
    let v = choose|v: u64|
        #[trigger] resampled::<A>(stack.plane_at(i), w, h, t, x, row, v) && if finite(v) {
            call_ensures(A::narrow, (v,), p)
        } else {
            p == ieee::ZERO_32
        };
    let exact = turned_pixel(projection(stack, i), w as int, h as int, sin, cos, x as int, row as int);
    assert(turned_pixel_fits(projection(stack, i), w as int, h as int, sin, cos, x as int, row as int));
    lemma_resampled_value::<A>(stack.plane_at(i), w, h, t, sin, cos, x, row, v);
    assert(is_single(exact));
    let q = choose|q: u32| finite32(q) && #[trigger] scaled32(q) == exact;
    assert(scaled32(q) == scaled(v));
    assert(finite(stack.angles_deg@[i]));
    i
}

/// Whether `i` is the `k`-th of the first `n` projections that carry an angle,
/// counted from zero.
pub open spec fn carries(angles: Seq<u64>, n: int, k: int, i: int) -> bool {
    0 <= i < n && finite(angles[i]) && finite_angles(angles, i) == k
}

/// Whether the pixel `(x, row)` of every projection, turned back, is made of
/// doubles and is a single.
pub open spec fn row_fits(stack: &Stack, sin: int, cos: int, x: int, row: int) -> bool {
    forall|i: int|
        0 <= i < stack.n ==> turned_pixel_fits(
            #[trigger] projection(stack, i),
            stack.width as int,
            stack.height as int,
            sin,
            cos,
            x,
            row,
        ) && is_single(turned_pixel(projection(stack, i), stack.width as int, stack.height as int, sin, cos, x, row))
}

/// The sinogram of a row holds a line for each projection that carries an
/// angle, in their order: the pixels of that row as the rotation by the tilt
/// would leave them, with the angle in radians.
pub proof fn law_sinogram_values<A: FloatUnit>(
    stack: &Stack,
    row: usize,
    tilt: u64,
    sin: int,
    cos: int,
    k: int,
    x: usize,
    r: (Vec<u32>, Vec<u64>),
)
    requires
        rounds_only_if_needed::<A>(),
        stack.wf(),
        row < stack.height,
        has_sine_cosine::<A>(tilt, sin, cos),
        call_ensures(recon::extract_sinogram::<A>, (stack, row, tilt), r),
        0 <= k < r.1@.len(),
        x < stack.width,
        row_fits(stack, sin, cos, x as int, row as int),
    ensures
        r.1@.len() == finite_angles(stack.angles_deg@, stack.n as int),
        r.0@.len() == r.1@.len() * stack.width,
        exists|i: int| #[trigger]
            carries(stack.angles_deg@, stack.n as int, k, i) && call_ensures(A::radians, (stack.angles_deg@[i],), r.1@[k])
                && scaled32(r.0@[k * stack.width + x]) == turned_pixel(
                projection(stack, i),
                stack.width as int,
                stack.height as int,
                sin,
                cos,
                x as int,
                row as int,
            ),
{
    lemma_carrying_counts(stack.angles_deg@, stack.n as int);
    let i = lemma_sinogram_value::<A>(stack, row, tilt, sin, cos, k, x, r.0@);
    assert(carries(stack.angles_deg@, stack.n as int, k, i));
}

} // verus!
