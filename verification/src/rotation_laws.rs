//! What a rotation does to the samples of a projection: it makes up no value
//! beyond them, and a rotation by nothing changes none.
use crate::algorithms::stack_rotated;
use crate::ieee;
use crate::ieee::{
    at_most, clamped, finite, finite32, index_of, law_index_is_the_integer_part, law_rank_orders_the_values,
    lemma_scaled_constants, lemma_zero_is_whole, magnitude, nan, rank, rank32, scaled,
};
use crate::resample::{
    bilinear, distance, fraction, law_pixel_is_the_integer_part, lemma_pixel_in_plane, mixed, pixel_before, pixel_behind,
    resampled, rotated, rotated_pixel, rotation_by, source_point, sum4, weighted, within, Rotation,
};
use crate::stack::{lemma_plane_fits, Stack};
use crate::unit::{affine, last_place, last_place_whole, middle, neutral, product3, turns_nothing, FloatUnit};
use vstd::prelude::*;

verus! {

/// Whether a single is finite and between two places on the real line.
pub open spec fn lies_between(p: u32, lo: int, hi: int) -> bool {
    finite32(p) && lo <= rank32(p) <= hi
}

/// Whether all the samples of a plane are finite and between two places.
pub open spec fn all_between(plane: Seq<u32>, lo: int, hi: int) -> bool {
    forall|k: int| 0 <= k < plane.len() ==> lies_between(#[trigger] plane[k], lo, hi)
}

/// Whether `f` is a fraction: from zero to one.
pub open spec fn is_fraction(f: u64) -> bool {
    at_most(ieee::ZERO, f) && at_most(f, ieee::ONE)
}

/// Whether mixtures of finite samples by fractions stay between the samples.
pub open spec fn mixes_between<A: FloatUnit>() -> bool {
    forall|p00: u32, p01: u32, p10: u32, p11: u32, fx: u64, fy: u64, v: u64, p: u32, lo: int, hi: int|
        is_fraction(fx) && is_fraction(fy) && #[trigger] lies_between(p00, lo, hi) && lies_between(p01, lo, hi) && lies_between(
            p10,
            lo,
            hi,
        ) && lies_between(p11, lo, hi) && #[trigger] mixed::<A>(p00, p01, p10, p11, fx, fy, v) && #[trigger] call_ensures(
            A::narrow,
            (v,),
            p,
        ) ==> lies_between(p, lo, hi)
}

/// Whether the distance of a point behind its pixel does not round.
pub open spec fn fractions_exact<A: FloatUnit>() -> bool {
    forall|s: u64, p: usize, f: u64|
        at_most(ieee::ZERO, s) && finite(s) && index_of(s) == p < usize::MAX && #[trigger] fraction::<A>(s, p, f) ==> scaled(f)
            == scaled(s) - p * scaled(ieee::ONE)
}

/// Whether the points that the pixels of an image come from are numbers.
pub open spec fn sources_are_numbers<A: FloatUnit>(w: usize, h: usize, t: Rotation) -> bool {
    forall|x: usize, y: usize, sx: u64, sy: u64|
        x < w && y < h && #[trigger] source_point::<A>(t, w, h, x, y, sx, sy) ==> !nan(sx) && !nan(sy)
}

proof fn lemma_index_is_not_negative(b: u64)
    ensures
        index_of(b) >= 0,
{
    lemma_zero_is_whole();
    if !nan(b) && !ieee::negative(b) {
        ieee::law_index_grows_with_the_number(ieee::ZERO, b);
    }
}

/// A point that was kept within the places is a fraction behind its pixel.
proof fn lemma_fraction<A: FloatUnit>(a: u64, n: usize, s: u64, f: u64)
    requires
        n > 0,
        last_place_whole::<A>(n),
        fractions_exact::<A>(),
        within::<A>(a, n, s),
        !nan(s),
        fraction::<A>(s, pixel_before(s, n) as usize, f),
    ensures
        is_fraction(f),
{
    lemma_scaled_constants();
    let last = choose|last: u64| #[trigger] last_place::<A>(n, last) && s == clamped(a, ieee::ZERO, last);
    law_pixel_is_the_integer_part(a, last, n);
    ieee::law_clamped_points_stay_in_range(a, last);
    assert(at_most(ieee::ZERO, s));
    assert(finite(last) && finite(s));
    let k = index_of(s);
    lemma_index_is_not_negative(s);
    assert(pixel_before(s, n) == k && 0 <= k < n);
    law_index_is_the_integer_part(s);
    let u = scaled(ieee::ONE);
    assert((k + 1) * u == k * u + u) by (nonlinear_arith);
    assert(0 <= scaled(f) < u);
    law_rank_orders_the_values(ieee::ZERO, f);
    law_rank_orders_the_values(f, ieee::ONE);
}

/// A pixel of a rotated plane lies between the samples of the plane, where
/// mixtures by fractions do.
pub proof fn law_rotated_pixel_lies_between<A: FloatUnit>(
    plane: Seq<u32>,
    w: usize,
    h: usize,
    t: Rotation,
    x: usize,
    y: usize,
    p: u32,
    lo: int,
    hi: int,
)
    requires
        x < w,
        y < h,
        plane.len() == h * w,
        mixes_between::<A>(),
        fractions_exact::<A>(),
        last_place_whole::<A>(w),
        last_place_whole::<A>(h),
        sources_are_numbers::<A>(w, h, t),
        all_between(plane, lo, hi),
        rotated_pixel::<A>(plane, w, h, t, x, y, p),
    ensures
        lies_between(p, lo, hi),
{
    let v = choose|v: u64| #[trigger] resampled::<A>(plane, w, h, t, x, y, v) && call_ensures(A::narrow, (v,), p);
    let (sx, sy) = choose|sx: u64, sy: u64|
        #[trigger] source_point::<A>(t, w, h, x, y, sx, sy) && bilinear::<A>(plane, w, h, sx, sy, v);
    let (dx, dy, a, b) = choose|dx: u64, dy: u64, a: u64, b: u64|
        #[trigger] distance::<A>(x, t.cx, dx) && #[trigger] distance::<A>(y, t.cy, dy) && #[trigger] affine::<A>(
            t.cos,
            dx,
            t.sin,
            dy,
            t.cx,
            a,
        ) && #[trigger] affine::<A>(ieee::opposite(t.sin), dx, t.cos, dy, t.cy, b) && within::<A>(a, w, sx) && within::<A>(b, h, sy);
    let x0 = pixel_before(sx, w);
    let y0 = pixel_before(sy, h);
    let x1 = pixel_behind(x0, w);
    let y1 = pixel_behind(y0, h);
    let (fx, fy) = choose|fx: u64, fy: u64|
        #[trigger] fraction::<A>(sx, x0 as usize, fx) && #[trigger] fraction::<A>(sy, y0 as usize, fy) && mixed::<A>(
            plane[y0 * w + x0],
            plane[y0 * w + x1],
            plane[y1 * w + x0],
            plane[y1 * w + x1],
            fx,
            fy,
            v,
        );
    lemma_fraction::<A>(a, w, sx, fx);
    lemma_fraction::<A>(b, h, sy, fy);
    assert(0 <= x0 < w && 0 <= y0 < h) by {
        lemma_index_is_not_negative(sx);
        lemma_index_is_not_negative(sy);
    }
    lemma_pixel_in_plane(w as int, h as int, x0, y0);
    lemma_pixel_in_plane(w as int, h as int, x1, y0);
    lemma_pixel_in_plane(w as int, h as int, x0, y1);
    lemma_pixel_in_plane(w as int, h as int, x1, y1);
    assert(lies_between(plane[y0 * w + x0], lo, hi));
    assert(lies_between(plane[y0 * w + x1], lo, hi));
    assert(lies_between(plane[y1 * w + x0], lo, hi));
    assert(lies_between(plane[y1 * w + x1], lo, hi));
}

/// A rotation of the stack makes up no value: every pixel lies between the
/// samples of its own projection.
pub proof fn law_rotation_stays_between_the_samples<A: FloatUnit>(
    before: Stack,
    angle: u64,
    after: Stack,
    i: int,
    x: usize,
    y: usize,
    lo: int,
    hi: int,
)
    requires
        before.wf(),
        stack_rotated::<A>(before, angle, after),
        mixes_between::<A>(),
        fractions_exact::<A>(),
        last_place_whole::<A>(before.width),
        last_place_whole::<A>(before.height),
        forall|t: Rotation| #[trigger]
            rotation_by::<A>(before.width, before.height, angle, t) ==> sources_are_numbers::<A>(before.width, before.height, t),
        0 <= i < before.n,
        x < before.width,
        y < before.height,
        all_between(before.plane_at(i), lo, hi),
    ensures
        lies_between(after.plane_at(i)[y * before.width + x], lo, hi),
{
    let (w, h) = (before.width, before.height);
    let t = choose|t: Rotation|
        #[trigger] rotation_by::<A>(w, h, angle, t) && (forall|i: int|
            0 <= i < before.n ==> rotated::<A>(before.plane_at(i), w, h, t, #[trigger] after.plane_at(i)));
    let plane = before.plane_at(i);
    assert(rotated::<A>(plane, w, h, t, after.plane_at(i)));
    lemma_plane_fits(&before, i as usize);
    let p = after.plane_at(i)[y * w + x];
    assert(rotated_pixel::<A>(plane, w, h, t, x, y, p));
    law_rotated_pixel_lies_between::<A>(plane, w, h, t, x, y, p, lo, hi);
}

/// Whether going from a place of `n` to the distance from the middle and back
/// does not round, and the places are the numbers that they should be.
pub open spec fn places_exact<A: FloatUnit>(n: usize) -> bool {
    &&& forall|x: usize, v: u64|
        x < n && #[trigger] call_ensures(A::count, (x,), v) ==> finite(v) && at_most(ieee::ZERO, v) && index_of(v) == x
    &&& forall|x: usize, v: u64, last: u64|
        x < n && #[trigger] call_ensures(A::count, (x,), v) && #[trigger] last_place::<A>(n, last) ==> at_most(v, last)
    &&& forall|x: usize, c: u64, d: u64| x < n && #[trigger] middle::<A>(n, c) && #[trigger] distance::<A>(x, c, d) ==> finite(d)
    &&& forall|x: usize, c: u64, d: u64, e: u64, r: u64, v: u64|
        x < n && #[trigger] middle::<A>(n, c) && #[trigger] distance::<A>(x, c, d) && rank(e) == rank(d) && #[trigger] call_ensures(
            A::plus,
            (e, c),
            r,
        ) && #[trigger] call_ensures(A::count, (x,), v) ==> rank(r) == rank(v)
}

/// A place that nothing turned comes from itself.
proof fn lemma_place_stays<A: FloatUnit>(n: usize, x: usize, c: u64, d: u64, e: u64, r: u64, s: u64)
    requires
        places_exact::<A>(n),
        x < n,
        middle::<A>(n, c),
        distance::<A>(x, c, d),
        rank(e) == rank(d),
        call_ensures(A::plus, (e, c), r),
        within::<A>(r, n, s),
    ensures
        pixel_before(s, n) == x,
        finite(s),
        forall|v: u64| #[trigger] call_ensures(A::count, (x,), v) ==> rank(s) == rank(v),
{
    lemma_zero_is_whole();
    let v = choose|v: u64| #[trigger] call_ensures(A::count, (x,), v) && call_ensures(A::minus, (v, c), d);
    let last = choose|last: u64| #[trigger] last_place::<A>(n, last) && s == clamped(r, ieee::ZERO, last);
    assert(rank(r) == rank(v));
    assert(at_most(ieee::ZERO, v) && at_most(v, last));
    assert(s == r);
    assert(index_of(s) == index_of(v));
}

proof fn lemma_zero_weight<A: FloatUnit>(p: u32, fx: u64, fy: u64, t: u64)
    requires
        neutral::<A>(),
        finite32(p),
        finite(fx),
        finite(fy),
        magnitude(fx) == 0 || magnitude(fy) == 0,
        fx == ieee::ONE || magnitude(fx) == 0,
        weighted::<A>(p, fx, fy, t),
    ensures
        magnitude(t) == 0,
{
    let v = choose|v: u64| #[trigger] call_ensures(A::widen, (p,), v) && product3::<A>(v, fx, fy, t);
    let q = choose|q: u64| #[trigger] call_ensures(A::times, (v, fx), q) && call_ensures(A::times, (q, fy), t);
}

/// A mixture by fractions of zero is the first of the samples.
proof fn lemma_unmixed<A: FloatUnit>(p00: u32, p01: u32, p10: u32, p11: u32, fx: u64, fy: u64, v: u64, p: u32)
    requires
        neutral::<A>(),
        finite32(p00),
        finite32(p01),
        finite32(p10),
        finite32(p11),
        magnitude(fx) == 0,
        magnitude(fy) == 0,
        mixed::<A>(p00, p01, p10, p11, fx, fy, v),
        call_ensures(A::narrow, (v,), p),
    ensures
        rank32(p) == rank32(p00),
{
    let (gx, gy, t00, t01, t10, t11) = choose|gx: u64, gy: u64, t00: u64, t01: u64, t10: u64, t11: u64|
        call_ensures(A::minus, (ieee::ONE, fx), gx) && call_ensures(A::minus, (ieee::ONE, fy), gy) && #[trigger] weighted::<A>(
            p00,
            gx,
            gy,
            t00,
        ) && #[trigger] weighted::<A>(p01, fx, gy, t01) && #[trigger] weighted::<A>(p10, gx, fy, t10)
            && #[trigger] weighted::<A>(p11, fx, fy, t11) && sum4::<A>(t00, t01, t10, t11, v);
    assert(gx == ieee::ONE && gy == ieee::ONE);
    lemma_zero_weight::<A>(p01, fx, gy, t01);
    lemma_zero_weight::<A>(p10, gx, fy, t10);
    lemma_zero_weight::<A>(p11, fx, fy, t11);
    let wide = choose|wide: u64| #[trigger] call_ensures(A::widen, (p00,), wide) && product3::<A>(wide, gx, gy, t00);
    let q = choose|q: u64| #[trigger] call_ensures(A::times, (wide, gx), q) && call_ensures(A::times, (q, gy), t00);
    assert(q == wide && t00 == wide);
    let (a, b) = choose|a: u64, b: u64|
        #[trigger] call_ensures(A::plus, (t00, t01), a) && #[trigger] call_ensures(A::plus, (a, t10), b) && call_ensures(
            A::plus,
            (b, t11),
            v,
        );
    assert(rank(a) == rank(wide) && finite(a));
    assert(rank(b) == rank(wide) && finite(b));
    assert(rank(v) == rank(wide));
}

/// A rotation with the sine zero and the cosine one changes no pixel of a
/// finite plane, as a number. (A negative zero may become a zero.)
pub proof fn law_unturned_pixels_stay<A: FloatUnit>(plane: Seq<u32>, w: usize, h: usize, t: Rotation, x: usize, y: usize, p: u32)
    requires
        x < w,
        y < h,
        plane.len() == h * w,
        forall|k: int| 0 <= k < plane.len() ==> finite32(#[trigger] plane[k]),
        neutral::<A>(),
        places_exact::<A>(w),
        places_exact::<A>(h),
        (t.sin, t.cos) == (ieee::ZERO, ieee::ONE),
        middle::<A>(w, t.cx),
        middle::<A>(h, t.cy),
        rotated_pixel::<A>(plane, w, h, t, x, y, p),
    ensures
        rank32(p) == rank32(plane[y * w + x]),
{
    let v = choose|v: u64| #[trigger] resampled::<A>(plane, w, h, t, x, y, v) && call_ensures(A::narrow, (v,), p);
    let (sx, sy) = choose|sx: u64, sy: u64|
        #[trigger] source_point::<A>(t, w, h, x, y, sx, sy) && bilinear::<A>(plane, w, h, sx, sy, v);
    let (dx, dy, a, b) = choose|dx: u64, dy: u64, a: u64, b: u64|
        #[trigger] distance::<A>(x, t.cx, dx) && #[trigger] distance::<A>(y, t.cy, dy) && #[trigger] affine::<A>(
            t.cos,
            dx,
            t.sin,
            dy,
            t.cx,
            a,
        ) && #[trigger] affine::<A>(ieee::opposite(t.sin), dx, t.cos, dy, t.cy, b) && within::<A>(a, w, sx) && within::<A>(b, h, sy);
    assert(finite(dx) && finite(dy));
    let (p1, q1, e) = choose|p1: u64, q1: u64, e: u64|
        #[trigger] call_ensures(A::times, (t.cos, dx), p1) && #[trigger] call_ensures(A::times, (t.sin, dy), q1)
            && #[trigger] call_ensures(A::plus, (p1, q1), e) && call_ensures(A::plus, (e, t.cx), a);
    assert(p1 == dx && magnitude(q1) == 0 && rank(e) == rank(dx));
    lemma_place_stays::<A>(w, x, t.cx, dx, e, a, sx);
    let minus_sin = ieee::opposite(t.sin);
    assert(magnitude(minus_sin) == 0);
    let (p2, q2, g) = choose|p2: u64, q2: u64, g: u64|
        #[trigger] call_ensures(A::times, (minus_sin, dx), p2) && #[trigger] call_ensures(A::times, (t.cos, dy), q2)
            && #[trigger] call_ensures(A::plus, (p2, q2), g) && call_ensures(A::plus, (g, t.cy), b);
    assert(magnitude(p2) == 0 && q2 == dy && rank(g) == rank(dy));
    lemma_place_stays::<A>(h, y, t.cy, dy, g, b, sy);
    let x1 = pixel_behind(x as int, w);
    let y1 = pixel_behind(y as int, h);
    let (fx, fy) = choose|fx: u64, fy: u64|
        #[trigger] fraction::<A>(sx, x, fx) && #[trigger] fraction::<A>(sy, y, fy) && mixed::<A>(
            plane[y * w + x],
            plane[y * w + x1],
            plane[y1 * w + x],
            plane[y1 * w + x1],
            fx,
            fy,
            v,
        );
    assert(magnitude(fx) == 0 && magnitude(fy) == 0);
    lemma_pixel_in_plane(w as int, h as int, x as int, y as int);
    lemma_pixel_in_plane(w as int, h as int, x1, y as int);
    lemma_pixel_in_plane(w as int, h as int, x as int, y1);
    lemma_pixel_in_plane(w as int, h as int, x1, y1);
    lemma_unmixed::<A>(
        plane[y * w + x],
        plane[y * w + x1],
        plane[y1 * w + x],
        plane[y1 * w + x1],
        fx,
        fy,
        v,
        p,
    );
}

/// A rotation by zero changes no pixel of a finite projection, as a number.
pub proof fn law_rotation_by_zero_changes_nothing<A: FloatUnit>(before: Stack, after: Stack, i: int, x: usize, y: usize)
    requires
        before.wf(),
        stack_rotated::<A>(before, ieee::ZERO, after),
        neutral::<A>(),
        turns_nothing::<A>(),
        places_exact::<A>(before.width),
        places_exact::<A>(before.height),
        0 <= i < before.n,
        x < before.width,
        y < before.height,
        forall|k: int| 0 <= k < before.plane_at(i).len() ==> finite32(#[trigger] before.plane_at(i)[k]),
    ensures
        rank32(after.plane_at(i)[y * before.width + x]) == rank32(before.plane_at(i)[y * before.width + x]),
{
    let (w, h) = (before.width, before.height);
    let t = choose|t: Rotation|
        #[trigger] rotation_by::<A>(w, h, ieee::ZERO, t) && (forall|i: int|
            0 <= i < before.n ==> rotated::<A>(before.plane_at(i), w, h, t, #[trigger] after.plane_at(i)));
    let plane = before.plane_at(i);
    let rad = choose|rad: u64|
        #[trigger] call_ensures(A::radians, (ieee::ZERO,), rad) && call_ensures(A::sine_cosine, (rad,), (t.sin, t.cos));
    assert(rad == ieee::ZERO);
    assert(rotated::<A>(plane, w, h, t, after.plane_at(i)));
    lemma_plane_fits(&before, i as usize);
    let p = after.plane_at(i)[y * w + x];
    assert(rotated_pixel::<A>(plane, w, h, t, x, y, p));
    law_unturned_pixels_stay::<A>(plane, w, h, t, x, y, p);
}

} // verus!
