//! What holds of the sampling through a rotation as a whole: the row that is
//! extracted for a test slice is the row that the correction leaves in the
//! stack.
use crate::correction::corrected;
use crate::fit::Estimate;
use crate::ieee;
use crate::ieee::finite;
use crate::recon::{carrying, law_carrying_lists_the_finite_angles, sampled_row, sinogram, sinogram_sample, sinogram_through};
use crate::repeat_laws::lemma_places_repeat;
use crate::resample::{
    bilinear, distance, fraction, mixed, pixel_before, pixel_behind, resampled, rotated, rotated_pixel,
    rotation_by, source_point, sum4, weighted, within, Rotation,
};
use crate::stack::Stack;
use crate::unit::{affine, last_place, product3, repeats, FloatUnit};
use vstd::prelude::*;

verus! {

proof fn lemma_rotation_repeats<A: FloatUnit>(w: usize, h: usize, angle: u64, t: Rotation, u: Rotation)
    requires
        repeats::<A>(),
        rotation_by::<A>(w, h, angle, t),
        rotation_by::<A>(w, h, angle, u),
    ensures
        t == u,
{
    lemma_places_repeat::<A>(w, t.cx, u.cx);
    lemma_places_repeat::<A>(h, t.cy, u.cy);
    let a = choose|rad: u64|
        #[trigger] call_ensures(A::radians, (angle,), rad) && call_ensures(A::sine_cosine, (rad,), (t.sin, t.cos));
    let b = choose|rad: u64|
        #[trigger] call_ensures(A::radians, (angle,), rad) && call_ensures(A::sine_cosine, (rad,), (u.sin, u.cos));
    assert(a == b);
    assert((t.sin, t.cos) == (u.sin, u.cos));
}

proof fn lemma_affine_repeats<A: FloatUnit>(a: u64, b: u64, c: u64, d: u64, e: u64, r: u64, s: u64)
    requires
        repeats::<A>(),
        affine::<A>(a, b, c, d, e, r),
        affine::<A>(a, b, c, d, e, s),
    ensures
        r == s,
{
}

proof fn lemma_within_repeats<A: FloatUnit>(a: u64, n: usize, r: u64, s: u64)
    requires
        repeats::<A>(),
        within::<A>(a, n, r),
        within::<A>(a, n, s),
    ensures
        r == s,
{
    let p = choose|last: u64| #[trigger] last_place::<A>(n, last) && r == ieee::clamped(a, ieee::ZERO, last);
    let q = choose|last: u64| #[trigger] last_place::<A>(n, last) && s == ieee::clamped(a, ieee::ZERO, last);
    lemma_places_repeat::<A>(n, p, q);
}

proof fn lemma_source_repeats<A: FloatUnit>(t: Rotation, w: usize, h: usize, x: usize, y: usize, p: (u64, u64), q: (u64, u64))
    requires
        repeats::<A>(),
        source_point::<A>(t, w, h, x, y, p.0, p.1),
        source_point::<A>(t, w, h, x, y, q.0, q.1),
    ensures
        p == q,
{
    let minus_sin = ieee::opposite(t.sin);
    let (dx, dy, a, b) = choose|dx: u64, dy: u64, a: u64, b: u64|
        #[trigger] distance::<A>(x, t.cx, dx) && #[trigger] distance::<A>(y, t.cy, dy) && #[trigger] affine::<A>(
            t.cos,
            dx,
            t.sin,
            dy,
            t.cx,
            a,
        ) && #[trigger] affine::<A>(ieee::opposite(t.sin), dx, t.cos, dy, t.cy, b) && within::<A>(a, w, p.0) && within::<A>(
            b,
            h,
            p.1,
        );
    let (ex, ey, c, d) = choose|dx: u64, dy: u64, a: u64, b: u64|
        #[trigger] distance::<A>(x, t.cx, dx) && #[trigger] distance::<A>(y, t.cy, dy) && #[trigger] affine::<A>(
            t.cos,
            dx,
            t.sin,
            dy,
            t.cx,
            a,
        ) && #[trigger] affine::<A>(ieee::opposite(t.sin), dx, t.cos, dy, t.cy, b) && within::<A>(a, w, q.0) && within::<A>(
            b,
            h,
            q.1,
        );
    assert(dx == ex && dy == ey);
    lemma_affine_repeats::<A>(t.cos, dx, t.sin, dy, t.cx, a, c);
    lemma_affine_repeats::<A>(minus_sin, dx, t.cos, dy, t.cy, b, d);
    lemma_within_repeats::<A>(a, w, p.0, q.0);
    lemma_within_repeats::<A>(b, h, p.1, q.1);
}

proof fn lemma_weighted_repeats<A: FloatUnit>(p: u32, fx: u64, fy: u64, r: u64, s: u64)
    requires
        repeats::<A>(),
        weighted::<A>(p, fx, fy, r),
        weighted::<A>(p, fx, fy, s),
    ensures
        r == s,
{
    let v = choose|v: u64| #[trigger] call_ensures(A::widen, (p,), v) && product3::<A>(v, fx, fy, r);
    let u = choose|v: u64| #[trigger] call_ensures(A::widen, (p,), v) && product3::<A>(v, fx, fy, s);
    assert(v == u);
}

proof fn lemma_sum_repeats<A: FloatUnit>(a: u64, b: u64, c: u64, d: u64, r: u64, s: u64)
    requires
        repeats::<A>(),
        sum4::<A>(a, b, c, d, r),
        sum4::<A>(a, b, c, d, s),
    ensures
        r == s,
{
}

proof fn lemma_mixed_repeats<A: FloatUnit>(p00: u32, p01: u32, p10: u32, p11: u32, fx: u64, fy: u64, r: u64, s: u64)
    requires
        repeats::<A>(),
        mixed::<A>(p00, p01, p10, p11, fx, fy, r),
        mixed::<A>(p00, p01, p10, p11, fx, fy, s),
    ensures
        r == s,
{
    let (gx, gy, a, b, c, d) = choose|gx: u64, gy: u64, t00: u64, t01: u64, t10: u64, t11: u64|
        call_ensures(A::minus, (ieee::ONE, fx), gx) && call_ensures(A::minus, (ieee::ONE, fy), gy) && #[trigger] weighted::<A>(
            p00,
            gx,
            gy,
            t00,
        ) && #[trigger] weighted::<A>(p01, fx, gy, t01) && #[trigger] weighted::<A>(p10, gx, fy, t10)
            && #[trigger] weighted::<A>(p11, fx, fy, t11) && sum4::<A>(t00, t01, t10, t11, r);
    let (kx, ky, e, f, g, h) = choose|gx: u64, gy: u64, t00: u64, t01: u64, t10: u64, t11: u64|
        call_ensures(A::minus, (ieee::ONE, fx), gx) && call_ensures(A::minus, (ieee::ONE, fy), gy) && #[trigger] weighted::<A>(
            p00,
            gx,
            gy,
            t00,
        ) && #[trigger] weighted::<A>(p01, fx, gy, t01) && #[trigger] weighted::<A>(p10, gx, fy, t10)
            && #[trigger] weighted::<A>(p11, fx, fy, t11) && sum4::<A>(t00, t01, t10, t11, s);
    assert(gx == kx && gy == ky);
    lemma_weighted_repeats::<A>(p00, gx, gy, a, e);
    lemma_weighted_repeats::<A>(p01, fx, gy, b, f);
    lemma_weighted_repeats::<A>(p10, gx, fy, c, g);
    lemma_weighted_repeats::<A>(p11, fx, fy, d, h);
    lemma_sum_repeats::<A>(a, b, c, d, r, s);
}

proof fn lemma_bilinear_repeats<A: FloatUnit>(plane: Seq<u32>, w: usize, h: usize, sx: u64, sy: u64, r: u64, s: u64)
    requires
        repeats::<A>(),
        bilinear::<A>(plane, w, h, sx, sy, r),
        bilinear::<A>(plane, w, h, sx, sy, s),
    ensures
        r == s,
{
    let x0 = pixel_before(sx, w);
    let y0 = pixel_before(sy, h);
    let x1 = pixel_behind(x0, w);
    let y1 = pixel_behind(y0, h);
    let (p00, p01, p10, p11) = (plane[y0 * w + x0], plane[y0 * w + x1], plane[y1 * w + x0], plane[y1 * w + x1]);
    let (fx, fy) = choose|fx: u64, fy: u64|
        #[trigger] fraction::<A>(sx, x0 as usize, fx) && #[trigger] fraction::<A>(sy, y0 as usize, fy) && mixed::<A>(
            p00,
            p01,
            p10,
            p11,
            fx,
            fy,
            r,
        );
    let (gx, gy) = choose|fx: u64, fy: u64|
        #[trigger] fraction::<A>(sx, x0 as usize, fx) && #[trigger] fraction::<A>(sy, y0 as usize, fy) && mixed::<A>(
            p00,
            p01,
            p10,
            p11,
            fx,
            fy,
            s,
        );
    assert(fx == gx && fy == gy);
    lemma_mixed_repeats::<A>(p00, p01, p10, p11, fx, fy, r, s);
}

/// Sampling repeats with the unit: a pixel of the rotated image has one value.
pub proof fn law_resampling_repeats<A: FloatUnit>(plane: Seq<u32>, w: usize, h: usize, t: Rotation, x: usize, y: usize, r: u64, s: u64)
    requires
        repeats::<A>(),
        resampled::<A>(plane, w, h, t, x, y, r),
        resampled::<A>(plane, w, h, t, x, y, s),
    ensures
        r == s,
{
    let p = choose|sx: u64, sy: u64|
        #[trigger] source_point::<A>(t, w, h, x, y, sx, sy) && bilinear::<A>(plane, w, h, sx, sy, r);
    let q = choose|sx: u64, sy: u64|
        #[trigger] source_point::<A>(t, w, h, x, y, sx, sy) && bilinear::<A>(plane, w, h, sx, sy, s);
    lemma_source_repeats::<A>(t, w, h, x, y, p, q);
    lemma_bilinear_repeats::<A>(plane, w, h, p.0, p.1, r, s);
}

/// The row that is extracted with the tilt of an estimate is the row of the
/// stack as the correction by that estimate leaves it: sample by sample, but
/// for those that are not finite, which are zero.
pub proof fn law_extracted_row_is_the_corrected_row<A: FloatUnit>(
    before: Stack,
    est: Estimate,
    after: Stack,
    row: usize,
    sino: Seq<u32>,
    k: int,
    x: usize,
)
    requires
        repeats::<A>(),
        before.wf(),
        corrected::<A>(before, est, after),
        sinogram::<A>(&before, row, est.tilt_deg, sino),
        0 <= k < carrying(before.angles_deg@, before.n as int).len(),
        x < before.width,
    ensures
        ({
            let i = carrying(before.angles_deg@, before.n as int)[k];
            let (w, h) = (before.width, before.height);
            let y = sampled_row(h, row);
            let p = sino[k * w + x];
            ||| p == after.plane_at(i)[y * w + x]
            ||| p == ieee::ZERO_32 && exists|t: Rotation, v: u64| #[trigger]
                rotation_by::<A>(w, h, est.tilt_deg, t) && #[trigger] resampled::<A>(before.plane_at(i), w, h, t, x, y, v)
                    && !finite(v)
        }),
{
    let list = carrying(before.angles_deg@, before.n as int);
    law_carrying_lists_the_finite_angles(before.angles_deg@, before.n as int);
    let i = list[k];
    let (w, h) = (before.width, before.height);
    let y = sampled_row(h, row);
    let p = sino[k * w + x];
    let mid = Stack { center_of_rotation: before.center_of_rotation, ..after };
    let t = choose|t: Rotation|
        #[trigger] rotation_by::<A>(w, h, est.tilt_deg, t) && (forall|i: int|
            0 <= i < before.n ==> rotated::<A>(before.plane_at(i), w, h, t, #[trigger] mid.plane_at(i)));
    let u = choose|u: Rotation|
        #[trigger] rotation_by::<A>(w, h, est.tilt_deg, u) && sinogram_through::<A>(&before, row, u, sino);
    lemma_rotation_repeats::<A>(w, h, est.tilt_deg, t, u);
    assert(rotated::<A>(before.plane_at(i), w, h, t, mid.plane_at(i)));
    assert(mid.plane_at(i) == after.plane_at(i));
    assert(rotated_pixel::<A>(before.plane_at(i), w, h, t, x, y, after.plane_at(i)[y * w + x]));
    assert(sinogram_sample::<A>(before.plane_at(i), w, h, t, x, y, p));
    let v = choose|v: u64|
        #[trigger] resampled::<A>(before.plane_at(i), w, h, t, x, y, v) && if finite(v) {
            call_ensures(A::narrow, (v,), p)
        } else {
            p == ieee::ZERO_32
        };
    let q = choose|q: u64|
        #[trigger] resampled::<A>(before.plane_at(i), w, h, t, x, y, q) && call_ensures(
            A::narrow,
            (q,),
            after.plane_at(i)[y * w + x],
        );
    law_resampling_repeats::<A>(before.plane_at(i), w, h, t, x, y, v, q);
}

} // verus!
