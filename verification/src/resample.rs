//! Sampling a projection through a rotation about its center: bilinear,
//! edge-clamped.
use crate::ieee;
use crate::ieee::{clamped, index_of, opposite};
use crate::unit;
use crate::unit::{affine, last_place, middle, product3, FloatUnit};
use vstd::prelude::*;

verus! {

/// A rotation of an image: the sine and cosine of its angle and the center it
/// is about.
#[derive(Clone, Copy, Debug, PartialEq, Eq, Structural)]
pub struct Rotation {
    pub sin: u64,
    pub cos: u64,
    pub cx: u64,
    pub cy: u64,
}

/// `t` is the rotation by `angle` (degrees) about the center of a `w` by `h`
/// image.
pub open spec fn rotation_by<A: FloatUnit>(w: usize, h: usize, angle: u64, t: Rotation) -> bool {
    &&& exists|rad: u64|
        #[trigger] call_ensures(A::radians, (angle,), rad) && call_ensures(A::sine_cosine, (rad,), (t.sin, t.cos))
    &&& middle::<A>(w, t.cx)
    &&& middle::<A>(h, t.cy)
}

/// `d` is the distance of place `x` from `c`.
pub open spec fn distance<A: FloatUnit>(x: usize, c: u64, d: u64) -> bool {
    exists|v: u64| #[trigger] call_ensures(A::count, (x,), v) && call_ensures(A::minus, (v, c), d)
}

/// `s` is `a` kept within the places of `n`.
pub open spec fn within<A: FloatUnit>(a: u64, n: usize, s: u64) -> bool {
    exists|last: u64| #[trigger] last_place::<A>(n, last) && s == clamped(a, ieee::ZERO, last)
}

/// `(sx, sy)` is where pixel `(x, y)` comes from: the inverse-rotated pixel,
/// kept within the image.
pub open spec fn source_point<A: FloatUnit>(t: Rotation, w: usize, h: usize, x: usize, y: usize, sx: u64, sy: u64) -> bool {
    exists|dx: u64, dy: u64, a: u64, b: u64|
        #[trigger] distance::<A>(x, t.cx, dx) && #[trigger] distance::<A>(y, t.cy, dy) && #[trigger] affine::<A>(
            t.cos,
            dx,
            t.sin,
            dy,
            t.cx,
            a,
        ) && #[trigger] affine::<A>(opposite(t.sin), dx, t.cos, dy, t.cy, b) && within::<A>(a, w, sx) && within::<A>(b, h, sy)
}

/// The pixel at or before `s`, of `n`.
pub open spec fn pixel_before(s: u64, n: usize) -> int {
    if index_of(s) < n {
        index_of(s)
    } else {
        n - 1
    }
}

/// The pixel behind `p`, of `n`; the last one has none and stands in for it.
pub open spec fn pixel_behind(p: int, n: usize) -> int {
    if p + 1 < n {
        p + 1
    } else {
        n - 1
    }
}

/// `t` is what the sample `p` adds with the weights `fx` and `fy`.
pub open spec fn weighted<A: FloatUnit>(p: u32, fx: u64, fy: u64, t: u64) -> bool {
    exists|v: u64| #[trigger] call_ensures(A::widen, (p,), v) && product3::<A>(v, fx, fy, t)
}

/// `v` is `a + b + c + d`, added from the left.
pub open spec fn sum4<A: FloatUnit>(a: u64, b: u64, c: u64, d: u64, v: u64) -> bool {
    exists|p: u64, q: u64|
        #[trigger] call_ensures(A::plus, (a, b), p) && #[trigger] call_ensures(A::plus, (p, c), q) && call_ensures(
            A::plus,
            (q, d),
            v,
        )
}

/// `v` mixes the four samples by the fractions `fx` and `fy` towards the
/// right and lower ones.
pub open spec fn mixed<A: FloatUnit>(p00: u32, p01: u32, p10: u32, p11: u32, fx: u64, fy: u64, v: u64) -> bool {
    exists|gx: u64, gy: u64, t00: u64, t01: u64, t10: u64, t11: u64|
        call_ensures(A::minus, (ieee::ONE, fx), gx) && call_ensures(A::minus, (ieee::ONE, fy), gy) && #[trigger] weighted::<A>(
            p00,
            gx,
            gy,
            t00,
        ) && #[trigger] weighted::<A>(p01, fx, gy, t01) && #[trigger] weighted::<A>(p10, gx, fy, t10)
            && #[trigger] weighted::<A>(p11, fx, fy, t11) && sum4::<A>(t00, t01, t10, t11, v)
}

/// `v` is the bilinear sample of the image at `(sx, sy)`.
pub open spec fn bilinear<A: FloatUnit>(plane: Seq<u32>, w: usize, h: usize, sx: u64, sy: u64, v: u64) -> bool {
    let x0 = pixel_before(sx, w);
    let y0 = pixel_before(sy, h);
    let x1 = pixel_behind(x0, w);
    let y1 = pixel_behind(y0, h);
    exists|fx: u64, fy: u64|
        #[trigger] fraction::<A>(sx, x0 as usize, fx) && #[trigger] fraction::<A>(sy, y0 as usize, fy) && mixed::<A>(
            plane[y0 * w + x0],
            plane[y0 * w + x1],
            plane[y1 * w + x0],
            plane[y1 * w + x1],
            fx,
            fy,
            v,
        )
}

/// `f` is how far `s` is behind pixel `p`.
pub open spec fn fraction<A: FloatUnit>(s: u64, p: usize, f: u64) -> bool {
    exists|c: u64| #[trigger] call_ensures(A::count, (p,), c) && call_ensures(A::minus, (s, c), f)
}

/// `v` is what pixel `(x, y)` of the rotated image holds.
pub open spec fn resampled<A: FloatUnit>(plane: Seq<u32>, w: usize, h: usize, t: Rotation, x: usize, y: usize, v: u64) -> bool {
    exists|sx: u64, sy: u64|
        #[trigger] source_point::<A>(t, w, h, x, y, sx, sy) && bilinear::<A>(plane, w, h, sx, sy, v)
}

/// The rotation by `angle` about the center of a `w` by `h` image.
pub fn rotation<A: FloatUnit>(w: usize, h: usize, angle: u64) -> (t: Rotation)
    ensures
        rotation_by::<A>(w, h, angle, t),
{
    let rad: u64 = A::radians(angle);
    let (sin, cos) = A::sine_cosine(rad);
    Rotation { sin, cos, cx: unit::middle_of::<A>(w), cy: unit::middle_of::<A>(h) }
}

fn distance_of<A: FloatUnit>(x: usize, c: u64) -> (d: u64)
    ensures
        distance::<A>(x, c, d),
{
    A::minus(A::count(x), c)
}

fn keep_within<A: FloatUnit>(a: u64, n: usize) -> (s: u64)
    ensures
        within::<A>(a, n, s),
{
    let last: u64 = unit::last_place_of::<A>(n);
    ieee::clamp(a, ieee::ZERO, last)
}

fn source_of<A: FloatUnit>(t: &Rotation, w: usize, h: usize, x: usize, y: usize) -> (r: (u64, u64))
    ensures
        source_point::<A>(*t, w, h, x, y, r.0, r.1),
{
    let dx: u64 = distance_of::<A>(x, t.cx);
    let dy: u64 = distance_of::<A>(y, t.cy);
    let a: u64 = unit::affine_of::<A>(t.cos, dx, t.sin, dy, t.cx);
    let b: u64 = unit::affine_of::<A>(ieee::negate(t.sin), dx, t.cos, dy, t.cy);
    (keep_within::<A>(a, w), keep_within::<A>(b, h))
}

fn weigh<A: FloatUnit>(p: u32, fx: u64, fy: u64) -> (t: u64)
    ensures
        weighted::<A>(p, fx, fy, t),
{
    let v: u64 = A::widen(p);
    unit::product3_of::<A>(v, fx, fy)
}

fn add4<A: FloatUnit>(a: u64, b: u64, c: u64, d: u64) -> (v: u64)
    ensures
        sum4::<A>(a, b, c, d, v),
{
    let p: u64 = A::plus(a, b);
    let q: u64 = A::plus(p, c);
    A::plus(q, d)
}

fn mix<A: FloatUnit>(p00: u32, p01: u32, p10: u32, p11: u32, fx: u64, fy: u64) -> (v: u64)
    ensures
        mixed::<A>(p00, p01, p10, p11, fx, fy, v),
{
    let gx: u64 = A::minus(ieee::ONE, fx);
    let gy: u64 = A::minus(ieee::ONE, fy);
    let t00: u64 = weigh::<A>(p00, gx, gy);
    let t01: u64 = weigh::<A>(p01, fx, gy);
    let t10: u64 = weigh::<A>(p10, gx, fy);
    let t11: u64 = weigh::<A>(p11, fx, fy);
    add4::<A>(t00, t01, t10, t11)
}

fn fraction_of<A: FloatUnit>(s: u64, p: usize) -> (f: u64)
    ensures
        fraction::<A>(s, p, f),
{
    let c: u64 = A::count(p);
    A::minus(s, c)
}

fn pixel_of(s: u64, n: usize) -> (p: usize)
    requires
        n > 0,
    ensures
        p == pixel_before(s, n),
        p < n,
{
    let i: usize = ieee::to_index(s);
    if i < n {
        i
    } else {
        n - 1
    }
}

/// Where the last place is the number that it should be, the pixel at or before
/// a point that was kept within the places is the integer part of the point.
pub proof fn law_pixel_is_the_integer_part(a: u64, last: u64, n: usize)
    requires
        ieee::at_most(ieee::ZERO, last),
        index_of(last) == n - 1,
    ensures
        pixel_before(clamped(a, ieee::ZERO, last), n) == index_of(clamped(a, ieee::ZERO, last)),
{
    ieee::law_clamped_points_stay_in_range(a, last);
}

/// Pixel `(x, y)` of a `w` by `h` image lies in its plane.
pub proof fn lemma_pixel_in_plane(w: int, h: int, x: int, y: int)
    requires
        0 <= x < w,
        0 <= y < h,
    ensures
        0 <= y * w,
        0 <= y * w + x < h * w,
        y * w + w <= h * w,
{
    assert(0 <= y * w && y * w + w <= h * w) by (nonlinear_arith)
        requires
            0 <= y < h,
            0 <= w,
    ;
}

fn interpolate<A: FloatUnit>(plane: &[u32], w: usize, h: usize, sx: u64, sy: u64) -> (v: u64)
    requires
        w > 0,
        h > 0,
        plane@.len() == h * w,
    ensures
        bilinear::<A>(plane@, w, h, sx, sy, v),
{
    let x0: usize = pixel_of(sx, w);
    let y0: usize = pixel_of(sy, h);
    let x1: usize = if x0 + 1 < w {
        x0 + 1
    } else {
        w - 1
    };
    let y1: usize = if y0 + 1 < h {
        y0 + 1
    } else {
        h - 1
    };
    let fx: u64 = fraction_of::<A>(sx, x0);
    let fy: u64 = fraction_of::<A>(sy, y0);
    proof {
        assert(plane@.len() == plane.len());
        lemma_pixel_in_plane(w as int, h as int, x0 as int, y0 as int);
        lemma_pixel_in_plane(w as int, h as int, x1 as int, y0 as int);
        lemma_pixel_in_plane(w as int, h as int, x0 as int, y1 as int);
        lemma_pixel_in_plane(w as int, h as int, x1 as int, y1 as int);
    }
    let v: u64 = mix::<A>(plane[y0 * w + x0], plane[y0 * w + x1], plane[y1 * w + x0], plane[y1 * w + x1], fx, fy);
    proof {
        let (p, q) = (pixel_before(sx, w), pixel_before(sy, h));
        assert(p as usize == x0 && q as usize == y0);
        assert(fraction::<A>(sx, p as usize, fx) && fraction::<A>(sy, q as usize, fy));
        assert(pixel_behind(p, w) == x1 && pixel_behind(q, h) == y1);
        assert(mixed::<A>(
            plane@[q * w + p],
            plane@[q * w + pixel_behind(p, w)],
            plane@[pixel_behind(q, h) * w + p],
            plane@[pixel_behind(q, h) * w + pixel_behind(p, w)],
            fx,
            fy,
            v,
        ));
    }
    v
}

/// Pixel `(x, y)` of the rotated image.
pub fn resample<A: FloatUnit>(plane: &[u32], w: usize, h: usize, t: &Rotation, x: usize, y: usize) -> (v: u64)
    requires
        w > 0,
        h > 0,
        plane@.len() == h * w,
    ensures
        resampled::<A>(plane@, w, h, *t, x, y, v),
{
    let (sx, sy) = source_of::<A>(t, w, h, x, y);
    interpolate::<A>(plane, w, h, sx, sy)
}

/// `out` is the plane rotated: every pixel resampled and rounded to a single.
pub open spec fn rotated<A: FloatUnit>(plane: Seq<u32>, w: usize, h: usize, t: Rotation, out: Seq<u32>) -> bool {
    &&& out.len() == h * w
    &&& forall|x: usize, y: usize| x < w && y < h ==> #[trigger] rotated_pixel::<A>(plane, w, h, t, x, y, out[y * w + x])
}

/// `p` is the single that pixel `(x, y)` of the rotated image is stored as.
pub open spec fn rotated_pixel<A: FloatUnit>(plane: Seq<u32>, w: usize, h: usize, t: Rotation, x: usize, y: usize, p: u32) -> bool {
    exists|v: u64| #[trigger] resampled::<A>(plane, w, h, t, x, y, v) && call_ensures(A::narrow, (v,), p)
}

fn rotate_pixel<A: FloatUnit>(plane: &[u32], w: usize, h: usize, t: &Rotation, x: usize, y: usize) -> (p: u32)
    requires
        w > 0,
        h > 0,
        plane@.len() == h * w,
    ensures
        rotated_pixel::<A>(plane@, w, h, *t, x, y, p),
{
    let v: u64 = resample::<A>(plane, w, h, t, x, y);
    A::narrow(v)
}

/// The plane rotated: every pixel resampled and rounded to a single.
pub fn rotate_plane<A: FloatUnit>(plane: &[u32], w: usize, h: usize, t: &Rotation) -> (out: Vec<u32>)
    requires
        w > 0,
        h > 0,
        plane@.len() == h * w,
    ensures
        rotated::<A>(plane@, w, h, *t, out@),
{
    let mut out: Vec<u32> = Vec::new();
    let mut y: usize = 0;
    assert(0 * w == 0) by (nonlinear_arith);
    while y < h
        invariant
            w > 0,
            plane@.len() == h * w,
            y <= h,
            out@.len() == y * w,
            forall|a: usize, b: usize| a < w && b < y ==> #[trigger] rotated_pixel::<A>(plane@, w, h, *t, a, b, out@[b * w + a]),
        decreases h - y,
    {
        let mut x: usize = 0;
        while x < w
            invariant
                w > 0,
                y < h,
                plane@.len() == h * w,
                x <= w,
                out@.len() == y * w + x,
                forall|a: usize, b: usize|
                    a < w && b < h && (b < y || (b == y && a < x)) ==> #[trigger] rotated_pixel::<A>(
                        plane@,
                        w,
                        h,
                        *t,
                        a,
                        b,
                        out@[b * w + a],
                    ),
            decreases w - x,
        {
            let ghost before = out@;
            let p: u32 = rotate_pixel::<A>(plane, w, h, t, x, y);
            out.push(p);
            assert forall|a: usize, b: usize|
                a < w && b < h && (b < y || (b == y && a < x + 1)) implies #[trigger] rotated_pixel::<A>(
                plane@,
                w,
                h,
                *t,
                a,
                b,
                out@[b * w + a],
            ) by {
                if b == y && a == x {
                    assert(out@[y * w + x] == p);
                } else {
                    if b < y {
                        lemma_pixel_in_plane(w as int, y as int, a as int, b as int);
                    }
                    assert(out@[b * w + a] == before[b * w + a]);
                    assert(rotated_pixel::<A>(plane@, w, h, *t, a, b, before[b * w + a]));
                }
            }
            x = x + 1;
        }
        assert((y + 1) * w == y * w + w) by (nonlinear_arith);
        y = y + 1;
    }
    out
}

} // verus!
