//! The texts that the window shows.
use crate::fit::Estimate;
use crate::text;
use crate::text::decimal;
use crate::unit::FloatUnit;
use vstd::prelude::*;

verus! {

/// What is shown of a loaded file.
pub open spec fn file_summary(name: Seq<char>, n: nat, height: nat, width: nat) -> Seq<char> {
    name + " — "@ + decimal(n) + " projections, "@ + decimal(height) + "×"@ + decimal(width)
}

/// What is shown of a loaded file.
pub fn file_label(name: &str, n: usize, height: usize, width: usize) -> (r: String)
    ensures
        r@ == file_summary(name@, n as nat, height as nat, width as nat),
{
    let mut r: String = name.to_owned();
    r.append(" — ");
    text::append_decimal(&mut r, n);
    r.append(" projections, ");
    text::append_decimal(&mut r, height);
    r.append("×");
    text::append_decimal(&mut r, width);
    r
}

/// `t` is a length in pixels.
pub open spec fn pixels<A: FloatUnit>(a: u64, t: Seq<char>) -> bool {
    exists|s: String| #[trigger] call_ensures(A::fixed2, (a,), s) && t == s@ + " px"@
}

fn pixels_of<A: FloatUnit>(a: u64) -> (t: String)
    ensures
        pixels::<A>(a, t@),
{
    let s: String = A::fixed2(a);
    let mut t: String = String::new();
    t.append(s.as_str());
    t.append(" px");
    assert(t@ =~= s@ + " px"@);
    t
}

/// `t` tells the center of rotation that a file carries, if it does.
pub open spec fn stored_center<A: FloatUnit>(center: Option<u64>, t: Seq<char>) -> bool {
    match center {
        Some(c) => exists|p: Seq<char>| #[trigger] pixels::<A>(c, p) && t == "center of rotation in the file: "@ + p,
        None => t == "center of rotation in the file: "@ + "none"@,
    }
}

/// The center of rotation that a file carries.
pub fn center_label<A: FloatUnit>(center: Option<u64>) -> (r: String)
    ensures
        stored_center::<A>(center, r@),
{
    let mut r: String = "center of rotation in the file: ".to_owned();
    match center {
        Some(c) => {
            let p: String = pixels_of::<A>(c);
            r.append(p.as_str());
        },
        None => {
            r.append("none");
        },
    }
    r
}

/// The warning that a file was corrected before.
pub fn corrected_label(times: usize) -> (r: String)
    ensures
        r@ == "⚠ this file was already corrected "@ + decimal(times as nat) + " time(s) by this tool"@,
{
    let mut r: String = "⚠ this file was already corrected ".to_owned();
    text::append_decimal(&mut r, times);
    r.append(" time(s) by this tool");
    r
}

/// The number of pairs.
pub fn pair_count_label(n: usize) -> (r: String)
    ensures
        r@ == decimal(n as nat) + " pair(s)"@,
{
    let mut r: String = String::new();
    text::append_decimal(&mut r, n);
    r.append(" pair(s)");
    assert(r@ =~= decimal(n as nat) + " pair(s)"@);
    r
}

/// `t` is an estimate as the list of the results shows it.
pub open spec fn result_shown<A: FloatUnit>(est: Estimate, t: Seq<char>) -> bool {
    exists|tilt: String, center: Seq<char>, quality: String|
        #[trigger] call_ensures(A::signed3, (est.tilt_deg,), tilt) && #[trigger] pixels::<A>(est.cor, center)
            && #[trigger] call_ensures(A::fixed3, (est.r2,), quality) && t == "tilt "@ + tilt@ + "°, center "@ + center + "  (r² "@
            + quality@ + ")\n"@ + est.method@
}

/// An estimate as the list of the results shows it.
pub fn result_label<A: FloatUnit>(est: &Estimate) -> (r: String)
    ensures
        result_shown::<A>(*est, r@),
{
    let tilt: String = A::signed3(est.tilt_deg);
    let center: String = pixels_of::<A>(est.cor);
    let quality: String = A::fixed3(est.r2);
    let mut r: String = "tilt ".to_owned();
    r.append(tilt.as_str());
    r.append("°, center ");
    r.append(center.as_str());
    r.append("  (r² ");
    r.append(quality.as_str());
    r.append(")\n");
    r.append(est.method.as_str());
    r
}

/// `t` tells the center of the whole-image shift.
pub open spec fn cross_check_shown<A: FloatUnit>(center: u64, t: Seq<char>) -> bool {
    exists|p: Seq<char>|
        #[trigger] pixels::<A>(center, p) && t == "cross-check — whole-image single shift: center "@ + p
}

/// The center of the whole-image shift.
pub fn cross_check_label<A: FloatUnit>(center: u64) -> (r: String)
    ensures
        cross_check_shown::<A>(center, r@),
{
    let p: String = pixels_of::<A>(center);
    let mut r: String = "cross-check — whole-image single shift: center ".to_owned();
    r.append(p.as_str());
    r
}

/// `t` tells that a correction was saved.
pub open spec fn saved_shown<A: FloatUnit>(est: Estimate, path: Seq<char>, t: Seq<char>) -> bool {
    exists|tilt: String, center: Seq<char>|
        #[trigger] call_ensures(A::signed3, (est.tilt_deg,), tilt) && #[trigger] pixels::<A>(est.cor, center) && t == "tilt of "@
            + tilt@ + "° corrected, center of rotation "@ + center + " — saved into "@ + path
}

/// The message that a correction was saved.
pub fn saved_label<A: FloatUnit>(est: &Estimate, path: &str) -> (r: String)
    ensures
        saved_shown::<A>(*est, path@, r@),
{
    let tilt: String = A::signed3(est.tilt_deg);
    let center: String = pixels_of::<A>(est.cor);
    let mut r: String = "tilt of ".to_owned();
    r.append(tilt.as_str());
    r.append("° corrected, center of rotation ");
    r.append(center.as_str());
    r.append(" — saved into ");
    r.append(path);
    r
}

} // verus!
