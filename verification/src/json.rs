//! JSON texts: what is handed to the reconstruction and the records of the
//! applied corrections.
use crate::fit::Estimate;
use crate::stack::{extended_metadata, history, history_entry, law_save_appends_to_the_history};
use crate::text;
use crate::text::{digit, joined, one_line, texts, without_return};
use crate::unit::FloatUnit;
use vstd::prelude::*;

verus! {

/// The hexadecimal digit of `d`.
pub open spec fn hex_digit(d: int) -> char {
    if d < 10 {
        digit(d)
    } else {
        ('a' as u32 + d - 10) as char
    }
}

/// How a character is written in a JSON string: quotes, backslashes and control
/// characters are escaped.
pub open spec fn escaped(c: char) -> Seq<char> {
    if c == '"' || c == '\\' {
        seq!['\\', c]
    } else if c == '\u{8}' {
        seq!['\\', 'b']
    } else if c == '\t' {
        seq!['\\', 't']
    } else if c == '\n' {
        seq!['\\', 'n']
    } else if c == '\u{c}' {
        seq!['\\', 'f']
    } else if c == '\r' {
        seq!['\\', 'r']
    } else if (c as u32) < 32 {
        seq!['\\', 'u', '0', '0', hex_digit(c as u32 as int / 16), hex_digit(c as u32 as int % 16)]
    } else {
        seq![c]
    }
}

/// How a text is written in a JSON string.
pub open spec fn escaped_text(s: Seq<char>) -> Seq<char>
    decreases s.len(),
{
    if s.len() == 0 {
        seq![]
    } else {
        escaped_text(s.drop_last()) + escaped(s.last())
    }
}

/// A text as a JSON string.
pub open spec fn json_string(s: Seq<char>) -> Seq<char> {
    seq!['"'] + escaped_text(s) + seq!['"']
}

/// `serde_json::Value::from` and the `to_string` of the value: a text is
/// written as a JSON string, in quotes and with quotes, backslashes and control
/// characters escaped.
#[verifier::external_body]
fn string_value(s: &str) -> (r: String)
    ensures
        r@ == json_string(s@),
{
    serde_json::Value::from(s).to_string()
}

/// `list` are the values as JSON numbers.
pub open spec fn numbers<A: FloatUnit>(values: Seq<u64>, list: Seq<Seq<char>>) -> bool {
    &&& list.len() == values.len()
    &&& forall|k: int| 0 <= k < values.len() ==> number_text::<A>(values[k], #[trigger] list[k])
}

/// `t` is the value as a JSON number.
pub open spec fn number_text<A: FloatUnit>(value: u64, t: Seq<char>) -> bool {
    exists|s: String| #[trigger] call_ensures(A::json_number, (value,), s) && t == s@
}

/// `t` is the list of the values.
pub open spec fn number_list<A: FloatUnit>(values: Seq<u64>, t: Seq<char>) -> bool {
    exists|list: Seq<Seq<char>>| #[trigger] numbers::<A>(values, list) && t == "["@ + joined(list, ","@) + "]"@
}

fn number_of<A: FloatUnit>(value: u64) -> (r: String)
    ensures
        number_text::<A>(value, r@),
{
    A::json_number(value)
}

fn list_of<A: FloatUnit>(values: &[u64]) -> (r: String)
    ensures
        number_list::<A>(values@, r@),
{
    let mut list: Vec<String> = Vec::new();
    let mut k: usize = 0;
    while k < values.len()
        invariant
            k <= values@.len(),
            list@.len() == k,
            forall|j: int| 0 <= j < k ==> number_text::<A>(values@[j], (#[trigger] list@[j])@),
        decreases values@.len() - k,
    {
        let one: String = number_of::<A>(values[k]);
        list.push(one);
        k = k + 1;
    }
    let inner: String = text::join(&list, ",");
    let mut r: String = "[".to_owned();
    r.append(inner.as_str());
    r.append("]");
    assert(numbers::<A>(values@, texts(list@))) by {
        assert forall|j: int| 0 <= j < values@.len() implies number_text::<A>(values@[j], #[trigger] texts(list@)[j]) by {
            assert(number_text::<A>(values@[j], list@[j]@));
        }
    }
    r
}

/// A truth value.
pub open spec fn truth(b: bool) -> Seq<char> {
    if b {
        "true"@
    } else {
        "false"@
    }
}

/// `r` is the description of a test reconstruction: the projection angles in
/// radians, whether to take the logarithm, and the centers to try.
pub open spec fn recon_spec<A: FloatUnit>(angles: Seq<u64>, apply_log: bool, centers: Seq<u64>, r: Seq<char>) -> bool {
    exists|a: Seq<char>, c: Seq<char>|
        #[trigger] number_list::<A>(angles, a) && #[trigger] number_list::<A>(centers, c) && r == "{\"angles_rad\":"@ + a
            + ",\"apply_log\":"@ + truth(apply_log) + ",\"centers\":"@ + c + "}"@
}

/// The description of a test reconstruction.
pub fn recon_spec_text<A: FloatUnit>(angles: &[u64], apply_log: bool, centers: &[u64]) -> (r: String)
    ensures
        recon_spec::<A>(angles@, apply_log, centers@, r@),
{
    let a: String = list_of::<A>(angles);
    let c: String = list_of::<A>(centers);
    let mut r: String = "{\"angles_rad\":".to_owned();
    r.append(a.as_str());
    r.append(",\"apply_log\":");
    r.append(if apply_log {
        "true"
    } else {
        "false"
    });
    r.append(",\"centers\":");
    r.append(c.as_str());
    r.append("}");
    r
}

/// The texts of the numbers of a record: the center, the tilt and the quality
/// of the fit.
pub type RecordNumbers = (Seq<char>, Seq<char>, Seq<char>);

/// The record of an applied correction.
pub open spec fn record_text(n: RecordNumbers, date: Seq<char>, method: Seq<char>, user: Seq<char>) -> Seq<char> {
    "{\"center_of_rotation\":"@ + n.0 + ",\"corrected_tilt_deg\":"@ + n.1 + ",\"date\":"@ + json_string(date) + ",\"method\":"@
        + json_string(method) + ",\"r2\":"@ + n.2 + ",\"user\":"@ + json_string(user) + "}"@
}

/// `r` is the record of the correction by this estimate.
pub open spec fn recorded<A: FloatUnit>(est: Estimate, date: Seq<char>, user: Seq<char>, r: Seq<char>) -> bool {
    exists|n: RecordNumbers|
        #[trigger] record_numbers::<A>(est, n) && r == record_text(n, date, est.method@, user)
}

/// `n` are the numbers of an estimate as they stand in its record.
pub open spec fn record_numbers<A: FloatUnit>(est: Estimate, n: RecordNumbers) -> bool {
    number_text::<A>(est.cor, n.0) && number_text::<A>(est.tilt_deg, n.1) && number_text::<A>(est.r2, n.2)
}

/// The record of the correction by this estimate: one JSON object.
pub fn correction_record<A: FloatUnit>(est: &Estimate, date: &str, user: &str) -> (r: String)
    ensures
        recorded::<A>(*est, date@, user@, r@),
{
    let cor: String = number_of::<A>(est.cor);
    let tilt: String = number_of::<A>(est.tilt_deg);
    let r2: String = number_of::<A>(est.r2);
    let mut r: String = "{\"center_of_rotation\":".to_owned();
    r.append(cor.as_str());
    r.append(",\"corrected_tilt_deg\":");
    r.append(tilt.as_str());
    r.append(",\"date\":");
    let date_value: String = string_value(date);
    r.append(date_value.as_str());
    r.append(",\"method\":");
    let method_value: String = string_value(est.method.as_str());
    r.append(method_value.as_str());
    r.append(",\"r2\":");
    r.append(r2.as_str());
    r.append(",\"user\":");
    let user_value: String = string_value(user);
    r.append(user_value.as_str());
    r.append("}");
    assert(record_numbers::<A>(*est, (cor@, tilt@, r2@)));
    r
}

proof fn lemma_escaped_is_one_line(s: Seq<char>)
    ensures
        one_line(escaped_text(s)),
    decreases s.len(),
{
    if s.len() > 0 {
        lemma_escaped_is_one_line(s.drop_last());
        let c = s.last();
        assert forall|i: int| 0 <= i < escaped(c).len() implies #[trigger] escaped(c)[i] != '\n' by {
            let (high, low) = (c as u32 as int / 16, c as u32 as int % 16);
            if (c as u32) < 32 {
                assert(hex_digit(high) != '\n' && hex_digit(low) != '\n');
            }
        }
        lemma_lines_append(escaped_text(s.drop_last()), escaped(s.last()));
    }
}

proof fn lemma_lines_append(a: Seq<char>, b: Seq<char>)
    requires
        one_line(a),
        one_line(b),
    ensures
        one_line(a + b),
{
    assert forall|i: int| 0 <= i < (a + b).len() implies #[trigger] (a + b)[i] != '\n' by {
        if i < a.len() {
            assert((a + b)[i] == a[i]);
        } else {
            assert((a + b)[i] == b[i - a.len()]);
        }
    }
}

/// Whatever is written as a JSON string, stays on one line.
pub proof fn law_strings_stay_on_one_line(s: Seq<char>)
    ensures
        one_line(json_string(s)),
{
    lemma_escaped_is_one_line(s);
    lemma_lines_append(seq!['"'], escaped_text(s));
    lemma_lines_append(seq!['"'] + escaped_text(s), seq!['"']);
}

/// The record of a correction is one line of the history, whatever the date,
/// the method and the user are, as long as the texts of its numbers hold no
/// newline.
pub proof fn law_record_is_a_history_entry(n: RecordNumbers, date: Seq<char>, method: Seq<char>, user: Seq<char>)
    requires
        one_line(n.0),
        one_line(n.1),
        one_line(n.2),
    ensures
        history_entry(record_text(n, date, method, user)),
        without_return(record_text(n, date, method, user)) == record_text(n, date, method, user),
{
    reveal_strlit("{\"center_of_rotation\":");
    reveal_strlit(",\"corrected_tilt_deg\":");
    reveal_strlit(",\"date\":");
    reveal_strlit(",\"method\":");
    reveal_strlit(",\"r2\":");
    reveal_strlit(",\"user\":");
    reveal_strlit("}");
    law_strings_stay_on_one_line(date);
    law_strings_stay_on_one_line(method);
    law_strings_stay_on_one_line(user);
    let t1 = "{\"center_of_rotation\":"@ + n.0;
    lemma_lines_append("{\"center_of_rotation\":"@, n.0);
    let t2 = t1 + ",\"corrected_tilt_deg\":"@;
    lemma_lines_append(t1, ",\"corrected_tilt_deg\":"@);
    lemma_lines_append(t2, n.1);
    let t3 = t2 + n.1 + ",\"date\":"@;
    lemma_lines_append(t2 + n.1, ",\"date\":"@);
    lemma_lines_append(t3, json_string(date));
    let t4 = t3 + json_string(date) + ",\"method\":"@;
    lemma_lines_append(t3 + json_string(date), ",\"method\":"@);
    lemma_lines_append(t4, json_string(method));
    let t5 = t4 + json_string(method) + ",\"r2\":"@;
    lemma_lines_append(t4 + json_string(method), ",\"r2\":"@);
    lemma_lines_append(t5, n.2);
    let t6 = t5 + n.2 + ",\"user\":"@;
    lemma_lines_append(t5 + n.2, ",\"user\":"@);
    lemma_lines_append(t6, json_string(user));
    lemma_lines_append(t6 + json_string(user), "}"@);
    let r = record_text(n, date, method, user);
    assert(r == t6 + json_string(user) + "}"@);
    assert(r[0] == '{');
    assert(r.last() == '}');
}

/// Reading back what a save wrote gives the history that was there, and the
/// record of the correction last.
pub proof fn law_record_is_read_back(
    corrections: Seq<Seq<char>>,
    n: RecordNumbers,
    date: Seq<char>,
    method: Seq<char>,
    user: Seq<char>,
)
    requires
        forall|k: int| 0 <= k < corrections.len() ==> history_entry(#[trigger] corrections[k]),
        forall|k: int| 0 <= k < corrections.len() ==> without_return(#[trigger] corrections[k]) == corrections[k],
        one_line(n.0),
        one_line(n.1),
        one_line(n.2),
    ensures
        history(extended_metadata(corrections, record_text(n, date, method, user))) == corrections.push(
            record_text(n, date, method, user),
        ),
{
    law_record_is_a_history_entry(n, date, method, user);
    law_save_appends_to_the_history(corrections, record_text(n, date, method, user));
}

} // verus!
