//! Minimal NumPy .npy I/O for single-precision arrays: just what the gridrec
//! test slice hand-over needs (write a sinogram stack, read back the stack of
//! reconstructed slices). The samples are bits of singles, the files are their
//! bytes.
use crate::stack;
use crate::stack::bracketed;
use crate::text;
use crate::text::{before, decimal, find, joined, lossy_text, number, second_piece, texts, trimmed};
use vstd::prelude::*;
use vstd::slice::slice_subrange;
use vstd::utf8::{encode_utf8, is_ascii_chars};

verus! {

/// The number of values of an array of this shape.
pub open spec fn product(shape: Seq<usize>) -> nat
    decreases shape.len(),
{
    if shape.len() == 0 {
        1
    } else {
        product(shape.drop_last()) * shape.last() as nat
    }
}

/// Whether multiplying the extents one after the other never overflows.
pub open spec fn product_fits(shape: Seq<usize>) -> bool {
    forall|k: int| 0 <= k <= shape.len() ==> product(#[trigger] shape.take(k)) <= usize::MAX
}

/// The shape as a Python tuple.
pub open spec fn tuple_text(shape: Seq<usize>) -> Seq<char> {
    "("@ + tuple_inner(shape) + ")"@
}

/// What stands between the brackets of the tuple.
pub open spec fn tuple_inner(shape: Seq<usize>) -> Seq<char> {
    if shape.len() == 1 {
        decimal(shape[0] as nat) + ","@
    } else {
        joined(Seq::new(shape.len(), |k: int| decimal(shape[k] as nat)), ", "@)
    }
}

/// The header dictionary of an array of this shape.
pub open spec fn dictionary(shape: Seq<usize>) -> Seq<char> {
    "{'descr': '<f4', 'fortran_order': False, 'shape': "@ + tuple_text(shape) + ", }"@
}

/// The spaces that bring `unpadded` bytes to a multiple of 64.
pub open spec fn padding(unpadded: int) -> int {
    (unpadded + 63) / 64 * 64 - unpadded
}

/// `n` spaces.
pub open spec fn spaces(n: int) -> Seq<char> {
    Seq::new(n as nat, |k: int| ' ')
}

/// The header: the dictionary, padded so that the samples start at a multiple
/// of 64 bytes, and a newline.
pub open spec fn header(shape: Seq<usize>) -> Seq<char> {
    dictionary(shape) + spaces(padding(11 + dictionary(shape).len() as int)) + seq!['\n']
}

/// Byte `k` of `v`, the least significant one first.
pub open spec fn byte_at(v: u32, k: int) -> u8 {
    if k == 0 {
        (v % 256) as u8
    } else if k == 1 {
        (v / 256 % 256) as u8
    } else if k == 2 {
        (v / 65536 % 256) as u8
    } else {
        (v / 16777216) as u8
    }
}

/// The samples, least significant byte first.
pub open spec fn sample_bytes(data: Seq<u32>) -> Seq<u8> {
    Seq::new(4 * data.len(), |k: int| byte_at(data[k / 4], k % 4))
}

/// The magic string and the version of the files that are written.
pub open spec fn magic() -> Seq<u8> {
    seq![0x93u8, 0x4e, 0x55, 0x4d, 0x50, 0x59, 1, 0]
}

/// The length field: two bytes, the least significant one first.
pub open spec fn length_field(n: int) -> Seq<u8> {
    seq![(n % 256) as u8, (n / 256 % 256) as u8]
}

/// The file that holds `data` in an array of this shape.
pub open spec fn npy_file(shape: Seq<usize>, data: Seq<u32>) -> Seq<u8> {
    magic() + length_field(header(shape).len() as int) + encode_utf8(header(shape)) + sample_bytes(data)
}

/// The length of that file.
pub open spec fn npy_file_len(shape: Seq<usize>) -> int {
    (10 + header(shape).len() + 4 * product(shape)) as int
}

/// The message for values that do not fill the shape.
pub open spec fn mismatch_text(shape: Seq<usize>, len: nat) -> Seq<char> {
    "npy shape "@ + bracketed(shape) + " does not match "@ + decimal(len) + " values"@
}

/// The number of values of an array of this shape.
fn product_of(shape: &[usize]) -> (r: usize)
    requires
        product_fits(shape@),
    ensures
        r == product(shape@),
{
    let mut r: usize = 1;
    let mut k: usize = 0;
    assert(shape@.take(0).len() == 0);
    while k < shape.len()
        invariant
            k <= shape@.len(),
            product_fits(shape@),
            r == product(shape@.take(k as int)),
        decreases shape@.len() - k,
    {
        assert(shape@.take(k + 1).drop_last() =~= shape@.take(k as int));
        assert(shape@.take(k + 1).last() == shape@[k as int]);
        assert(product(shape@.take(k + 1)) <= usize::MAX);
        r = r * shape[k];
        k = k + 1;
    }
    assert(shape@.take(shape@.len() as int) =~= shape@);
    r
}

/// Whether multiplying the extents, and then by the size of a sample, stays in
/// range.
fn sizes_fit(shape: &[usize]) -> (r: bool)
    ensures
        r == (product_fits(shape@) && product(shape@) * 4 <= usize::MAX),
{
    let mut r: usize = 1;
    let mut k: usize = 0;
    assert(shape@.take(0).len() == 0);
    while k < shape.len()
        invariant
            k <= shape@.len(),
            forall|j: int| 0 <= j <= k ==> product(#[trigger] shape@.take(j)) <= usize::MAX,
            r == product(shape@.take(k as int)),
        decreases shape@.len() - k,
    {
        assert(shape@.take(k + 1).drop_last() =~= shape@.take(k as int));
        assert(shape@.take(k + 1).last() == shape@[k as int]);
        match r.checked_mul(shape[k]) {
            Some(p) => {
                r = p;
            },
            None => {
                assert(product(shape@.take(k + 1)) > usize::MAX);
                return false;
            },
        }
        k = k + 1;
    }
    assert(shape@.take(shape@.len() as int) =~= shape@);
    r <= usize::MAX / 4
}

/// The header dictionary.
fn dictionary_text(shape: &[usize]) -> (r: String)
    ensures
        r@ == dictionary(shape@),
{
    let dims: Vec<String> = stack::decimal_texts(shape);
    assert(texts(dims@).len() == shape@.len());
    let mut r: String = "{'descr': '<f4', 'fortran_order': False, 'shape': ".to_owned();
    r.append("(");
    if shape.len() == 1 {
        assert(texts(dims@)[0] == decimal(shape@[0] as nat));
        r.append(dims[0].as_str());
        r.append(",");
    } else {
        let list: String = text::join(&dims, ", ");
        r.append(list.as_str());
    }
    r.append(")");
    r.append(", }");
    assert(r@ =~= dictionary(shape@));
    r
}

/// The header of an array of this shape.
fn header_text(shape: &[usize]) -> (r: String)
    requires
        10 + header(shape@).len() <= usize::MAX,
    ensures
        r@ == header(shape@),
{
    let mut r: String = dictionary_text(shape);
    let ghost d = r@;
    proof {
        lemma_dictionary_is_ascii(shape@);
        vstd::utf8::is_ascii_chars_encode_utf8(d);
    }
    let unpadded: usize = 10 + r.as_str().len() + 1;
    let over: usize = unpadded % 64;
    let pad: usize = if over == 0 {
        0
    } else {
        64 - over
    };
    assert(pad == padding(unpadded as int));
    let mut k: usize = 0;
    assert(r@ =~= d + spaces(0));
    while k < pad
        invariant
            k <= pad,
            r@ == d + spaces(k as int),
        decreases pad - k,
    {
        r.append(" ");
        proof {
            reveal_strlit(" ");
        }
        assert(r@ =~= d + spaces(k + 1));
        k = k + 1;
    }
    r.append("\n");
    proof {
        reveal_strlit("\n");
        assert(r@ =~= header(shape@));
    }
    r
}

/// Whether every character of `t` is one of those a list of numbers is
/// written with.
spec fn plain(t: Seq<char>) -> bool {
    forall|i: int|
        0 <= i < t.len() ==> (text::is_digit(#[trigger] t[i]) || t[i] == ',' || t[i] == ' ')
}

proof fn lemma_joined_is_plain(list: Seq<Seq<char>>)
    requires
        forall|k: int| 0 <= k < list.len() ==> plain(#[trigger] list[k]),
    ensures
        plain(joined(list, ", "@)),
    decreases list.len(),
{
    reveal_strlit(", ");
    if list.len() >= 2 {
        let shorter = list.drop_last();
        assert forall|k: int| 0 <= k < shorter.len() implies plain(#[trigger] shorter[k]) by {
            assert(shorter[k] == list[k]);
        }
        lemma_joined_is_plain(shorter);
        assert(plain(list[list.len() - 1]));
        let a = joined(shorter, ", "@);
        let t = joined(list, ", "@);
        assert forall|i: int| 0 <= i < t.len() implies (text::is_digit(#[trigger] t[i]) || t[i] == ',' || t[i] == ' ') by {
            if i < a.len() {
                assert(t[i] == a[i]);
            } else if i < a.len() + 2 {
                assert(t[i] == ", "@[i - a.len()]);
            } else {
                assert(t[i] == list.last()[i - a.len() - 2]);
            }
        }
    }
}

proof fn lemma_tuple_inner_is_plain(shape: Seq<usize>)
    ensures
        plain(tuple_inner(shape)),
{
    let dims = Seq::new(shape.len(), |k: int| decimal(shape[k] as nat));
    assert forall|k: int| 0 <= k < dims.len() implies plain(#[trigger] dims[k]) by {
        text::lemma_decimal(shape[k] as nat);
    }
    if shape.len() == 1 {
        reveal_strlit(",");
        assert(plain(dims[0]));
        let t = tuple_inner(shape);
        assert forall|i: int| 0 <= i < t.len() implies (text::is_digit(#[trigger] t[i]) || t[i] == ',' || t[i] == ' ') by {
            if i < dims[0].len() {
                assert(t[i] == dims[0][i]);
            }
        }
    } else {
        lemma_joined_is_plain(dims);
    }
}

/// The fixed part of the dictionary, character by character.
proof fn lemma_dictionary_start()
    ensures
        ({
            let a = "{'descr': '<f4', 'fortran_order': False, 'shape': "@;
            &&& a.len() == 50
            &&& forall|i: int|
                0 <= i < 50 ==> '\0' <= #[trigger] a[i] <= '\u{7f}' && a[i] != 'T' && (a[i] == 'h' ==> i == 43)
            &&& a.subrange(1, 15) == "'descr': '<f4'"@
            &&& a.subrange(41, 49) == "'shape':"@
            &&& a[49] == ' '
        }),
{
    reveal_strlit("{'descr': '<f4', 'fortran_order': False, 'shape': ");
    reveal_strlit("'descr': '<f4'");
    reveal_strlit("'shape':");
    let a = "{'descr': '<f4', 'fortran_order': False, 'shape': "@;
    let b = seq!['{', '\'', 'd', 'e', 's', 'c', 'r', '\'', ':', ' ', '\'', '<', 'f', '4', '\'', ',', ' ', '\'', 'f', 'o', 'r', 't', 'r', 'a', 'n', '_', 'o', 'r', 'd', 'e', 'r', '\'', ':', ' ', 'F', 'a', 'l', 's', 'e', ',', ' ', '\'', 's', 'h', 'a', 'p', 'e', '\'', ':', ' '];
    assert(a =~= b);
    assert forall|i: int| 0 <= i < 50 implies '\0' <= #[trigger] a[i] <= '\u{7f}' && a[i] != 'T' && (a[i] == 'h' ==> i == 43) by {
        assert(b[i] == a[i]);
    }
    assert(a.subrange(1, 15) =~= "'descr': '<f4'"@);
    assert(a.subrange(41, 49) =~= "'shape':"@);
}

proof fn lemma_dictionary_is_ascii(shape: Seq<usize>)
    ensures
        is_ascii_chars(dictionary(shape)),
{
    lemma_tuple_inner_is_plain(shape);
    lemma_dictionary_start();
    reveal_strlit("(");
    reveal_strlit(")");
    reveal_strlit(", }");
    let a = "{'descr': '<f4', 'fortran_order': False, 'shape': "@;
    let t = tuple_inner(shape);
    let d = dictionary(shape);
    assert forall|i: int| 0 <= i < d.len() implies '\0' <= #[trigger] d[i] <= '\u{7f}' by {
        if i < 50 {
            assert(d[i] == a[i]);
        } else if i < 51 {
            assert(d[i] == '(');
        } else if i < 51 + t.len() {
            assert(d[i] == t[i - 51]);
        }
    }
}

/// Appends bytes.
fn append_bytes(out: &mut Vec<u8>, bytes: &[u8])
    ensures
        final(out)@ == old(out)@ + bytes@,
{
    let mut k: usize = 0;
    assert(out@ =~= old(out)@ + bytes@.take(0));
    while k < bytes.len()
        invariant
            k <= bytes@.len(),
            out@ == old(out)@ + bytes@.take(k as int),
        decreases bytes@.len() - k,
    {
        out.push(bytes[k]);
        assert(out@ =~= old(out)@ + bytes@.take(k + 1));
        k = k + 1;
    }
    assert(bytes@.take(bytes@.len() as int) =~= bytes@);
}

/// Appends the bytes of the samples.
fn append_samples(out: &mut Vec<u8>, data: &[u32])
    ensures
        final(out)@ == old(out)@ + sample_bytes(data@),
{
    let mut k: usize = 0;
    assert(out@ =~= old(out)@ + sample_bytes(data@.take(0)));
    while k < data.len()
        invariant
            k <= data@.len(),
            out@ == old(out)@ + sample_bytes(data@.take(k as int)),
        decreases data@.len() - k,
    {
        let v: u32 = data[k];
        let ghost was = out@;
        out.push((v % 256) as u8);
        out.push((v / 256 % 256) as u8);
        out.push((v / 65536 % 256) as u8);
        out.push((v / 16777216) as u8);
        proof {
            let shorter = sample_bytes(data@.take(k as int));
            let longer = sample_bytes(data@.take(k + 1));
            assert forall|i: int| 0 <= i < longer.len() implies #[trigger] longer[i] == (if i < 4 * k {
                shorter[i]
            } else {
                byte_at(v, i - 4 * k)
            }) by {
                if i < 4 * k {
                    assert(data@.take(k + 1)[i / 4] == data@.take(k as int)[i / 4]);
                } else {
                    assert(i / 4 == k);
                    assert(i % 4 == i - 4 * k);
                }
            }
            assert(out@ =~= old(out)@ + longer);
        }
        k = k + 1;
    }
    assert(data@.take(data@.len() as int) =~= data@);
}

/// The bytes of a C-order single-precision array of the given shape.
pub fn write_f32(shape: &[usize], data: &[u32]) -> (r: Result<Vec<u8>, String>)
    requires
        product_fits(shape@),
        product(shape@) == data@.len() ==> 10 + header(shape@).len() <= usize::MAX,
    ensures
        r is Ok <==> product(shape@) == data@.len(),
        r matches Ok(bytes) ==> bytes@ == npy_file(shape@, data@),
        r matches Err(e) ==> e@ == mismatch_text(shape@, data@.len()),
{
    if product_of(shape) != data.len() {
        let mut e: String = "npy shape ".to_owned();
        let list: String = stack::bracketed_text(shape);
        e.append(list.as_str());
        e.append(" does not match ");
        text::append_decimal(&mut e, data.len());
        e.append(" values");
        return Err(e);
    }
    let head: String = header_text(shape);
    proof {
        lemma_header_is_ascii(shape@);
        vstd::utf8::is_ascii_chars_encode_utf8(header(shape@));
    }
    let head_len: usize = head.as_str().len();
    let mut out: Vec<u8> = vec![0x93u8, 0x4e, 0x55, 0x4d, 0x50, 0x59, 1, 0];
    assert(out@ =~= magic());
    out.push((head_len % 256) as u8);
    out.push((head_len / 256 % 256) as u8);
    assert(out@ =~= magic() + length_field(head_len as int));
    append_bytes(&mut out, head.as_str().as_bytes());
    append_samples(&mut out, data);
    Ok(out)
}

proof fn lemma_header_is_ascii(shape: Seq<usize>)
    ensures
        is_ascii_chars(header(shape)),
{
    lemma_dictionary_is_ascii(shape);
    let d = dictionary(shape);
    let h = header(shape);
    assert forall|i: int| 0 <= i < h.len() implies '\0' <= #[trigger] h[i] <= '\u{7f}' by {
        if i < d.len() {
            assert(h[i] == d[i]);
        } else if i < h.len() - 1 {
            assert(h[i] == ' ');
        }
    }
}

/// What is recognised as a .npy file: long enough and with the magic string.
pub open spec fn is_npy(bytes: Seq<u8>) -> bool {
    bytes.len() >= 10 && bytes.take(6) == magic().take(6)
}

/// Whether the version is one whose header can be read.
pub open spec fn known_version(v: u8) -> bool {
    v == 1 || v == 2 || v == 3
}

/// Where the header starts: version 1 has a length field of two bytes, the
/// later versions one of four.
pub open spec fn header_start(bytes: Seq<u8>) -> int {
    if bytes[6] == 1 {
        10
    } else {
        12
    }
}

/// The length of the header.
pub open spec fn header_len(bytes: Seq<u8>) -> int {
    if bytes[6] == 1 {
        bytes[8] + 256 * bytes[9]
    } else {
        bytes[8] + 256 * bytes[9] + 65536 * bytes[10] + 16777216 * bytes[11]
    }
}

/// Whether a file of a known version holds the whole header that its length
/// field announces.
pub open spec fn header_complete(bytes: Seq<u8>) -> bool {
    is_npy(bytes) && known_version(bytes[6]) ==> header_start(bytes) <= bytes.len() && header_start(bytes) + header_len(bytes)
        <= bytes.len()
}

/// The bytes of the header.
pub open spec fn header_bytes(bytes: Seq<u8>) -> Seq<u8> {
    bytes.subrange(header_start(bytes), header_start(bytes) + header_len(bytes))
}

/// The bytes behind the header.
pub open spec fn payload(bytes: Seq<u8>) -> Seq<u8> {
    bytes.skip(header_start(bytes) + header_len(bytes))
}

/// The number a token of a shape spells, if any: white space around it does
/// not count.
pub open spec fn token_numbers(t: Seq<char>) -> Seq<usize> {
    match number(trimmed(t)) {
        Some(v) => seq![v],
        None => seq![],
    }
}

/// The numbers of a comma-separated list; what is not a number is passed over.
pub open spec fn listed_numbers(t: Seq<char>) -> Seq<usize>
    decreases t.len(),
{
    let i = find(t, ","@);
    proof {
        text::lemma_find(t, ","@);
        reveal_strlit(",");
    }
    if i < 0 {
        token_numbers(t)
    } else {
        token_numbers(t.take(i)) + listed_numbers(t.skip(i + 1))
    }
}

/// The text of the shape in a header: behind `'shape':`, between the first
/// brackets.
pub open spec fn shape_part(head: Seq<char>) -> Option<Seq<char>> {
    match second_piece(head, "'shape':"@) {
        Some(behind) => match second_piece(behind, "("@) {
            Some(inside) => Some(before(inside, ")"@)),
            None => None,
        },
        None => None,
    }
}

/// Why a header is refused; `None` when the samples can be read.
pub open spec fn header_fault(head: Seq<char>) -> Option<Seq<char>> {
    if find(head, "'descr': '<f4'"@) < 0 {
        Some("expected little-endian f32 data, header: "@ + head)
    } else if find(head, "'fortran_order': True"@) >= 0 {
        Some("Fortran-ordered .npy is not supported"@)
    } else if shape_part(head) is None {
        Some("cannot parse the shape from: "@ + head)
    } else {
        None
    }
}

/// The shape that a header gives.
pub open spec fn header_shape(head: Seq<char>) -> Seq<usize> {
    listed_numbers(shape_part(head)->0)
}

/// Whether the sizes that follow from a header stay in range.
pub open spec fn header_sizes_fit(head: Seq<char>) -> bool {
    header_fault(head) is None ==> product_fits(header_shape(head)) && product(header_shape(head)) * 4 <= usize::MAX
}

/// The first `n` samples of a payload.
pub open spec fn samples(bytes: Seq<u8>, n: nat) -> Seq<u32> {
    Seq::new(n, |k: int| (bytes[4 * k] + 256 * bytes[4 * k + 1] + 65536 * bytes[4 * k + 2] + 16777216 * bytes[4 * k + 3]) as u32)
}

/// The message for a payload that is shorter than its shape.
pub open spec fn short_text(path: Seq<char>, len: nat, shape: Seq<usize>) -> Seq<char> {
    path + ": "@ + decimal(len) + " data bytes for shape "@ + bracketed(shape)
}

/// What reading gives: the shape and the samples, or a message.
pub type Decoded = Result<(Seq<usize>, Seq<u32>), Seq<char>>;

/// What a header and the bytes behind it hold.
pub open spec fn decoded(path: Seq<char>, head: Seq<char>, body: Seq<u8>) -> Decoded {
    let shape = header_shape(head);
    if header_fault(head) is Some {
        Err(header_fault(head)->0)
    } else if body.len() < product(shape) * 4 {
        Err(short_text(path, body.len(), shape))
    } else {
        Ok((shape, samples(body, product(shape))))
    }
}

/// What a file holds.
pub open spec fn file_content(path: Seq<char>, bytes: Seq<u8>) -> Decoded {
    let head = lossy_text(header_bytes(bytes));
    if !is_npy(bytes) {
        Err(path + " is not a .npy file"@)
    } else if !known_version(bytes[6]) {
        Err("unsupported .npy version "@ + decimal(bytes[6] as nat))
    } else if !header_sizes_fit(head) {
        Err(path + ": shape "@ + bracketed(header_shape(head)) + " is too large"@)
    } else {
        decoded(path, head, payload(bytes))
    }
}

/// The content that a result of reading stands for.
pub open spec fn content_of(r: Result<(Vec<usize>, Vec<u32>), String>) -> Decoded {
    match r {
        Ok((shape, data)) => Ok((shape@, data@)),
        Err(e) => Err(e@),
    }
}

/// The numbers of a comma-separated list.
fn parse_list(t: &Vec<char>) -> (r: Vec<usize>)
    ensures
        r@ == listed_numbers(t@),
{
    let comma: Vec<char> = text::characters(",");
    let mut r: Vec<usize> = Vec::new();
    let mut rest: Vec<char> = text::part(t, 0, t.len());
    assert(rest@ =~= t@);
    assert(r@ + listed_numbers(rest@) =~= listed_numbers(t@));
    proof {
        reveal_strlit(",");
    }
    loop
        invariant
            comma@ == ","@,
            comma@.len() == 1,
            r@ + listed_numbers(rest@) == listed_numbers(t@),
        decreases rest@.len(),
    {
        let cut: Option<usize> = text::position(&rest, &comma);
        let end: usize = match cut {
            Some(i) => i,
            None => rest.len(),
        };
        let token: Vec<char> = text::trim(&text::part(&rest, 0, end));
        let ghost was = r@;
        proof {
            assert(rest@.subrange(0, end as int) =~= rest@.take(end as int));
            if cut is None {
                assert(rest@.take(end as int) =~= rest@);
            }
        }
        match text::parse_number(&token) {
            Some(v) => {
                r.push(v);
            },
            None => {},
        }
        assert(r@ =~= was + token_numbers(rest@.take(end as int)));
        if cut.is_none() {
            return r;
        }
        let n: usize = rest.len();
        let next: Vec<char> = text::part(&rest, end + 1, n);
        assert(next@ =~= rest@.skip(end + 1));
        assert(r@ + listed_numbers(next@) =~= was + listed_numbers(rest@));
        rest = next;
    }
}

/// The shape that a header gives, or why the header is refused.
fn parse_header(head: &str) -> (r: Result<Vec<usize>, String>)
    ensures
        r is Ok <==> header_fault(head@) is None,
        r matches Ok(shape) ==> shape@ == header_shape(head@),
        r matches Err(e) ==> header_fault(head@) == Some(e@),
{
    let t: Vec<char> = text::characters(head);
    if !text::contains(&t, "'descr': '<f4'") {
        let mut e: String = "expected little-endian f32 data, header: ".to_owned();
        e.append(head);
        return Err(e);
    }
    if text::contains(&t, "'fortran_order': True") {
        return Err("Fortran-ordered .npy is not supported".to_owned());
    }
    if let Some(behind) = text::text_second_piece(&t, "'shape':") {
        if let Some(inside) = text::text_second_piece(&behind, "(") {
            return Ok(parse_list(&text::text_before(&inside, ")")));
        }
    }
    let mut e: String = "cannot parse the shape from: ".to_owned();
    e.append(head);
    Err(e)
}

/// The first `n` samples of the bytes behind the header.
fn parse_samples(body: &[u8], n: usize) -> (r: Vec<u32>)
    requires
        n * 4 <= body@.len(),
    ensures
        r@ == samples(body@, n as nat),
{
    let len: usize = body.len();
    let mut r: Vec<u32> = Vec::new();
    let mut k: usize = 0;
    while k < n
        invariant
            len == body@.len(),
            k <= n,
            n * 4 <= len,
            r@ == samples(body@, k as nat),
        decreases n - k,
    {
        let v: u32 = body[4 * k] as u32 + 256 * body[4 * k + 1] as u32 + 65536 * body[4 * k + 2] as u32 + 16777216 * body[4 * k
            + 3] as u32;
        r.push(v);
        k = k + 1;
        assert(r@ =~= samples(body@, k as nat));
    }
    r
}

/// Reads the samples that a header and the bytes behind it hold.
pub fn decode(path: &str, head: &str, body: &[u8]) -> (r: Result<(Vec<usize>, Vec<u32>), String>)
    requires
        header_sizes_fit(head@),
    ensures
        content_of(r) == decoded(path@, head@, body@),
{
    let shape: Vec<usize> = match parse_header(head) {
        Ok(shape) => shape,
        Err(e) => {
            return Err(e);
        },
    };
    let n: usize = product_of(shape.as_slice());
    if body.len() < n * 4 {
        let mut e: String = path.to_owned();
        e.append(": ");
        text::append_decimal(&mut e, body.len());
        e.append(" data bytes for shape ");
        let list: String = stack::bracketed_text(shape.as_slice());
        e.append(list.as_str());
        return Err(e);
    }
    let data: Vec<u32> = parse_samples(body, n);
    Ok((shape, data))
}

/// Whether a file of a known version holds the whole header that its length
/// field announces.
pub fn is_header_complete(bytes: &[u8]) -> (r: bool)
    ensures
        r == header_complete(bytes@),
{
    if !has_magic(bytes) || !(bytes[6] == 1 || bytes[6] == 2 || bytes[6] == 3) {
        return true;
    }
    if bytes[6] != 1 && bytes.len() < 12 {
        return false;
    }
    let (start, len) = header_place(bytes);
    start as u64 + len as u64 <= bytes.len() as u64
}

/// Whether the file is long enough and starts with the magic string.
fn has_magic(bytes: &[u8]) -> (r: bool)
    ensures
        r == is_npy(bytes@),
{
    if bytes.len() < 10 {
        return false;
    }
    let r: bool = bytes[0] == 0x93 && bytes[1] == 0x4e && bytes[2] == 0x55 && bytes[3] == 0x4d && bytes[4] == 0x50 && bytes[5]
        == 0x59;
    proof {
        let a = bytes@.take(6);
        let b = magic().take(6);
        if r {
            assert(a =~= b);
        } else if a == b {
            assert(a[0] == b[0] && a[1] == b[1] && a[2] == b[2] && a[3] == b[3] && a[4] == b[4] && a[5] == b[5]);
        }
    }
    r
}

/// Where the header starts and how long it is.
fn header_place(bytes: &[u8]) -> (r: (u32, u32))
    requires
        is_npy(bytes@),
        known_version(bytes@[6]),
        header_start(bytes@) <= bytes@.len(),
    ensures
        r.0 == header_start(bytes@),
        r.1 == header_len(bytes@),
{
    if bytes[6] == 1 {
        (10, bytes[8] as u32 + 256 * bytes[9] as u32)
    } else {
        (12, bytes[8] as u32 + 256 * bytes[9] as u32 + 65536 * bytes[10] as u32 + 16777216 * bytes[11] as u32)
    }
}

/// Reads a C-order little-endian single-precision array of any rank: its shape
/// and its samples. A shape whose size in bytes cannot be counted is refused.
pub fn read_f32(path: &str, bytes: &[u8]) -> (r: Result<(Vec<usize>, Vec<u32>), String>)
    requires
        header_complete(bytes@),
    ensures
        content_of(r) == file_content(path@, bytes@),
{
    if !has_magic(bytes) {
        let mut e: String = path.to_owned();
        e.append(" is not a .npy file");
        return Err(e);
    }
    if !(bytes[6] == 1 || bytes[6] == 2 || bytes[6] == 3) {
        let mut e: String = "unsupported .npy version ".to_owned();
        text::append_decimal(&mut e, bytes[6] as usize);
        return Err(e);
    }
    let (start, len) = header_place(bytes);
    let n: usize = bytes.len();
    let head_end: usize = start as usize + len as usize;
    let head: String = text::text_of_bytes(slice_subrange(bytes, start as usize, head_end));
    let body: &[u8] = slice_subrange(bytes, head_end, n);
    assert(body@ =~= payload(bytes@));
    if let Ok(shape) = parse_header(head.as_str()) {
        if !sizes_fit(shape.as_slice()) {
            let mut e: String = path.to_owned();
            e.append(": shape ");
            let list: String = stack::bracketed_text(shape.as_slice());
            e.append(list.as_str());
            e.append(" is too large");
            return Err(e);
        }
    }
    decode(path, head.as_str(), body)
}

/// The samples start at a multiple of 64 bytes.
pub proof fn law_samples_are_aligned(shape: Seq<usize>)
    ensures
        (10 + header(shape).len()) % 64 == 0,
{
    let unpadded = 11 + dictionary(shape).len() as int;
    assert(padding(unpadded) >= 0);
    assert(10 + header(shape).len() == (unpadded + 63) / 64 * 64);
}

/// The bytes of a sample spell the sample.
proof fn lemma_sample_round_trip(data: Seq<u32>)
    ensures
        samples(sample_bytes(data), data.len()) == data,
{
    let bytes = sample_bytes(data);
    assert forall|k: int| 0 <= k < data.len() implies #[trigger] samples(bytes, data.len())[k] == data[k] by {
        let v = data[k];
        assert((4 * k) / 4 == k && (4 * k) % 4 == 0);
        assert((4 * k + 1) / 4 == k && (4 * k + 1) % 4 == 1);
        assert((4 * k + 2) / 4 == k && (4 * k + 2) % 4 == 2);
        assert((4 * k + 3) / 4 == k && (4 * k + 3) % 4 == 3);
        assert(bytes[4 * k] == byte_at(v, 0));
        assert(bytes[4 * k + 1] == byte_at(v, 1));
        assert(bytes[4 * k + 2] == byte_at(v, 2));
        assert(bytes[4 * k + 3] == byte_at(v, 3));
        assert(v == v % 256 + 256 * (v / 256 % 256) + 65536 * (v / 65536 % 256) + 16777216 * (v / 16777216));
    }
    assert(samples(bytes, data.len()) =~= data);
}

/// A number in decimal is a token of its own, with or without a space before
/// it.
proof fn lemma_decimal_token(v: usize, spaced: bool)
    ensures
        ({
            let d = decimal(v as nat);
            token_numbers(if spaced {
                seq![' '] + d
            } else {
                d
            }) == seq![v]
        }),
{
    let d = decimal(v as nat);
    text::lemma_decimal(v as nat);
    text::law_decimal_round_trip(v);
    assert(text::is_digit(d[0]));
    assert(text::is_digit(d[d.len() - 1]));
    assert(text::trimmed_start(d) == d);
    assert(text::trimmed_end(d) == d);
    if spaced {
        let t = seq![' '] + d;
        assert(t.skip(1) =~= d);
        assert(text::trimmed_start(t) == d);
    }
}

/// A list of decimals, joined as it is written, is read back.
proof fn lemma_list_round_trip(shape: Seq<usize>, spaced: bool)
    requires
        shape.len() > 0,
    ensures
        ({
            let list = Seq::new(shape.len(), |k: int| decimal(shape[k] as nat));
            let t = joined(list, ", "@);
            listed_numbers(if spaced {
                seq![' '] + t
            } else {
                t
            }) == shape
        }),
    decreases shape.len(),
{
    reveal_strlit(",");
    reveal_strlit(", ");
    let list = Seq::new(shape.len(), |k: int| decimal(shape[k] as nat));
    let t = joined(list, ", "@);
    let u = if spaced {
        seq![' '] + t
    } else {
        t
    };
    let d = decimal(shape[0] as nat);
    let first = if spaced {
        seq![' '] + d
    } else {
        d
    };
    text::lemma_decimal(shape[0] as nat);
    lemma_decimal_token(shape[0], spaced);
    assert forall|i: int| 0 <= i < first.len() implies #[trigger] first[i] != ',' by {
        let j = if spaced {
            i - 1
        } else {
            i
        };
        if 0 <= j < d.len() {
            assert(first[i] == d[j]);
            assert(text::is_digit(d[j]));
        }
    }
    if shape.len() == 1 {
        assert(u =~= first);
        text::lemma_find_absent(u, ","@, 0);
        assert(listed_numbers(u) == token_numbers(u));
        assert(seq![shape[0]] =~= shape);
    } else {
        text::lemma_joined_front(list, ", "@);
        let rest = shape.drop_first();
        let rest_list = Seq::new(rest.len(), |k: int| decimal(rest[k] as nat));
        assert(list.drop_first() =~= rest_list);
        lemma_list_round_trip(rest, true);
        let tail = joined(rest_list, ", "@);
        assert(u =~= first + ", "@ + tail);
        let k = first.len() as int;
        assert(u.subrange(k, k + 1) =~= ","@);
        assert forall|i: int| 0 <= i < k implies #[trigger] u[i] != ","@[0] by {
            assert(u[i] == first[i]);
        }
        text::lemma_find_at(u, ","@, 0, k);
        assert(u.take(k) =~= first);
        assert(u.skip(k + 1) =~= seq![' '] + tail);
        assert(listed_numbers(u) == token_numbers(first) + listed_numbers(seq![' '] + tail));
        assert(seq![shape[0]] + rest =~= shape);
    }
}

/// What stands between the brackets of the tuple is read back.
proof fn lemma_tuple_round_trip(shape: Seq<usize>)
    ensures
        listed_numbers(tuple_inner(shape)) == shape,
{
    reveal_strlit(",");
    let t = tuple_inner(shape);
    if shape.len() == 0 {
        assert(t =~= Seq::<char>::empty());
        text::lemma_find_absent(t, ","@, 0);
        assert(text::trimmed(t) =~= t);
        assert(token_numbers(t) =~= Seq::<usize>::empty());
        assert(shape =~= Seq::<usize>::empty());
    } else if shape.len() == 1 {
        let d = decimal(shape[0] as nat);
        text::lemma_decimal(shape[0] as nat);
        lemma_decimal_token(shape[0], false);
        let k = d.len() as int;
        assert(t.subrange(k, k + 1) =~= ","@);
        assert forall|i: int| 0 <= i < k implies #[trigger] t[i] != ","@[0] by {
            assert(t[i] == d[i]);
            assert(text::is_digit(d[i]));
        }
        text::lemma_find_at(t, ","@, 0, k);
        assert(t.take(k) =~= d);
        let e = t.skip(k + 1);
        assert(e =~= Seq::<char>::empty());
        text::lemma_find_absent(e, ","@, 0);
        assert(text::trimmed(e) =~= e);
        assert(token_numbers(e) =~= Seq::<usize>::empty());
        assert(listed_numbers(e) =~= Seq::<usize>::empty());
        assert(listed_numbers(t) =~= shape);
    } else {
        lemma_list_round_trip(shape, false);
    }
}

/// A header that is written is accepted and gives its shape back.
proof fn lemma_header_round_trip(shape: Seq<usize>)
    ensures
        header_fault(header(shape)) is None,
        header_shape(header(shape)) == shape,
{
    let t = header(shape);
    let a = "{'descr': '<f4', 'fortran_order': False, 'shape': "@;
    let inner = tuple_inner(shape);
    let n = inner.len() as int;
    lemma_dictionary_start();
    lemma_tuple_inner_is_plain(shape);
    reveal_strlit("(");
    reveal_strlit(")");
    reveal_strlit(", }");
    assert forall|i: int| 0 <= i < t.len() implies (#[trigger] t[i] == if i < 50 {
        a[i]
    } else if i == 50 {
        '('
    } else if i < 51 + n {
        inner[i - 51]
    } else if i == 51 + n {
        ')'
    } else {
        t[i]
    }) && (i > 51 + n ==> t[i] == ',' || t[i] == ' ' || t[i] == '}' || t[i] == '\n') by {
        let d = dictionary(shape);
        if i < d.len() {
            assert(t[i] == d[i]);
            if i > 51 + n {
                assert(d[i] == ", }"@[i - 52 - n]);
            }
        }
    }
    assert("'descr': '<f4'"@ == t.subrange(1, 15)) by {
        assert(t.subrange(1, 15) =~= a.subrange(1, 15));
    }
    assert(text::occurs_at(t, "'descr': '<f4'"@, 1)) by {
        reveal_strlit("'descr': '<f4'");
    }
    text::lemma_find(t, "'descr': '<f4'"@);
    reveal_strlit("'fortran_order': True");
    assert("'fortran_order': True"@[17] == 'T');
    assert forall|i: int| 0 <= i < t.len() implies #[trigger] t[i] != 'T' by {
        if i < 50 {
            assert(a[i] != 'T');
        } else if 51 <= i < 51 + n {
            assert(text::is_digit(inner[i - 51]) || inner[i - 51] == ',' || inner[i - 51] == ' ');
        }
    }
    text::lemma_find_absent(t, "'fortran_order': True"@, 17);
    let key = "'shape':"@;
    reveal_strlit("'shape':");
    assert(key.len() == 8 && key[2] == 'h');
    assert forall|i: int| 0 <= i < t.len() && i != 43 implies #[trigger] t[i] != 'h' by {
        if i < 50 {
            assert(a[i] == 'h' ==> i == 43);
        } else if 51 <= i < 51 + n {
            assert(text::is_digit(inner[i - 51]) || inner[i - 51] == ',' || inner[i - 51] == ' ');
        }
    }
    assert(t.subrange(41, 49) =~= a.subrange(41, 49));
    text::lemma_find_at(t, key, 2, 41);
    let s1 = t.skip(49);
    assert forall|i: int| 0 <= i < s1.len() implies #[trigger] s1[i] != key[2] by {
        assert(s1[i] == t[i + 49]);
    }
    text::lemma_find_absent(s1, key, 2);
    assert(second_piece(t, key) == Some(s1));
    assert(s1[0] == ' ' && s1[1] == '(');
    assert(s1.subrange(1, 2) =~= "("@);
    text::lemma_find_at(s1, "("@, 0, 1);
    let s2 = s1.skip(2);
    assert forall|i: int| 0 <= i < s2.len() implies #[trigger] s2[i] == t[i + 51] by {}
    assert forall|i: int| 0 <= i < s2.len() implies #[trigger] s2[i] != '(' by {
        assert(s2[i] == t[i + 51]);
        if i < n {
            assert(text::is_digit(inner[i]) || inner[i] == ',' || inner[i] == ' ');
        }
    }
    text::lemma_find_absent(s2, "("@, 0);
    assert(second_piece(s1, "("@) == Some(s2));
    assert(s2[n] == ')');
    assert(s2.subrange(n, n + 1) =~= ")"@);
    assert forall|i: int| 0 <= i < n implies #[trigger] s2[i] != ')' by {
        assert(s2[i] == inner[i]);
        assert(text::is_digit(inner[i]) || inner[i] == ',' || inner[i] == ' ');
    }
    text::lemma_find_at(s2, ")"@, 0, n);
    assert(s2.take(n) =~= inner);
    lemma_tuple_round_trip(shape);
}

/// A file that is written is read back: the same shape and the same samples.
/// (The two-byte length field of the format holds headers of less than 65536
/// bytes.)
pub proof fn law_write_then_read(path: Seq<char>, shape: Seq<usize>, data: Seq<u32>)
    requires
        product_fits(shape),
        product(shape) == data.len(),
        npy_file_len(shape) <= usize::MAX,
        header(shape).len() < 65536,
    ensures
        header_complete(npy_file(shape, data)),
        file_content(path, npy_file(shape, data)) == Ok::<(Seq<usize>, Seq<u32>), Seq<char>>((shape, data)),
{
    let h = header(shape);
    let f = npy_file(shape, data);
    let n = h.len() as int;
    lemma_header_is_ascii(shape);
    vstd::utf8::is_ascii_chars_encode_utf8(h);
    let e = encode_utf8(h);
    assert(f.take(6) =~= magic().take(6));
    assert(f[6] == 1);
    assert(f[8] == (n % 256) as u8 && f[9] == (n / 256 % 256) as u8);
    assert(header_len(f) == n);
    assert(header_bytes(f) =~= e);
    assert(payload(f) =~= sample_bytes(data));
    vstd::utf8::encode_utf8_valid_utf8(h);
    vstd::utf8::encode_utf8_decode_utf8(h);
    lemma_header_round_trip(shape);
    lemma_sample_round_trip(data);
}

} // verus!
