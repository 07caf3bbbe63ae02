//! Text: decimal numbers, lines, joined lists, searching and trimming.
use vstd::prelude::*;
use vstd::utf8::{decode_utf8, valid_utf8};

verus! {

/// The digit character of `d`.
pub open spec fn digit(d: int) -> char {
    ('0' as u32 + d) as char
}

/// `n` in decimal, without leading zeros.
pub open spec fn decimal(n: nat) -> Seq<char>
    decreases n,
{
    if n < 10 {
        seq![digit(n as int)]
    } else {
        decimal(n / 10).push(digit((n % 10) as int))
    }
}

/// Whether `c` is an ASCII digit.
pub open spec fn is_digit(c: char) -> bool {
    '0' <= c <= '9'
}

/// Whether every character is a digit.
pub open spec fn all_digits(t: Seq<char>) -> bool {
    forall|i: int| 0 <= i < t.len() ==> is_digit(#[trigger] t[i])
}

/// The number that digits stand for.
pub open spec fn digits_value(t: Seq<char>) -> nat
    decreases t.len(),
{
    if t.len() == 0 {
        0
    } else {
        digits_value(t.drop_last()) * 10 + (t.last() as u32 - '0' as u32) as nat
    }
}

/// The digits of a number token: what follows an optional plus sign.
pub open spec fn unsigned_digits(t: Seq<char>) -> Seq<char> {
    if t.len() > 0 && t[0] == '+' {
        t.skip(1)
    } else {
        t
    }
}

/// The `usize` that a token spells; `None` when it spells none or one that is
/// too large.
pub open spec fn number(t: Seq<char>) -> Option<usize> {
    let d = unsigned_digits(t);
    if d.len() > 0 && all_digits(d) && digits_value(d) <= usize::MAX {
        Some(digits_value(d) as usize)
    } else {
        None
    }
}

/// Whether `c` has the Unicode property White_Space.
pub open spec fn is_space(c: char) -> bool {
    ||| '\u{9}' <= c <= '\u{d}'
    ||| c == ' '
    ||| c == '\u{85}'
    ||| c == '\u{a0}'
    ||| c == '\u{1680}'
    ||| '\u{2000}' <= c <= '\u{200a}'
    ||| c == '\u{2028}'
    ||| c == '\u{2029}'
    ||| c == '\u{202f}'
    ||| c == '\u{205f}'
    ||| c == '\u{3000}'
}

/// `t` without its leading white space.
pub open spec fn trimmed_start(t: Seq<char>) -> Seq<char>
    decreases t.len(),
{
    if t.len() > 0 && is_space(t[0]) {
        trimmed_start(t.skip(1))
    } else {
        t
    }
}

/// `t` without its trailing white space.
pub open spec fn trimmed_end(t: Seq<char>) -> Seq<char>
    decreases t.len(),
{
    if t.len() > 0 && is_space(t.last()) {
        trimmed_end(t.drop_last())
    } else {
        t
    }
}

/// `t` without white space at either end.
pub open spec fn trimmed(t: Seq<char>) -> Seq<char> {
    trimmed_end(trimmed_start(t))
}

/// Whether `t` is empty or all white space.
pub open spec fn blank(t: Seq<char>) -> bool {
    forall|i: int| 0 <= i < t.len() ==> is_space(#[trigger] t[i])
}

/// Whether `pattern` stands in `t` at `i`.
pub open spec fn occurs_at(t: Seq<char>, pattern: Seq<char>, i: int) -> bool {
    0 <= i && i + pattern.len() <= t.len() && t.subrange(i, i + pattern.len()) == pattern
}

/// The first place of `pattern` in `t`; -1 when there is none.
pub open spec fn find(t: Seq<char>, pattern: Seq<char>) -> int {
    find_from(t, pattern, 0)
}

/// The first place of `pattern` in `t` from `i` on; -1 when there is none.
pub open spec fn find_from(t: Seq<char>, pattern: Seq<char>, i: int) -> int
    decreases t.len() + 1 - i,
{
    if i + pattern.len() > t.len() {
        -1
    } else if occurs_at(t, pattern, i) {
        i
    } else {
        find_from(t, pattern, i + 1)
    }
}

/// The part of `t` before the first `pattern`; all of it when there is none.
pub open spec fn before(t: Seq<char>, pattern: Seq<char>) -> Seq<char> {
    if find(t, pattern) < 0 {
        t
    } else {
        t.take(find(t, pattern))
    }
}

/// The part of `t` behind the first `pattern`, up to the next one.
pub open spec fn second_piece(t: Seq<char>, pattern: Seq<char>) -> Option<Seq<char>> {
    if find(t, pattern) < 0 {
        None
    } else {
        Some(before(t.skip(find(t, pattern) + pattern.len()), pattern))
    }
}

/// A line without the carriage return of a two-character line ending.
pub open spec fn without_return(t: Seq<char>) -> Seq<char> {
    if t.len() > 0 && t.last() == '\r' {
        t.drop_last()
    } else {
        t
    }
}

/// The lines of `t`: each ends at a newline, the last one also at the end.
pub open spec fn lines(t: Seq<char>) -> Seq<Seq<char>>
    decreases t.len(),
{
    if t.len() == 0 {
        seq![]
    } else {
        let i = find(t, seq!['\n']);
        proof {
            lemma_find(t, seq!['\n']);
        }
        if i < 0 {
            seq![t]
        } else {
            seq![without_return(t.take(i))] + lines(t.skip(i + 1))
        }
    }
}

/// The items of `list` with `sep` between them.
pub open spec fn joined(list: Seq<Seq<char>>, sep: Seq<char>) -> Seq<char>
    decreases list.len(),
{
    if list.len() == 0 {
        seq![]
    } else if list.len() == 1 {
        list[0]
    } else {
        joined(list.drop_last(), sep) + sep + list.last()
    }
}

/// The texts of a list of strings.
pub open spec fn texts(list: Seq<String>) -> Seq<Seq<char>> {
    list.map_values(|s: String| s@)
}

/// What [`find`] finds: the first occurrence, if there is one.
pub proof fn lemma_find(t: Seq<char>, pattern: Seq<char>)
    ensures
        find(t, pattern) >= 0 ==> occurs_at(t, pattern, find(t, pattern)),
        find(t, pattern) >= 0 ==> find(t, pattern) + pattern.len() <= t.len(),
        forall|j: int| 0 <= j && (find(t, pattern) < 0 || j < find(t, pattern)) ==> !#[trigger] occurs_at(t, pattern, j),
{
    lemma_find_from(t, pattern, 0);
}

pub proof fn lemma_find_from(t: Seq<char>, pattern: Seq<char>, i: int)
    requires
        0 <= i,
    ensures
        ({
            let r = find_from(t, pattern, i);
            &&& r >= 0 ==> i <= r && occurs_at(t, pattern, r)
            &&& r < 0 ==> r == -1
            &&& forall|j: int| i <= j && (r < 0 || j < r) ==> !#[trigger] occurs_at(t, pattern, j)
        }),
    decreases t.len() + 1 - i,
{
    if i + pattern.len() > t.len() {
    } else if occurs_at(t, pattern, i) {
    } else {
        lemma_find_from(t, pattern, i + 1);
    }
}

/// The text of bytes that are mostly UTF-8: what is not becomes replacement
/// characters.
pub uninterp spec fn utf8_lossy(bytes: Seq<u8>) -> Seq<char>;

/// `String::from_utf8_lossy`: the text of the bytes, with a replacement
/// character for what is not UTF-8. Its result depends on the bytes alone, and
/// is their text where they are UTF-8 throughout.
#[verifier::external_body]
pub(crate) fn text_of_bytes(bytes: &[u8]) -> (r: String)
    ensures
        r@ == utf8_lossy(bytes@),
        valid_utf8(bytes@) ==> r@ == decode_utf8(bytes@),
{
    String::from_utf8_lossy(bytes).into_owned()
}

/// The text of bytes: exactly theirs where they are UTF-8, and what the lossy
/// conversion makes of them where they are not.
pub open spec fn lossy_text(bytes: Seq<u8>) -> Seq<char> {
    if valid_utf8(bytes) {
        decode_utf8(bytes)
    } else {
        utf8_lossy(bytes)
    }
}

/// The characters of a string.
pub fn characters(s: &str) -> (r: Vec<char>)
    ensures
        r@ == s@,
{
    let mut r: Vec<char> = Vec::new();
    for c in it: s.chars()
        invariant
            it.seq() == s@,
            r@ == s@.take(it.index()),
    {
        r.push(c);
        assert(s@.take(it.index() + 1) =~= s@.take(it.index()).push(c));
    }
    assert(s@.take(s@.len() as int) =~= s@);
    r
}

/// Whether `pattern` stands in `t` at `i`.
fn stands_at(t: &Vec<char>, pattern: &Vec<char>, i: usize) -> (r: bool)
    requires
        i + pattern@.len() <= t@.len(),
    ensures
        r == occurs_at(t@, pattern@, i as int),
{
    let n: usize = t.len();
    let mut k: usize = 0;
    while k < pattern.len()
        invariant
            n == t@.len(),
            k <= pattern@.len(),
            i + pattern@.len() <= n,
            forall|j: int| 0 <= j < k ==> t@[i + j] == #[trigger] pattern@[j],
        decreases pattern@.len() - k,
    {
        if t[i + k] != pattern[k] {
            proof {
                if occurs_at(t@, pattern@, i as int) {
                    assert(t@.subrange(i as int, i + pattern@.len())[k as int] == pattern@[k as int]);
                }
            }
            return false;
        }
        k = k + 1;
    }
    assert(t@.subrange(i as int, i + pattern@.len()) =~= pattern@);
    true
}

/// The first place of `pattern` in `t`.
pub fn position(t: &Vec<char>, pattern: &Vec<char>) -> (r: Option<usize>)
    ensures
        r matches Some(i) ==> find(t@, pattern@) == i && i + pattern@.len() <= t@.len(),
        r is None ==> find(t@, pattern@) == -1,
{
    if pattern.len() > t.len() {
        return None;
    }
    let last: usize = t.len() - pattern.len();
    let mut i: usize = 0;
    while i <= last
        invariant
            last + pattern@.len() == t@.len(),
            i <= last + 1,
            find(t@, pattern@) == find_from(t@, pattern@, i as int),
        decreases last + 1 - i,
    {
        if stands_at(t, pattern, i) {
            return Some(i);
        }
        if i == last {
            assert(find_from(t@, pattern@, i + 1) == -1);
            return None;
        }
        i = i + 1;
    }
    None
}

/// `from..to` of the characters, as a vector of their own.
pub fn part(t: &Vec<char>, from: usize, to: usize) -> (r: Vec<char>)
    requires
        from <= to <= t@.len(),
    ensures
        r@ == t@.subrange(from as int, to as int),
{
    let mut r: Vec<char> = Vec::new();
    let mut i: usize = from;
    while i < to
        invariant
            from <= i <= to <= t@.len(),
            r@ == t@.subrange(from as int, i as int),
        decreases to - i,
    {
        r.push(t[i]);
        i = i + 1;
        assert(t@.subrange(from as int, i as int) =~= t@.subrange(from as int, i - 1).push(t@[i - 1]));
    }
    r
}

/// Whether `c` is white space.
fn is_white(c: char) -> (r: bool)
    ensures
        r == is_space(c),
{
    ('\u{9}' <= c && c <= '\u{d}') || c == ' ' || c == '\u{85}' || c == '\u{a0}' || c == '\u{1680}' || ('\u{2000}' <= c && c
        <= '\u{200a}') || c == '\u{2028}' || c == '\u{2029}' || c == '\u{202f}' || c == '\u{205f}' || c == '\u{3000}'
}

/// The bounds of `t` without white space at either end.
pub fn trim_bounds(t: &Vec<char>) -> (r: (usize, usize))
    ensures
        r.0 <= r.1 <= t@.len(),
        trimmed(t@) == t@.subrange(r.0 as int, r.1 as int),
{
    let n: usize = t.len();
    let mut from: usize = 0;
    assert(t@.skip(0) =~= t@);
    while from < n && is_white(t[from])
        invariant
            n == t@.len(),
            from <= n,
            trimmed_start(t@) == trimmed_start(t@.skip(from as int)),
        decreases n - from,
    {
        assert(t@.skip(from as int)[0] == t@[from as int]);
        assert(t@.skip(from as int).skip(1) =~= t@.skip(from + 1));
        from = from + 1;
    }
    let ghost rest = t@.skip(from as int);
    assert(trimmed_start(t@) == rest) by {
        if from < n {
            assert(rest[0] == t@[from as int]);
        }
    }
    let mut to: usize = n;
    assert(t@.subrange(from as int, n as int) =~= rest);
    while to > from && is_white(t[to - 1])
        invariant
            n == t@.len(),
            from <= to <= n,
            trimmed_end(rest) == trimmed_end(t@.subrange(from as int, to as int)),
        decreases to,
    {
        assert(t@.subrange(from as int, to as int).last() == t@[to - 1]);
        assert(t@.subrange(from as int, to as int).drop_last() =~= t@.subrange(from as int, to - 1));
        to = to - 1;
    }
    assert(trimmed_end(t@.subrange(from as int, to as int)) == t@.subrange(from as int, to as int)) by {
        if to > from {
            assert(t@.subrange(from as int, to as int).last() == t@[to - 1]);
        }
    }
    (from, to)
}

/// `t` without white space at either end.
pub fn trim(t: &Vec<char>) -> (r: Vec<char>)
    ensures
        r@ == trimmed(t@),
{
    let (from, to) = trim_bounds(t);
    part(t, from, to)
}

/// Whether `s` is empty or all white space.
pub fn is_blank(s: &str) -> (r: bool)
    ensures
        r == blank(s@),
{
    let t: Vec<char> = characters(s);
    let mut i: usize = 0;
    while i < t.len()
        invariant
            t@ == s@,
            i <= t@.len(),
            forall|j: int| 0 <= j < i ==> is_space(#[trigger] t@[j]),
        decreases t@.len() - i,
    {
        if !is_white(t[i]) {
            return false;
        }
        i = i + 1;
    }
    true
}

/// The `usize` that a token spells.
pub fn parse_number(t: &Vec<char>) -> (r: Option<usize>)
    ensures
        r == number(t@),
{
    let n: usize = t.len();
    let start: usize = if n > 0 && t[0] == '+' {
        1
    } else {
        0
    };
    let ghost d = unsigned_digits(t@);
    assert(d =~= t@.subrange(start as int, n as int));
    if start == n {
        return None;
    }
    let mut value: usize = 0;
    let mut i: usize = start;
    while i < n
        invariant
            n == t@.len(),
            start <= i <= n,
            d == unsigned_digits(t@),
            d == t@.subrange(start as int, n as int),
            all_digits(d.take(i - start)),
            value == digits_value(d.take(i - start)),
        decreases n - i,
    {
        let c: char = t[i];
        assert(c == d[i - start]);
        if c < '0' || c > '9' {
            assert(!is_digit(d[i - start]));
            return None;
        }
        let x: usize = (c as u32 - '0' as u32) as usize;
        let ghost shorter = d.take(i - start);
        let ghost longer = d.take(i + 1 - start);
        assert(longer.drop_last() =~= shorter);
        assert(longer.last() == c);
        assert(digits_value(longer) == value * 10 + x);
        if value > usize::MAX / 10 || value * 10 > usize::MAX - x {
            proof {
                lemma_digits_value_grows(d, i + 1 - start);
            }
            return None;
        }
        assert(all_digits(longer)) by {
            assert forall|j: int| 0 <= j < longer.len() implies is_digit(#[trigger] longer[j]) by {
                if j < shorter.len() {
                    assert(shorter[j] == longer[j]);
                }
            }
        }
        value = value * 10 + x;
        i = i + 1;
    }
    assert(d.take(n - start) =~= d);
    Some(value)
}

/// A longer prefix of digits is no smaller a number.
proof fn lemma_digits_value_grows(d: Seq<char>, k: int)
    requires
        0 <= k <= d.len(),
    ensures
        all_digits(d) ==> digits_value(d) >= digits_value(d.take(k)),
    decreases d.len() - k,
{
    if k == d.len() {
        assert(d.take(k) =~= d);
    } else {
        lemma_digits_value_grows(d, k + 1);
        assert(d.take(k + 1).drop_last() =~= d.take(k));
        assert(d.take(k + 1).last() == d[k]);
    }
}

/// Decimal text is digits only, starts with a digit and spells its number.
pub proof fn lemma_decimal(n: nat)
    ensures
        decimal(n).len() > 0,
        all_digits(decimal(n)),
        digits_value(decimal(n)) == n,
    decreases n,
{
    reveal_with_fuel(digits_value, 2);
    if n < 10 {
        assert(decimal(n).drop_last() =~= Seq::<char>::empty());
    } else {
        lemma_decimal(n / 10);
        assert(decimal(n).drop_last() =~= decimal(n / 10));
        assert(decimal(n).last() == digit((n % 10) as int));
    }
}

/// What a `usize` is printed as, is read back as that `usize`.
pub proof fn law_decimal_round_trip(n: usize)
    ensures
        number(decimal(n as nat)) == Some(n),
{
    lemma_decimal(n as nat);
    assert(is_digit(decimal(n as nat)[0]));
}

/// Appends the digit `d`.
fn append_digit(s: &mut String, d: usize)
    requires
        d < 10,
    ensures
        final(s)@ == old(s)@.push(digit(d as int)),
{
    proof {
        reveal_strlit("0");
        reveal_strlit("1");
        reveal_strlit("2");
        reveal_strlit("3");
        reveal_strlit("4");
        reveal_strlit("5");
        reveal_strlit("6");
        reveal_strlit("7");
        reveal_strlit("8");
        reveal_strlit("9");
    }
    if d == 0 {
        s.append("0");
    } else if d == 1 {
        s.append("1");
    } else if d == 2 {
        s.append("2");
    } else if d == 3 {
        s.append("3");
    } else if d == 4 {
        s.append("4");
    } else if d == 5 {
        s.append("5");
    } else if d == 6 {
        s.append("6");
    } else if d == 7 {
        s.append("7");
    } else if d == 8 {
        s.append("8");
    } else {
        s.append("9");
    }
    assert(s@ =~= old(s)@.push(digit(d as int)));
}

/// Appends `n` in decimal.
pub fn append_decimal(s: &mut String, n: usize)
    ensures
        final(s)@ == old(s)@ + decimal(n as nat),
    decreases n,
{
    if n < 10 {
        append_digit(s, n);
        assert(s@ =~= old(s)@ + decimal(n as nat));
    } else {
        append_decimal(s, n / 10);
        append_digit(s, n % 10);
        assert(s@ =~= old(s)@ + decimal(n as nat));
    }
}

/// The lines of `s`.
pub fn split_lines(s: &str) -> (r: Vec<String>)
    ensures
        texts(r@) == lines(s@),
{
    let t: Vec<char> = characters(s);
    let n: usize = t.len();
    let mut r: Vec<String> = Vec::new();
    let mut from: usize = 0;
    let mut i: usize = 0;
    assert(s@.skip(0) =~= s@);
    assert(texts(r@) =~= Seq::<Seq<char>>::empty());
    assert(texts(r@) + lines(s@) =~= lines(s@));
    while i < n
        invariant
            t@ == s@,
            n == t@.len(),
            from <= i <= n,
            forall|j: int| from <= j < i ==> #[trigger] t@[j] != '\n',
            texts(r@) + lines(s@.skip(from as int)) == lines(s@),
        decreases n - i,
    {
        if t[i] == '\n' {
            let to: usize = if i > from && t[i - 1] == '\r' {
                i - 1
            } else {
                i
            };
            let line: String = s.substring_char(from, to).to_owned();
            let ghost rest = s@.skip(from as int);
            let ghost whole = texts(r@);
            proof {
                lemma_line_break(rest, i - from);
                assert(rest.take(i - from) =~= s@.subrange(from as int, i as int));
                assert(without_return(rest.take(i - from)) =~= s@.subrange(from as int, to as int));
                assert(rest.skip(i - from + 1) =~= s@.skip(i + 1));
            }
            r.push(line);
            assert(texts(r@) =~= whole.push(line@));
            assert(texts(r@) + lines(s@.skip(i + 1)) =~= whole + lines(rest));
            from = i + 1;
        }
        i = i + 1;
    }
    let ghost rest = s@.skip(from as int);
    if from < n {
        let line: String = s.substring_char(from, n).to_owned();
        let ghost whole = texts(r@);
        proof {
            lemma_find(rest, seq!['\n']);
            let k = find(rest, seq!['\n']);
            if k >= 0 {
                assert(rest.subrange(k, k + 1)[0] == '\n');
                assert(t@[from + k] == '\n');
            }
            assert(rest =~= s@.subrange(from as int, n as int));
        }
        r.push(line);
        assert(texts(r@) =~= whole + seq![line@]);
    } else {
        assert(lines(rest) =~= Seq::<Seq<char>>::empty());
        assert(texts(r@) + lines(rest) =~= texts(r@));
    }
    r
}

/// The first newline splits the first line off.
proof fn lemma_line_break(t: Seq<char>, k: int)
    requires
        0 <= k < t.len(),
        t[k] == '\n',
        forall|j: int| 0 <= j < k ==> #[trigger] t[j] != '\n',
    ensures
        find(t, seq!['\n']) == k,
        lines(t) == seq![without_return(t.take(k))] + lines(t.skip(k + 1)),
{
    let p = seq!['\n'];
    lemma_find(t, p);
    let f = find(t, p);
    assert(t.subrange(k, k + 1) =~= p);
    assert(occurs_at(t, p, k));
    if 0 <= f < k {
        assert(t.subrange(f, f + 1)[0] == t[f]);
    }
}

/// The items of `list` with `sep` between them.
pub fn join(list: &Vec<String>, sep: &str) -> (r: String)
    ensures
        r@ == joined(texts(list@), sep@),
{
    let mut r: String = String::new();
    let mut i: usize = 0;
    let ghost all = texts(list@);
    while i < list.len()
        invariant
            i <= list@.len(),
            all == texts(list@),
            r@ == joined(all.take(i as int), sep@),
        decreases list@.len() - i,
    {
        let ghost shorter = all.take(i as int);
        let ghost longer = all.take(i + 1);
        let ghost was = r@;
        if i > 0 {
            r.append(sep);
        }
        r.append(list[i].as_str());
        proof {
            assert(longer.drop_last() =~= shorter);
            assert(longer.last() == list@[i as int]@);
            if i == 0 {
                assert(longer[0] == list@[0]@);
                assert(r@ =~= joined(longer, sep@));
            }
        }
        i = i + 1;
    }
    assert(all.take(list@.len() as int) =~= all);
    r
}

/// A joined list starts with its first item.
pub proof fn lemma_joined_front(list: Seq<Seq<char>>, sep: Seq<char>)
    requires
        list.len() >= 2,
    ensures
        joined(list, sep) == list[0] + sep + joined(list.drop_first(), sep),
    decreases list.len(),
{
    let rest = list.drop_first();
    if list.len() == 2 {
        assert(list.drop_last()[0] == list[0]);
        assert(joined(list.drop_last(), sep) == list[0]);
        assert(joined(rest, sep) == list.last());
        assert(joined(list, sep) =~= list[0] + sep + joined(rest, sep));
    } else {
        lemma_joined_front(list.drop_last(), sep);
        assert(list.drop_last().drop_first() =~= rest.drop_last());
        assert(rest.last() == list.last());
        assert(joined(list, sep) =~= list[0] + sep + joined(rest, sep));
    }
}

/// Whether `l` holds no newline.
pub open spec fn one_line(l: Seq<char>) -> bool {
    forall|i: int| 0 <= i < l.len() ==> #[trigger] l[i] != '\n'
}

/// Lines that are joined by newlines are split again into the same lines:
/// items without newlines, of which the last is not empty and only the last
/// may end in a carriage return.
pub proof fn law_join_then_split_lines(list: Seq<Seq<char>>)
    requires
        forall|k: int| 0 <= k < list.len() ==> one_line(#[trigger] list[k]),
        forall|k: int| 0 <= k < list.len() - 1 ==> without_return(#[trigger] list[k]) == list[k],
        list.len() > 0 ==> list.last().len() > 0,
    ensures
        lines(joined(list, seq!['\n'])) == list,
    decreases list.len(),
{
    let nl = seq!['\n'];
    let t = joined(list, nl);
    if list.len() == 0 {
        assert(lines(t) =~= list);
    } else if list.len() == 1 {
        lemma_find(t, nl);
        let f = find(t, nl);
        if f >= 0 {
            assert(t.subrange(f, f + 1)[0] == t[f]);
            assert(list[0][f] == '\n');
        }
        assert(lines(t) =~= list);
    } else {
        let rest = list.drop_first();
        lemma_joined_front(list, nl);
        let k = list[0].len() as int;
        assert(t[k] == '\n');
        assert forall|j: int| 0 <= j < k implies #[trigger] t[j] != '\n' by {
            assert(t[j] == list[0][j]);
        }
        lemma_line_break(t, k);
        assert(t.take(k) =~= list[0]);
        assert(t.skip(k + 1) =~= joined(rest, nl));
        assert forall|m: int| 0 <= m < rest.len() implies one_line(#[trigger] rest[m]) by {
            assert(rest[m] == list[m + 1]);
        }
        assert forall|m: int| 0 <= m < rest.len() - 1 implies without_return(#[trigger] rest[m]) == rest[m] by {
            assert(rest[m] == list[m + 1]);
        }
        law_join_then_split_lines(rest);
        assert(lines(t) =~= list);
    }
}

/// No line holds a newline.
pub proof fn lemma_lines_are_lines(t: Seq<char>)
    ensures
        forall|k: int| 0 <= k < lines(t).len() ==> one_line(#[trigger] lines(t)[k]),
    decreases t.len(),
{
    let nl = seq!['\n'];
    if t.len() > 0 {
        lemma_find(t, nl);
        let f = find(t, nl);
        if f < 0 {
            assert forall|i: int| 0 <= i < t.len() implies #[trigger] t[i] != '\n' by {
                if t[i] == '\n' {
                    assert(t.subrange(i, i + 1) =~= nl);
                    assert(occurs_at(t, nl, i));
                }
            }
        } else {
            lemma_lines_are_lines(t.skip(f + 1));
            let first = without_return(t.take(f));
            assert forall|i: int| 0 <= i < first.len() implies #[trigger] first[i] != '\n' by {
                assert(first[i] == t[i]);
                if t[i] == '\n' {
                    assert(t.subrange(i, i + 1) =~= nl);
                    assert(occurs_at(t, nl, i));
                }
            }
            assert forall|k: int| 0 <= k < lines(t).len() implies one_line(#[trigger] lines(t)[k]) by {
                if k > 0 {
                    assert(lines(t)[k] == lines(t.skip(f + 1))[k - 1]);
                }
            }
        }
    }
}

/// Whether `pattern` stands anywhere in `t`.
pub fn contains(t: &Vec<char>, pattern: &str) -> (r: bool)
    ensures
        r == (find(t@, pattern@) >= 0),
{
    position(t, &characters(pattern)).is_some()
}

/// The part of `t` before the first `pattern`.
pub fn text_before(t: &Vec<char>, pattern: &str) -> (r: Vec<char>)
    ensures
        r@ == before(t@, pattern@),
{
    match position(t, &characters(pattern)) {
        Some(i) => {
            assert(t@.take(i as int) =~= t@.subrange(0, i as int));
            part(t, 0, i)
        },
        None => {
            assert(t@.subrange(0, t@.len() as int) =~= t@);
            part(t, 0, t.len())
        },
    }
}

/// The part of `t` behind the first `pattern`, up to the next one.
pub fn text_second_piece(t: &Vec<char>, pattern: &str) -> (r: Option<Vec<char>>)
    ensures
        r is Some <==> second_piece(t@, pattern@) is Some,
        r matches Some(piece) ==> second_piece(t@, pattern@) == Some(piece@),
{
    let p: Vec<char> = characters(pattern);
    match position(t, &p) {
        Some(i) => {
            let n: usize = t.len();
            let behind: Vec<char> = part(t, i + p.len(), n);
            assert(behind@ =~= t@.skip(i + p@.len()));
            Some(text_before(&behind, pattern))
        },
        None => None,
    }
}

/// A pattern with a character that `t` lacks is not found.
pub proof fn lemma_find_absent(t: Seq<char>, pattern: Seq<char>, o: int)
    requires
        0 <= o < pattern.len(),
        forall|i: int| 0 <= i < t.len() ==> #[trigger] t[i] != pattern[o],
    ensures
        find(t, pattern) < 0,
        before(t, pattern) == t,
{
    lemma_find(t, pattern);
    let f = find(t, pattern);
    if f >= 0 {
        assert(t.subrange(f, f + pattern.len())[o] == t[f + o]);
    }
}

/// A pattern that stands at `k` is found there when one of its characters
/// appears first at its place in that occurrence.
pub proof fn lemma_find_at(t: Seq<char>, pattern: Seq<char>, o: int, k: int)
    requires
        0 <= o < pattern.len(),
        occurs_at(t, pattern, k),
        forall|i: int| 0 <= i < k + o ==> #[trigger] t[i] != pattern[o],
    ensures
        find(t, pattern) == k,
{
    lemma_find(t, pattern);
    let f = find(t, pattern);
    if 0 <= f < k {
        assert(t.subrange(f, f + pattern.len())[o] == t[f + o]);
    }
}

} // verus!
