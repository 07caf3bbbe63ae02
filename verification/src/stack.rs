//! The projection stack of a checkpoint: the sample projections (one plane of
//! single-precision samples per angle), the angle list, the
//! center-of-rotation scalar the reconstruction uses, and the record of the
//! corrections that were applied.
//!
//! Only what this tool needs of a checkpoint is here: everything else in the
//! file (ob/dc stacks, provenance) is left as it is.
use crate::ieee;
use crate::text;
use crate::text::{blank, decimal, joined, lines, one_line, texts, without_return};
use vstd::prelude::*;
use vstd::slice::slice_subrange;

verus! {

/// Metadata dataset the applied corrections are appended to (one JSON
/// object per line, newest last).
pub const RESULT_METADATA: &'static str = "tilt_center_of_rotation";

/// The projection stack as loaded from a checkpoint.
#[derive(Debug)]
pub struct Stack {
    pub path: String,
    /// `n * height * width` samples (bits of singles), angle-ordered like the
    /// file.
    pub data: Vec<u32>,
    pub n: usize,
    pub height: usize,
    pub width: usize,
    /// One angle (degrees, bits of a double) per projection; NaN when the file
    /// has none.
    pub angles_deg: Vec<u64>,
    /// The center of rotation (px, bits of a double), when the file carries
    /// one.
    pub center_of_rotation: Option<u64>,
    /// Previous runs of this tool recorded in the metadata (JSON strings),
    /// newest last: shown so an already-applied tilt is not applied twice.
    pub previous_corrections: Vec<String>,
}

impl Stack {
    /// The number of samples of one plane.
    pub open spec fn plane_size(&self) -> int {
        self.height * self.width
    }

    /// A stack that is not empty and holds a whole plane and an angle per
    /// projection.
    pub open spec fn wf(&self) -> bool {
        &&& self.n > 0
        &&& self.height > 0
        &&& self.width > 0
        &&& self.data@.len() == self.n * self.plane_size()
        &&& self.angles_deg@.len() == self.n
    }

    /// The samples of plane `i`, row by row.
    pub open spec fn plane_at(&self, i: int) -> Seq<u32> {
        self.data@.subrange(i * self.plane_size(), (i + 1) * self.plane_size())
    }

    /// The samples of plane `i`, row by row.
    pub fn plane(&self, i: usize) -> (r: &[u32])
        requires
            i < usize::MAX,
            self.plane_size() <= usize::MAX,
            (i + 1) * self.plane_size() <= self.data@.len(),
        ensures
            r@ == self.plane_at(i as int),
    {
        let size: usize = self.height * self.width;
        proof {
            assert(self.data@.len() == self.data.len());
            assert(0 <= i * size <= (i + 1) * size) by (nonlinear_arith)
                requires
                    0 <= size,
            ;
        }
        slice_subrange(self.data.as_slice(), i * size, (i + 1) * size)
    }
}

impl Stack {
    /// Whether the stack is not empty and holds a whole plane and an angle per
    /// projection.
    pub fn is_consistent(&self) -> (r: bool)
        ensures
            r == self.wf(),
    {
        if self.n == 0 || self.height == 0 || self.width == 0 || self.angles_deg.len() != self.n {
            return false;
        }
        match self.height.checked_mul(self.width) {
            None => {
                proof {
                    let size = self.plane_size();
                    assert(self.n * size >= size) by (nonlinear_arith)
                        requires
                            self.n >= 1,
                            size >= 0,
                    ;
                    assert(self.data@.len() == self.data.len());
                }
                false
            },
            Some(size) => match self.n.checked_mul(size) {
                None => {
                    assert(self.data@.len() == self.data.len());
                    false
                },
                Some(total) => self.data.len() == total,
            },
        }
    }
}

/// A well-formed stack has all the planes that its projection count says.
pub proof fn lemma_plane_fits(stack: &Stack, i: usize)
    requires
        stack.wf(),
        i < stack.n,
    ensures
        stack.plane_size() <= stack.data@.len(),
        (i + 1) * stack.plane_size() <= stack.data@.len(),
        stack.plane_at(i as int).len() == stack.plane_size(),
        stack.data@.len() <= usize::MAX,
{
    let size = stack.plane_size();
    assert(stack.data.len() == stack.data@.len());
    assert(0 <= size) by (nonlinear_arith)
        requires
            size == stack.height * stack.width,
    ;
    assert(size <= stack.n * size && (i + 1) * size <= stack.n * size && 0 <= i * size && (i + 1) * size == i * size + size)
        by (nonlinear_arith)
        requires
            i < stack.n,
            0 <= size,
    ;
}

/// The list `[a, b, ..]` of numbers in brackets.
pub open spec fn bracketed(shape: Seq<usize>) -> Seq<char> {
    "["@ + joined(Seq::new(shape.len(), |k: int| decimal(shape[k] as nat)), ", "@) + "]"@
}

/// The numbers of a list as decimal texts.
pub fn decimal_texts(shape: &[usize]) -> (r: Vec<String>)
    ensures
        texts(r@) == Seq::new(shape@.len(), |k: int| decimal(shape@[k] as nat)),
{
    let mut r: Vec<String> = Vec::new();
    let mut k: usize = 0;
    while k < shape.len()
        invariant
            k <= shape@.len(),
            r@.len() == k,
            forall|j: int| 0 <= j < k ==> (#[trigger] r@[j])@ == decimal(shape@[j] as nat),
        decreases shape@.len() - k,
    {
        let mut item: String = String::new();
        text::append_decimal(&mut item, shape[k]);
        assert(item@ =~= decimal(shape@[k as int] as nat));
        r.push(item);
        k = k + 1;
    }
    assert(texts(r@) =~= Seq::new(shape@.len(), |k: int| decimal(shape@[k] as nat)));
    r
}

/// The list of numbers in brackets.
pub fn bracketed_text(shape: &[usize]) -> (r: String)
    ensures
        r@ == bracketed(shape@),
{
    let items: Vec<String> = decimal_texts(shape);
    let inner: String = text::join(&items, ", ");
    let mut r: String = "[".to_owned();
    r.append(inner.as_str());
    r.append("]");
    r
}

/// Why a dataset of this shape is not a projection stack; `None` when it is
/// one.
pub open spec fn shape_fault(shape: Seq<usize>) -> Option<Seq<char>> {
    if shape.len() != 3 {
        Some("/projections is not a 3D stack (shape "@ + bracketed(shape) + ")"@)
    } else if shape[0] == 0 || shape[1] == 0 || shape[2] == 0 {
        Some("the projection stack is empty"@)
    } else {
        None
    }
}

/// The projection count, height and width that the shape of the projections
/// dataset gives.
pub fn stack_shape(shape: &[usize]) -> (r: Result<(usize, usize, usize), String>)
    ensures
        r is Ok <==> shape_fault(shape@) is None,
        r matches Ok(s) ==> shape@ == seq![s.0, s.1, s.2],
        r matches Err(e) ==> shape_fault(shape@) == Some(e@),
{
    if shape.len() != 3 {
        let mut e: String = "/projections is not a 3D stack (shape ".to_owned();
        let list: String = bracketed_text(shape);
        e.append(list.as_str());
        e.append(")");
        return Err(e);
    }
    let (n, height, width) = (shape[0], shape[1], shape[2]);
    if n == 0 || height == 0 || width == 0 {
        return Err("the projection stack is empty".to_owned());
    }
    assert(shape@ =~= seq![n, height, width]);
    Ok((n, height, width))
}

/// The recorded corrections that a metadata text holds: its lines that are
/// not blank.
pub open spec fn history(metadata: Seq<char>) -> Seq<Seq<char>> {
    not_blank(lines(metadata))
}

/// The lines that are not blank.
pub open spec fn not_blank(list: Seq<Seq<char>>) -> Seq<Seq<char>> {
    list.filter(|l: Seq<char>| !blank(l))
}

/// The recorded corrections of a metadata text.
pub fn parse_history(metadata: &str) -> (r: Vec<String>)
    ensures
        texts(r@) == history(metadata@),
{
    let all: Vec<String> = text::split_lines(metadata);
    let mut r: Vec<String> = Vec::new();
    let ghost keep = |l: Seq<char>| !blank(l);
    let mut k: usize = 0;
    proof {
        reveal(Seq::filter);
        assert(texts(all@).take(0) =~= Seq::<Seq<char>>::empty());
        assert(texts(r@) =~= Seq::<Seq<char>>::empty());
    }
    while k < all.len()
        invariant
            k <= all@.len(),
            keep == (|l: Seq<char>| !blank(l)),
            texts(r@) == texts(all@).take(k as int).filter(keep),
        decreases all@.len() - k,
    {
        let ghost shorter = texts(all@).take(k as int);
        let ghost longer = texts(all@).take(k + 1);
        proof {
            reveal(Seq::filter);
            assert(longer.drop_last() =~= shorter);
            assert(longer.last() == all@[k as int]@);
        }
        if !text::is_blank(all[k].as_str()) {
            let line: String = all[k].clone();
            let ghost was = texts(r@);
            r.push(line);
            assert(texts(r@) =~= was.push(line@));
        }
        k = k + 1;
    }
    assert(texts(all@).take(all@.len() as int) =~= texts(all@));
    r
}

/// What [`load`] makes of the angles dataset: NaN for every projection when
/// there is none.
pub open spec fn angles_or_nan(angles: Option<Seq<u64>>, n: usize) -> Seq<u64> {
    match angles {
        Some(a) => a,
        None => Seq::new(n as nat, |k: int| ieee::NAN),
    }
}

/// What the datasets of a checkpoint hold, beside the samples: the shape of
/// the projections, the angles, the center of rotation and the metadata text,
/// as far as the file has them.
#[verifier::ext_equal]
pub struct Datasets {
    pub shape: Seq<usize>,
    pub angles: Option<Seq<u64>>,
    pub center_of_rotation: Option<u64>,
    pub metadata: Option<Seq<char>>,
}

/// The text of a string that may be missing.
pub open spec fn optional_text(t: Option<&str>) -> Option<Seq<char>> {
    match t {
        Some(s) => Some(s@),
        None => None,
    }
}

/// The values of a vector that may be missing.
pub open spec fn optional_values(v: Option<Vec<u64>>) -> Option<Seq<u64>> {
    match v {
        Some(a) => Some(a@),
        None => None,
    }
}

/// Why the datasets make no stack; `None` when they do.
pub open spec fn datasets_fault(d: Datasets) -> Option<Seq<char>> {
    if shape_fault(d.shape) is Some {
        shape_fault(d.shape)
    } else if d.angles is Some && d.angles->0.len() != d.shape[0] {
        Some(decimal(d.angles->0.len()) + " angles for "@ + decimal(d.shape[0] as nat) + " projections"@)
    } else {
        None
    }
}

/// `s` is the stack that the datasets and the samples make.
pub open spec fn stack_of(path: Seq<char>, d: Datasets, data: Seq<u32>, s: Stack) -> bool {
    &&& s.path@ == path
    &&& s.data@ == data
    &&& d.shape == seq![s.n, s.height, s.width]
    &&& s.angles_deg@ == angles_or_nan(d.angles, s.n)
    &&& s.center_of_rotation == d.center_of_rotation
    &&& texts(s.previous_corrections@) == stored_history(d.metadata)
}

/// The stack that the datasets of a checkpoint make: the projections with
/// their shape, the angles, the center of rotation and the metadata text, as
/// far as the file has them.
pub fn load(
    path: &str,
    shape: &[usize],
    data: Vec<u32>,
    angles: Option<Vec<u64>>,
    center_of_rotation: Option<u64>,
    metadata: Option<&str>,
) -> (r: Result<Stack, String>)
    ensures
        ({
            let d = Datasets {
                shape: shape@,
                angles: optional_values(angles),
                center_of_rotation,
                metadata: optional_text(metadata),
            };
            &&& r is Ok <==> datasets_fault(d) is None
            &&& r matches Err(e) ==> datasets_fault(d) == Some(e@)
            &&& r matches Ok(s) ==> stack_of(path@, d, data@, s) && (data@.len() == shape@[0] * (shape@[1] * shape@[2])
                ==> s.wf())
        }),
{
    let (n, height, width) = match stack_shape(shape) {
        Ok(s) => s,
        Err(e) => {
            return Err(e);
        },
    };
    let angles_deg: Vec<u64> = match angles {
        Some(a) => a,
        None => vec![ieee::NAN; n],
    };
    if angles_deg.len() != n {
        let mut e: String = String::new();
        text::append_decimal(&mut e, angles_deg.len());
        e.append(" angles for ");
        text::append_decimal(&mut e, n);
        e.append(" projections");
        assert(e@ =~= decimal(angles_deg@.len()) + " angles for "@ + decimal(n as nat) + " projections"@);
        return Err(e);
    }
    let previous_corrections: Vec<String> = match metadata {
        Some(m) => parse_history(m),
        None => Vec::new(),
    };
    proof {
        if metadata is None {
            assert(texts(previous_corrections@) =~= Seq::empty());
        }
        if angles is None {
            assert(angles_deg@ =~= Seq::new(n as nat, |k: int| ieee::NAN));
        }
    }
    Ok(
        Stack {
            path: path.to_owned(),
            data,
            n,
            height,
            width,
            angles_deg,
            center_of_rotation,
            previous_corrections,
        },
    )
}

/// What is written into the checkpoint beside the samples: the shape of the
/// projections, the center of rotation and the metadata text.
#[derive(Debug)]
pub struct Checkpoint {
    pub shape: (usize, usize, usize),
    pub center_of_rotation: u64,
    pub metadata: String,
}

/// The metadata text of a history and one more record.
pub open spec fn extended_metadata(corrections: Seq<Seq<char>>, record: Seq<char>) -> Seq<char> {
    joined(corrections.push(record), "\n"@)
}

/// The recorded corrections that a checkpoint holds: those of its metadata text,
/// none without one.
pub open spec fn stored_history(metadata: Option<Seq<char>>) -> Seq<Seq<char>> {
    match metadata {
        Some(m) => history(m),
        None => Seq::empty(),
    }
}

/// What to write of the corrected stack: the projections replace the old ones,
/// the center of rotation is set, and `record` (a JSON object) is appended to
/// the tool's metadata dataset. `metadata` is the text that the dataset holds
/// now, if the file has one.
pub fn save(stack: &Stack, cor: u64, record: &str, metadata: Option<&str>) -> (r: Checkpoint)
    ensures
        r.shape == (stack.n, stack.height, stack.width),
        r.center_of_rotation == cor,
        r.metadata@ == extended_metadata(stored_history(optional_text(metadata)), record@),
{
    let mut entries: Vec<String> = match metadata {
        Some(m) => parse_history(m),
        None => Vec::new(),
    };
    let ghost before = texts(entries@);
    assert(before =~= stored_history(optional_text(metadata)));
    entries.push(record.to_owned());
    assert(texts(entries@) =~= before.push(record@));
    let text: String = text::join(&entries, "\n");
    Checkpoint { shape: (stack.n, stack.height, stack.width), center_of_rotation: cor, metadata: text }
}

/// Whether `l` survives as a line of the history: it holds no newline and is
/// not blank.
pub open spec fn history_entry(l: Seq<char>) -> bool {
    one_line(l) && !blank(l)
}

/// Everything that a history lists is a history entry.
pub proof fn law_history_lists_entries(metadata: Seq<char>)
    ensures
        forall|k: int| 0 <= k < history(metadata).len() ==> history_entry(#[trigger] history(metadata)[k]),
{
    text::lemma_lines_are_lines(metadata);
    lemma_filtered_entries(lines(metadata));
}

proof fn lemma_filtered_entries(list: Seq<Seq<char>>)
    requires
        forall|k: int| 0 <= k < list.len() ==> one_line(#[trigger] list[k]),
    ensures
        forall|k: int| 0 <= k < not_blank(list).len() ==> history_entry(#[trigger] not_blank(list)[k]),
    decreases list.len(),
{
    reveal(Seq::filter);
    if list.len() > 0 {
        let shorter = list.drop_last();
        assert forall|k: int| 0 <= k < shorter.len() implies one_line(#[trigger] shorter[k]) by {
            assert(shorter[k] == list[k]);
        }
        lemma_filtered_entries(shorter);
        let last = list.last();
        assert(one_line(list[list.len() - 1]));
        assert(not_blank(list) == if blank(last) {
            not_blank(shorter)
        } else {
            not_blank(shorter).push(last)
        });
        assert forall|k: int| 0 <= k < not_blank(list).len() implies history_entry(#[trigger] not_blank(list)[k]) by {
            if k < not_blank(shorter).len() {
                assert(not_blank(list)[k] == not_blank(shorter)[k]);
            }
        }
    }
}

/// A save appends to the history instead of replacing it: what is read back
/// is the history that was there, and the new record last. (An entry that
/// another follows must not end in a carriage return, which would count as
/// part of the line ending.)
pub proof fn law_save_appends_to_the_history(corrections: Seq<Seq<char>>, record: Seq<char>)
    requires
        forall|k: int| 0 <= k < corrections.len() ==> history_entry(#[trigger] corrections[k]),
        forall|k: int| 0 <= k < corrections.len() ==> without_return(#[trigger] corrections[k]) == corrections[k],
        history_entry(record),
    ensures
        history(extended_metadata(corrections, record)) == corrections.push(record),
{
    reveal_strlit("\n");
    assert("\n"@ =~= seq!['\n']);
    let list = corrections.push(record);
    assert forall|k: int| 0 <= k < list.len() implies one_line(#[trigger] list[k]) by {
        if k < corrections.len() {
            assert(list[k] == corrections[k]);
        }
    }
    assert forall|k: int| 0 <= k < list.len() - 1 implies without_return(#[trigger] list[k]) == list[k] by {
        assert(list[k] == corrections[k]);
    }
    text::law_join_then_split_lines(list);
    let keep = |l: Seq<char>| !blank(l);
    assert forall|k: int| 0 <= k < list.len() implies keep(#[trigger] list[k]) by {
        if k < corrections.len() {
            assert(list[k] == corrections[k]);
        }
    }
    lemma_filter_keeps_all(list, keep);
}

/// The datasets of a checkpoint that a save has written: the angles are left
/// as they were.
pub open spec fn saved_datasets(c: Checkpoint, angles: Seq<u64>) -> Datasets {
    Datasets {
        shape: seq![c.shape.0, c.shape.1, c.shape.2],
        angles: Some(angles),
        center_of_rotation: Some(c.center_of_rotation),
        metadata: Some(c.metadata@),
    }
}

/// Whether every entry of a history can be followed by another one: none ends
/// in a carriage return, which would count as part of the line ending.
pub open spec fn can_go_on(corrections: Seq<Seq<char>>) -> bool {
    forall|k: int| 0 <= k < corrections.len() ==> without_return(#[trigger] corrections[k]) == corrections[k]
}

proof fn lemma_stored_history_lists_entries(metadata: Option<Seq<char>>)
    ensures
        forall|k: int| 0 <= k < stored_history(metadata).len() ==> history_entry(#[trigger] stored_history(metadata)[k]),
{
    if metadata is Some {
        law_history_lists_entries(metadata->0);
    }
}

/// Every save leaves one more line, whether the stack was loaded anew in
/// between or not: after two saves the metadata holds what it held before, the
/// first record and the second one, newest last.
pub proof fn law_saves_accumulate(metadata: Option<Seq<char>>, first: Seq<char>, second: Seq<char>)
    requires
        can_go_on(stored_history(metadata)),
        history_entry(first),
        history_entry(second),
        without_return(first) == first,
    ensures
        ({
            let once = extended_metadata(stored_history(metadata), first);
            let twice = extended_metadata(stored_history(Some(once)), second);
            &&& history(once) == stored_history(metadata).push(first)
            &&& history(twice) == stored_history(metadata).push(first).push(second)
        }),
{
    let before = stored_history(metadata);
    lemma_stored_history_lists_entries(metadata);
    law_save_appends_to_the_history(before, first);
    let list = before.push(first);
    assert forall|k: int| 0 <= k < list.len() implies history_entry(#[trigger] list[k]) && without_return(list[k]) == list[k] by {
        if k < before.len() {
            assert(list[k] == before[k]);
        }
    }
    law_save_appends_to_the_history(list, second);
}

/// What a save wrote is what a load reads: the same projections and angles,
/// the center of rotation that was saved, and the history that the file held
/// with the record last.
pub proof fn law_save_then_load(stack: Stack, cor: u64, record: Seq<char>, metadata: Option<Seq<char>>, c: Checkpoint)
    requires
        stack.wf(),
        c.shape == (stack.n, stack.height, stack.width),
        c.center_of_rotation == cor,
        c.metadata@ == extended_metadata(stored_history(metadata), record),
        history_entry(record),
        can_go_on(stored_history(metadata)),
    ensures
        datasets_fault(saved_datasets(c, stack.angles_deg@)) is None,
        forall|path: Seq<char>, s: Stack| #[trigger]
            stack_of(path, saved_datasets(c, stack.angles_deg@), stack.data@, s) ==> {
                &&& s.wf()
                &&& (s.n, s.height, s.width) == (stack.n, stack.height, stack.width)
                &&& s.data@ == stack.data@
                &&& s.angles_deg@ == stack.angles_deg@
                &&& s.center_of_rotation == Some(cor)
                &&& texts(s.previous_corrections@) == stored_history(metadata).push(record)
            },
{
    lemma_stored_history_lists_entries(metadata);
    law_save_appends_to_the_history(stored_history(metadata), record);
    let d = saved_datasets(c, stack.angles_deg@);
    assert(d.shape[0] == stack.n && d.shape[1] == stack.height && d.shape[2] == stack.width);
    assert forall|path: Seq<char>, s: Stack| #[trigger] stack_of(path, d, stack.data@, s) implies (s.n, s.height, s.width) == (
        stack.n,
        stack.height,
        stack.width,
    ) by {
        assert(d.shape[0] == s.n && d.shape[1] == s.height && d.shape[2] == s.width);
    }
}

/// A filter that keeps every item changes nothing.
proof fn lemma_filter_keeps_all(list: Seq<Seq<char>>, keep: spec_fn(Seq<char>) -> bool)
    requires
        forall|k: int| 0 <= k < list.len() ==> keep(#[trigger] list[k]),
    ensures
        list.filter(keep) == list,
    decreases list.len(),
{
    reveal(Seq::filter);
    if list.len() > 0 {
        let shorter = list.drop_last();
        assert forall|k: int| 0 <= k < shorter.len() implies keep(#[trigger] shorter[k]) by {
            assert(shorter[k] == list[k]);
        }
        lemma_filter_keeps_all(shorter, keep);
        assert(list =~= shorter.push(list.last()));
    }
}

} // verus!
