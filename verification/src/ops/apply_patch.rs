//! Anchor-based patching: every edit locates its anchors in the current text,
//! the edits are ordered back to front, checked for overlap, and applied to a
//! copy of the rope.
use vstd::prelude::*;
use vstd::utf8::*;
use ropey::Rope;
use crate::protocol::{
    AppliedEditSummary, ApplyPatchArgs, ApplyPatchResult, DetailValue, DetailView, EngineError, EngineErrorView, ErrorCode,
    PatchAnchor, PatchEdit, PatchRegion, details_view, detailed_error,
};
use crate::workspace::{io_details, io_error};
use crate::rope::{rope_clone, rope_insert, rope_remove, rope_text, rope_to_string};
use crate::text::{
    lemma_boundary_lift, lemma_encode_concat, lemma_first_occurrence_from, lemma_occurrence_boundaries,
    lemma_split_at_boundary, chars_before, char_index_of_byte, count_newlines_before, decimal, decimal_string, find_all,
    first_occurrence, lemma_chars_before_all, lemma_chars_before_monotone,
    lemma_occurrence_list, lemma_line_at_bound, lemma_line_at_monotone, line_at, newline_count, lists_occurrences, occurrence_count, occurs_at,
    occurs_twice, push_str, str_eq,
};

verus! {

broadcast use vstd::utf8::group_utf8_lib;

// ---------------------------------------------------------------------------
// Planned edits
// ---------------------------------------------------------------------------

/// An edit located in the text: the byte range it replaces and its text.
pub struct PlannedEdit {
    pub start_byte: usize,
    pub end_byte: usize,
    pub replacement: String,
    pub kind: String,
    pub summary: String,
}

/// The mathematical content of a [`PlannedEdit`].
pub struct PlanView {
    pub start: int,
    pub end: int,
    pub replacement: Seq<char>,
    pub kind: Seq<char>,
    pub summary: Seq<char>,
}

impl View for PlannedEdit {
    type V = PlanView;

    open spec fn view(&self) -> PlanView {
        PlanView {
            start: self.start_byte as int,
            end: self.end_byte as int,
            replacement: self.replacement@,
            kind: self.kind@,
            summary: self.summary@,
        }
    }
}

/// The UTF-8 bytes of a needle.
pub open spec fn needle_bytes(a: PatchAnchor) -> Seq<u8> {
    encode_utf8(a.needle@)
}

/// Whether an anchor asks to occur only once.
pub open spec fn requires_unique(a: PatchAnchor) -> bool {
    a.require_unique == Some(true)
}

/// The inputs on which the needle search terminates normally: the needle is
/// non-empty (an empty needle occurs at every offset, past the end too).
pub open spec fn searchable(h: Seq<u8>, n: Seq<u8>) -> bool {
    n.len() > 0
}

/// Whether an anchor found more than once is refused: always in strict mode,
/// and otherwise when the anchor asks to be unique.
pub open spec fn refuses_repeat(a: PatchAnchor, strict: bool) -> bool {
    strict || requires_unique(a)
}

pub open spec fn anchor_details(idx: int, needle: Seq<char>) -> Seq<(Seq<char>, DetailView)> {
    seq![("edit"@, DetailView::Int(idx)), ("anchor"@, DetailView::Str(needle))]
}

pub open spec fn count_details(idx: int, needle: Seq<char>, count: nat) -> Seq<(Seq<char>, DetailView)> {
    seq![
        ("edit"@, DetailView::Int(idx)),
        ("anchor"@, DetailView::Str(needle)),
        ("count"@, DetailView::Int(count as int)),
    ]
}

/// `Insert {n} bytes {where} anchor`.
pub open spec fn insert_summary(n: nat, where_: Seq<char>) -> Seq<char> {
    "Insert "@ + decimal(n) + " bytes "@ + where_ + " anchor"@
}

/// `Replace {n} bytes with {m} bytes`.
pub open spec fn replace_summary(n: nat, m: nat) -> Seq<char> {
    "Replace "@ + decimal(n) + " bytes with "@ + decimal(m) + " bytes"@
}

/// `Delete {n} bytes`.
pub open spec fn delete_summary(n: nat) -> Seq<char> {
    "Delete "@ + decimal(n) + " bytes"@
}

/// Where an insert goes, or the error it reports.
pub open spec fn insert_spec(
    where_: Seq<char>,
    anchor: PatchAnchor,
    text: Seq<char>,
    h: Seq<u8>,
    strict: bool,
    idx: int,
) -> Result<Option<PlanView>, EngineErrorView> {
    let n = needle_bytes(anchor);
    let f = first_occurrence(h, n);
    if f == -1 {
        if strict {
            Err(detailed_error(ErrorCode::DriftDetected, "Anchor not found"@, anchor_details(idx, anchor.needle@)))
        } else {
            Ok(None)
        }
    } else if refuses_repeat(anchor, strict) && occurs_twice(h, n) {
        Err(detailed_error(
            ErrorCode::DriftDetected,
            "Anchor is not unique"@,
            count_details(idx, anchor.needle@, occurrence_count(h, n)),
        ))
    } else if where_ == "before"@ {
        Ok(Some(PlanView { start: f, end: f, replacement: text, kind: "insert"@, summary: insert_summary(encode_utf8(text).len(), where_) }))
    } else if where_ == "after"@ {
        Ok(Some(PlanView { start: f + n.len(), end: f + n.len(), replacement: text, kind: "insert"@, summary: insert_summary(encode_utf8(text).len(), where_) }))
    } else {
        Err(detailed_error(ErrorCode::InvalidArgument, "Invalid 'where' value"@, seq![("where"@, DetailView::Str(where_))]))
    }
}

/// The byte range a region denotes (from the start of its start needle), the
/// error it reports, or `None` when a missing anchor is tolerated (outside
/// strict mode).
pub open spec fn region_spec(target: PatchRegion, h: Seq<u8>, strict: bool, idx: int) -> Result<Option<(int, int)>, EngineErrorView> {
    let sn = needle_bytes(target.start);
    let f = first_occurrence(h, sn);
    if f == -1 {
        if strict {
            Err(detailed_error(ErrorCode::DriftDetected, "Start anchor not found"@, anchor_details(idx, target.start.needle@)))
        } else {
            Ok(None)
        }
    } else if refuses_repeat(target.start, strict) && occurs_twice(h, sn) {
        Err(detailed_error(
            ErrorCode::DriftDetected,
            "Start anchor is not unique"@,
            count_details(idx, target.start.needle@, occurrence_count(h, sn)),
        ))
    } else {
        let after = f + sn.len();
        match target.end {
            None => Ok(Some((f, after))),
            Some(e) => {
                let rest = h.skip(after);
                let en = needle_bytes(e);
                let g = first_occurrence(rest, en);
                if g == -1 {
                    if strict {
                        Err(detailed_error(ErrorCode::DriftDetected, "End anchor not found"@, anchor_details(idx, e.needle@)))
                    } else {
                        Ok(None)
                    }
                } else if refuses_repeat(e, strict) && occurs_twice(rest, en) {
                    Err(detailed_error(
                        ErrorCode::DriftDetected,
                        "End anchor is not unique"@,
                        count_details(idx, e.needle@, occurrence_count(rest, en)),
                    ))
                } else if target.include_end_needle == Some(true) {
                    Ok(Some((f, after + g + en.len())))
                } else {
                    Ok(Some((f, after + g)))
                }
            },
        }
    }
}

/// The searches a region makes end normally: its needles are non-empty, the
/// end needle only where its search is reached.
pub open spec fn region_searchable(target: PatchRegion, h: Seq<u8>, strict: bool) -> bool {
    let sn = needle_bytes(target.start);
    let f = first_occurrence(h, sn);
    &&& searchable(h, sn)
    &&& (f != -1 && !(refuses_repeat(target.start, strict) && occurs_twice(h, sn)) && target.end is Some)
        ==> searchable(h.skip(f + sn.len()), needle_bytes(target.end.unwrap()))
}

/// The searches an edit makes end normally.
pub open spec fn edit_searchable(edit: PatchEdit, h: Seq<u8>, strict: bool) -> bool {
    match edit {
        PatchEdit::Insert { where_, anchor, text } => searchable(h, needle_bytes(anchor)),
        PatchEdit::Replace { target, replacement } => region_searchable(target, h, strict),
        PatchEdit::Delete { target } => region_searchable(target, h, strict),
    }
}

/// What one edit plans, or the error it reports.
#[verifier::opaque]
pub open spec fn plan_spec(edit: PatchEdit, h: Seq<u8>, strict: bool, idx: int) -> Result<Option<PlanView>, EngineErrorView> {
    match edit {
        PatchEdit::Insert { where_, anchor, text } => insert_spec(where_@, anchor, text@, h, strict, idx),
        PatchEdit::Replace { target, replacement } => match region_spec(target, h, strict, idx) {
            Err(e) => Err(e),
            Ok(None) => Ok(None),
            Ok(Some((s, e))) => Ok(Some(PlanView {
                start: s,
                end: e,
                replacement: replacement@,
                kind: "replace"@,
                summary: replace_summary((e - s) as nat, encode_utf8(replacement@).len()),
            })),
        },
        PatchEdit::Delete { target } => match region_spec(target, h, strict, idx) {
            Err(e) => Err(e),
            Ok(None) => Ok(None),
            Ok(Some((s, e))) => Ok(Some(PlanView {
                start: s,
                end: e,
                replacement: Seq::empty(),
                kind: "delete"@,
                summary: delete_summary((e - s) as nat),
            })),
        },
    }
}

/// What the first `k` edits plan, in order, or the first error.
pub open spec fn plan_prefix(edits: Seq<PatchEdit>, h: Seq<u8>, strict: bool, k: int) -> Result<Seq<PlanView>, EngineErrorView>
    decreases k,
{
    if k <= 0 {
        Ok(Seq::empty())
    } else {
        match plan_prefix(edits, h, strict, k - 1) {
            Err(e) => Err(e),
            Ok(prev) => match plan_spec(edits[k - 1], h, strict, k - 1) {
                Err(e) => Err(e),
                Ok(None) => Ok(prev),
                Ok(Some(p)) => Ok(prev.push(p)),
            },
        }
    }
}

/// The searches of every edit that is reached end normally.
pub open spec fn edits_searchable(edits: Seq<PatchEdit>, h: Seq<u8>, strict: bool) -> bool {
    forall|i: int| 0 <= i < edits.len() && #[trigger] plan_prefix(edits, h, strict, i) is Ok
        ==> edit_searchable(edits[i], h, strict)
}

// ---------------------------------------------------------------------------
// Ordering, overlap and application
// ---------------------------------------------------------------------------

/// Inserts `x` after every trailing element whose start is at least `x`'s:
/// one step of a stable sort by descending start.
pub open spec fn insert_by_start_desc(s: Seq<PlanView>, x: PlanView) -> Seq<PlanView>
    decreases s.len(),
{
    if s.len() == 0 {
        seq![x]
    } else if s.last().start >= x.start {
        s.push(x)
    } else {
        insert_by_start_desc(s.drop_last(), x).push(s.last())
    }
}

/// The stable sort of `s` by descending start.
pub open spec fn sort_by_start_desc(s: Seq<PlanView>) -> Seq<PlanView>
    decreases s.len(),
{
    if s.len() == 0 {
        s
    } else {
        insert_by_start_desc(sort_by_start_desc(s.drop_last()), s.last())
    }
}

/// The edits are ordered by descending start.
pub open spec fn descending(s: Seq<PlanView>) -> bool {
    forall|i: int, j: int| 0 <= i < j < s.len() ==> s[i].start >= s[j].start
}

proof fn lemma_insert_by_start_desc(s: Seq<PlanView>, x: PlanView)
    requires
        descending(s),
    ensures
        descending(insert_by_start_desc(s, x)),
        insert_by_start_desc(s, x).to_multiset() =~= s.to_multiset().insert(x),
        forall|i: int| 0 <= i < insert_by_start_desc(s, x).len()
            ==> #[trigger] insert_by_start_desc(s, x)[i] == x || s.contains(insert_by_start_desc(s, x)[i]),
    decreases s.len(),
{
    broadcast use vstd::seq_lib::group_to_multiset_ensures;
    if s.len() == 0 {
        assert(seq![x] =~= Seq::<PlanView>::empty().push(x));
    } else if s.last().start >= x.start {
    } else {
        let d = s.drop_last();
        let r = insert_by_start_desc(d, x);
        lemma_insert_by_start_desc(d, x);
        assert(d.push(s.last()) =~= s);
        assert forall|i: int| 0 <= i < r.len() implies (#[trigger] r[i]).start >= s.last().start by {
            if r[i] != x {
                let k = choose|k: int| 0 <= k < d.len() && d[k] == r[i];
                assert(s[k] == d[k]);
            }
        }
        assert forall|i: int| 0 <= i < r.len() implies #[trigger] r[i] == x || s.contains(r[i]) by {
            if r[i] != x {
                let k = choose|k: int| 0 <= k < d.len() && d[k] == r[i];
                assert(s[k] == d[k]);
            }
        }
    }
}

/// Sorting keeps every edit, and orders them by descending start: the edits
/// are applied from the back of the text to its front.
pub proof fn lemma_sort_by_start_desc(s: Seq<PlanView>)
    ensures
        descending(sort_by_start_desc(s)),
        sort_by_start_desc(s).to_multiset() =~= s.to_multiset(),
    decreases s.len(),
{
    broadcast use vstd::seq_lib::group_to_multiset_ensures;
    if s.len() > 0 {
        lemma_sort_by_start_desc(s.drop_last());
        lemma_insert_by_start_desc(sort_by_start_desc(s.drop_last()), s.last());
        assert(s.drop_last().push(s.last()) =~= s);
    }
}

/// Two byte ranges share a byte.
pub open spec fn overlap(a: PlanView, b: PlanView) -> bool {
    a.start < b.end && b.start < a.end
}

/// The pair `(i, j)`, `i < j`, of overlapping edits that comes first in
/// lexicographic order.
pub open spec fn is_first_overlap(s: Seq<PlanView>, i: int, j: int) -> bool {
    &&& 0 <= i < j < s.len()
    &&& overlap(s[i], s[j])
    &&& forall|a: int, b: int| 0 <= a < b < s.len() && (a < i || (a == i && b < j)) ==> !overlap(s[a], s[b])
}

/// Some two edits overlap.
pub open spec fn has_overlap(s: Seq<PlanView>) -> bool {
    exists|i: int, j: int| 0 <= i < j < s.len() && overlap(s[i], s[j])
}

/// One planned edit applied to a text: its byte range, measured in the text
/// as it is at that point, becomes a char range that is replaced.
pub open spec fn apply_one(t: Seq<char>, p: PlanView) -> Seq<char> {
    let b = encode_utf8(t);
    let s = chars_before(b, p.start) as int;
    let e = chars_before(b, p.end) as int;
    t.subrange(0, s) + p.replacement + t.subrange(e, t.len() as int)
}

/// The first `k` planned edits applied in order.
pub open spec fn apply_prefix(t: Seq<char>, ps: Seq<PlanView>, k: int) -> Seq<char>
    decreases k,
{
    if k <= 0 {
        t
    } else {
        apply_one(apply_prefix(t, ps, k - 1), ps[k - 1])
    }
}

/// The summary reported for one applied edit.
pub struct SummaryView {
    pub kind: Seq<char>,
    pub summary: Seq<char>,
    pub start_line: Option<u32>,
    pub end_line: Option<u32>,
}

impl View for AppliedEditSummary {
    type V = SummaryView;

    open spec fn view(&self) -> SummaryView {
        SummaryView {
            kind: self.kind@,
            summary: self.summary@,
            start_line: self.start_line,
            end_line: self.end_line,
        }
    }
}

pub open spec fn summary_of(h: Seq<u8>, p: PlanView) -> SummaryView {
    SummaryView {
        kind: p.kind,
        summary: p.summary,
        start_line: Some(line_at(h, p.start) as u32),
        end_line: Some(line_at(h, p.end) as u32),
    }
}

/// What patching a text gives: the new text and the summaries, or an error.
pub open spec fn patch_spec(t: Seq<char>, edits: Seq<PatchEdit>, strict: bool) -> Result<(Seq<char>, Seq<SummaryView>), EngineErrorView> {
    let h = encode_utf8(t);
    match plan_prefix(edits, h, strict, edits.len() as int) {
        Err(e) => Err(e),
        Ok(planned) => {
            let sorted = sort_by_start_desc(planned);
            if strict && has_overlap(sorted) {
                Err(overlap_error(sorted))
            } else {
                Ok((apply_prefix(t, sorted, sorted.len() as int), sorted.map_values(|p: PlanView| summary_of(h, p))))
            }
        },
    }
}

// ---------------------------------------------------------------------------
// Implementation
// ---------------------------------------------------------------------------

fn detail_int(key: &str, v: usize) -> (d: (String, DetailValue))
    ensures
        d.0@ == key@,
        d.1@ == DetailView::Int(v as int),
{
    (key.to_owned(), DetailValue::Int(v as i128))
}

fn detail_str(key: &str, v: &str) -> (d: (String, DetailValue))
    ensures
        d.0@ == key@,
        d.1@ == DetailView::Str(v@),
{
    (key.to_owned(), DetailValue::Str(v.to_owned()))
}

fn anchor_error(message: &str, idx: usize, needle: &str) -> (e: EngineError)
    ensures
        e@ == detailed_error(ErrorCode::DriftDetected, message@, anchor_details(idx as int, needle@)),
{
    let mut d: Vec<(String, DetailValue)> = Vec::new();
    d.push(detail_int("edit", idx));
    d.push(detail_str("anchor", needle));
    proof {
        assert(details_view(d@) =~= anchor_details(idx as int, needle@));
    }
    EngineError::new(ErrorCode::DriftDetected, message.to_owned()).with_details(d)
}

fn count_error(message: &str, idx: usize, needle: &str, count: usize) -> (e: EngineError)
    ensures
        e@ == detailed_error(ErrorCode::DriftDetected, message@, count_details(idx as int, needle@, count as nat)),
{
    let mut d: Vec<(String, DetailValue)> = Vec::new();
    d.push(detail_int("edit", idx));
    d.push(detail_str("anchor", needle));
    d.push(detail_int("count", count));
    proof {
        assert(details_view(d@) =~= count_details(idx as int, needle@, count as nat));
    }
    EngineError::new(ErrorCode::DriftDetected, message.to_owned()).with_details(d)
}

/// Every byte offset at which `needle` occurs in `haystack`, in increasing
/// order, overlapping occurrences included.
pub fn find_needle(haystack: &[u8], needle: &str) -> (r: Vec<usize>)
    requires
        searchable(haystack@, encode_utf8(needle@)),
    ensures
        lists_occurrences(haystack@, encode_utf8(needle@), r@),
        r@.len() == occurrence_count(haystack@, encode_utf8(needle@)),
        r@.len() == 0 <==> first_occurrence(haystack@, encode_utf8(needle@)) == -1,
        r@.len() > 0 ==> r@[0] as int == first_occurrence(haystack@, encode_utf8(needle@)),
        r@.len() > 1 <==> occurs_twice(haystack@, encode_utf8(needle@)),
{
    // the length call puts the text's usize bound in scope for the proof
    let _hl = haystack.len();
    let r = find_all(haystack, needle.as_bytes());
    proof {
        lemma_occurrence_list(haystack@, encode_utf8(needle@), r@);
    }
    r
}

/// `a_start..a_end` and `b_start..b_end` share a byte.
pub fn ranges_overlap(a_start: usize, a_end: usize, b_start: usize, b_end: usize) -> (r: bool)
    ensures
        r == (a_start < b_end && b_start < a_end),
{
    a_start < b_end && b_start < a_end
}

/// The 1-based number of the line of `content` that holds byte offset
/// `byte_idx` (taken modulo 2^32, as a `u32`).
pub fn byte_to_line(content: &[u8], byte_idx: usize) -> (r: u32)
    ensures
        r == line_at(content@, byte_idx as int) as u32,
{
    let n = count_newlines_before(content, byte_idx);
    #[verifier::truncate]
    ((n as u128 + 1) as u32)
}

/// Line numbers do not decrease as the offset grows (for a text of fewer
/// than `u32::MAX` bytes, whose line numbers fit in a `u32`).
pub proof fn lemma_byte_to_line_monotone(content: Seq<u8>, a: usize, b: usize)
    requires
        a <= b,
        content.len() < u32::MAX,
    ensures
        line_at(content, a as int) as u32 <= line_at(content, b as int) as u32,
{
    lemma_line_at_monotone(content, a as int, b as int);
    lemma_line_at_bound(content, a as int);
    lemma_line_at_bound(content, b as int);
}

/// The char index, in the rope's text, of byte offset `byte_idx`: the number
/// of chars that start before it.
pub fn byte_to_char_idx(rope: &Rope, byte_idx: usize) -> (r: usize)
    ensures
        r == chars_before(encode_utf8(rope_text(*rope)), byte_idx as int),
        r <= rope_text(*rope).len(),
{
    let s = rope_to_string(rope);
    let bytes = s.as_str().as_bytes();
    let r = char_index_of_byte(bytes, byte_idx);
    proof {
        lemma_chars_before_all(s@);
        if byte_idx <= bytes@.len() {
            lemma_chars_before_monotone(bytes@, byte_idx as int, bytes@.len() as int);
        } else {
            assert(chars_before(bytes@, byte_idx as int) == chars_before(bytes@, bytes@.len() as int));
        }
    }
    r
}

fn insert_message(n: usize, where_: &str) -> (s: String)
    ensures
        s@ == insert_summary(n as nat, where_@),
{
    let mut s = "Insert ".to_owned();
    let d = decimal_string(n as u128);
    push_str(&mut s, d.as_str());
    push_str(&mut s, " bytes ");
    push_str(&mut s, where_);
    push_str(&mut s, " anchor");
    s
}

fn replace_message(n: usize, m: usize) -> (s: String)
    ensures
        s@ == replace_summary(n as nat, m as nat),
{
    let mut s = "Replace ".to_owned();
    let d = decimal_string(n as u128);
    push_str(&mut s, d.as_str());
    push_str(&mut s, " bytes with ");
    let d2 = decimal_string(m as u128);
    push_str(&mut s, d2.as_str());
    push_str(&mut s, " bytes");
    s
}

fn delete_message(n: usize) -> (s: String)
    ensures
        s@ == delete_summary(n as nat),
{
    let mut s = "Delete ".to_owned();
    let d = decimal_string(n as u128);
    push_str(&mut s, d.as_str());
    push_str(&mut s, " bytes");
    s
}

/// Locates a region: from the start of its start needle to the end needle
/// (excluded unless asked for), or to the end of the start needle.
pub fn find_region(content: &[u8], target: &PatchRegion, strict: bool, idx: usize) -> (r: Result<Option<(usize, usize)>, EngineError>)
    requires
        region_searchable(*target, content@, strict),
    ensures
        match r {
            Ok(Some((s, e))) => region_spec(*target, content@, strict, idx as int) == Ok::<Option<(int, int)>, EngineErrorView>(Some((s as int, e as int))) && s <= e,
            Ok(None) => region_spec(*target, content@, strict, idx as int) == Ok::<Option<(int, int)>, EngineErrorView>(None),
            Err(e) => region_spec(*target, content@, strict, idx as int) == Err::<Option<(int, int)>, EngineErrorView>(e@),
        },
{
    // the length call puts the text's usize bound in scope for the proof
    let _cl = content.len();
    let start_positions = find_needle(content, target.start.needle.as_str());
    if start_positions.len() == 0 {
        if strict {
            return Err(anchor_error("Start anchor not found", idx, target.start.needle.as_str()));
        }
        return Ok(None);
    }
    let unique = match target.start.require_unique { Some(b) => b, None => false };
    if (strict || unique) && start_positions.len() > 1 {
        return Err(count_error("Start anchor is not unique", idx, target.start.needle.as_str(), start_positions.len()));
    }
    let start_pos = start_positions[0];
    let sn = target.start.needle.as_str().as_bytes();
    proof {
        assert(occurs_at(content@, sn@, start_pos as int));
    }
    let start_byte = start_pos + sn.len();
    match &target.end {
        None => Ok(Some((start_pos, start_byte))),
        Some(end_anchor) => {
            let rest = slice_from(content, start_byte);
            let _rl = rest.len();
            let end_positions = find_needle(rest, end_anchor.needle.as_str());
            if end_positions.len() == 0 {
                if strict {
                    return Err(anchor_error("End anchor not found", idx, end_anchor.needle.as_str()));
                }
                return Ok(None);
            }
            let end_unique = match end_anchor.require_unique { Some(b) => b, None => false };
            if (strict || end_unique) && end_positions.len() > 1 {
                return Err(count_error("End anchor is not unique", idx, end_anchor.needle.as_str(), end_positions.len()));
            }
            let en = end_anchor.needle.as_str().as_bytes();
            proof {
                assert(occurs_at(rest@, en@, end_positions@[0] as int));
            }
            let end_pos = start_byte + end_positions[0];
            let with_end = match target.include_end_needle { Some(b) => b, None => false };
            if with_end {
                Ok(Some((start_pos, end_pos + en.len())))
            } else {
                Ok(Some((start_pos, end_pos)))
            }
        },
    }
}

/// The bytes of `s` from offset `from` on.
fn slice_from(s: &[u8], from: usize) -> (r: &[u8])
    requires
        from <= s@.len(),
    ensures
        r@ == s@.skip(from as int),
{
    let (_, tail) = s.split_at(from);
    proof {
        assert(tail@ =~= s@.skip(from as int));
    }
    tail
}

/// Plans one edit against the text: the byte range it replaces and its
/// replacement; `None` when a missing anchor is tolerated.
pub fn plan_edit(edit: &PatchEdit, content: &[u8], strict: bool, idx: usize) -> (r: Result<Option<PlannedEdit>, EngineError>)
    requires
        edit_searchable(*edit, content@, strict),
    ensures
        match r {
            Ok(Some(p)) => plan_spec(*edit, content@, strict, idx as int) == Ok::<Option<PlanView>, EngineErrorView>(Some(p@))
                && p.start_byte <= p.end_byte,
            Ok(None) => plan_spec(*edit, content@, strict, idx as int) == Ok::<Option<PlanView>, EngineErrorView>(None),
            Err(e) => plan_spec(*edit, content@, strict, idx as int) == Err::<Option<PlanView>, EngineErrorView>(e@),
        },
{
    reveal(plan_spec);
    // the length call puts the text's usize bound in scope for the proof
    let _cl = content.len();
    match edit {
        PatchEdit::Insert { where_, anchor, text } => {
            let positions = find_needle(content, anchor.needle.as_str());
            if positions.len() == 0 {
                if strict {
                    return Err(anchor_error("Anchor not found", idx, anchor.needle.as_str()));
                }
                return Ok(None);
            }
            let unique = match anchor.require_unique { Some(b) => b, None => false };
            if (strict || unique) && positions.len() > 1 {
                return Err(count_error("Anchor is not unique", idx, anchor.needle.as_str(), positions.len()));
            }
            let anchor_pos = positions[0];
            let nb = anchor.needle.as_str().as_bytes();
            proof {
                assert(occurs_at(content@, nb@, anchor_pos as int));
            }
            let text_len = text.as_str().as_bytes().len();
            if str_eq(where_.as_str(), "before") {
                Ok(Some(PlannedEdit {
                    start_byte: anchor_pos,
                    end_byte: anchor_pos,
                    replacement: text.clone(),
                    kind: "insert".to_owned(),
                    summary: insert_message(text_len, where_.as_str()),
                }))
            } else if str_eq(where_.as_str(), "after") {
                let after_pos = anchor_pos + nb.len();
                Ok(Some(PlannedEdit {
                    start_byte: after_pos,
                    end_byte: after_pos,
                    replacement: text.clone(),
                    kind: "insert".to_owned(),
                    summary: insert_message(text_len, where_.as_str()),
                }))
            } else {
                let mut d: Vec<(String, DetailValue)> = Vec::new();
                d.push(detail_str("where", where_.as_str()));
                proof {
                    assert(details_view(d@) =~= seq![("where"@, DetailView::Str(where_@))]);
                }
                Err(EngineError::new(ErrorCode::InvalidArgument, "Invalid 'where' value".to_owned()).with_details(d))
            }
        },
        PatchEdit::Replace { target, replacement } => {
            let (start, end) = match find_region(content, target, strict, idx)? {
                Some(range) => range,
                None => return Ok(None),
            };
            let rlen = replacement.as_str().as_bytes().len();
            Ok(Some(PlannedEdit {
                start_byte: start,
                end_byte: end,
                replacement: replacement.clone(),
                kind: "replace".to_owned(),
                summary: replace_message(end - start, rlen),
            }))
        },
        PatchEdit::Delete { target } => {
            let (start, end) = match find_region(content, target, strict, idx)? {
                Some(range) => range,
                None => return Ok(None),
            };
            let empty = String::new();
            proof {
                assert(empty@ =~= Seq::<char>::empty());
            }
            Ok(Some(PlannedEdit {
                start_byte: start,
                end_byte: end,
                replacement: empty,
                kind: "delete".to_owned(),
                summary: delete_message(end - start),
            }))
        },
    }
}

// ---------------------------------------------------------------------------
// Whole patches
// ---------------------------------------------------------------------------

proof fn lemma_plan_prefix_err(edits: Seq<PatchEdit>, h: Seq<u8>, strict: bool, k: int, n: int)
    requires
        0 <= k <= n,
        plan_prefix(edits, h, strict, k) is Err,
    ensures
        plan_prefix(edits, h, strict, n) == plan_prefix(edits, h, strict, k),
    decreases n - k,
{
    if n > k {
        lemma_plan_prefix_err(edits, h, strict, k, n - 1);
    }
}

proof fn lemma_insert_position(s: Seq<PlanView>, x: PlanView, j: int)
    requires
        0 <= j <= s.len(),
        forall|k: int| j <= k < s.len() ==> #[trigger] s[k].start < x.start,
        j == 0 || s[j - 1].start >= x.start,
    ensures
        insert_by_start_desc(s, x) == s.take(j) + seq![x] + s.skip(j),
    decreases s.len(),
{
    if s.len() == 0 {
        assert(s.take(j) + seq![x] + s.skip(j) =~= seq![x]);
    } else if s.last().start >= x.start {
        assert(j == s.len());
        assert(s.take(j) + seq![x] + s.skip(j) =~= s.push(x));
    } else {
        let d = s.drop_last();
        assert forall|k: int| j <= k < d.len() implies #[trigger] d[k].start < x.start by {
            assert(d[k] == s[k]);
        }
        lemma_insert_position(d, x, j);
        assert(d.take(j) + seq![x] + d.skip(j) + seq![s.last()] =~= s.take(j) + seq![x] + s.skip(j));
    }
}

proof fn lemma_first_overlap_unique(s: Seq<PlanView>, i: int, j: int, a: int, b: int)
    requires
        is_first_overlap(s, i, j),
        is_first_overlap(s, a, b),
    ensures
        i == a && j == b,
{
}

/// Whether a mode asks for strict patching: no mode, or `strict`.
pub fn is_strict(mode: &Option<String>) -> (r: bool)
    ensures
        r == (mode is None || mode.unwrap()@ == "strict"@),
{
    match mode {
        None => true,
        Some(m) => str_eq(m.as_str(), "strict"),
    }
}

/// The error reported for the first pair of overlapping edits.
pub open spec fn overlap_error(sorted: Seq<PlanView>) -> EngineErrorView {
    let (i, j) = choose|i: int, j: int| is_first_overlap(sorted, i, j);
    detailed_error(
        ErrorCode::DriftDetected,
        "Edits overlap"@,
        seq![("edit1"@, DetailView::Int(i)), ("edit2"@, DetailView::Int(j))],
    )
}

/// Inserts a planned edit into a list kept in stable descending order of
/// start.
fn insert_sorted(sorted: &mut Vec<PlannedEdit>, x: PlannedEdit)
    requires
        forall|k: int| 0 <= k < old(sorted)@.len() ==> #[trigger] old(sorted)@[k].start_byte <= old(sorted)@[k].end_byte,
        x.start_byte <= x.end_byte,
    ensures
        final(sorted)@.map_values(|p: PlannedEdit| p@) == insert_by_start_desc(old(sorted)@.map_values(|p: PlannedEdit| p@), x@),
        forall|k: int| 0 <= k < final(sorted)@.len() ==> #[trigger] final(sorted)@[k].start_byte <= final(sorted)@[k].end_byte,
{
    let ghost xv = x@;
    let ghost sv = sorted@.map_values(|p: PlannedEdit| p@);
    let ghost old_sorted = sorted@;
    let mut j: usize = sorted.len();
    while j > 0 && sorted[j - 1].start_byte < x.start_byte
        invariant
            j <= sorted@.len(),
            sorted@ == old_sorted,
            forall|k: int| j <= k < sorted@.len() ==> #[trigger] sorted@[k].start_byte < x.start_byte,
        decreases j,
    {
        j = j - 1;
    }
    proof {
        assert forall|k: int| j <= k < sv.len() implies #[trigger] sv[k].start < xv.start by {
            assert(sv[k] == sorted@[k]@);
        }
        if j > 0 {
            assert(sv[j - 1] == sorted@[j - 1]@);
        }
        lemma_insert_position(sv, xv, j as int);
    }
    sorted.insert(j, x);
    proof {
        assert(sorted@.map_values(|p: PlannedEdit| p@) =~= sv.take(j as int) + seq![xv] + sv.skip(j as int));
        assert forall|k: int| 0 <= k < sorted@.len() implies #[trigger] sorted@[k].start_byte <= sorted@[k].end_byte by {
            if k < j {
                assert(sorted@[k] == old_sorted[k]);
            } else if k > j {
                assert(sorted@[k] == old_sorted[k - 1]);
            }
        }
    }
}

/// Finds the first pair (in lexicographic order of positions) of edits whose
/// byte ranges overlap.
fn check_overlaps(sorted: &Vec<PlannedEdit>) -> (r: Result<(), EngineError>)
    ensures
        r is Ok <==> !has_overlap(sorted@.map_values(|p: PlannedEdit| p@)),
        r matches Err(e) ==> e@ == overlap_error(sorted@.map_values(|p: PlannedEdit| p@)),
{
    let ghost sv = sorted@.map_values(|p: PlannedEdit| p@);
    let n = sorted.len();
    let mut a: usize = 0;
    while a < n
        invariant
            n == sorted@.len(),
            sv == sorted@.map_values(|p: PlannedEdit| p@),
            a <= n,
            forall|x: int, y: int| 0 <= x < y < n && x < a ==> !overlap(sv[x], sv[y]),
        decreases n - a,
    {
        let mut b: usize = a + 1;
        while b < n
            invariant
                n == sorted@.len(),
                sv == sorted@.map_values(|p: PlannedEdit| p@),
                a < n,
                a + 1 <= b <= n,
                forall|x: int, y: int| 0 <= x < y < n && x < a ==> !overlap(sv[x], sv[y]),
                forall|y: int| a < y < b ==> !overlap(sv[a as int], #[trigger] sv[y]),
            decreases n - b,
        {
            proof {
                assert(sv[a as int] == sorted@[a as int]@);
                assert(sv[b as int] == sorted@[b as int]@);
            }
            if ranges_overlap(sorted[a].start_byte, sorted[a].end_byte, sorted[b].start_byte, sorted[b].end_byte) {
                let mut d: Vec<(String, DetailValue)> = Vec::new();
                d.push(detail_int("edit1", a));
                d.push(detail_int("edit2", b));
                proof {
                    assert(is_first_overlap(sv, a as int, b as int));
                    let (ci, cj) = choose|ci: int, cj: int| is_first_overlap(sv, ci, cj);
                    lemma_first_overlap_unique(sv, a as int, b as int, ci, cj);
                    assert(details_view(d@) =~= seq![("edit1"@, DetailView::Int(a as int)), ("edit2"@, DetailView::Int(b as int))]);
                }
                return Err(EngineError::new(ErrorCode::DriftDetected, "Edits overlap".to_owned()).with_details(d));
            }
            b = b + 1;
        }
        a = a + 1;
    }
    Ok(())
}

/// The summary of one applied edit, with the lines of its start and end in
/// the text before patching.
fn summarize(h: &[u8], p: &PlannedEdit) -> (r: AppliedEditSummary)
    ensures
        r@ == summary_of(h@, p@),
{
    let sl = byte_to_line(h, p.start_byte);
    let el = byte_to_line(h, p.end_byte);
    AppliedEditSummary {
        kind: p.kind.clone(),
        summary: p.summary.clone(),
        start_line: Some(sl),
        end_line: Some(el),
    }
}

/// Plans every edit against the rope's text, orders them back to front
/// (stably by descending start), rejects overlapping edits in strict mode,
/// and applies them to a copy of the rope; gives the new rope and one
/// summary per applied edit, in application order.
pub fn patch_rope(rope: &Rope, edits: &Vec<PatchEdit>, strict: bool) -> (r: Result<(Rope, Vec<AppliedEditSummary>), EngineError>)
    requires
        edits_searchable(edits@, encode_utf8(rope_text(*rope)), strict),
    ensures
        match r {
            Ok((nr, s)) => patch_spec(rope_text(*rope), edits@, strict) == Ok::<(Seq<char>, Seq<SummaryView>), EngineErrorView>(
                (rope_text(nr), s@.map_values(|x: AppliedEditSummary| x@)),
            ),
            Err(e) => patch_spec(rope_text(*rope), edits@, strict) == Err::<(Seq<char>, Seq<SummaryView>), EngineErrorView>(e@),
        },
{
    let content = rope_to_string(rope);
    let h = content.as_str().as_bytes();
    let ghost hv = h@;
    let ghost text = rope_text(*rope);
    assert(hv == encode_utf8(text));
    // Plan every edit, keeping the planned edits in stable descending order.
    let mut sorted: Vec<PlannedEdit> = Vec::new();
    let ghost mut planned_views: Seq<PlanView> = Seq::empty();
    let mut i: usize = 0;
    while i < edits.len()
        invariant
            i <= edits@.len(),
            hv == h@,
            hv == encode_utf8(text),
            text == rope_text(*rope),
            edits_searchable(edits@, hv, strict),
            plan_prefix(edits@, hv, strict, i as int) == Ok::<Seq<PlanView>, EngineErrorView>(planned_views),
            sorted@.map_values(|p: PlannedEdit| p@) == sort_by_start_desc(planned_views),
            forall|k: int| 0 <= k < sorted@.len() ==> #[trigger] sorted@[k].start_byte <= sorted@[k].end_byte,
        decreases edits@.len() - i,
    {
        assert(plan_prefix(edits@, hv, strict, i as int) is Ok);
        let planned = plan_edit(&edits[i], h, strict, i);
        match planned {
            Err(e) => {
                proof {
                    assert(plan_prefix(edits@, hv, strict, i + 1) == Err::<Seq<PlanView>, EngineErrorView>(e@));
                    lemma_plan_prefix_err(edits@, hv, strict, i + 1, edits@.len() as int);
                }
                return Err(e);
            },
            Ok(None) => {
                assert(plan_prefix(edits@, hv, strict, i + 1) == Ok::<Seq<PlanView>, EngineErrorView>(planned_views));
            },
            Ok(Some(x)) => {
                let ghost xv = x@;
                insert_sorted(&mut sorted, x);
                proof {
                    let prev = planned_views;
                    planned_views = planned_views.push(xv);
                    assert(planned_views.drop_last() =~= prev);
                }
            },
        }
        i = i + 1;
    }
    let ghost sorted_views = sorted@.map_values(|p: PlannedEdit| p@);
    assert(plan_prefix(edits@, hv, strict, edits@.len() as int) == Ok::<Seq<PlanView>, EngineErrorView>(planned_views));
    let n = sorted.len();
    // In strict mode, reject the first pair of overlapping edits.
    if strict {
        check_overlaps(&sorted)?;
    }
    // Apply back to front on a copy of the rope.
    let mut new_rope = rope_clone(rope);
    let mut k: usize = 0;
    while k < n
        invariant
            n == sorted@.len(),
            sorted_views == sorted@.map_values(|p: PlannedEdit| p@),
            k <= n,
            forall|q: int| 0 <= q < sorted@.len() ==> #[trigger] sorted@[q].start_byte <= sorted@[q].end_byte,
            rope_text(new_rope) == apply_prefix(text, sorted_views, k as int),
        decreases n - k,
    {
        let ghost before = rope_text(new_rope);
        let s = byte_to_char_idx(&new_rope, sorted[k].start_byte);
        let e = byte_to_char_idx(&new_rope, sorted[k].end_byte);
        proof {
            lemma_chars_before_monotone(encode_utf8(before), sorted@[k as int].start_byte as int, sorted@[k as int].end_byte as int);
        }
        rope_remove(&mut new_rope, s, e);
        if !sorted[k].replacement.as_str().is_empty() {
            rope_insert(&mut new_rope, s, sorted[k].replacement.as_str());
        }
        proof {
            let pv = sorted_views[k as int];
            assert(pv == sorted@[k as int]@);
            assert(rope_text(new_rope) =~= apply_one(before, pv));
        }
        k = k + 1;
    }
    // One summary per applied edit.
    let mut applied: Vec<AppliedEditSummary> = Vec::new();
    let mut m: usize = 0;
    while m < n
        invariant
            n == sorted@.len(),
            sorted_views == sorted@.map_values(|p: PlannedEdit| p@),
            hv == h@,
            m <= n,
            applied@.map_values(|x: AppliedEditSummary| x@) == sorted_views.take(m as int).map_values(|p: PlanView| summary_of(hv, p)),
        decreases n - m,
    {
        let summary = summarize(h, &sorted[m]);
        let ghost prev = applied@;
        applied.push(summary);
        proof {
            assert(sorted_views[m as int] == sorted@[m as int]@);
            assert(applied@ == prev.push(summary));
            assert(applied@.map_values(|x: AppliedEditSummary| x@) =~= prev.map_values(|x: AppliedEditSummary| x@).push(summary@));
            assert(sorted_views.take(m + 1).map_values(|p: PlanView| summary_of(hv, p)) =~= sorted_views.take(m as int).map_values(|p: PlanView| summary_of(hv, p)).push(summary_of(hv, sorted_views[m as int])));
        }
        m = m + 1;
    }
    proof {
        assert(sorted_views.take(n as int) =~= sorted_views);
    }
    Ok((new_rope, applied))
}

/// The searches of a region end normally: the executable form of
/// [`region_searchable`].
fn region_search_terminates(content: &[u8], target: &PatchRegion, strict: bool) -> (r: bool)
    ensures
        r == region_searchable(*target, content@, strict),
{
    // the length call puts the text's usize bound in scope for the proof
    let _cl = content.len();
    let sn = target.start.needle.as_str().as_bytes();
    if !search_terminates(content, sn) {
        return false;
    }
    let positions = find_needle(content, target.start.needle.as_str());
    let unique = match target.start.require_unique { Some(b) => b, None => false };
    if positions.len() == 0 || ((strict || unique) && positions.len() > 1) {
        return true;
    }
    match &target.end {
        None => true,
        Some(e) => {
            proof {
                assert(occurs_at(content@, sn@, positions@[0] as int));
            }
            let rest = slice_from(content, positions[0] + sn.len());
            search_terminates(rest, e.needle.as_str().as_bytes())
        },
    }
}

/// The search for `n` in `h` ends normally: the executable form of
/// [`searchable`].
fn search_terminates(h: &[u8], n: &[u8]) -> (r: bool)
    ensures
        r == searchable(h@, n@),
{
    n.len() > 0
}

/// Whether patching ends normally on this text: every needle search that the
/// planning reaches is of a non-empty needle.
pub fn patch_terminates(content: &[u8], edits: &Vec<PatchEdit>, strict: bool) -> (r: bool)
    ensures
        r == edits_searchable(edits@, content@, strict),
{
    let mut i: usize = 0;
    while i < edits.len()
        invariant
            i <= edits@.len(),
            forall|k: int| 0 <= k < i && #[trigger] plan_prefix(edits@, content@, strict, k) is Ok
                ==> edit_searchable(edits@[k], content@, strict),
            plan_prefix(edits@, content@, strict, i as int) is Ok,
        decreases edits@.len() - i,
    {
        let ok = match &edits[i] {
            PatchEdit::Insert { where_, anchor, text } => search_terminates(content, anchor.needle.as_str().as_bytes()),
            PatchEdit::Replace { target, replacement } => region_search_terminates(content, target, strict),
            PatchEdit::Delete { target } => region_search_terminates(content, target, strict),
        };
        if !ok {
            return false;
        }
        let planned = plan_edit(&edits[i], content, strict, i);
        if planned.is_err() {
            proof {
                assert forall|k: int| 0 <= k < edits@.len() && #[trigger] plan_prefix(edits@, content@, strict, k) is Ok
                    implies edit_searchable(edits@[k], content@, strict) by {
                    if k > i {
                        lemma_plan_prefix_err(edits@, content@, strict, i + 1, k);
                    }
                }
            }
            return true;
        }
        i = i + 1;
    }
    true
}

/// Whether a patch's mode is strict: it is unless another mode is named.
pub open spec fn strict_mode(mode: Option<String>) -> bool {
    mode is None || mode.unwrap()@ == "strict"@
}

/// What patching a text as `args` asks gives: the new text and the
/// summaries of the applied edits, or the error.
pub open spec fn patch_outcome(t: Seq<char>, args: ApplyPatchArgs) -> Result<(Seq<char>, Seq<SummaryView>), EngineErrorView> {
    patch_spec(t, args.edits@, strict_mode(args.mode))
}

/// A dry run plans, reports and refuses exactly what a real run of the same
/// edits in the same mode does: the outcome does not depend on `dry_run`.
pub proof fn lemma_dry_run_same_outcome(t: Seq<char>, a: ApplyPatchArgs, b: ApplyPatchArgs)
    requires
        a.mode == b.mode,
        a.edits@ == b.edits@,
    ensures
        patch_outcome(t, a) == patch_outcome(t, b),
{
}

/// Patches a rope as `args` asks: strict unless another mode is named; gives
/// the new rope (to be written unless it is a dry run) and the report.
pub fn run(rope: &Rope, args: &ApplyPatchArgs) -> (r: Result<(Rope, ApplyPatchResult), EngineError>)
    requires
        edits_searchable(args.edits@, encode_utf8(rope_text(*rope)), strict_mode(args.mode)),
    ensures
        match r {
            Ok((nr, res)) => patch_outcome(rope_text(*rope), *args)
                == Ok::<(Seq<char>, Seq<SummaryView>), EngineErrorView>(
                (rope_text(nr), res.applied@.map_values(|x: AppliedEditSummary| x@)),
            ) && res.file_path@ == args.file_path@ && res.dry_run == args.dry_run,
            Err(e) => patch_outcome(rope_text(*rope), *args) == Err::<(Seq<char>, Seq<SummaryView>), EngineErrorView>(e@),
        },
        r matches Ok((nr, res)) ==> ({
            let h = encode_utf8(rope_text(*rope));
            plan_prefix(args.edits@, h, strict_mode(args.mode), args.edits@.len() as int) matches Ok(planned)
                && res.applied@.len() == planned.len()
                && forall|i: int| 0 <= i < res.applied@.len()
                    ==> reports_planned_lines(h, sort_by_start_desc(planned)[i], #[trigger] res.applied@[i]@)
        }),
{
    let strict = is_strict(&args.mode);
    proof {
        lemma_summaries_report_planned_lines(rope_text(*rope), args.edits@, strict_mode(args.mode));
    }
    let (new_rope, applied) = patch_rope(rope, &args.edits, strict)?;
    proof {
        let h = encode_utf8(rope_text(*rope));
        let sums = applied@.map_values(|x: AppliedEditSummary| x@);
        assert(plan_prefix(args.edits@, h, strict, args.edits@.len() as int) is Ok);
        let planned = plan_prefix(args.edits@, h, strict, args.edits@.len() as int)->Ok_0;
        assert forall|i: int| 0 <= i < applied@.len()
            implies reports_planned_lines(h, sort_by_start_desc(planned)[i], #[trigger] applied@[i]@) by {
            assert(sums[i] == applied@[i]@);
        }
    }
    Ok((new_rope, ApplyPatchResult { file_path: args.file_path.clone(), dry_run: args.dry_run, applied }))
}

// ---------------------------------------------------------------------------
// What an edit does to the bytes of the text
// ---------------------------------------------------------------------------

/// Applying an edit whose range lies on char boundaries replaces exactly the
/// bytes of that range by the bytes of its replacement.
pub proof fn lemma_apply_one_bytes(t: Seq<char>, p: PlanView)
    requires
        p.start <= p.end,
        is_char_boundary(encode_utf8(t), p.start),
        is_char_boundary(encode_utf8(t), p.end),
    ensures
        encode_utf8(apply_one(t, p)) == encode_utf8(t).take(p.start) + encode_utf8(p.replacement)
            + encode_utf8(t).skip(p.end),
{
    let b = encode_utf8(t);
    let s = chars_before(b, p.start) as int;
    let e = chars_before(b, p.end) as int;
    lemma_split_at_boundary(t, p.start);
    lemma_split_at_boundary(t, p.end);
    lemma_chars_before_all(t);
    lemma_chars_before_monotone(b, p.end, b.len() as int);
    assert(t.subrange(0, s) =~= t.take(s));
    assert(t.subrange(e, t.len() as int) =~= t.skip(e));
    lemma_encode_concat(t.take(s), p.replacement);
    lemma_encode_concat(t.take(s) + p.replacement, t.skip(e));
}

/// The range an edit plans lies on char boundaries of the text, in order.
pub proof fn lemma_plan_boundaries(edit: PatchEdit, t: Seq<char>, strict: bool, idx: int)
    ensures
        plan_spec(edit, encode_utf8(t), strict, idx) matches Ok(Some(p)) ==> {
            &&& p.start <= p.end
            &&& is_char_boundary(encode_utf8(t), p.start)
            &&& is_char_boundary(encode_utf8(t), p.end)
        },
{
    reveal(plan_spec);
    let h = encode_utf8(t);
    encode_utf8_valid_utf8(t);
    is_char_boundary_start_end_of_seq(h);
    match edit {
        PatchEdit::Insert { where_, anchor, text } => {
            lemma_needle_boundaries(h, needle_bytes(anchor), anchor.needle@);
        },
        PatchEdit::Replace { target, replacement } => {
            lemma_region_boundaries(target, h, strict, idx);
        },
        PatchEdit::Delete { target } => {
            lemma_region_boundaries(target, h, strict, idx);
        },
    }
}

/// The first occurrence of a needle, if any, starts and ends at char
/// boundaries.
proof fn lemma_needle_boundaries(h: Seq<u8>, n: Seq<u8>, cs: Seq<char>)
    requires
        valid_utf8(h),
        n == encode_utf8(cs),
    ensures
        first_occurrence(h, n) != -1 ==> is_char_boundary(h, first_occurrence(h, n))
            && is_char_boundary(h, first_occurrence(h, n) + n.len()),
{
    let f = first_occurrence(h, n);
    encode_utf8_valid_utf8(cs);
    if f != -1 {
        lemma_first_occurrence_from(h, n, 0);
        if n.len() > 0 {
            lemma_occurrence_boundaries(h, n, f);
        } else {
            assert(h.subrange(0, 0) =~= n);
            assert(occurs_at(h, n, 0));
            assert(f == 0);
            is_char_boundary_start_end_of_seq(h);
        }
    }
}

proof fn lemma_region_boundaries(target: PatchRegion, h: Seq<u8>, strict: bool, idx: int)
    requires
        valid_utf8(h),
    ensures
        region_spec(target, h, strict, idx) matches Ok(Some((s, e))) ==> {
            &&& s <= e
            &&& is_char_boundary(h, s)
            &&& is_char_boundary(h, e)
        },
{
    let sn = needle_bytes(target.start);
    let f = first_occurrence(h, sn);
    lemma_needle_boundaries(h, sn, target.start.needle@);
    if f != -1 {
        lemma_first_occurrence_from(h, sn, 0);
        let after = f + sn.len();
        if let Some(en_anchor) = target.end {
            let rest = h.skip(after);
            let en = needle_bytes(en_anchor);
            valid_utf8_split(h, after);
            assert(h.subrange(after, h.len() as int) =~= rest);
            lemma_needle_boundaries(rest, en, en_anchor.needle@);
            let g = first_occurrence(rest, en);
            if g != -1 {
                lemma_first_occurrence_from(rest, en, 0);
                lemma_boundary_lift(h, after, g);
                lemma_boundary_lift(h, after, g + en.len());
            }
        }
    }
}

/// A patch of a single edit that is applied replaces exactly the bytes of
/// the range it planned by the bytes of its replacement, and reports one
/// summary.
pub proof fn lemma_single_edit_splice(t: Seq<char>, edit: PatchEdit, strict: bool)
    ensures
        plan_spec(edit, encode_utf8(t), strict, 0) matches Ok(Some(p)) ==> (patch_spec(t, seq![edit], strict)
            matches Ok((t2, summaries)) && summaries.len() == 1
            && encode_utf8(t2) == encode_utf8(t).take(p.start) + encode_utf8(p.replacement) + encode_utf8(t).skip(p.end)),
{
    let h = encode_utf8(t);
    let edits = seq![edit];
    if let Ok(Some(p)) = plan_spec(edit, h, strict, 0) {
        assert(plan_prefix(edits, h, strict, 0) == Ok::<Seq<PlanView>, EngineErrorView>(Seq::empty()));
        assert(plan_prefix(edits, h, strict, 1) == Ok::<Seq<PlanView>, EngineErrorView>(seq![p]));
        let sorted = sort_by_start_desc(seq![p]);
        assert(seq![p].drop_last() =~= Seq::<PlanView>::empty());
        assert(seq![p].last() == p);
        assert(sort_by_start_desc(Seq::<PlanView>::empty()) == Seq::<PlanView>::empty());
        assert(insert_by_start_desc(Seq::<PlanView>::empty(), p) == seq![p]);
        assert(sorted == seq![p]);
        assert(sorted[0] == p);
        assert(!has_overlap(sorted));
        assert(apply_prefix(t, sorted, 0) == t);
        assert(apply_prefix(t, sorted, 1) == apply_one(apply_prefix(t, sorted, 0), sorted[0]));
        lemma_plan_boundaries(edit, t, strict, 0);
        lemma_apply_one_bytes(t, p);
    }
}

/// In strict mode, an accepted patch applies edits whose ranges pairwise do
/// not overlap.
pub proof fn lemma_strict_disjoint(t: Seq<char>, edits: Seq<PatchEdit>)
    ensures
        patch_spec(t, edits, true) is Ok ==> (plan_prefix(edits, encode_utf8(t), true, edits.len() as int)
            matches Ok(planned) && !has_overlap(sort_by_start_desc(planned))),
{
}

/// The bytes after the first `k` edits are applied in turn, each replacing
/// its planned byte range by the bytes of its replacement.
pub open spec fn spliced(b: Seq<u8>, ps: Seq<PlanView>, k: int) -> Seq<u8>
    decreases k,
{
    if k <= 0 {
        b
    } else {
        let prev = spliced(b, ps, k - 1);
        let p = ps[k - 1];
        prev.take(p.start) + encode_utf8(p.replacement) + prev.skip(p.end)
    }
}

/// Each edit ends at or before the start of every edit applied before it.
pub open spec fn separated(ps: Seq<PlanView>) -> bool {
    forall|i: int, j: int| 0 <= i < j < ps.len() ==> ps[j].end <= ps[i].start
}

/// Every edit's range is in order and lies on char boundaries of `b`.
pub open spec fn on_boundaries(b: Seq<u8>, ps: Seq<PlanView>) -> bool {
    forall|j: int| 0 <= j < ps.len() ==> #[trigger] ps[j].start <= ps[j].end && is_char_boundary(b, ps[j].start)
        && is_char_boundary(b, ps[j].end)
}

/// Two valid texts that agree up to a char boundary `m` of the first share
/// its char boundaries up to `m`.
proof fn lemma_boundary_in_shared_prefix(b: Seq<u8>, c: Seq<u8>, m: int, x: int)
    requires
        valid_utf8(b),
        valid_utf8(c),
        is_char_boundary(b, m),
        0 <= x <= m <= c.len(),
        m <= b.len(),
        c.take(m) == b.take(m),
        is_char_boundary(b, x),
    ensures
        is_char_boundary(c, x),
{
    is_char_boundary_start_end_of_seq(c);
    if x == m {
        valid_utf8_split(b, m);
        assert(b.subrange(0, m) =~= b.take(m));
        crate::text::lemma_prefix_is_boundary(c, b.take(m));
    } else if x > 0 {
        assert(c.take(m)[x] == c[x]);
        assert(b.take(m)[x] == b[x]);
        is_char_boundary_iff_not_is_continuation_byte(b, x);
        is_char_boundary_iff_not_is_continuation_byte(c, x);
    }
}

/// Applying separated edits on char boundaries, one after the other, splices
/// the bytes of the text exactly at the planned offsets; the bytes before the
/// last edit applied are untouched.
pub proof fn lemma_apply_prefix_bytes(t: Seq<char>, ps: Seq<PlanView>, k: int)
    requires
        0 <= k <= ps.len(),
        separated(ps),
        on_boundaries(encode_utf8(t), ps),
    ensures
        encode_utf8(apply_prefix(t, ps, k)) == spliced(encode_utf8(t), ps, k),
        k > 0 ==> spliced(encode_utf8(t), ps, k).take(ps[k - 1].start) == encode_utf8(t).take(ps[k - 1].start),
        k > 0 ==> ps[k - 1].start <= spliced(encode_utf8(t), ps, k).len(),
    decreases k,
{
    let b = encode_utf8(t);
    encode_utf8_valid_utf8(t);
    if k > 0 {
        lemma_apply_prefix_bytes(t, ps, k - 1);
        let u = apply_prefix(t, ps, k - 1);
        let bu = encode_utf8(u);
        encode_utf8_valid_utf8(u);
        let p = ps[k - 1];
        assert(p.start <= p.end && is_char_boundary(b, p.start) && is_char_boundary(b, p.end));
        if k > 1 {
            let m = ps[k - 2].start;
            assert(p.end <= m);
            assert(ps[k - 2].start <= ps[k - 2].end && is_char_boundary(b, m));
            assert(m <= b.len());
            assert(m <= bu.len());
            assert(bu.take(m) == b.take(m));
            lemma_boundary_in_shared_prefix(b, bu, m, p.start);
            lemma_boundary_in_shared_prefix(b, bu, m, p.end);
            assert(bu.take(p.start) =~= bu.take(m).take(p.start));
            assert(b.take(p.start) =~= b.take(m).take(p.start));
        }
        lemma_apply_one_bytes(u, p);
        let r = spliced(b, ps, k);
        assert(r == bu.take(p.start) + encode_utf8(p.replacement) + bu.skip(p.end));
        assert(r.take(p.start) =~= bu.take(p.start));
    }
}

proof fn lemma_plan_prefix_boundaries(edits: Seq<PatchEdit>, t: Seq<char>, strict: bool, k: int)
    requires
        0 <= k <= edits.len(),
    ensures
        plan_prefix(edits, encode_utf8(t), strict, k) matches Ok(planned) ==> on_boundaries(encode_utf8(t), planned),
    decreases k,
{
    if k > 0 {
        lemma_plan_prefix_boundaries(edits, t, strict, k - 1);
        lemma_plan_boundaries(edits[k - 1], t, strict, k - 1);
        if let Ok(planned) = plan_prefix(edits, encode_utf8(t), strict, k) {
            if let Ok(prev) = plan_prefix(edits, encode_utf8(t), strict, k - 1) {
                assert forall|j: int| 0 <= j < planned.len() implies #[trigger] planned[j].start <= planned[j].end
                    && is_char_boundary(encode_utf8(t), planned[j].start)
                    && is_char_boundary(encode_utf8(t), planned[j].end) by {
                    if j < prev.len() {
                        assert(planned[j] == prev[j]);
                    }
                }
            }
        }
    }
}

/// A strict patch whose edits, taken from the back of the file to its
/// front, each end at or before the start of the edits taken before it,
/// replaces in the file's bytes every planned range by its replacement, at
/// the offsets planned in the unmodified file.
pub proof fn lemma_strict_patch_bytes(t: Seq<char>, edits: Seq<PatchEdit>)
    ensures
        ({
            let b = encode_utf8(t);
            match (plan_prefix(edits, b, true, edits.len() as int), patch_spec(t, edits, true)) {
                (Ok(planned), Ok((t2, _))) => separated(sort_by_start_desc(planned)) ==> encode_utf8(t2)
                    == spliced(b, sort_by_start_desc(planned), planned.len() as int),
                _ => true,
            }
        }),
{
    broadcast use vstd::seq_lib::group_to_multiset_ensures;
    let b = encode_utf8(t);
    if let Ok(planned) = plan_prefix(edits, b, true, edits.len() as int) {
        let sorted = sort_by_start_desc(planned);
        if patch_spec(t, edits, true) is Ok && separated(sorted) {
            lemma_plan_prefix_boundaries(edits, t, true, edits.len() as int);
            lemma_sort_by_start_desc(planned);
            sorted.to_multiset_ensures();
            planned.to_multiset_ensures();
            assert(sorted.len() == planned.len());
            assert forall|j: int| 0 <= j < sorted.len() implies #[trigger] sorted[j].start <= sorted[j].end
                && is_char_boundary(b, sorted[j].start) && is_char_boundary(b, sorted[j].end) by {
                assert(sorted.to_multiset().count(sorted[j]) > 0);
                assert(planned.contains(sorted[j]));
                let i = choose|i: int| 0 <= i < planned.len() && planned[i] == sorted[j];
                assert(planned[i].start <= planned[i].end);
            }
            lemma_apply_prefix_bytes(t, sorted, sorted.len() as int);
        }
    }
}

/// Every edit a patch applies is reported with a start line at most its end
/// line (for a text of fewer than `u32::MAX` bytes).
pub proof fn lemma_summary_lines_ordered(t: Seq<char>, edits: Seq<PatchEdit>, strict: bool)
    requires
        encode_utf8(t).len() < u32::MAX,
    ensures
        patch_spec(t, edits, strict) matches Ok((t2, sums)) ==> forall|i: int| 0 <= i < sums.len()
            ==> (#[trigger] sums[i]).start_line is Some && sums[i].end_line is Some
            && sums[i].start_line.unwrap() <= sums[i].end_line.unwrap(),
{
    broadcast use vstd::seq_lib::group_to_multiset_ensures;
    let b = encode_utf8(t);
    if let Ok(planned) = plan_prefix(edits, b, strict, edits.len() as int) {
        let sorted = sort_by_start_desc(planned);
        lemma_plan_prefix_boundaries(edits, t, strict, edits.len() as int);
        lemma_sort_by_start_desc(planned);
        sorted.to_multiset_ensures();
        planned.to_multiset_ensures();
        if let Ok((t2, sums)) = patch_spec(t, edits, strict) {
            assert forall|i: int| 0 <= i < sums.len() implies (#[trigger] sums[i]).start_line is Some
                && sums[i].end_line is Some && sums[i].start_line.unwrap() <= sums[i].end_line.unwrap() by {
                let p = sorted[i];
                assert(sorted.to_multiset().count(p) > 0);
                assert(planned.contains(p));
                let j = choose|j: int| 0 <= j < planned.len() && planned[j] == p;
                assert(planned[j].start <= planned[j].end);
                assert(sums[i] == summary_of(b, p));
                lemma_line_at_monotone(b, p.start, p.end);
                lemma_line_at_bound(b, p.start);
                lemma_line_at_bound(b, p.end);
            }
        }
    }
}

/// The lines an edit is reported on: in the text before patching, one more
/// than the newline bytes before the start, and before the end, of the byte
/// range planned for it.
pub open spec fn reports_planned_lines(h: Seq<u8>, p: PlanView, s: SummaryView) -> bool {
    &&& s.start_line == Some((1 + newline_count(h.take(p.start))) as u32)
    &&& s.end_line == Some((1 + newline_count(h.take(p.end))) as u32)
}

/// Each applied edit is reported, in the order edits are applied (by
/// descending start), with the kind and summary of its plan and the lines,
/// in the text before patching, of the start and the end of the byte range
/// planned for it.
pub proof fn lemma_summaries_report_planned_lines(t: Seq<char>, edits: Seq<PatchEdit>, strict: bool)
    ensures
        ({
            let h = encode_utf8(t);
            match (plan_prefix(edits, h, strict, edits.len() as int), patch_spec(t, edits, strict)) {
                (Ok(planned), Ok((t2, sums))) => {
                    let sorted = sort_by_start_desc(planned);
                    &&& sums.len() == planned.len()
                    &&& forall|i: int| 0 <= i < sums.len() ==> {
                        &&& reports_planned_lines(h, sorted[i], #[trigger] sums[i])
                        &&& sums[i].kind == sorted[i].kind
                        &&& sums[i].summary == sorted[i].summary
                    }
                },
                _ => true,
            }
        }),
{
    broadcast use vstd::seq_lib::group_to_multiset_ensures;
    let h = encode_utf8(t);
    if let Ok(planned) = plan_prefix(edits, h, strict, edits.len() as int) {
        let sorted = sort_by_start_desc(planned);
        lemma_plan_prefix_boundaries(edits, t, strict, edits.len() as int);
        lemma_sort_by_start_desc(planned);
        sorted.to_multiset_ensures();
        planned.to_multiset_ensures();
        if let Ok((t2, sums)) = patch_spec(t, edits, strict) {
            assert forall|i: int| 0 <= i < sums.len() implies {
                &&& reports_planned_lines(h, sorted[i], #[trigger] sums[i])
                &&& sums[i].kind == sorted[i].kind
                &&& sums[i].summary == sorted[i].summary
            } by {
                let p = sorted[i];
                assert(sorted.to_multiset().count(p) > 0);
                assert(planned.contains(p));
                let j = choose|j: int| 0 <= j < planned.len() && planned[j] == p;
                assert(planned[j].start <= planned[j].end);
                assert(is_char_boundary(h, p.start) && is_char_boundary(h, p.end));
                assert(sums[i] == summary_of(h, p));
            }
        }
    }
}

/// The anchor an edit is located by: the anchor of an insert, the start
/// anchor of a region.
pub open spec fn first_anchor(edit: PatchEdit) -> PatchAnchor {
    match edit {
        PatchEdit::Insert { anchor, .. } => anchor,
        PatchEdit::Replace { target, .. } => target.start,
        PatchEdit::Delete { target } => target.start,
    }
}

/// Drift is refused: in strict mode an edit whose anchor does not occur in
/// the text, or occurs more than once, is refused with `DRIFT_DETECTED`, and
/// so is, in every mode, one whose anchor occurs again although it is
/// required to be unique; outside strict mode an edit whose anchor does not
/// occur is skipped.
pub proof fn lemma_anchor_drift(edit: PatchEdit, h: Seq<u8>, strict: bool, idx: int)
    ensures
        ({
            let a = first_anchor(edit);
            let n = needle_bytes(a);
            let missing = first_occurrence(h, n) == -1;
            let repeated = !missing && refuses_repeat(a, strict) && occurs_twice(h, n);
            &&& ((missing && strict) || repeated) ==> (plan_spec(edit, h, strict, idx) matches Err(e)
                && e.code == ErrorCode::DriftDetected)
            &&& (missing && !strict) ==> plan_spec(edit, h, strict, idx) == Ok::<Option<PlanView>, EngineErrorView>(None)
        }),
{
    reveal(plan_spec);
}

/// The steps of writing a patched file through a temporary file that can
/// fail at the I/O level.
#[derive(Debug, Clone, Copy, PartialEq, Eq, Structural)]
pub enum WriteStep {
    CreateTemp,
    WriteTemp,
    SyncTemp,
    RenameTemp,
}

pub open spec fn write_step_message(step: WriteStep) -> Seq<char> {
    match step {
        WriteStep::CreateTemp => "Failed to create temporary file"@,
        WriteStep::WriteTemp => "Failed to write to temporary file"@,
        WriteStep::SyncTemp => "Failed to sync temporary file"@,
        WriteStep::RenameTemp => "Failed to rename temporary file"@,
    }
}

/// The refusal reported when a step of the write failed (the I/O message).
pub fn write_failure(step: WriteStep, user_path: &str, io: &str) -> (e: EngineError)
    ensures
        e@ == detailed_error(ErrorCode::IoError, write_step_message(step), io_details(user_path@, io@)),
{
    let message = match step {
        WriteStep::CreateTemp => "Failed to create temporary file",
        WriteStep::WriteTemp => "Failed to write to temporary file",
        WriteStep::SyncTemp => "Failed to sync temporary file",
        WriteStep::RenameTemp => "Failed to rename temporary file",
    };
    io_error(message, user_path, io)
}

} // verus!
