//! The `ropey::Rope` text buffer, as the library uses it: a sequence of chars
//! with char-indexed edits and line lookup.
use vstd::prelude::*;
use vstd::utf8::*;
use ropey::Rope;

verus! {

#[verifier::external_type_specification]
#[verifier::external_body]
pub struct ExRope(Rope);

/// The text a rope holds.
pub uninterp spec fn rope_text(r: Rope) -> Seq<char>;

/// A char that ropey takes for a line break: LF, VT, FF, CR, NEL, LS or PS.
pub open spec fn is_line_break_char(c: char) -> bool {
    c == '\n' || c == '\u{0B}' || c == '\u{0C}' || c == '\r' || c == '\u{85}' || c == '\u{2028}'
        || c == '\u{2029}'
}

/// A line break ends right after char `i`: a line break char that is not the
/// CR of a CRLF pair (the pair is one break, ending after its LF).
pub open spec fn break_ends_after(t: Seq<char>, i: int) -> bool {
    0 <= i < t.len() && is_line_break_char(t[i]) && !(t[i] == '\r' && i + 1 < t.len() && t[i + 1] == '\n')
}

/// The number of line breaks that end at or after char `from`.
pub open spec fn breaks_from(t: Seq<char>, from: int) -> nat
    decreases t.len() - from,
{
    if from < 0 || from >= t.len() {
        0
    } else {
        breaks_from(t, from + 1) + if break_ends_after(t, from) { 1nat } else { 0nat }
    }
}

/// How many lines ropey counts in a text: one more than its line breaks.
pub open spec fn ropey_line_count(text: Seq<char>) -> nat {
    breaks_from(text, 0) + 1
}

/// The char index just after the `line`-th line break (counting from 1)
/// that ends at or after char `from`, or the end of the text when there are
/// fewer.
pub open spec fn line_start_from(t: Seq<char>, line: nat, from: int) -> int
    decreases t.len() - from,
{
    if from < 0 || from >= t.len() {
        t.len() as int
    } else if break_ends_after(t, from) {
        if line <= 1 { from + 1 } else { line_start_from(t, (line - 1) as nat, from + 1) }
    } else {
        line_start_from(t, line, from + 1)
    }
}

/// The char index at which ropey places the start of a line (0-based): the
/// start of the text for line 0, else just after the line's preceding line
/// break; the line one past the last starts at the end of the text.
pub open spec fn ropey_line_start(text: Seq<char>, line: nat) -> nat {
    if line == 0 { 0 } else { line_start_from(text, line, 0) as nat }
}

proof fn lemma_line_start_bound(t: Seq<char>, line: nat, from: int)
    requires
        0 <= from,
    ensures
        line_start_from(t, line, from) <= t.len(),
        from <= t.len() ==> from <= line_start_from(t, line, from),
    decreases t.len() - from,
{
    if from < t.len() {
        if break_ends_after(t, from) {
            if line > 1 {
                lemma_line_start_bound(t, (line - 1) as nat, from + 1);
            }
        } else {
            lemma_line_start_bound(t, line, from + 1);
        }
    }
}

proof fn lemma_line_start_past_last(t: Seq<char>, line: nat, from: int)
    requires
        0 <= from,
        line > breaks_from(t, from),
    ensures
        line_start_from(t, line, from) == t.len(),
    decreases t.len() - from,
{
    if from < t.len() {
        if break_ends_after(t, from) {
            lemma_line_start_past_last(t, (line - 1) as nat, from + 1);
        } else {
            lemma_line_start_past_last(t, line, from + 1);
        }
    }
}

proof fn lemma_line_start_monotone(t: Seq<char>, a: nat, b: nat, from: int)
    requires
        0 <= from,
        1 <= a <= b,
    ensures
        line_start_from(t, a, from) <= line_start_from(t, b, from),
    decreases t.len() - from,
{
    if from < t.len() {
        if break_ends_after(t, from) {
            if a <= 1 {
                if b > 1 {
                    lemma_line_start_bound(t, (b - 1) as nat, from + 1);
                }
            } else {
                lemma_line_start_monotone(t, (a - 1) as nat, (b - 1) as nat, from + 1);
            }
        } else {
            lemma_line_start_monotone(t, a, b, from + 1);
        }
    }
}

/// Line starts lie within the text and do not decrease with the line index;
/// the line one past the last starts at the end of the text.
pub proof fn lemma_line_starts(t: Seq<char>, a: nat, b: nat)
    requires
        a <= b,
    ensures
        ropey_line_start(t, a) <= ropey_line_start(t, b) <= t.len(),
        ropey_line_start(t, ropey_line_count(t)) == t.len(),
{
    lemma_line_start_bound(t, a, 0);
    lemma_line_start_bound(t, b, 0);
    if a >= 1 {
        lemma_line_start_monotone(t, a, b, 0);
    }
    lemma_line_start_past_last(t, ropey_line_count(t), 0);
}

/// `Rope::from_str`: a rope holding the given text.
#[verifier::external_body]
pub(crate) fn rope_from_str(s: &str) -> (r: Rope)
    ensures
        rope_text(r) == s@,
{
    Rope::from_str(s)
}

/// `Rope`'s `Display`, through `to_string`: the text the rope holds.
#[verifier::external_body]
pub(crate) fn rope_to_string(r: &Rope) -> (s: String)
    ensures
        s@ == rope_text(*r),
{
    r.to_string()
}

/// `Rope::clone`: a rope holding the same text.
#[verifier::external_body]
pub(crate) fn rope_clone(r: &Rope) -> (c: Rope)
    ensures
        rope_text(c) == rope_text(*r),
{
    r.clone()
}

/// `Rope::len_bytes`: the length of the text's UTF-8 encoding.
#[verifier::external_body]
pub(crate) fn rope_len_bytes(r: &Rope) -> (n: usize)
    ensures
        n == encode_utf8(rope_text(*r)).len(),
{
    r.len_bytes()
}

/// `Rope::remove` on the char range `start..end`; ropey panics unless
/// `start <= end <= len_chars`.
#[verifier::external_body]
pub(crate) fn rope_remove(r: &mut Rope, start: usize, end: usize)
    requires
        start <= end <= rope_text(*old(r)).len(),
    ensures
        rope_text(*final(r)) == rope_text(*old(r)).subrange(0, start as int) + rope_text(
            *old(r),
        ).subrange(end as int, rope_text(*old(r)).len() as int),
{
    r.remove(start..end);
}

/// `Rope::insert` of a text at a char index; ropey panics unless
/// `at <= len_chars`.
#[verifier::external_body]
pub(crate) fn rope_insert(r: &mut Rope, at: usize, text: &str)
    requires
        at <= rope_text(*old(r)).len(),
    ensures
        rope_text(*final(r)) == rope_text(*old(r)).subrange(0, at as int) + text@ + rope_text(
            *old(r),
        ).subrange(at as int, rope_text(*old(r)).len() as int),
{
    r.insert(at, text);
}

/// `Rope::len_lines`: the number of lines (an empty text has one empty
/// line).
#[verifier::external_body]
pub(crate) fn rope_len_lines(r: &Rope) -> (n: usize)
    ensures
        n == ropey_line_count(rope_text(*r)),
{
    r.len_lines()
}

/// `Rope::line_to_char`: the char index of the start of a line; the line
/// one past the last gives the end of the text. Ropey panics for a larger
/// line index.
#[verifier::external_body]
pub(crate) fn rope_line_to_char(r: &Rope, line: usize) -> (c: usize)
    requires
        line <= ropey_line_count(rope_text(*r)),
    ensures
        c == ropey_line_start(rope_text(*r), line as nat),
{
    r.line_to_char(line)
}

/// `Rope::slice` on the char range `start..end`, turned into a `String`;
/// ropey panics unless `start <= end <= len_chars`.
#[verifier::external_body]
pub(crate) fn rope_slice_string(r: &Rope, start: usize, end: usize) -> (s: String)
    requires
        start <= end <= rope_text(*r).len(),
    ensures
        s@ == rope_text(*r).subrange(start as int, end as int),
{
    r.slice(start..end).to_string()
}

} // verus!
