//! Reading a range of lines of a cached text, capped in bytes.
use vstd::prelude::*;
use vstd::utf8::*;
use ropey::Rope;
use crate::protocol::{
    DetailValue, DetailView, EngineError, EngineErrorView, ErrorCode, ReadExcerptArgs,
    ReadExcerptResult, details_view, detailed_error,
};
use crate::rope::{
    lemma_line_starts, rope_len_lines, rope_line_to_char, rope_slice_string, rope_text, ropey_line_count,
    ropey_line_start,
};
use crate::text::{lemma_truncation_len, truncate_to_max_bytes, truncation_of};

verus! {

/// The hard limit on the bytes of an excerpt.
pub const MAX_EXCERPT_BYTES: usize = 102_400;

/// The byte limit that applies: the requested one, capped by the hard limit.
pub open spec fn effective_max(requested: usize) -> int {
    if requested < MAX_EXCERPT_BYTES { requested as int } else { MAX_EXCERPT_BYTES as int }
}

pub open spec fn range_details(start: u32, end: u32) -> Seq<(Seq<char>, DetailView)> {
    seq![("startLine"@, DetailView::Int(start as int)), ("endLine"@, DetailView::Int(end as int))]
}

/// A line range is valid when both ends are 1-based and in order.
pub open spec fn valid_range(start: u32, end: u32) -> bool {
    start != 0 && end != 0 && end >= start
}

/// Refuses a line range that is not 1-based or not in order.
pub fn check_line_range(args: &ReadExcerptArgs) -> (r: Result<(), EngineError>)
    ensures
        r is Ok <==> valid_range(args.start_line, args.end_line),
        r matches Err(e) ==> e@ == detailed_error(ErrorCode::InvalidArgument, "Invalid line range"@, range_details(args.start_line, args.end_line)),
{
    if args.start_line == 0 || args.end_line == 0 || args.end_line < args.start_line {
        let mut d: Vec<(String, DetailValue)> = Vec::new();
        d.push(("startLine".to_owned(), DetailValue::Int(args.start_line as i128)));
        d.push(("endLine".to_owned(), DetailValue::Int(args.end_line as i128)));
        proof {
            assert(details_view(d@) =~= range_details(args.start_line, args.end_line));
        }
        return Err(EngineError::new(ErrorCode::InvalidArgument, "Invalid line range".to_owned()).with_details(d));
    }
    Ok(())
}

/// The number of lines ropey counts, as the `u32` the report carries.
pub open spec fn total_lines(text: Seq<char>) -> u32 {
    ropey_line_count(text) as u32
}

/// The last line an excerpt reaches: the requested end, capped by the total.
pub open spec fn excerpt_end(text: Seq<char>, end: u32) -> u32 {
    if end < total_lines(text) { end } else { total_lines(text) }
}

/// The chars an excerpt covers before truncation: from the start of its first
/// line to the start of the line after its last.
pub open spec fn excerpt_chars(text: Seq<char>, start: u32, end: u32) -> Seq<char> {
    text.subrange(
        ropey_line_start(text, (start - 1) as nat) as int,
        ropey_line_start(text, excerpt_end(text, end) as nat) as int,
    )
}

/// Reads lines `start_line..=end_line` (1-based) of the rope's text, capped
/// at the requested byte count and at most 100KB, never cutting a char.
pub fn run(rope: &Rope, args: &ReadExcerptArgs) -> (r: Result<ReadExcerptResult, EngineError>)
    ensures
        !valid_range(args.start_line, args.end_line) ==> (r matches Err(e) && e@ == detailed_error(
            ErrorCode::InvalidArgument,
            "Invalid line range"@,
            range_details(args.start_line, args.end_line),
        )),
        valid_range(args.start_line, args.end_line) && args.start_line > total_lines(rope_text(*rope))
            ==> (r matches Err(e) && e@ == detailed_error(
            ErrorCode::InvalidArgument,
            "startLine beyond end of file"@,
            seq![
                ("startLine"@, DetailView::Int(args.start_line as int)),
                ("totalLines"@, DetailView::Int(total_lines(rope_text(*rope)) as int)),
            ],
        )),
        valid_range(args.start_line, args.end_line) && args.start_line <= total_lines(rope_text(*rope))
            ==> (r matches Ok(res) && ({
            let chars = excerpt_chars(rope_text(*rope), args.start_line, args.end_line);
            &&& res.file_path@ == args.file_path@
            &&& res.start_line == args.start_line
            &&& res.end_line == excerpt_end(rope_text(*rope), args.end_line)
            &&& encode_utf8(res.text@) == truncation_of(encode_utf8(chars), effective_max(args.max_bytes))
            &&& res.truncated == (encode_utf8(chars).len() > effective_max(args.max_bytes))
            &&& encode_utf8(res.text@).len() <= effective_max(args.max_bytes)
        })),
{
    let max_bytes = if args.max_bytes < MAX_EXCERPT_BYTES { args.max_bytes } else { MAX_EXCERPT_BYTES };
    check_line_range(args)?;
    let count = rope_len_lines(rope);
    let total: u32 = #[verifier::truncate] (count as u32);
    assert(total <= count) by (bit_vector)
        requires
            total == #[verifier::truncate] (count as u32),
    ;
    if args.start_line > total {
        let mut d: Vec<(String, DetailValue)> = Vec::new();
        d.push(("startLine".to_owned(), DetailValue::Int(args.start_line as i128)));
        d.push(("totalLines".to_owned(), DetailValue::Int(total as i128)));
        proof {
            assert(details_view(d@) =~= seq![
                ("startLine"@, DetailView::Int(args.start_line as int)),
                ("totalLines"@, DetailView::Int(total as int)),
            ]);
        }
        return Err(EngineError::new(ErrorCode::InvalidArgument, "startLine beyond end of file".to_owned()).with_details(d));
    }
    let end_line = if args.end_line < total { args.end_line } else { total };
    let start0 = args.start_line - 1;
    proof {
        lemma_line_starts(rope_text(*rope), start0 as nat, end_line as nat);
    }
    let start_char = rope_line_to_char(rope, start0 as usize);
    let end_char = rope_line_to_char(rope, end_line as usize);
    let full_text = rope_slice_string(rope, start_char, end_char);
    let (text, truncated) = truncate_to_max_bytes(full_text.as_str(), max_bytes);
    proof {
        encode_utf8_valid_utf8(full_text@);
        lemma_truncation_len(encode_utf8(full_text@), max_bytes as int);
    }
    Ok(ReadExcerptResult { file_path: args.file_path.clone(), start_line: args.start_line, end_line, text, truncated })
}

} // verus!
