//! Text search through ripgrep: the command line it is given, the judgement
//! of its exit status, and the shaping of the matches it reports (trimmed,
//! long lines cut around the first match, the count capped).
use vstd::prelude::*;
use vstd::utf8::*;
use vstd::string::*;
use crate::protocol::{
    DetailValue, DetailView, EngineError, ErrorCode, SearchMatch, SearchTextArgs, SearchTextResult,
    detailed_error, details_view,
};
use crate::text::{
    boundary_at_most, decimal, decimal_string, floor_char_boundary, lemma_boundary_at_most, lemma_boundary_at_most_fixed,
    lemma_boundary_at_most_monotone, lemma_encode_concat, lemma_leading_ws_bound, leading_ws, lossy_string, push_str, trim_start_str, trim_str, trimmed,
    utf8_lossy,
};

verus! {

// ---------------------------------------------------------------------------
// Cutting a long line around its first match
// ---------------------------------------------------------------------------

/// The bytes of a long line that are kept for content, leaving room for an
/// indicator of up to 20 bytes on each side.
pub open spec fn content_space(max_len: nat) -> nat {
    if max_len >= 40 { (max_len - 40) as nat } else { 0 }
}

/// Where the window of `cs` bytes would start when centred on the match.
pub open spec fn centred_start(match_start: nat, cs: nat) -> nat {
    if match_start >= cs / 2 { (match_start - cs / 2) as nat } else { 0 }
}

/// Where the window ends: `cs` bytes after its centred start, at most the end
/// of the line.
pub open spec fn window_end(n: nat, match_start: nat, cs: nat) -> nat {
    if centred_start(match_start, cs) + cs < n { centred_start(match_start, cs) + cs } else { n }
}

/// Where the window starts: moved back so that it still holds `cs` bytes
/// when it reaches the end of a long enough line.
pub open spec fn window_start(n: nat, match_start: nat, cs: nat) -> nat {
    let e = window_end(n, match_start, cs);
    if e == n && e > cs { (e - cs) as nat } else { centred_start(match_start, cs) }
}

/// The byte offset of the first match, 0 when there is none.
pub open spec fn match_offset(match_start: Option<usize>) -> nat {
    match match_start {
        Some(s) => s as nat,
        None => 0,
    }
}

/// The cut of a line of `n` bytes with at most `max_len` bytes kept when the
/// room for content is too small: the first bytes, up to `max_len`.
pub open spec fn head_cut(n: nat, max_len: nat) -> nat {
    if max_len < n { max_len } else { n }
}

/// `[+N chars] ` before a window that leaves out `k > 0` chars.
pub open spec fn cut_prefix(k: nat) -> Seq<char> {
    if k > 0 { "[+"@ + decimal(k) + " chars] "@ } else { Seq::empty() }
}

/// ` [+N chars]` after a window that leaves out `k > 0` chars.
pub open spec fn cut_suffix(k: nat) -> Seq<char> {
    if k > 0 { " [+"@ + decimal(k) + " chars]"@ } else { Seq::empty() }
}

/// Where the kept window of a line starts: the window start (at most its
/// end), moved back to a char boundary.
pub open spec fn cut_start(line: Seq<u8>, ms: nat, cs: nat) -> int {
    let ws = window_start(line.len(), ms, cs);
    let we = window_end(line.len(), ms, cs);
    boundary_at_most(line, if ws <= we { ws as int } else { we as int })
}

/// Where the kept window of a line ends: the window end, moved back to a
/// char boundary.
pub open spec fn cut_end(line: Seq<u8>, ms: nat, cs: nat) -> int {
    boundary_at_most(line, window_end(line.len(), ms, cs) as int)
}

/// A long line cut down: when the room for content is large enough, a window
/// of it around the first match, with the number of chars left out on each
/// side; else its first bytes (up to `max_len`, at a char boundary)
/// followed by `...`.
pub open spec fn around_match(line: Seq<u8>, match_start: Option<usize>, max_len: nat) -> Seq<char> {
    let n = line.len();
    let cs = content_space(max_len);
    let ms = match_offset(match_start);
    if cs < 20 {
        decode_utf8(line.take(boundary_at_most(line, head_cut(n, max_len) as int))) + "..."@
    } else {
        let s = cut_start(line, ms, cs);
        let e = cut_end(line, ms, cs);
        cut_prefix(decode_utf8(line.take(s)).len()) + decode_utf8(line.subrange(s, e))
            + cut_suffix(decode_utf8(line.skip(e)).len())
    }
}

/// A char boundary of a text stays one in any prefix that ends at a char
/// boundary at or after it.
proof fn lemma_boundary_in_prefix(b: Seq<u8>, end: int, start: int)
    requires
        valid_utf8(b),
        is_char_boundary(b, end),
        is_char_boundary(b, start),
        0 <= start <= end,
    ensures
        valid_utf8(b.subrange(0, end)),
        is_char_boundary(b.subrange(0, end), start),
{
    valid_utf8_split(b, end);
    let p = b.subrange(0, end);
    is_char_boundary_start_end_of_seq(p);
    if 0 < start < end {
        is_char_boundary_iff_not_is_continuation_byte(b, start);
        is_char_boundary_iff_not_is_continuation_byte(p, start);
    }
}

/// The cut of a line is ordered and on char boundaries.
proof fn lemma_cut_bounds(line: Seq<u8>, ms: nat, cs: nat)
    requires
        valid_utf8(line),
    ensures
        0 <= cut_start(line, ms, cs) <= cut_end(line, ms, cs) <= line.len(),
        is_char_boundary(line, cut_start(line, ms, cs)),
        is_char_boundary(line, cut_end(line, ms, cs)),
{
    let ws = window_start(line.len(), ms, cs);
    let we = window_end(line.len(), ms, cs);
    let lo: int = if ws <= we { ws as int } else { we as int };
    lemma_boundary_at_most(line, lo);
    lemma_boundary_at_most(line, we as int);
    lemma_boundary_at_most_monotone(line, lo, we as int);
}

/// A long line cut down around a match that starts and ends at char
/// boundaries and is at most half the room for content long is an
/// indicator of the chars left out before, a slice of the line on char
/// boundaries that covers the whole match, and an indicator of the chars
/// left out after.
pub proof fn lemma_window_keeps_match(line: Seq<u8>, ms: usize, me: nat, max_len: nat)
    requires
        valid_utf8(line),
        content_space(max_len) >= 20,
        ms <= me <= line.len(),
        me - ms <= content_space(max_len) / 2,
        is_char_boundary(line, ms as int),
        is_char_boundary(line, me as int),
    ensures
        ({
            let s = cut_start(line, ms as nat, content_space(max_len));
            let e = cut_end(line, ms as nat, content_space(max_len));
            &&& 0 <= s <= ms
            &&& me <= e <= line.len()
            &&& is_char_boundary(line, s)
            &&& is_char_boundary(line, e)
            &&& around_match(line, Some(ms), max_len) == cut_prefix(decode_utf8(line.take(s)).len())
                + decode_utf8(line.subrange(s, e)) + cut_suffix(decode_utf8(line.skip(e)).len())
        }),
{
    let cs = content_space(max_len);
    let ws = window_start(line.len(), ms as nat, cs);
    let we = window_end(line.len(), ms as nat, cs);
    assert(ws <= ms);
    assert(me <= we);
    lemma_cut_bounds(line, ms as nat, cs);
    lemma_boundary_at_most_monotone(line, ws as int, ms as int);
    lemma_boundary_at_most_fixed(line, ms as int);
    lemma_boundary_at_most_monotone(line, me as int, we as int);
    lemma_boundary_at_most_fixed(line, me as int);
}

/// The first `cut` bytes of the line followed by `...`.
fn head_with_ellipsis(line: &str, cut: usize) -> (r: String)
    requires
        cut <= encode_utf8(line@).len(),
        is_char_boundary(encode_utf8(line@), cut as int),
    ensures
        r@ == decode_utf8(encode_utf8(line@).take(cut as int)) + "..."@,
{
    proof {
        encode_utf8_valid_utf8(line@);
    }
    let (head, _tail) = line.split_at(cut);
    let mut out = head.to_owned();
    push_str(&mut out, "...");
    proof {
        encode_utf8_decode_utf8(head@);
        assert(encode_utf8(line@).take(cut as int) =~= encode_utf8(line@).subrange(0, cut as int));
    }
    out
}

/// Bytes `start..end` of the line, with indicators of how many chars were
/// left out before and after.
fn window_with_indicators(line: &str, start: usize, end: usize) -> (r: String)
    requires
        start <= end <= encode_utf8(line@).len(),
        is_char_boundary(encode_utf8(line@), start as int),
        is_char_boundary(encode_utf8(line@), end as int),
    ensures
        r@ == cut_prefix(decode_utf8(encode_utf8(line@).take(start as int)).len())
            + decode_utf8(encode_utf8(line@).subrange(start as int, end as int))
            + cut_suffix(decode_utf8(encode_utf8(line@).skip(end as int)).len()),
{
    let bytes = line.as_bytes();
    proof {
        encode_utf8_valid_utf8(line@);
        lemma_boundary_in_prefix(bytes@, end as int, start as int);
    }
    let (head, tail) = line.split_at(end);
    let (skipped, snippet) = head.split_at(start);
    proof {
        assert(encode_utf8(snippet@) =~= bytes@.subrange(start as int, end as int));
        encode_utf8_decode_utf8(snippet@);
        assert(encode_utf8(skipped@) =~= bytes@.take(start as int));
        encode_utf8_decode_utf8(skipped@);
        assert(encode_utf8(tail@) =~= bytes@.skip(end as int));
        encode_utf8_decode_utf8(tail@);
    }
    let before = skipped.unicode_len();
    let after = tail.unicode_len();
    let mut out = String::new();
    if before > 0 {
        push_str(&mut out, "[+");
        push_str(&mut out, decimal_string(before as u128).as_str());
        push_str(&mut out, " chars] ");
    }
    push_str(&mut out, snippet);
    if after > 0 {
        push_str(&mut out, " [+");
        push_str(&mut out, decimal_string(after as u128).as_str());
        push_str(&mut out, " chars]");
    }
    proof {
        assert(out@ =~= cut_prefix(before as nat) + decode_utf8(bytes@.subrange(start as int, end as int))
            + cut_suffix(after as nat));
    }
    out
}

/// Cuts a long line down around its first match: a window of the line
/// centred on the match (moved back at the end of the line), its ends moved
/// back to char boundaries, with `[+N chars]` indicators for the chars left
/// out before and after; when the limit leaves too little room for that,
/// the first `max_len` bytes (back to a char boundary) and `...`.
pub fn truncate_around_match(line: &str, match_start: Option<usize>, max_len: usize) -> (r: String)
    ensures
        r@ == around_match(encode_utf8(line@), match_start, max_len as nat),
{
    let n = line.as_bytes().len();
    proof {
        encode_utf8_valid_utf8(line@);
    }
    let ms = match match_start {
        Some(s) => s,
        None => 0,
    };
    let content_space = if max_len >= 40 { max_len - 40 } else { 0 };
    if content_space < 20 {
        let cut = if max_len < n { max_len } else { n };
        let cut = floor_char_boundary(line, cut);
        return head_with_ellipsis(line, cut);
    }
    let half = content_space / 2;
    let start0 = if ms >= half { ms - half } else { 0 };
    let end = if start0 < n && content_space < n - start0 { start0 + content_space } else { n };
    let start = if end == n && end > content_space { end - content_space } else { start0 };
    let lo = if start <= end { start } else { end };
    let s = floor_char_boundary(line, lo);
    let e = floor_char_boundary(line, end);
    proof {
        lemma_cut_bounds(encode_utf8(line@), ms as nat, content_space as nat);
    }
    window_with_indicators(line, s, e)
}

// ---------------------------------------------------------------------------
// The ripgrep invocation
// ---------------------------------------------------------------------------

/// The directory searched, relative to the root: the requested one, or the
/// root itself.
pub open spec fn search_cwd_spec(cwd: Option<String>) -> Seq<char> {
    match cwd {
        Some(c) => c@,
        None => "."@,
    }
}

/// The directory searched, relative to the root.
pub fn search_cwd(args: &SearchTextArgs) -> (r: String)
    ensures
        r@ == search_cwd_spec(args.cwd),
{
    match &args.cwd {
        Some(c) => c.clone(),
        None => ".".to_owned(),
    }
}

/// Refuses a search directory that does not exist.
pub fn check_search_dir(cwd: &str, exists: bool) -> (r: Result<(), EngineError>)
    ensures
        exists ==> r is Ok,
        !exists ==> (r matches Err(e) && e@ == detailed_error(
            ErrorCode::NotFound,
            "Search directory not found"@,
            seq![("cwd"@, DetailView::Str(cwd@))],
        )),
{
    if !exists {
        let mut d: Vec<(String, DetailValue)> = Vec::new();
        d.push(("cwd".to_owned(), DetailValue::Str(cwd.to_owned())));
        proof {
            assert(details_view(d@) =~= seq![("cwd"@, DetailView::Str(cwd@))]);
        }
        return Err(EngineError::new(ErrorCode::NotFound, "Search directory not found".to_owned()).with_details(d));
    }
    Ok(())
}

pub open spec fn strings_view(v: Seq<String>) -> Seq<Seq<char>> {
    v.map_values(|s: String| s@)
}

/// `--glob G` for each glob, in order.
pub open spec fn glob_args(globs: Seq<Seq<char>>) -> Seq<Seq<char>>
    decreases globs.len(),
{
    if globs.len() == 0 {
        Seq::empty()
    } else {
        glob_args(globs.drop_last()) + seq!["--glob"@, globs.last()]
    }
}

/// The arguments ripgrep is run with: JSON output without messages, at most
/// `max_per_file` matches per file, case-insensitive unless case sensitivity
/// is asked for, fixed strings when regex is turned off, ignore files
/// disregarded when asked, the globs, the pattern, and the current
/// directory as the path.
pub open spec fn rg_args_spec(args: SearchTextArgs) -> Seq<Seq<char>> {
    seq!["--json"@, "--no-messages"@, "--max-count"@, decimal(args.max_per_file as nat)]
        + (if args.case_sensitive == Some(true) { seq!["--case-sensitive"@] } else { seq!["--ignore-case"@] })
        + (if args.regex == Some(false) { seq!["--fixed-strings"@] } else { Seq::empty() })
        + (if args.no_ignore { seq!["--no-ignore"@] } else { Seq::empty() })
        + glob_args(strings_view(args.globs@))
        + seq![args.pattern@, "."@]
}

proof fn lemma_glob_args(gs: Seq<Seq<char>>)
    ensures
        glob_args(gs).len() == 2 * gs.len(),
        forall|j: int| 0 <= j < gs.len() ==> #[trigger] glob_args(gs)[2 * j] == "--glob"@,
        forall|j: int| 0 <= j < gs.len() ==> #[trigger] glob_args(gs)[2 * j + 1] == gs[j],
    decreases gs.len(),
{
    reveal_strlit("--glob");
    if gs.len() > 0 {
        let d = gs.drop_last();
        lemma_glob_args(d);
        let r = glob_args(gs);
        assert(r == glob_args(d) + seq!["--glob"@, gs.last()]);
        assert forall|j: int| 0 <= j < gs.len() implies #[trigger] r[2 * j] == "--glob"@ && r[2 * j + 1] == gs[j] by {
            if j < d.len() {
                assert(r[2 * j] == glob_args(d)[2 * j]);
                assert(r[2 * j + 1] == glob_args(d)[2 * j + 1]);
                assert(d[j] == gs[j]);
            } else {
                assert(j == d.len());
                assert(r[2 * j] == "--glob"@);
                assert(r[2 * j + 1] == gs.last());
            }
        }
    }
}

/// The ripgrep command line: JSON output without messages and the per-file
/// cap first; then exactly one case flag, `--case-sensitive` only when case
/// sensitivity is asked for; `--fixed-strings` exactly when regex is turned
/// off (a pattern is a regular expression by default); `--no-ignore`
/// exactly when asked for; then each glob after `--glob`, in order; then the
/// pattern and `.`.
pub proof fn lemma_ripgrep_command_line(args: SearchTextArgs)
    ensures
        ({
            let a = rg_args_spec(args);
            let g = args.globs@.len();
            let n = a.len() - 2 - 2 * g;
            let opts = a.subrange(4, n);
            &&& 5 <= n
            &&& a.take(4) == seq!["--json"@, "--no-messages"@, "--max-count"@, decimal(args.max_per_file as nat)]
            &&& opts.len() == 1 + (if args.regex == Some(false) { 1int } else { 0 }) + (if args.no_ignore { 1int } else { 0 })
            &&& (opts.contains("--fixed-strings"@) <==> args.regex == Some(false))
            &&& (opts.contains("--no-ignore"@) <==> args.no_ignore)
            &&& (opts.contains("--case-sensitive"@) <==> args.case_sensitive == Some(true))
            &&& (opts.contains("--ignore-case"@) <==> args.case_sensitive != Some(true))
            &&& forall|j: int| 0 <= j < g ==> #[trigger] a[n + 2 * j] == "--glob"@
            &&& forall|j: int| 0 <= j < g ==> #[trigger] a[n + 2 * j + 1] == args.globs@[j]@
            &&& a[a.len() - 2] == args.pattern@
            &&& a[a.len() - 1] == "."@
        }),
{
    let gs = strings_view(args.globs@);
    lemma_glob_args(gs);
    let head = seq!["--json"@, "--no-messages"@, "--max-count"@, decimal(args.max_per_file as nat)];
    let cf = if args.case_sensitive == Some(true) { seq!["--case-sensitive"@] } else { seq!["--ignore-case"@] };
    let ff = if args.regex == Some(false) { seq!["--fixed-strings"@] } else { Seq::<Seq<char>>::empty() };
    let nf = if args.no_ignore { seq!["--no-ignore"@] } else { Seq::<Seq<char>>::empty() };
    let opts = cf + ff + nf;
    let a = rg_args_spec(args);
    assert(a =~= head + opts + glob_args(gs) + seq![args.pattern@, "."@]);
    let n = a.len() - 2 - 2 * args.globs@.len();
    assert(a.subrange(4, n) =~= opts);
    assert(a.take(4) =~= head);
    reveal_strlit("--glob");
    reveal_strlit("--fixed-strings");
    reveal_strlit("--no-ignore");
    reveal_strlit("--case-sensitive");
    reveal_strlit("--ignore-case");
    assert(opts.contains("--fixed-strings"@) <==> args.regex == Some(false)) by {
        if opts.contains("--fixed-strings"@) {
            let i = choose|i: int| 0 <= i < opts.len() && opts[i] == "--fixed-strings"@;
            assert(opts[i].len() == 15);
        } else if args.regex == Some(false) {
            assert(opts[1] == "--fixed-strings"@);
        }
    }
    assert(opts.contains("--no-ignore"@) <==> args.no_ignore) by {
        if opts.contains("--no-ignore"@) {
            let i = choose|i: int| 0 <= i < opts.len() && opts[i] == "--no-ignore"@;
            assert(opts[i].len() == 11);
        } else if args.no_ignore {
            assert(opts[opts.len() - 1] == "--no-ignore"@);
        }
    }
    assert(opts.contains("--case-sensitive"@) <==> args.case_sensitive == Some(true)) by {
        if opts.contains("--case-sensitive"@) {
            let i = choose|i: int| 0 <= i < opts.len() && opts[i] == "--case-sensitive"@;
            assert(opts[i].len() == 16);
        } else if args.case_sensitive == Some(true) {
            assert(opts[0] == "--case-sensitive"@);
        }
    }
    assert(opts.contains("--ignore-case"@) <==> args.case_sensitive != Some(true)) by {
        if opts.contains("--ignore-case"@) {
            let i = choose|i: int| 0 <= i < opts.len() && opts[i] == "--ignore-case"@;
            assert(opts[i].len() == 13);
        } else if args.case_sensitive != Some(true) {
            assert(opts[0] == "--ignore-case"@);
        }
    }
    assert forall|j: int| 0 <= j < args.globs@.len() implies #[trigger] a[n + 2 * j] == "--glob"@ by {
        assert(a[n + 2 * j] == glob_args(gs)[2 * j]);
    }
    assert forall|j: int| 0 <= j < args.globs@.len() implies #[trigger] a[n + 2 * j + 1] == args.globs@[j]@ by {
        assert(a[n + 2 * j + 1] == glob_args(gs)[2 * j + 1]);
        assert(gs[j] == args.globs@[j]@);
    }
}

/// The arguments ripgrep is run with.
pub fn ripgrep_args(args: &SearchTextArgs) -> (r: Vec<String>)
    ensures
        strings_view(r@) == rg_args_spec(*args),
{
    let mut r: Vec<String> = Vec::new();
    r.push("--json".to_owned());
    r.push("--no-messages".to_owned());
    r.push("--max-count".to_owned());
    r.push(decimal_string(args.max_per_file as u128));
    if args.case_sensitive == Some(true) {
        r.push("--case-sensitive".to_owned());
    } else {
        r.push("--ignore-case".to_owned());
    }
    if args.regex == Some(false) {
        r.push("--fixed-strings".to_owned());
    }
    if args.no_ignore {
        r.push("--no-ignore".to_owned());
    }
    let ghost head = strings_view(r@);
    proof {
        assert(head =~= seq!["--json"@, "--no-messages"@, "--max-count"@, decimal(args.max_per_file as nat)]
            + (if args.case_sensitive == Some(true) { seq!["--case-sensitive"@] } else { seq!["--ignore-case"@] })
            + (if args.regex == Some(false) { seq!["--fixed-strings"@] } else { Seq::empty() })
            + (if args.no_ignore { seq!["--no-ignore"@] } else { Seq::empty() }));
    }
    let mut i: usize = 0;
    while i < args.globs.len()
        invariant
            i <= args.globs@.len(),
            strings_view(r@) == head + glob_args(strings_view(args.globs@).take(i as int)),
        decreases args.globs.len() - i,
    {
        let ghost before = strings_view(r@);
        r.push("--glob".to_owned());
        r.push(args.globs[i].clone());
        proof {
            let gs = strings_view(args.globs@);
            assert(gs.take(i as int + 1).drop_last() =~= gs.take(i as int));
            assert(gs.take(i as int + 1).last() == args.globs@[i as int]@);
            assert(strings_view(r@) =~= before + seq!["--glob"@, args.globs@[i as int]@]);
            assert(glob_args(gs.take(i as int + 1)) == glob_args(gs.take(i as int)) + seq!["--glob"@, args.globs@[i as int]@]);
            assert(strings_view(r@) =~= head + glob_args(gs.take(i as int + 1)));
        }
        i = i + 1;
    }
    r.push(args.pattern.clone());
    r.push(".".to_owned());
    proof {
        assert(strings_view(args.globs@).take(i as int) =~= strings_view(args.globs@));
        assert(strings_view(r@) =~= rg_args_spec(*args));
    }
    r
}

/// The refusal reported when ripgrep could not be started (the I/O message).
pub fn spawn_error(message: &str) -> (e: EngineError)
    ensures
        e@ == detailed_error(
            ErrorCode::SearchFailed,
            "Failed to execute ripgrep"@,
            seq![("error"@, DetailView::Str(message@))],
        ),
{
    let mut d: Vec<(String, DetailValue)> = Vec::new();
    d.push(("error".to_owned(), DetailValue::Str(message.to_owned())));
    proof {
        assert(details_view(d@) =~= seq![("error"@, DetailView::Str(message@))]);
    }
    EngineError::new(ErrorCode::SearchFailed, "Failed to execute ripgrep".to_owned()).with_details(d)
}

/// The exit code as a detail: the number, or null when ripgrep was killed.
pub open spec fn code_detail(code: Option<i32>) -> DetailView {
    match code {
        Some(c) => DetailView::Int(c as int),
        None => DetailView::Null,
    }
}

/// Judges how ripgrep exited: success and exit code 1 (nothing found) are
/// accepted; anything else is a failure reported with the exit code and
/// both outputs, decoded leniently.
pub fn check_exit(success: bool, code: Option<i32>, stdout: &[u8], stderr: &[u8]) -> (r: Result<(), EngineError>)
    ensures
        (success || code == Some(1i32)) ==> r is Ok,
        !(success || code == Some(1i32)) ==> (r matches Err(e) && e@ == detailed_error(
            ErrorCode::SearchFailed,
            "ripgrep command failed"@,
            seq![
                ("code"@, code_detail(code)),
                ("stderr"@, DetailView::Str(utf8_lossy(stderr@))),
                ("stdout"@, DetailView::Str(utf8_lossy(stdout@))),
            ],
        )),
{
    if !success && code != Some(1i32) {
        let code_value = match code {
            Some(c) => DetailValue::Int(c as i128),
            None => DetailValue::Null,
        };
        let mut d: Vec<(String, DetailValue)> = Vec::new();
        d.push(("code".to_owned(), code_value));
        d.push(("stderr".to_owned(), DetailValue::Str(lossy_string(stderr))));
        d.push(("stdout".to_owned(), DetailValue::Str(lossy_string(stdout))));
        proof {
            assert(details_view(d@) =~= seq![
                ("code"@, code_detail(code)),
                ("stderr"@, DetailView::Str(utf8_lossy(stderr@))),
                ("stdout"@, DetailView::Str(utf8_lossy(stdout@))),
            ]);
        }
        return Err(EngineError::new(ErrorCode::SearchFailed, "ripgrep command failed".to_owned()).with_details(d));
    }
    Ok(())
}

// ---------------------------------------------------------------------------
// Shaping the matches
// ---------------------------------------------------------------------------

/// A match as ripgrep reports it: the file, the whole matching line, its
/// 1-based number, and the byte offset in the line of the first submatch.
#[derive(Debug, Clone, PartialEq)]
pub struct RgMatch {
    pub path: String,
    pub line_text: String,
    pub line_number: u64,
    pub first_start: Option<usize>,
}

/// The mathematical content of an [`RgMatch`].
pub struct RgMatchView {
    pub path: Seq<char>,
    pub line_text: Seq<char>,
    pub line_number: u64,
    pub first_start: Option<usize>,
}

impl View for RgMatch {
    type V = RgMatchView;

    open spec fn view(&self) -> RgMatchView {
        RgMatchView {
            path: self.path@,
            line_text: self.line_text@,
            line_number: self.line_number,
            first_start: self.first_start,
        }
    }
}

/// The mathematical content of a [`SearchMatch`].
pub struct MatchView {
    pub file_path: Seq<char>,
    pub line: u32,
    pub column: Option<u32>,
    pub text: Seq<char>,
}

pub open spec fn match_view(m: SearchMatch) -> MatchView {
    MatchView { file_path: m.file_path@, line: m.line, column: m.column, text: m.text@ }
}

pub open spec fn matches_view(ms: Seq<SearchMatch>) -> Seq<MatchView> {
    ms.map_values(|m: SearchMatch| match_view(m))
}

/// The 1-based column of a byte offset, as a `u32` (the offset is truncated
/// to 32 bits and the increment wraps).
pub open spec fn column_of(offset: usize) -> u32 {
    if (offset as u32) == u32::MAX { 0 } else { ((offset as u32) + 1) as u32 }
}

/// The bytes of the trimmed line of a match.
pub open spec fn trimmed_bytes(m: RgMatchView) -> Seq<u8> {
    encode_utf8(trimmed(m.line_text))
}

/// The number of bytes trimmed off the front of a match's line.
pub open spec fn front_trim(m: RgMatchView) -> nat {
    encode_utf8(m.line_text.take(leading_ws(m.line_text) as int)).len()
}

/// The offset of the first match within the trimmed line: shifted back by
/// the bytes trimmed off the front (0 where it falls among them).
pub open spec fn trimmed_match_start(m: RgMatchView) -> Option<usize> {
    match m.first_start {
        Some(s) => Some(if s >= front_trim(m) { (s - front_trim(m)) as usize } else { 0usize }),
        None => None,
    }
}

/// The reported match: the line trimmed, and cut around the first match when
/// it is longer than the limit; the column of the first submatch in the
/// untrimmed line; the line number truncated to 32 bits.
pub open spec fn shaped(m: RgMatchView, max_len: usize) -> MatchView {
    MatchView {
        file_path: m.path,
        line: m.line_number as u32,
        column: match m.first_start {
            Some(s) => Some(column_of(s)),
            None => None,
        },
        text: if trimmed_bytes(m).len() > max_len {
            around_match(trimmed_bytes(m), trimmed_match_start(m), max_len as nat)
        } else {
            trimmed(m.line_text)
        },
    }
}

/// The number of bytes `str::trim` removes from the front of a line.
fn front_trim_len(line: &str) -> (n: usize)
    ensures
        n == encode_utf8(line@.take(leading_ws(line@) as int)).len(),
{
    let rest = trim_start_str(line);
    proof {
        let k = leading_ws(line@) as int;
        lemma_leading_ws_bound(line@);
        assert(line@.take(k) + line@.skip(k) =~= line@);
        lemma_encode_concat(line@.take(k), line@.skip(k));
    }
    line.as_bytes().len() - rest.as_bytes().len()
}

/// Shapes one match reported by ripgrep.
pub fn to_search_match(m: &RgMatch, max_line_length: usize) -> (r: SearchMatch)
    ensures
        match_view(r) == shaped(m@, max_line_length),
{
    let column = match m.first_start {
        Some(s) => {
            let c = s as u32;
            if c == u32::MAX { Some(0u32) } else { Some(c + 1) }
        },
        None => None,
    };
    let line_text = trim_str(m.line_text.as_str());
    let text = if line_text.as_bytes().len() > max_line_length {
        let front = front_trim_len(m.line_text.as_str());
        let start = match m.first_start {
            Some(s) => Some(if s >= front { s - front } else { 0 }),
            None => None,
        };
        truncate_around_match(line_text, start, max_line_length)
    } else {
        line_text.to_owned()
    };
    SearchMatch { file_path: m.path.clone(), line: m.line_number as u32, column, text }
}

/// Per output line of ripgrep, the match it reports, if it is one.
pub open spec fn lines_view(lines: Seq<Option<RgMatch>>) -> Seq<Option<RgMatchView>> {
    lines.map_values(|l: Option<RgMatch>| match l {
        Some(m) => Some(m@),
        None => None,
    })
}

/// The number of matches among the lines.
pub open spec fn match_count(lines: Seq<Option<RgMatchView>>) -> nat
    decreases lines.len(),
{
    if lines.len() == 0 {
        0
    } else {
        match_count(lines.drop_last()) + if lines.last() is Some { 1nat } else { 0nat }
    }
}

/// The matches collected from the remaining lines after `acc`, and whether
/// the output was cut short because the limit was reached while lines
/// remained.
pub open spec fn matches_from(
    lines: Seq<Option<RgMatchView>>,
    max_matches: nat,
    max_len: usize,
    acc: Seq<MatchView>,
) -> (Seq<MatchView>, bool)
    decreases lines.len(),
{
    if lines.len() == 0 {
        (acc, false)
    } else if acc.len() >= max_matches {
        (acc, true)
    } else {
        let next = match lines[0] {
            Some(m) => acc.push(shaped(m, max_len)),
            None => acc,
        };
        matches_from(lines.drop_first(), max_matches, max_len, next)
    }
}

/// Collects the matches from ripgrep's output, given per output line the
/// match it reports if any, stopping when the limit is reached.
pub fn collect_matches(args: &SearchTextArgs, lines: &Vec<Option<RgMatch>>) -> (r: SearchTextResult)
    ensures
        (matches_view(r.matches@), r.truncated) == matches_from(
            lines_view(lines@),
            args.max_matches as nat,
            args.max_line_length,
            Seq::empty(),
        ),
{
    let ghost all = lines_view(lines@);
    let mut matches: Vec<SearchMatch> = Vec::new();
    proof {
        assert(matches_view(matches@) =~= Seq::empty());
        assert(all.skip(0) =~= all);
        assert(all.take(0) =~= Seq::empty());
    }
    let mut k: usize = 0;
    while k < lines.len()
        invariant
            k <= lines@.len(),
            all == lines_view(lines@),
            matches@.len() == match_count(all.take(k as int)),
            matches_from(all.skip(k as int), args.max_matches as nat, args.max_line_length, matches_view(matches@))
                == matches_from(all, args.max_matches as nat, args.max_line_length, Seq::empty()),
        decreases lines.len() - k,
    {
        proof {
            assert(all.skip(k as int).drop_first() =~= all.skip(k as int + 1));
            assert(all.take(k as int + 1).drop_last() =~= all.take(k as int));
            assert(all.take(k as int + 1).last() == all[k as int]);
        }
        if matches.len() >= args.max_matches {
            return SearchTextResult { matches, truncated: true };
        }
        match &lines[k] {
            Some(m) => {
                proof {
                    assert(all[k as int] == Some(m@));
                }
                let shaped_match = to_search_match(m, args.max_line_length);
                let ghost before = matches@;
                matches.push(shaped_match);
                proof {
                    assert(matches_view(matches@) =~= matches_view(before).push(match_view(shaped_match)));
                }
            },
            None => {
                proof {
                    assert(all[k as int] is None);
                }
            },
        }
        k = k + 1;
    }
    proof {
        assert(all.skip(k as int).len() == 0);
    }
    SearchTextResult { matches, truncated: false }
}

/// A search never reports more matches than asked for.
pub proof fn lemma_matches_bounded(
    lines: Seq<Option<RgMatchView>>,
    max_matches: nat,
    max_len: usize,
    acc: Seq<MatchView>,
)
    requires
        acc.len() <= max_matches,
    ensures
        matches_from(lines, max_matches, max_len, acc).0.len() <= max_matches,
    decreases lines.len(),
{
    if lines.len() > 0 && acc.len() < max_matches {
        let next = match lines[0] {
            Some(m) => acc.push(shaped(m, max_len)),
            None => acc,
        };
        lemma_matches_bounded(lines.drop_first(), max_matches, max_len, next);
    }
}

} // verus!
