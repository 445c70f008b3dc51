//! Text utilities over UTF-8: byte/char correspondence, substring search,
//! truncation at character boundaries, and the few std string operations the
//! library relies on.
use vstd::prelude::*;
use vstd::utf8::*;
use vstd::string::*;

verus! {

broadcast use vstd::utf8::group_utf8_lib;

// ---------------------------------------------------------------------------
// std string operations
// ---------------------------------------------------------------------------

/// `String::push`: appends one char.
#[verifier::external_body]
pub(crate) fn push_char(s: &mut String, c: char)
    ensures
        final(s)@ == old(s)@.push(c),
{
    s.push(c);
}

/// `String::push_str`: appends a string slice.
#[verifier::external_body]
pub(crate) fn push_str(s: &mut String, t: &str)
    ensures
        final(s)@ == old(s)@ + t@,
{
    s.push_str(t);
}

/// The decimal digit for `d < 10`.
pub open spec fn digit_char(d: nat) -> char {
    if d == 0 { '0' }
    else if d == 1 { '1' }
    else if d == 2 { '2' }
    else if d == 3 { '3' }
    else if d == 4 { '4' }
    else if d == 5 { '5' }
    else if d == 6 { '6' }
    else if d == 7 { '7' }
    else if d == 8 { '8' }
    else { '9' }
}

/// The shortest decimal representation of `n`, as `Display` prints it.
pub open spec fn decimal(n: nat) -> Seq<char>
    decreases n,
{
    if n < 10 {
        seq![digit_char(n)]
    } else {
        decimal(n / 10).push(digit_char(n % 10))
    }
}

/// `u128::to_string`: the decimal representation of an unsigned integer.
#[verifier::external_body]
pub(crate) fn decimal_string(n: u128) -> (s: String)
    ensures
        s@ == decimal(n as nat),
{
    n.to_string()
}

/// `std::str::from_utf8`: succeeds exactly on valid UTF-8, and then the
/// string's encoding is the given bytes.
#[verifier::external_body]
pub(crate) fn str_from_utf8(b: &[u8]) -> (r: Option<&str>)
    ensures
        r is Some <==> valid_utf8(b@),
        r matches Some(s) ==> encode_utf8(s@) == b@ && s@ == decode_utf8(b@),
{
    std::str::from_utf8(b).ok()
}

/// The number of bytes of a well-formed UTF-8 sequence that starts with the
/// byte `f`, 0 for a byte that starts none.
pub open spec fn lossy_width(f: u8) -> nat {
    if f < 0x80 {
        1
    } else if 0xc2 <= f <= 0xdf {
        2
    } else if 0xe0 <= f <= 0xef {
        3
    } else if 0xf0 <= f <= 0xf4 {
        4
    } else {
        0
    }
}

/// Whether `x` may follow the leading byte `f` in a well-formed UTF-8
/// sequence (the second-byte ranges of the Unicode standard).
pub open spec fn lossy_second_ok(f: u8, x: u8) -> bool {
    if 0xc2 <= f <= 0xdf {
        0x80 <= x <= 0xbf
    } else if f == 0xe0 {
        0xa0 <= x <= 0xbf
    } else if 0xe1 <= f <= 0xec || f == 0xee || f == 0xef {
        0x80 <= x <= 0xbf
    } else if f == 0xed {
        0x80 <= x <= 0x9f
    } else if f == 0xf0 {
        0x90 <= x <= 0xbf
    } else if 0xf1 <= f <= 0xf3 {
        0x80 <= x <= 0xbf
    } else if f == 0xf4 {
        0x80 <= x <= 0x8f
    } else {
        false
    }
}

/// The bytes that lenient decoding takes at the front of a non-empty byte
/// sequence: a whole well-formed char, or else the longest prefix that
/// starts one (at least one byte), which stands for one U+FFFD.
pub open spec fn lossy_unit_len(b: Seq<u8>) -> nat {
    let w = lossy_width(b[0]);
    if w <= 1 {
        1
    } else if !(b.len() > 1 && lossy_second_ok(b[0], b[1])) {
        1
    } else if w == 2 || !(b.len() > 2 && is_continuation_byte(b[2])) {
        2
    } else if w == 3 || !(b.len() > 3 && is_continuation_byte(b[3])) {
        3
    } else {
        4
    }
}

/// The char lenient decoding gives for the front of a non-empty byte
/// sequence: the char encoded there, or U+FFFD for an ill-formed prefix.
pub open spec fn lossy_unit_char(b: Seq<u8>) -> char {
    if b[0] < 0x80 {
        b[0] as char
    } else if lossy_width(b[0]) >= 1 && lossy_unit_len(b) == lossy_width(b[0]) {
        decode_first_scalar(b) as char
    } else {
        '\u{FFFD}'
    }
}

/// What `String::from_utf8_lossy` makes of a byte sequence: its chars, with
/// each maximal ill-formed part replaced by one U+FFFD.
#[verifier::opaque]
pub open spec fn utf8_lossy(b: Seq<u8>) -> Seq<char>
    decreases b.len(),
{
    if b.len() == 0 {
        Seq::empty()
    } else {
        seq![lossy_unit_char(b)] + utf8_lossy(b.skip(lossy_unit_len(b) as int))
    }
}

/// `String::from_utf8_lossy`: decodes the bytes, replacing each maximal
/// ill-formed part by U+FFFD (the "substitution of maximal subparts" that
/// std documents for its lossy decoding).
#[verifier::external_body]
pub(crate) fn lossy_string(b: &[u8]) -> (s: String)
    ensures
        s@ == utf8_lossy(b@),
{
    String::from_utf8_lossy(b).into_owned()
}

/// The front unit of lenient decoding lies within the bytes, and every byte
/// of it after the first is a continuation byte.
proof fn lemma_lossy_unit(b: Seq<u8>)
    requires
        b.len() > 0,
    ensures
        1 <= lossy_unit_len(b) <= b.len(),
        forall|i: int| 1 <= i < lossy_unit_len(b) ==> is_continuation_byte(#[trigger] b[i]),
{
}

/// A byte sequence ending with a newline decodes leniently to text ending
/// with a newline.
pub proof fn lemma_lossy_ends_with_newline(a: Seq<u8>)
    requires
        a.len() > 0,
        a.last() == 10u8,
    ensures
        utf8_lossy(a).len() > 0,
        utf8_lossy(a).last() == '\n',
    decreases a.len(),
{
    reveal(utf8_lossy);
    lemma_lossy_unit(a);
    let n = lossy_unit_len(a) as int;
    if n < a.len() {
        let r = a.skip(n);
        assert(r.last() == a.last());
        lemma_lossy_ends_with_newline(r);
    } else {
        assert(a.len() == 1);
        assert(a[0] == 10u8);
        assert(a.skip(n) =~= Seq::<u8>::empty());
        assert(utf8_lossy(Seq::<u8>::empty()) =~= Seq::<char>::empty());
        assert(utf8_lossy(a) =~= seq![lossy_unit_char(a)]);
        assert(lossy_unit_char(a) == '\n');
    }
}

/// Nothing decodes to nothing.
pub proof fn lemma_lossy_empty()
    ensures
        utf8_lossy(Seq::<u8>::empty()) == Seq::<char>::empty(),
{
    reveal(utf8_lossy);
    assert(utf8_lossy(Seq::<u8>::empty()) =~= Seq::<char>::empty());
}

/// Lenient decoding can split right after a newline byte: the newline ends
/// any char or ill-formed part before it.
pub proof fn lemma_lossy_split_after_newline(a: Seq<u8>, b: Seq<u8>)
    requires
        a.len() > 0,
        a.last() == 10u8,
    ensures
        utf8_lossy(a + b) == utf8_lossy(a) + utf8_lossy(b),
    decreases a.len(),
{
    reveal(utf8_lossy);
    let ab = a + b;
    assert(forall|i: int| 0 <= i < a.len() ==> #[trigger] ab[i] == a[i]);
    lemma_lossy_unit(a);
    lemma_lossy_unit(ab);
    let n = lossy_unit_len(a) as int;
    assert(lossy_unit_len(ab) == n);
    assert(lossy_unit_char(ab) == lossy_unit_char(a));
    if n < a.len() {
        let r = a.skip(n);
        assert(r.last() == a.last());
        lemma_lossy_split_after_newline(r, b);
        assert(ab.skip(n) =~= r + b);
        assert(utf8_lossy(ab) =~= seq![lossy_unit_char(a)] + (utf8_lossy(r) + utf8_lossy(b)));
    } else {
        assert(ab.skip(n) =~= b);
        assert(a.skip(n) =~= Seq::<u8>::empty());
        assert(utf8_lossy(Seq::<u8>::empty()) =~= Seq::<char>::empty());
        assert(utf8_lossy(a) =~= seq![lossy_unit_char(a)]);
    }
}

/// `char::is_whitespace`: the Unicode `White_Space` property.
pub open spec fn is_whitespace(c: char) -> bool {
    let u = c as u32;
    (0x09 <= u && u <= 0x0d) || u == 0x20 || u == 0x85 || u == 0xa0 || u == 0x1680
        || (0x2000 <= u && u <= 0x200a) || u == 0x2028 || u == 0x2029 || u == 0x202f
        || u == 0x205f || u == 0x3000
}

/// Number of leading whitespace chars of `s`.
pub open spec fn leading_ws(s: Seq<char>) -> nat
    decreases s.len(),
{
    if s.len() > 0 && is_whitespace(s[0]) {
        1 + leading_ws(s.drop_first())
    } else {
        0
    }
}

/// A text has at most as many leading whitespace chars as chars.
pub proof fn lemma_leading_ws_bound(s: Seq<char>)
    ensures
        leading_ws(s) <= s.len(),
    decreases s.len(),
{
    if s.len() > 0 && is_whitespace(s[0]) {
        lemma_leading_ws_bound(s.drop_first());
    }
}

/// Number of trailing whitespace chars of `s`.
pub open spec fn trailing_ws(s: Seq<char>) -> nat
    decreases s.len(),
{
    if s.len() > 0 && is_whitespace(s.last()) {
        1 + trailing_ws(s.drop_last())
    } else {
        0
    }
}

/// `s` without its leading and trailing whitespace, as `str::trim` returns it.
pub open spec fn trimmed(s: Seq<char>) -> Seq<char> {
    let t = s.skip(leading_ws(s) as int);
    t.take(t.len() - trailing_ws(t))
}

/// `str::trim`.
#[verifier::external_body]
pub(crate) fn trim_str(s: &str) -> (r: &str)
    ensures
        r@ == trimmed(s@),
{
    s.trim()
}

/// `str::trim_start`: `s` without its leading whitespace.
#[verifier::external_body]
pub(crate) fn trim_start_str(s: &str) -> (r: &str)
    ensures
        r@ == s@.skip(leading_ws(s@) as int),
{
    s.trim_start()
}

/// Number of leading `c` chars of `s`.
pub open spec fn leading_run(s: Seq<char>, c: char) -> nat
    decreases s.len(),
{
    if s.len() > 0 && s[0] == c {
        1 + leading_run(s.drop_first(), c)
    } else {
        0
    }
}

/// Number of trailing `c` chars of `s`.
pub open spec fn trailing_run(s: Seq<char>, c: char) -> nat
    decreases s.len(),
{
    if s.len() > 0 && s.last() == c {
        1 + trailing_run(s.drop_last(), c)
    } else {
        0
    }
}

/// `s` without leading and trailing `c`, as `str::trim_matches(c)` returns it.
pub open spec fn trimmed_of(s: Seq<char>, c: char) -> Seq<char> {
    let t = s.skip(leading_run(s, c) as int);
    t.take(t.len() - trailing_run(t, c))
}

/// `str::trim_matches` with a `char` pattern.
#[verifier::external_body]
pub(crate) fn trim_matches_char(s: &str, c: char) -> (r: &str)
    ensures
        r@ == trimmed_of(s@, c),
{
    s.trim_matches(c)
}

/// What `str::to_lowercase` makes of a string (full Unicode case mapping).
pub uninterp spec fn unicode_lowercase(s: Seq<char>) -> Seq<char>;

/// The lowercase form of an ASCII char; other chars unchanged.
pub open spec fn ascii_lower(c: char) -> char {
    if 'A' <= c && c <= 'Z' { ((c as u32) + 32) as char } else { c }
}

/// Every char is ASCII.
pub open spec fn all_ascii(s: Seq<char>) -> bool {
    forall|i: int| 0 <= i < s.len() ==> (s[i] as u32) < 128
}

/// `str::to_lowercase`: the Unicode lowercase mapping, named; on ASCII text it
/// lowers the letters `A`-`Z` and keeps every other char, one for one.
#[verifier::external_body]
pub(crate) fn to_lowercase(s: &str) -> (r: String)
    ensures
        r@ == unicode_lowercase(s@),
        all_ascii(s@) ==> r@ == s@.map_values(|c: char| ascii_lower(c)),
{
    s.to_lowercase()
}

/// String equality.
pub fn str_eq(a: &str, b: &str) -> (r: bool)
    ensures
        r == (a@ == b@),
{
    let ab = a.as_bytes();
    let bb = b.as_bytes();
    proof {
        encode_utf8_decode_utf8(a@);
        encode_utf8_decode_utf8(b@);
    }
    if ab.len() != bb.len() {
        proof {
            if a@ == b@ {
                assert(ab@ == bb@);
            }
        }
        return false;
    }
    let mut i: usize = 0;
    while i < ab.len()
        invariant
            ab.len() == bb.len(),
            i <= ab.len(),
            ab@ == encode_utf8(a@),
            bb@ == encode_utf8(b@),
            forall|j: int| 0 <= j < i ==> ab@[j] == bb@[j],
        decreases ab.len() - i,
    {
        if ab[i] != bb[i] {
            proof {
                if a@ == b@ {
                    assert(ab@ == bb@);
                }
            }
            return false;
        }
        i = i + 1;
    }
    proof {
        assert(ab@ =~= bb@);
        encode_utf8_decode_utf8(a@);
        encode_utf8_decode_utf8(b@);
    }
    true
}

// ---------------------------------------------------------------------------
// Byte-level search
// ---------------------------------------------------------------------------

/// `n` occurs in `h` at byte offset `p`.
pub open spec fn occurs_at(h: Seq<u8>, n: Seq<u8>, p: int) -> bool {
    0 <= p && p + n.len() <= h.len() && h.subrange(p, p + n.len()) == n
}

/// The first offset `>= from` at which `n` occurs in `h`, or `-1`.
pub open spec fn first_occurrence_from(h: Seq<u8>, n: Seq<u8>, from: int) -> int
    decreases h.len() + 1 - from,
{
    if from < 0 || from + n.len() > h.len() {
        -1
    } else if occurs_at(h, n, from) {
        from
    } else {
        first_occurrence_from(h, n, from + 1)
    }
}

/// The first offset at which `n` occurs in `h`, or `-1`.
pub open spec fn first_occurrence(h: Seq<u8>, n: Seq<u8>) -> int {
    first_occurrence_from(h, n, 0)
}

/// `n` occurs in `h` at two different offsets.
pub open spec fn occurs_twice(h: Seq<u8>, n: Seq<u8>) -> bool {
    first_occurrence(h, n) >= 0 && first_occurrence_from(h, n, first_occurrence(h, n) + 1) >= 0
}

/// Number of offsets below `p` at which `n` occurs in `h`.
pub open spec fn count_below(h: Seq<u8>, n: Seq<u8>, p: int) -> nat
    decreases p,
{
    if p <= 0 {
        0
    } else {
        count_below(h, n, p - 1) + if occurs_at(h, n, p - 1) { 1nat } else { 0nat }
    }
}

/// Number of offsets at which `n` occurs in `h`.
pub open spec fn occurrence_count(h: Seq<u8>, n: Seq<u8>) -> nat {
    count_below(h, n, h.len() + 1int)
}

proof fn lemma_count_below_tail(h: Seq<u8>, n: Seq<u8>, p: int)
    requires
        0 <= h.len() - n.len() + 1 <= p <= h.len() + 1,
    ensures
        count_below(h, n, p) == count_below(h, n, h.len() - n.len() + 1),
    decreases p,
{
    if p > h.len() - n.len() + 1 {
        lemma_count_below_tail(h, n, p - 1);
    }
}

/// `r` lists every offset at which `n` occurs in `h`, in increasing order.
pub open spec fn lists_occurrences(h: Seq<u8>, n: Seq<u8>, r: Seq<usize>) -> bool {
    &&& forall|i: int| 0 <= i < r.len() ==> occurs_at(h, n, #[trigger] r[i] as int)
    &&& forall|i: int, j: int| 0 <= i < j < r.len() ==> r[i] < r[j]
    &&& forall|p: int| occurs_at(h, n, p) ==> r.contains(p as usize)
}

pub proof fn lemma_first_occurrence_from(h: Seq<u8>, n: Seq<u8>, from: int)
    requires
        0 <= from,
    ensures
        ({
            let f = first_occurrence_from(h, n, from);
            &&& f == -1 || (from <= f && occurs_at(h, n, f))
            &&& forall|p: int| from <= p && occurs_at(h, n, p) ==> (f != -1 && f <= p)
        }),
    decreases h.len() + 1 - from,
{
    if from + n.len() > h.len() {
    } else if occurs_at(h, n, from) {
    } else {
        lemma_first_occurrence_from(h, n, from + 1);
    }
}

/// The first element of an occurrence list is the first occurrence, and the
/// list has more than one element exactly when the needle occurs twice.
pub proof fn lemma_occurrence_list(h: Seq<u8>, n: Seq<u8>, r: Seq<usize>)
    requires
        lists_occurrences(h, n, r),
        h.len() <= usize::MAX,
    ensures
        r.len() == 0 <==> first_occurrence(h, n) == -1,
        r.len() > 0 ==> r[0] as int == first_occurrence(h, n),
        r.len() > 1 <==> occurs_twice(h, n),
{
    lemma_first_occurrence_from(h, n, 0);
    let f = first_occurrence(h, n);
    if r.len() > 0 {
        assert(occurs_at(h, n, r[0] as int));
        assert(f != -1 && f <= r[0]);
        assert(r.contains(f as usize));
        let k0 = choose|k: int| 0 <= k < r.len() && r[k] == f as usize;
        if k0 > 0 {
            assert(r[0] < r[k0]);
        }
        assert(r[0] as int == f);
        lemma_first_occurrence_from(h, n, f + 1);
        let g = first_occurrence_from(h, n, f + 1);
        if r.len() > 1 {
            assert(occurs_at(h, n, r[1] as int));
            assert(r[0] < r[1]);
        }
        if g != -1 {
            assert(r.contains(g as usize));
            let k = choose|k: int| 0 <= k < r.len() && r[k] == g as usize;
            assert(k != 0);
        }
    } else {
        if f != -1 {
            assert(r.contains(f as usize));
        }
    }
}

/// All offsets at which `needle` occurs in `haystack`, in increasing order,
/// overlapping occurrences included.
pub fn find_all(haystack: &[u8], needle: &[u8]) -> (r: Vec<usize>)
    requires
        needle@.len() > 0,
    ensures
        lists_occurrences(haystack@, needle@, r@),
        r@.len() == occurrence_count(haystack@, needle@),
{
    let mut r: Vec<usize> = Vec::new();
    let hl = haystack.len();
    let nl = needle.len();
    if nl > hl {
        proof {
            lemma_count_zero(haystack@, needle@, hl + 1);
        }
        return r;
    }
    let mut p: usize = 0;
    while p <= hl - nl
        invariant
            nl == needle@.len(),
            hl == haystack@.len(),
            nl > 0,
            nl <= hl,
            p <= hl - nl + 1,
            forall|i: int| 0 <= i < r.len() ==> occurs_at(haystack@, needle@, #[trigger] r@[i] as int),
            forall|i: int| 0 <= i < r.len() ==> #[trigger] r@[i] < p,
            forall|i: int, j: int| 0 <= i < j < r.len() ==> r@[i] < r@[j],
            forall|q: int| 0 <= q < p && occurs_at(haystack@, needle@, q) ==> r@.contains(q as usize),
            r@.len() == count_below(haystack@, needle@, p as int),
        decreases hl - nl + 1 - p,
    {
        let mut k: usize = 0;
        let mut ok = true;
        while k < nl
            invariant
                nl == needle@.len(),
                hl == haystack@.len(),
                p + nl <= hl,
                k <= nl,
                ok == (forall|j: int| 0 <= j < k ==> haystack@[p + j] == needle@[j]),
            decreases nl - k,
        {
            if haystack[p + k] != needle[k] {
                ok = false;
            }
            k = k + 1;
        }
        proof {
            if ok {
                assert(haystack@.subrange(p as int, p + nl) =~= needle@);
            } else {
                let j = choose|j: int| 0 <= j < nl && haystack@[p + j] != needle@[j];
                assert(haystack@.subrange(p as int, p + nl)[j] != needle@[j]);
            }
        }
        let ghost old_r = r@;
        if ok {
            r.push(p);
        }
        proof {
            assert forall|q: int| 0 <= q < p + 1 && occurs_at(haystack@, needle@, q) implies r@.contains(q as usize) by {
                if q == p {
                    assert(r@[r@.len() - 1] == p);
                } else {
                    assert(old_r.contains(q as usize));
                    let k = choose|k: int| 0 <= k < old_r.len() && old_r[k] == q as usize;
                    assert(r@[k] == q as usize);
                }
            }
        }
        p = p + 1;
    }
    proof {
        assert forall|q: int| occurs_at(haystack@, needle@, q) implies r@.contains(q as usize) by {
            assert(q <= hl - nl);
        }
        lemma_count_below_tail(haystack@, needle@, hl + 1);
    }
    r
}

/// `n` occurs somewhere in `h`.
pub open spec fn contains_bytes(h: Seq<u8>, n: Seq<u8>) -> bool {
    exists|p: int| occurs_at(h, n, p)
}

/// Whether a non-empty byte string occurs in another.
pub fn bytes_contain(haystack: &[u8], needle: &[u8]) -> (r: bool)
    requires
        needle@.len() > 0,
    ensures
        r == contains_bytes(haystack@, needle@),
{
    let found = find_all(haystack, needle);
    proof {
        if found@.len() > 0 {
            assert(occurs_at(haystack@, needle@, found@[0] as int));
        }
        if contains_bytes(haystack@, needle@) {
            let p = choose|p: int| occurs_at(haystack@, needle@, p);
            assert(found@.contains(p as usize));
        }
    }
    found.len() > 0
}

proof fn lemma_count_zero(h: Seq<u8>, n: Seq<u8>, p: int)
    requires
        n.len() > h.len(),
    ensures
        count_below(h, n, p) == 0,
    decreases p,
{
    if p > 0 {
        lemma_count_zero(h, n, p - 1);
    }
}

// ---------------------------------------------------------------------------
// Byte offsets and char indices
// ---------------------------------------------------------------------------

/// Number of chars that start before byte offset `b` of the UTF-8 text
/// `bytes`: the leading (non-continuation) bytes among its first `b` bytes.
pub open spec fn chars_before(bytes: Seq<u8>, b: int) -> nat
    decreases b,
{
    if b <= 0 {
        0
    } else if b > bytes.len() {
        chars_before(bytes, bytes.len() as int)
    } else {
        chars_before(bytes, b - 1) + if is_continuation_byte(bytes[b - 1]) { 0nat } else { 1nat }
    }
}

pub proof fn lemma_chars_before_monotone(bytes: Seq<u8>, a: int, b: int)
    requires
        a <= b,
    ensures
        chars_before(bytes, a) <= chars_before(bytes, b),
    decreases b - a,
{
    if a < b {
        if b > bytes.len() {
            if a <= bytes.len() {
                lemma_chars_before_monotone(bytes, a, bytes.len() as int);
            }
        } else {
            lemma_chars_before_monotone(bytes, a, b - 1);
        }
    }
}

proof fn lemma_chars_before_append(x: Seq<u8>, y: Seq<u8>, b: int)
    requires
        0 <= b <= y.len(),
    ensures
        chars_before(x + y, x.len() + b) == chars_before(x, x.len() as int) + chars_before(y, b),
    decreases b,
{
    if b == 0 {
        lemma_chars_before_prefix(x, y, x.len() as int);
    } else {
        lemma_chars_before_append(x, y, b - 1);
        assert((x + y)[x.len() + b - 1] == y[b - 1]);
    }
}

proof fn lemma_chars_before_prefix(x: Seq<u8>, y: Seq<u8>, b: int)
    requires
        0 <= b <= x.len(),
    ensures
        chars_before(x + y, b) == chars_before(x, b),
    decreases b,
{
    if b > 0 {
        lemma_chars_before_prefix(x, y, b - 1);
        assert((x + y)[b - 1] == x[b - 1]);
    }
}

proof fn lemma_encode_scalar_leading(c: char)
    ensures
        ({
            let e = encode_scalar(c as u32);
            &&& 1 <= e.len() <= 4
            &&& !is_continuation_byte(e[0])
            &&& forall|i: int| 1 <= i < e.len() ==> is_continuation_byte(#[trigger] e[i])
        }),
{
    let u = c as u32;
    char_is_scalar(c);
    if has_width_1_encoding(u) {
        assert(!is_continuation_byte(leading_byte_width_1(u))) by (bit_vector)
            requires
                u <= 0x7f;
    } else if has_width_2_encoding(u) {
        assert(!is_continuation_byte(leading_byte_width_2(u))) by (bit_vector)
            requires
                0x80 <= u <= 0x7ff;
        assert(is_continuation_byte(last_continuation_byte(u))) by (bit_vector);
    } else if has_width_3_encoding(u) {
        assert(!is_continuation_byte(leading_byte_width_3(u))) by (bit_vector)
            requires
                0x800 <= u <= 0xffff;
        assert(is_continuation_byte(last_continuation_byte(u))) by (bit_vector);
        assert(is_continuation_byte(second_last_continuation_byte(u))) by (bit_vector);
    } else {
        assert(!is_continuation_byte(leading_byte_width_4(u))) by (bit_vector)
            requires
                0x10000 <= u <= 0x10ffff;
        assert(is_continuation_byte(last_continuation_byte(u))) by (bit_vector);
        assert(is_continuation_byte(second_last_continuation_byte(u))) by (bit_vector);
        assert(is_continuation_byte(third_last_continuation_byte(u))) by (bit_vector);
    }
}

proof fn lemma_chars_before_scalar(c: char, b: int)
    requires
        1 <= b <= encode_scalar(c as u32).len(),
    ensures
        chars_before(encode_scalar(c as u32), b) == 1,
    decreases b,
{
    lemma_encode_scalar_leading(c);
    let e = encode_scalar(c as u32);
    assert(chars_before(e, 0) == 0);
    if b > 1 {
        lemma_chars_before_scalar(c, b - 1);
        assert(is_continuation_byte(e[b - 1]));
    }
}

/// A UTF-8 text has as many leading bytes as it encodes chars.
pub proof fn lemma_chars_before_all(cs: Seq<char>)
    ensures
        chars_before(encode_utf8(cs), encode_utf8(cs).len() as int) == cs.len(),
    decreases cs.len(),
{
    if cs.len() > 0 {
        let e = encode_scalar(cs[0] as u32);
        let rest = encode_utf8(cs.drop_first());
        lemma_encode_scalar_leading(cs[0]);
        lemma_chars_before_all(cs.drop_first());
        lemma_chars_before_append(e, rest, rest.len() as int);
        lemma_chars_before_scalar(cs[0], e.len() as int);
    }
}

/// A valid UTF-8 text that starts with a valid UTF-8 text has a char
/// boundary where that prefix ends.
pub proof fn lemma_prefix_is_boundary(h: Seq<u8>, n: Seq<u8>)
    requires
        valid_utf8(h),
        valid_utf8(n),
        n.len() <= h.len(),
        h.take(n.len() as int) == n,
    ensures
        is_char_boundary(h, n.len() as int),
    decreases n.len(),
{
    if n.len() > 0 {
        assert(h[0] == n[0]);
        let w = length_of_first_scalar(n);
        assert(length_of_first_scalar(h) == w);
        assert(forall|i: int| 0 <= i < w ==> h[i] == #[trigger] n[i]) by {
            assert forall|i: int| 0 <= i < w implies h[i] == #[trigger] n[i] by {
                assert(h.take(n.len() as int)[i] == h[i]);
            }
        }
        let ph = pop_first_scalar(h);
        let pn = pop_first_scalar(n);
        assert(ph.take(pn.len() as int) =~= pn);
        lemma_prefix_is_boundary(ph, pn);
    }
}

/// A char boundary of a suffix that starts at a char boundary is one of the
/// whole text.
pub proof fn lemma_boundary_lift(h: Seq<u8>, a: int, m: int)
    requires
        valid_utf8(h),
        0 <= a <= h.len(),
        is_char_boundary(h, a),
        is_char_boundary(h.skip(a), m),
    ensures
        is_char_boundary(h, a + m),
{
    valid_utf8_split(h, a);
    assert(h.subrange(a, h.len() as int) =~= h.skip(a));
    let r = h.skip(a);
    is_char_boundary_start_end_of_seq(h);
    if 0 < m && a + m < h.len() {
        is_char_boundary_iff_not_is_continuation_byte(r, m);
        is_char_boundary_iff_not_is_continuation_byte(h, a + m);
    } else if m < 0 || m > r.len() {
        assert(!is_char_boundary(r, m));
    }
}

/// An occurrence of a non-empty valid UTF-8 needle in a valid UTF-8 text
/// starts and ends at char boundaries.
pub proof fn lemma_occurrence_boundaries(h: Seq<u8>, n: Seq<u8>, q: int)
    requires
        valid_utf8(h),
        valid_utf8(n),
        n.len() > 0,
        occurs_at(h, n, q),
    ensures
        is_char_boundary(h, q),
        is_char_boundary(h, q + n.len()),
{
    assert(h.subrange(q, q + n.len())[0] == h[q]);
    assert(!is_continuation_byte(n[0]));
    is_char_boundary_iff_not_is_continuation_byte(h, q);
    let r = h.skip(q);
    valid_utf8_split(h, q);
    assert(h.subrange(q, h.len() as int) =~= r);
    assert(r.take(n.len() as int) =~= h.subrange(q, q + n.len()));
    lemma_prefix_is_boundary(r, n);
    lemma_boundary_lift(h, q, n.len() as int);
}

/// Encoding distributes over concatenation.
pub proof fn lemma_encode_concat(a: Seq<char>, b: Seq<char>)
    ensures
        encode_utf8(a + b) == encode_utf8(a) + encode_utf8(b),
    decreases a.len(),
{
    if a.len() == 0 {
        assert(a + b =~= b);
        assert(encode_utf8(a) + encode_utf8(b) =~= encode_utf8(b));
    } else {
        lemma_encode_concat(a.drop_first(), b);
        assert((a + b).drop_first() =~= a.drop_first() + b);
        assert((a + b)[0] == a[0]);
        assert(encode_utf8(a + b) =~= encode_scalar(a[0] as u32) + (encode_utf8(a.drop_first()) + encode_utf8(b)));
    }
}

/// The chars before a char boundary encode exactly the bytes before it, and
/// the chars after it the bytes after it.
pub proof fn lemma_split_at_boundary(cs: Seq<char>, k: int)
    requires
        is_char_boundary(encode_utf8(cs), k),
    ensures
        0 <= k <= encode_utf8(cs).len(),
        encode_utf8(cs.take(chars_before(encode_utf8(cs), k) as int)) == encode_utf8(cs).take(k),
        encode_utf8(cs.skip(chars_before(encode_utf8(cs), k) as int)) == encode_utf8(cs).skip(k),
    decreases cs.len(),
{
    let b = encode_utf8(cs);
    encode_utf8_valid_utf8(cs);
    if k == 0 {
        assert(cs.take(0) =~= Seq::<char>::empty());
        assert(b.take(0) =~= Seq::<u8>::empty());
        assert(cs.skip(0) =~= cs);
        assert(b.skip(0) =~= b);
    } else {
        assert(cs.len() > 0);
        let e = encode_scalar(cs[0] as u32);
        let rest = cs.drop_first();
        let br = encode_utf8(rest);
        assert(b == e + br);
        encode_utf8_first_scalar(cs);
        assert(pop_first_scalar(b) =~= br);
        let w = e.len() as int;
        let m = k - w;
        assert(is_char_boundary(br, m));
        lemma_split_at_boundary(rest, m);
        lemma_chars_before_append(e, br, m);
        lemma_chars_before_scalar(cs[0], w);
        let c = chars_before(br, m) as int;
        lemma_chars_before_monotone(br, m, br.len() as int);
        lemma_chars_before_all(rest);
        assert(c <= rest.len());
        assert(chars_before(b, k) == 1 + c);
        assert(cs.take(1 + c).drop_first() =~= rest.take(c));
        assert(cs.take(1 + c)[0] == cs[0]);
        assert(encode_utf8(cs.take(1 + c)) == e + encode_utf8(rest.take(c)));
        assert(b.take(k) =~= e + br.take(m));
        assert(cs.skip(1 + c) =~= rest.skip(c));
        assert(b.skip(k) =~= br.skip(m));
    }
}

/// The number of chars of `bytes` that start before byte offset `b`.
pub fn char_index_of_byte(bytes: &[u8], b: usize) -> (r: usize)
    ensures
        r == chars_before(bytes@, b as int),
        r <= bytes@.len(),
{
    let end = if b < bytes.len() { b } else { bytes.len() };
    let mut i: usize = 0;
    let mut count: usize = 0;
    while i < end
        invariant
            end <= bytes@.len(),
            i <= end,
            count == chars_before(bytes@, i as int),
            count <= i,
        decreases end - i,
    {
        if bytes[i] < 0x80 || bytes[i] > 0xbf {
            count = count + 1;
        }
        i = i + 1;
    }
    count
}

// ---------------------------------------------------------------------------
// Lines
// ---------------------------------------------------------------------------

/// Number of `\n` bytes in `p`.
pub open spec fn newline_count(p: Seq<u8>) -> nat
    decreases p.len(),
{
    if p.len() == 0 {
        0
    } else {
        newline_count(p.drop_last()) + if p.last() == 10 { 1nat } else { 0nat }
    }
}

/// The 1-based number of the line that holds byte offset `b` of `content`:
/// one more than the `\n` bytes before it (offsets past the end count as the
/// end).
pub open spec fn line_at(content: Seq<u8>, b: int) -> nat {
    1 + newline_count(content.take(if b < content.len() { b } else { content.len() as int }))
}

/// The number of `\n` bytes in `bytes[..min(b, len)]`.
pub fn count_newlines_before(bytes: &[u8], b: usize) -> (r: usize)
    ensures
        r + 1 == line_at(bytes@, b as int),
{
    let end = if b < bytes.len() { b } else { bytes.len() };
    let mut i: usize = 0;
    let mut count: usize = 0;
    while i < end
        invariant
            end <= bytes@.len(),
            i <= end,
            count == newline_count(bytes@.take(i as int)),
            count <= i,
        decreases end - i,
    {
        proof {
            assert(bytes@.take(i + 1).drop_last() =~= bytes@.take(i as int));
        }
        if bytes[i] == 10 {
            count = count + 1;
        }
        i = i + 1;
    }
    count
}

/// A line number is at most one more than the length of the text.
pub proof fn lemma_line_at_bound(content: Seq<u8>, b: int)
    requires
        0 <= b,
    ensures
        1 <= line_at(content, b) <= content.len() + 1,
{
    let e = if b < content.len() { b } else { content.len() as int };
    lemma_newline_count_bound(content.take(e));
}

proof fn lemma_newline_count_bound(p: Seq<u8>)
    ensures
        newline_count(p) <= p.len(),
    decreases p.len(),
{
    if p.len() > 0 {
        lemma_newline_count_bound(p.drop_last());
    }
}

/// Line numbers never decrease along the text.
pub proof fn lemma_line_at_monotone(content: Seq<u8>, a: int, b: int)
    requires
        0 <= a <= b,
    ensures
        line_at(content, a) <= line_at(content, b),
{
    let ea = if a < content.len() { a } else { content.len() as int };
    let eb = if b < content.len() { b } else { content.len() as int };
    lemma_newline_count_prefix(content, ea, eb);
}

proof fn lemma_newline_count_prefix(p: Seq<u8>, i: int, j: int)
    requires
        0 <= i <= j <= p.len(),
    ensures
        newline_count(p.take(i)) <= newline_count(p.take(j)),
    decreases j - i,
{
    if i < j {
        lemma_newline_count_prefix(p, i, j - 1);
        assert(p.take(j).drop_last() =~= p.take(j - 1));
    }
}

// ---------------------------------------------------------------------------
// Truncation at char boundaries
// ---------------------------------------------------------------------------

/// The largest char boundary of `bytes` that is at most `m`.
pub open spec fn boundary_at_most(bytes: Seq<u8>, m: int) -> int
    decreases m,
{
    if m <= 0 {
        0
    } else if m <= bytes.len() && is_char_boundary(bytes, m) {
        m
    } else {
        boundary_at_most(bytes, m - 1)
    }
}

/// The bytes that `truncate_to_max_bytes` keeps of a UTF-8 text.
pub open spec fn truncation_of(bytes: Seq<u8>, max: int) -> Seq<u8> {
    if bytes.len() <= max {
        bytes
    } else {
        bytes.subrange(0, boundary_at_most(bytes, max))
    }
}

pub proof fn lemma_boundary_at_most(bytes: Seq<u8>, m: int)
    requires
        0 <= m,
        valid_utf8(bytes),
    ensures
        0 <= boundary_at_most(bytes, m) <= m,
        boundary_at_most(bytes, m) <= bytes.len(),
        is_char_boundary(bytes, boundary_at_most(bytes, m)),
    decreases m,
{
    if m > 0 && !(m <= bytes.len() && is_char_boundary(bytes, m)) {
        lemma_boundary_at_most(bytes, m - 1);
    }
}

/// A char boundary is its own largest boundary below it.
pub proof fn lemma_boundary_at_most_fixed(bytes: Seq<u8>, m: int)
    requires
        0 <= m <= bytes.len(),
        is_char_boundary(bytes, m),
    ensures
        boundary_at_most(bytes, m) == m,
{
}

/// The largest char boundary below `m` does not decrease with `m`.
pub proof fn lemma_boundary_at_most_monotone(bytes: Seq<u8>, a: int, b: int)
    requires
        0 <= a <= b,
        valid_utf8(bytes),
    ensures
        boundary_at_most(bytes, a) <= boundary_at_most(bytes, b),
    decreases b - a,
{
    lemma_boundary_at_most(bytes, a);
    if a < b && !(b <= bytes.len() && is_char_boundary(bytes, b)) {
        lemma_boundary_at_most_monotone(bytes, a, b - 1);
    }
}

/// Past the end of the bytes, the largest boundary is the end.
proof fn lemma_boundary_at_most_past_end(bytes: Seq<u8>, m: int)
    requires
        bytes.len() <= m,
        valid_utf8(bytes),
    ensures
        boundary_at_most(bytes, m) == boundary_at_most(bytes, bytes.len() as int),
    decreases m,
{
    is_char_boundary_start_end_of_seq(bytes);
    if m > bytes.len() {
        lemma_boundary_at_most_past_end(bytes, m - 1);
    }
}

/// The largest char boundary of the text that is at most `m`.
pub fn floor_char_boundary(s: &str, m: usize) -> (k: usize)
    ensures
        k as int == boundary_at_most(encode_utf8(s@), m as int),
        k <= m,
        k <= encode_utf8(s@).len(),
        is_char_boundary(encode_utf8(s@), k as int),
{
    let bytes = s.as_bytes();
    proof {
        encode_utf8_valid_utf8(s@);
    }
    let mut k: usize = if m < bytes.len() { m } else { bytes.len() };
    proof {
        if m >= bytes.len() {
            lemma_boundary_at_most_past_end(bytes@, m as int);
        }
    }
    while k > 0 && !s.is_char_boundary(k)
        invariant
            k <= m,
            k <= bytes@.len(),
            bytes@ == encode_utf8(s@),
            valid_utf8(bytes@),
            boundary_at_most(bytes@, m as int) == boundary_at_most(bytes@, k as int),
        decreases k,
    {
        k = k - 1;
    }
    proof {
        lemma_boundary_at_most(bytes@, k as int);
        is_char_boundary_start_end_of_seq(bytes@);
    }
    k
}

/// A truncation keeps at most `max` bytes, and is a prefix of the text that
/// ends at a char boundary.
pub proof fn lemma_truncation_len(bytes: Seq<u8>, max: int)
    requires
        valid_utf8(bytes),
        0 <= max,
    ensures
        truncation_of(bytes, max).len() <= max,
        truncation_of(bytes, max) == bytes.take(truncation_of(bytes, max).len() as int),
        is_char_boundary(bytes, truncation_of(bytes, max).len() as int),
{
    is_char_boundary_start_end_of_seq(bytes);
    if bytes.len() <= max {
        assert(bytes.take(bytes.len() as int) =~= bytes);
    } else {
        lemma_boundary_at_most(bytes, max);
        assert(bytes.subrange(0, boundary_at_most(bytes, max)) =~= bytes.take(boundary_at_most(bytes, max)));
    }
}

/// Truncates `s` to at most `max_bytes` bytes without cutting a char in two;
/// the flag tells whether anything was cut.
pub fn truncate_to_max_bytes(s: &str, max_bytes: usize) -> (r: (String, bool))
    ensures
        encode_utf8(r.0@) == truncation_of(encode_utf8(s@), max_bytes as int),
        r.1 == (encode_utf8(s@).len() > max_bytes),
{
    let bytes = s.as_bytes();
    proof {
        encode_utf8_valid_utf8(s@);
    }
    if bytes.len() <= max_bytes {
        return (s.to_owned(), false);
    }
    if max_bytes == 0 {
        let e = String::new();
        proof {
            assert(encode_utf8(e@) =~= Seq::<u8>::empty());
            assert(encode_utf8(s@).subrange(0, 0) =~= Seq::<u8>::empty());
        }
        return (e, true);
    }
    let mut k: usize = max_bytes;
    while k > 0 && !s.is_char_boundary(k)
        invariant
            k <= max_bytes,
            max_bytes < bytes@.len(),
            bytes@ == encode_utf8(s@),
            valid_utf8(bytes@),
            boundary_at_most(bytes@, max_bytes as int) == boundary_at_most(bytes@, k as int),
        decreases k,
    {
        k = k - 1;
    }
    proof {
        lemma_boundary_at_most(bytes@, k as int);
        is_char_boundary_start_end_of_seq(bytes@);
    }
    let (head, _tail) = s.split_at(k);
    let out = head.to_owned();
    (out, true)
}

// ---------------------------------------------------------------------------
// Decimal parsing
// ---------------------------------------------------------------------------

/// An ASCII decimal digit.
pub open spec fn is_digit(c: char) -> bool {
    '0' <= c && c <= '9'
}

/// The value of a string of decimal digits.
pub open spec fn digits_value(d: Seq<char>) -> nat
    decreases d.len(),
{
    if d.len() == 0 {
        0
    } else {
        digits_value(d.drop_last()) * 10 + ((d.last() as u32) - ('0' as u32)) as nat
    }
}

/// What `str::parse::<usize>` gives: an optional `+` followed by one or more
/// ASCII digits whose value fits in a `usize`.
/// The digits of a number: the text without its optional leading `+`.
pub open spec fn unsigned_digits(s: Seq<char>) -> Seq<char> {
    if s.len() > 0 && s[0] == '+' { s.drop_first() } else { s }
}

pub open spec fn parse_usize_spec(s: Seq<char>) -> Option<nat> {
    let d = unsigned_digits(s);
    if d.len() > 0 && (forall|i: int| 0 <= i < d.len() ==> is_digit(#[trigger] d[i])) && digits_value(d) <= usize::MAX {
        Some(digits_value(d))
    } else {
        None
    }
}

proof fn lemma_digits_value_monotone(d: Seq<char>, k: int)
    requires
        0 <= k <= d.len(),
        forall|i: int| 0 <= i < d.len() ==> is_digit(#[trigger] d[i]),
    ensures
        digits_value(d.take(k)) <= digits_value(d),
    decreases d.len() - k,
{
    if k < d.len() {
        lemma_digits_value_monotone(d, k + 1);
        assert(d.take(k + 1).drop_last() =~= d.take(k));
    } else {
        assert(d.take(k) =~= d);
    }
}

proof fn lemma_parse_not_digit(s: Seq<char>, j: int)
    requires
        0 <= j < unsigned_digits(s).len(),
        !is_digit(unsigned_digits(s)[j]),
    ensures
        parse_usize_spec(s) is None,
{
}

/// Parses an unsigned decimal number the way `str::parse::<usize>` does.
pub fn parse_usize(s: &str) -> (r: Option<usize>)
    ensures
        match parse_usize_spec(s@) {
            Some(v) => r == Some(v as usize),
            None => r is None,
        },
{
    let n = s.unicode_len();
    let mut i: usize = 0;
    if n > 0 && s.get_char(0) == '+' {
        i = 1;
    }
    let ghost d = unsigned_digits(s@);
    let start = i;
    assert(d =~= s@.skip(start as int));
    if i == n {
        return None;
    }
    let mut v: usize = 0;
    let mut overflow = false;
    while i < n
        invariant
            n == s@.len(),
            start <= i <= n,
            d == s@.skip(start as int),
            d == unsigned_digits(s@),
            forall|j: int| 0 <= j < i - start ==> is_digit(#[trigger] d[j]),
            !overflow ==> v == digits_value(d.take(i - start)),
            overflow ==> digits_value(d.take(i - start)) > usize::MAX,
        decreases n - i,
    {
        let c = s.get_char(i);
        if c < '0' || c > '9' {
            proof {
                assert(d[i - start] == s@[i as int]);
                assert(!is_digit(d[i - start]));
                assert(!(forall|j: int| 0 <= j < d.len() ==> is_digit(#[trigger] d[j])));
                lemma_parse_not_digit(s@, i - start);
            }
            return None;
        }
        let digit = (c as u32 - '0' as u32) as usize;
        proof {
            assert(d.take(i - start + 1).drop_last() =~= d.take(i - start));
            assert(d.take(i - start + 1).last() == c);
        }
        if !overflow {
            if v > (usize::MAX - digit) / 10 {
                overflow = true;
                assert(v * 10 + digit > usize::MAX) by (nonlinear_arith)
                    requires
                        v > (usize::MAX - digit) / 10,
                        digit <= 9,
                ;
            } else {
                assert(v * 10 + digit <= usize::MAX) by (nonlinear_arith)
                    requires
                        v <= (usize::MAX - digit) / 10,
                        digit <= 9,
                ;
                v = v * 10 + digit;
            }
        } else {
            assert(digits_value(d.take(i - start + 1)) >= digits_value(d.take(i - start)) * 10) by (nonlinear_arith)
                requires
                    digits_value(d.take(i - start + 1)) == digits_value(d.take(i - start)) * 10 + digit,
            ;
        }
        i = i + 1;
    }
    proof {
        assert(d.take(i - start) =~= d);
    }
    if overflow {
        None
    } else {
        Some(v)
    }
}

} // verus!