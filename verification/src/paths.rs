//! Paths as `std::path::Path` reads them: the final component of a path,
//! its extension, and the path with its extension replaced.
use vstd::prelude::*;

verus! {

/// The index of the last occurrence of `c` in `s`, or -1.
pub open spec fn last_index_of(s: Seq<char>, c: char) -> int
    decreases s.len(),
{
    if s.len() == 0 {
        -1
    } else if s.last() == c {
        s.len() - 1
    } else {
        last_index_of(s.drop_last(), c)
    }
}

pub proof fn lemma_last_index_of(s: Seq<char>, c: char)
    ensures
        -1 <= last_index_of(s, c) < s.len(),
        last_index_of(s, c) >= 0 ==> s[last_index_of(s, c)] == c,
        forall|i: int| last_index_of(s, c) < i < s.len() ==> s[i] != c,
    decreases s.len(),
{
    if s.len() > 0 && s.last() != c {
        lemma_last_index_of(s.drop_last(), c);
        assert forall|i: int| last_index_of(s, c) < i < s.len() implies s[i] != c by {
            if i < s.len() - 1 {
                assert(s[i] == s.drop_last()[i]);
            }
        }
    }
}

pub open spec fn is_dot(s: Seq<char>) -> bool {
    s.len() == 1 && s[0] == '.'
}

pub open spec fn is_dot_dot(s: Seq<char>) -> bool {
    s.len() == 2 && s[0] == '.' && s[1] == '.'
}

/// Where the final component of a path lies, as `Path::file_name` finds it:
/// trailing separators and `.` components are passed over; a final `..`, a
/// bare root or a path of only `.` components has none.
pub open spec fn file_name_span(p: Seq<char>) -> Option<(int, int)>
    decreases p.len(),
{
    if p.len() == 0 {
        None
    } else if p.last() == '/' {
        file_name_span(p.drop_last())
    } else {
        let k = last_index_of(p, '/');
        let piece = p.subrange(k + 1, p.len() as int);
        if is_dot(piece) {
            if k < 0 {
                None
            } else {
                proof {
                    lemma_last_index_of(p, '/');
                }
                file_name_span(p.take(k))
            }
        } else if is_dot_dot(piece) {
            None
        } else {
            Some((k + 1, p.len() as int))
        }
    }
}

/// The final component of a path, as `Path::file_name` gives it.
pub open spec fn file_name_of(p: Seq<char>) -> Option<Seq<char>> {
    match file_name_span(p) {
        Some((a, b)) => Some(p.subrange(a, b)),
        None => None,
    }
}

/// The extension of a file name, as `Path::extension` gives it: what
/// follows its last dot, unless there is no dot or the only dot leads.
pub open spec fn extension_of_name(name: Seq<char>) -> Option<Seq<char>> {
    let d = last_index_of(name, '.');
    if d <= 0 {
        None
    } else {
        Some(name.subrange(d + 1, name.len() as int))
    }
}

/// The extension of a path, empty when it has none.
pub open spec fn extension_of(p: Seq<char>) -> Seq<char> {
    match file_name_of(p) {
        Some(name) => match extension_of_name(name) {
            Some(e) => e,
            None => Seq::empty(),
        },
        None => Seq::empty(),
    }
}

/// The index of the last `c` among the first `end` chars of `s`, or -1.
pub fn last_index_before(s: &str, end: usize, c: char) -> (r: i64)
    requires
        end <= s@.len(),
        s@.len() < i64::MAX,
    ensures
        r == last_index_of(s@.take(end as int), c),
{
    let mut j: usize = end;
    while j > 0 && s.get_char(j - 1) != c
        invariant
            j <= end <= s@.len(),
            s@.len() < i64::MAX,
            last_index_of(s@.take(end as int), c) == last_index_of(s@.take(j as int), c),
        decreases j,
    {
        proof {
            assert(s@.take(j as int).drop_last() =~= s@.take(j as int - 1));
        }
        j = j - 1;
    }
    j as i64 - 1
}

/// The char range of the final component of a path, as `Path::file_name`
/// finds it.
pub fn file_name_range(p: &str) -> (r: Option<(usize, usize)>)
    requires
        p@.len() < i64::MAX,
    ensures
        match r {
            Some((a, b)) => a <= b <= p@.len() && file_name_span(p@) == Some((a as int, b as int)),
            None => file_name_span(p@) is None,
        },
{
    let n = p.unicode_len();
    let mut end: usize = n;
    proof {
        assert(p@.take(n as int) =~= p@);
    }
    loop
        invariant
            end <= n == p@.len(),
            n < i64::MAX,
            file_name_span(p@.take(end as int)) == file_name_span(p@),
        decreases end,
    {
        if end == 0 {
            return None;
        }
        if p.get_char(end - 1) == '/' {
            proof {
                assert(p@.take(end as int).drop_last() =~= p@.take(end as int - 1));
            }
            end = end - 1;
        } else {
            let k = last_index_before(p, end, '/');
            let ghost q = p@.take(end as int);
            proof {
                lemma_last_index_of(q, '/');
            }
            let start: usize = (k + 1) as usize;
            proof {
                assert(q.subrange(k + 1, q.len() as int) =~= p@.subrange(start as int, end as int));
            }
            let len = end - start;
            if len == 1 && p.get_char(start) == '.' {
                if k < 0 {
                    return None;
                }
                proof {
                    assert(q.take(k as int) =~= p@.take(k as int));
                }
                end = k as usize;
            } else if len == 2 && p.get_char(start) == '.' && p.get_char(start + 1) == '.' {
                return None;
            } else {
                return Some((start, end));
            }
        }
    }
}

/// The extension of a path, empty when it has none.
pub fn extension(p: &str) -> (r: String)
    requires
        p@.len() < i64::MAX,
    ensures
        r@ == extension_of(p@),
{
    match file_name_range(p) {
        None => String::new(),
        Some((a, b)) => {
            let name = p.substring_char(a, b);
            let d = last_index_before(name, name.unicode_len(), '.');
            proof {
                assert(name@.take(name@.len() as int) =~= name@);
            }
            if d <= 0 {
                String::new()
            } else {
                proof {
                    lemma_last_index_of(name@, '.');
                }
                name.substring_char((d + 1) as usize, name.unicode_len()).to_owned()
            }
        },
    }
}

/// Where the stem of the path's file name ends: before the dot of its
/// extension, or at the end of the name.
pub open spec fn stem_end(p: Seq<char>) -> Option<int> {
    match file_name_span(p) {
        Some((a, b)) => Some(
            if extension_of_name(p.subrange(a, b)) is Some {
                a + last_index_of(p.subrange(a, b), '.')
            } else {
                b
            },
        ),
        None => None,
    }
}

/// The path with its extension replaced, as `Path::with_extension` makes
/// it: the path up to the end of the stem of its file name, a dot and the
/// new extension; a path without a file name is kept as it is.
pub open spec fn with_extension_spec(p: Seq<char>, ext: Seq<char>) -> Seq<char> {
    match stem_end(p) {
        Some(e) => p.take(e) + seq!['.'] + ext,
        None => p,
    }
}

/// The path of the temporary file a file is written through: the path with
/// the extension `tmp`, or, where that is the path itself (a file already
/// named `*.tmp`, or a path without a file name), the path followed by
/// `.tmp`; never the path itself.
pub open spec fn temp_path_spec(p: Seq<char>) -> Seq<char> {
    if with_extension_spec(p, "tmp"@) != p {
        with_extension_spec(p, "tmp"@)
    } else {
        p + ".tmp"@
    }
}

/// The path of the temporary file a file is written through, which differs
/// from the file's own path.
pub fn temp_path(p: &str) -> (r: String)
    requires
        p@.len() < i64::MAX,
    ensures
        r@ == temp_path_spec(p@),
        r@ != p@,
{
    let r = with_tmp_extension(p);
    if crate::text::str_eq(r.as_str(), p) {
        let mut q = p.to_owned();
        crate::text::push_str(&mut q, ".tmp");
        proof {
            reveal_strlit(".tmp");
            assert(q@.len() == p@.len() + 4);
        }
        q
    } else {
        r
    }
}

/// The path with the extension `tmp`, as `Path::with_extension` makes it.
fn with_tmp_extension(p: &str) -> (r: String)
    requires
        p@.len() < i64::MAX,
    ensures
        r@ == with_extension_spec(p@, "tmp"@),
{
    match file_name_range(p) {
        None => p.to_owned(),
        Some((a, b)) => {
            let name = p.substring_char(a, b);
            let d = last_index_before(name, name.unicode_len(), '.');
            proof {
                assert(name@.take(name@.len() as int) =~= name@);
                lemma_last_index_of(name@, '.');
            }
            let e: usize = if d <= 0 { b } else { a + d as usize };
            let mut r = p.substring_char(0, e).to_owned();
            crate::text::push_str(&mut r, ".tmp");
            proof {
                reveal_strlit(".tmp");
                reveal_strlit("tmp");
                assert(p@.subrange(0, e as int) =~= p@.take(e as int));
                assert(".tmp"@ =~= seq!['.'] + "tmp"@);
            }
            r
        },
    }
}

} // verus!
