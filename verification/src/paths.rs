//! File names, stems and extensions of `/`-separated paths, with the
//! semantics of `std::path::Path` on Unix.
use vstd::prelude::*;
use crate::text::{chars_of, is_lit, lowercase, rfind, rfind_exec, slice_copy, string_of, to_lowercase};

verus! {

/// Index of the last `/` in `s`, or -1.
pub open spec fn last_slash(s: Seq<char>) -> int
    decreases s.len(),
{
    if s.len() == 0 {
        -1
    } else if s.last() == '/' {
        s.len() - 1
    } else {
        last_slash(s.drop_last())
    }
}

pub proof fn lemma_last_slash(s: Seq<char>)
    ensures
        -1 <= last_slash(s) < s.len(),
        last_slash(s) >= 0 ==> s[last_slash(s)] == '/',
        forall|j: int| last_slash(s) < j < s.len() ==> s[j] != '/',
    decreases s.len(),
{
    if s.len() > 0 && s.last() != '/' {
        lemma_last_slash(s.drop_last());
        assert forall|j: int| last_slash(s) < j < s.len() implies s[j] != '/' by {
            if j < s.len() - 1 {
                assert(s[j] == s.drop_last()[j]);
            }
        }
    }
}

/// Last component of the path when it is a normal name (`Path::file_name`):
/// empty and `.` segments are skipped, a final `..` gives none.
pub open spec fn file_name(s: Seq<char>) -> Option<Seq<char>>
    decreases s.len(),
{
    let k = last_slash(s);
    let seg = s.skip(k + 1);
    if seg.len() == 0 || seg == "."@ {
        if k < 0 {
            None
        } else {
            proof {
                lemma_last_slash(s);
            }
            file_name(s.take(k))
        }
    } else if seg == ".."@ {
        None
    } else {
        Some(seg)
    }
}

/// `Path::file_stem`.
pub open spec fn file_stem(s: Seq<char>) -> Option<Seq<char>> {
    match file_name(s) {
        None => None,
        Some(n) => match rfind(n, "."@) {
            Some(d) => if d == 0 {
                Some(n)
            } else {
                Some(n.take(d))
            },
            None => Some(n),
        },
    }
}

/// `Path::extension`.
pub open spec fn extension(s: Seq<char>) -> Option<Seq<char>> {
    match file_name(s) {
        None => None,
        Some(n) => match rfind(n, "."@) {
            Some(d) => if d == 0 {
                None
            } else {
                Some(n.skip(d + 1))
            },
            None => None,
        },
    }
}

/// The lower-cased extension, empty when there is none.
pub open spec fn ext_of_spec(s: Seq<char>) -> Seq<char> {
    match extension(s) {
        Some(e) => lowercase(e),
        None => lowercase(Seq::empty()),
    }
}

fn last_slash_exec(s: &[char]) -> (k: Option<usize>)
    ensures
        match k {
            Some(k) => last_slash(s@) == k as int && k < s@.len(),
            None => last_slash(s@) == -1,
        },
{
    let mut i = s.len();
    assert(s@.take(s@.len() as int) =~= s@);
    while i > 0
        invariant
            i <= s.len(),
            last_slash(s@) == last_slash(s@.take(i as int)),
        decreases i,
    {
        assert(s@.take(i as int).drop_last() =~= s@.take(i - 1));
        if s[i - 1] == '/' {
            return Some(i - 1);
        }
        i -= 1;
    }
    None
}

/// Last normal component of the path (`Path::file_name`).
pub fn file_name_exec(s: &[char]) -> (r: Option<Vec<char>>)
    ensures
        match r {
            Some(v) => file_name(s@) == Some(v@),
            None => file_name(s@) is None,
        },
{
    let mut end = s.len();
    assert(s@.take(s@.len() as int) =~= s@);
    loop
        invariant
            end <= s.len(),
            file_name(s@) == file_name(s@.take(end as int)),
        decreases end,
    {
        let ghost t = s@.take(end as int);
        let prefix = slice_copy(s, 0, end);
        assert(prefix@ == t);
        let k = last_slash_exec(prefix.as_slice());
        let start = match k {
            Some(k) => k + 1,
            None => 0,
        };
        proof {
            lemma_last_slash(t);
        }
        let seg = slice_copy(s, start, end);
        assert(seg@ =~= t.skip(last_slash(t) + 1));
        if seg.len() == 0 || is_lit(seg.as_slice(), ".") {
            match k {
                None => {
                    return None;
                },
                Some(k) => {
                    assert(t.take(k as int) =~= s@.take(k as int));
                    end = k;
                },
            }
        } else if is_lit(seg.as_slice(), "..") {
            return None;
        } else {
            return Some(seg);
        }
    }
}

/// `Path::file_stem`.
pub fn file_stem_exec(s: &[char]) -> (r: Option<Vec<char>>)
    ensures
        match r {
            Some(v) => file_stem(s@) == Some(v@),
            None => file_stem(s@) is None,
        },
{
    match file_name_exec(s) {
        None => None,
        Some(n) => {
            let dot = chars_of(".");
            match rfind_exec(n.as_slice(), dot.as_slice()) {
                Some(d) => if d == 0 {
                    Some(n)
                } else {
                    Some(slice_copy(n.as_slice(), 0, d))
                },
                None => Some(n),
            }
        },
    }
}

/// `Path::extension`.
pub fn extension_exec(s: &[char]) -> (r: Option<Vec<char>>)
    ensures
        match r {
            Some(v) => extension(s@) == Some(v@),
            None => extension(s@) is None,
        },
{
    match file_name_exec(s) {
        None => None,
        Some(n) => {
            let dot = chars_of(".");
            match rfind_exec(n.as_slice(), dot.as_slice()) {
                Some(d) => if d == 0 {
                    None
                } else {
                    proof {
                        reveal_strlit(".");
                    }
                    assert(d + 1 <= n@.len() && n@.len() == n.len());
                    Some(slice_copy(n.as_slice(), d + 1, n.len()))
                },
                None => None,
            }
        },
    }
}

/// Lower-cased extension of a path, empty when it has none.
pub fn ext_of(path: &str) -> (r: String)
    ensures
        r@ == ext_of_spec(path@),
{
    let p = chars_of(path);
    let e = match extension_exec(p.as_slice()) {
        Some(e) => e,
        None => Vec::new(),
    };
    proof {
        if extension(p@) is None {
            assert(e@ =~= Seq::<char>::empty());
        }
    }
    let l = to_lowercase(e.as_slice());
    string_of(l.as_slice())
}

/// File stem of a path, or `fallback` when it has none.
pub fn file_stem_or(path: &str, fallback: &str) -> (r: String)
    ensures
        r@ == match file_stem(path@) {
            Some(st) => st,
            None => fallback@,
        },
{
    let p = chars_of(path);
    match file_stem_exec(p.as_slice()) {
        Some(st) => string_of(st.as_slice()),
        None => fallback.to_owned(),
    }
}

} // verus!
