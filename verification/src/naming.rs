//! Choosing a name that is not taken yet: the first free candidate of an
//! endless, repetition-free list of candidates.
use vstd::prelude::*;

use vstd::relations::injective_on;
use vstd::set_lib::{lemma_int_range, lemma_len_subset, lemma_map_size, set_int_range};

use crate::paths::{file_name, file_name_exec};
use crate::text::{
    chars_of, dec_str, dec_string, eq_chars, lemma_dec_str_injective, lemma_dec_str_value,
    lemma_rfind, push_all, push_str, rfind, rfind_exec, slice_copy, string_of,
};

verus! {

/// No two indices give the same candidate.
pub open spec fn distinct_candidates(f: spec_fn(nat) -> Seq<char>) -> bool {
    forall|a: nat, b: nat| #[trigger] f(a) == #[trigger] f(b) ==> a == b
}

/// `k` indexes the first candidate that is not among `used`.
pub open spec fn first_free(f: spec_fn(nat) -> Seq<char>, used: Seq<Seq<char>>, k: nat) -> bool {
    &&& !used.contains(f(k))
    &&& forall|j: nat| j < k ==> used.contains(#[trigger] f(j))
}

/// Among `used.len() + 1` distinct candidates one is free: they cannot all
/// be taken.
pub proof fn lemma_some_free(f: spec_fn(nat) -> Seq<char>, used: Seq<Seq<char>>)
    requires
        distinct_candidates(f),
    ensures
        exists|j: nat| j <= used.len() && !used.contains(#[trigger] f(j)),
{
    if forall|j: nat| j <= used.len() ==> used.contains(#[trigger] f(j)) {
        lemma_all_taken_impossible(f, used);
    }
}

pub proof fn lemma_all_taken_impossible(f: spec_fn(nat) -> Seq<char>, used: Seq<Seq<char>>)
    requires
        distinct_candidates(f),
        forall|j: nat| j <= used.len() ==> used.contains(#[trigger] f(j)),
    ensures
        used.len() + 1 <= used.len(),
{
    broadcast use vstd::seq_lib::seq_to_set_is_finite;

    let n = used.len() as int;
    let r = set_int_range(0, n + 1);
    lemma_int_range(0, n + 1);
    let g = |i: int| f(i as nat);
    let img = r.map(g);
    assert(injective_on(g, r)) by {
        assert forall|a: int, b: int| r.contains(a) && r.contains(b) && #[trigger] g(a) == #[trigger] g(b) implies a
            == b by {
            assert(f(a as nat) == f(b as nat));
        }
    }
    lemma_map_size(r, img, g);
    let us = used.to_set();
    used.lemma_cardinality_of_set();
    assert(img.subset_of(us)) by {
        assert forall|s: Seq<char>| img.contains(s) implies us.contains(s) by {
            let i = choose|i: int| r.contains(i) && s == g(i);
            assert(used.contains(f(i as nat)));
        }
    }
    lemma_len_subset(img, us);
}

// ── ZIP entry names ─────────────────────────────────────────────────────────

/// The `k`-th name tried for a file packed as `orig`: `orig` itself, then
/// `_2`, `_3`, … inserted before the last extension (or appended).
pub open spec fn zip_candidate(orig: Seq<char>, k: nat) -> Seq<char> {
    if k == 0 {
        orig
    } else {
        match rfind(orig, "."@) {
            Some(d) => orig.take(d) + "_"@ + dec_str(k + 1) + "."@ + orig.skip(d + 1),
            None => orig + "_"@ + dec_str(k + 1),
        }
    }
}

/// The names tried for a file packed as `orig`, in order.
pub open spec fn zip_candidates(orig: Seq<char>) -> spec_fn(nat) -> Seq<char> {
    |k: nat| zip_candidate(orig, k)
}

/// `name` is the first name tried for `orig` that is not in `before`.
pub open spec fn entry_named(orig: Seq<char>, before: Seq<Seq<char>>, name: Seq<char>) -> bool {
    exists|k: nat| #![trigger zip_candidate(orig, k)]
        first_free(zip_candidates(orig), before, k) && name == zip_candidate(orig, k)
}

proof fn lemma_zip_candidates_distinct(orig: Seq<char>)
    ensures
        distinct_candidates(zip_candidates(orig)),
{
    reveal_strlit("_");
    reveal_strlit(".");
    let f = zip_candidates(orig);
    assert forall|a: nat, b: nat| #[trigger] f(a) == #[trigger] f(b) implies a == b by {
        lemma_dec_str_value(a + 1);
        lemma_dec_str_value(b + 1);
        lemma_rfind(orig, "."@);
        if a != b && f(a) == f(b) {
            if a == 0 || b == 0 {
                assert(f(a).len() != f(b).len());
            } else {
                let da = dec_str(a + 1);
                let db = dec_str(b + 1);
                match rfind(orig, "."@) {
                    Some(d) => {
                        let p = orig.take(d) + "_"@;
                        let t = "."@ + orig.skip(d + 1);
                        assert(f(a) =~= p + da + t);
                        assert(f(b) =~= p + db + t);
                        assert(da.len() == db.len());
                        assert(da =~= f(a).subrange(p.len() as int, (p.len() + da.len()) as int));
                        assert(db =~= f(b).subrange(p.len() as int, (p.len() + db.len()) as int));
                    },
                    None => {
                        let p = orig + "_"@;
                        assert(f(a) =~= p + da);
                        assert(f(b) =~= p + db);
                        assert(da =~= f(a).skip(p.len() as int));
                        assert(db =~= f(b).skip(p.len() as int));
                    },
                }
                lemma_dec_str_injective(a + 1, b + 1);
            }
        }
    }
}

fn contains_name(used: &Vec<String>, name: &[char]) -> (b: bool)
    ensures
        b == used@.map_values(|s: String| s@).contains(name@),
{
    let ghost uv = used@.map_values(|s: String| s@);
    let mut i: usize = 0;
    while i < used.len()
        invariant
            i <= used.len(),
            uv == used@.map_values(|s: String| s@),
            forall|j: int| 0 <= j < i ==> uv[j] != name@,
        decreases used.len() - i,
    {
        if eq_chars(chars_of(used[i].as_str()).as_slice(), name) {
            assert(uv[i as int] == name@);
            return true;
        }
        i += 1;
    }
    false
}

fn zip_candidate_exec(orig: &[char], dot: Option<usize>, k: usize) -> (r: Vec<char>)
    requires
        k >= 1,
        k < usize::MAX,
        dot matches Some(d) ==> d < orig@.len(),
    ensures
        r@ == (match dot {
            Some(d) => orig@.take(d as int) + "_"@ + dec_str((k + 1) as nat) + "."@ + orig@.skip(d + 1),
            None => orig@ + "_"@ + dec_str((k + 1) as nat),
        }),
{
    let digits = dec_string((k + 1) as u64);
    assert(orig@.len() == orig.len());
    match dot {
        Some(d) => {
            let mut r = slice_copy(orig, 0, d);
            push_str(&mut r, "_");
            push_all(&mut r, digits.as_slice());
            push_str(&mut r, ".");
            let rest = slice_copy(orig, d + 1, orig.len());
            push_all(&mut r, rest.as_slice());
            assert(orig@.skip(d + 1) =~= orig@.subrange(d + 1, orig@.len() as int));
            r
        },
        None => {
            let mut r = slice_copy(orig, 0, orig.len());
            assert(r@ =~= orig@);
            push_str(&mut r, "_");
            push_all(&mut r, digits.as_slice());
            r
        },
    }
}

/// The name a file packed as `orig` gets, given the names already used:
/// the first of `orig`, `…_2…`, `…_3…` not taken.
pub fn zip_entry_name(orig: &str, used: &Vec<String>) -> (r: String)
    requires
        used@.len() < usize::MAX,
    ensures
        entry_named(orig@, used@.map_values(|s: String| s@), r@),
{
    let ghost uv = used@.map_values(|s: String| s@);
    let ghost f = zip_candidates(orig@);
    let o = chars_of(orig);
    if !contains_name(used, o.as_slice()) {
        assert(first_free(f, uv, 0));
        assert(orig@ == zip_candidate(orig@, 0));
        return orig.to_string();
    }
    let dot_lit = chars_of(".");
    let dot = rfind_exec(o.as_slice(), dot_lit.as_slice());
    proof {
        reveal_strlit(".");
        lemma_rfind(o@, "."@);
        lemma_zip_candidates_distinct(orig@);
    }
    let mut k: usize = 1;
    loop
        invariant
            1 <= k,
            k <= uv.len(),
            uv.len() < usize::MAX,
            uv == used@.map_values(|s: String| s@),
            o@ == orig@,
            f == zip_candidates(orig@),
            distinct_candidates(f),
            dot matches Some(d) ==> d < o@.len(),
            crate::text::idx(dot) == rfind(orig@, "."@),
            forall|j: nat| j < k ==> uv.contains(#[trigger] f(j)),
        decreases uv.len() - k,
    {
        let name = zip_candidate_exec(o.as_slice(), dot, k);
        assert(name@ == f(k as nat));
        if !contains_name(used, name.as_slice()) {
            assert(first_free(f, uv, k as nat));
            assert(name@ == zip_candidate(orig@, k as nat));
            return string_of(name.as_slice());
        }
        if k == used.len() {
            proof {
                assert forall|j: nat| j <= uv.len() implies uv.contains(#[trigger] f(j)) by {
                    if j == k {
                    }
                }
                lemma_all_taken_impossible(f, uv);
            }
        }
        k += 1;
    }
}

/// Why a file cannot be packed.
#[derive(Debug, PartialEq, Eq)]
pub enum ZipNameError {
    /// The path has no file name.
    NoFileName(String),
}

/// The entry names of the files packed into a ZIP, in order: each file's
/// own name, made unique against the entries before it (`zip_files`).
pub fn zip_entry_names(paths: &Vec<String>) -> (r: Result<Vec<String>, ZipNameError>)
    ensures
        match r {
            Ok(names) => {
                &&& names@.len() == paths@.len()
                &&& forall|i: int| 0 <= i < paths@.len() ==> (#[trigger] file_name(paths@[i]@)) is Some
                &&& forall|i: int|
                    0 <= i < names@.len() ==> entry_named(
                        file_name(paths@[i]@)->0,
                        names@.take(i).map_values(|s: String| s@),
                        #[trigger] names@[i]@,
                    )
                &&& forall|i: int, j: int| 0 <= i < j < names@.len() ==> names@[i]@ != names@[j]@
            },
            Err(ZipNameError::NoFileName(p)) => exists|i: int| #![auto]
                0 <= i < paths@.len() && file_name(paths@[i]@) is None && p@ == paths@[i]@ && forall|
                    j: int,
                | 0 <= j < i ==> (#[trigger] file_name(paths@[j]@)) is Some,
        },
{
    let mut names: Vec<String> = Vec::new();
    let mut i: usize = 0;
    while i < paths.len()
        invariant
            i <= paths.len(),
            names@.len() == i,
            forall|j: int| 0 <= j < i ==> (#[trigger] file_name(paths@[j]@)) is Some,
            forall|j: int|
                0 <= j < i ==> entry_named(
                    file_name(paths@[j]@)->0,
                    names@.take(j).map_values(|s: String| s@),
                    #[trigger] names@[j]@,
                ),
        decreases paths.len() - i,
    {
        let pc = chars_of(paths[i].as_str());
        let orig = match file_name_exec(pc.as_slice()) {
            Some(n) => n,
            None => {
                return Err(ZipNameError::NoFileName(string_of(pc.as_slice())));
            },
        };
        let os = string_of(orig.as_slice());
        let name = zip_entry_name(os.as_str(), &names);
        let ghost before = names@;
        names.push(name);
        assert(names@.take(i as int) =~= before);
        assert forall|j: int| 0 <= j < i + 1 implies entry_named(
            file_name(paths@[j]@)->0,
            names@.take(j).map_values(|s: String| s@),
            #[trigger] names@[j]@,
        ) by {
            if j < i {
                assert(names@.take(j) =~= before.take(j));
                assert(names@[j] == before[j]);
            }
        }
        i += 1;
    }
    assert(names@.take(i as int) =~= names@);
    proof {
        assert forall|a: int, b: int| 0 <= a < b < names@.len() implies names@[a]@ != names@[b]@ by {
            let before = names@.take(b).map_values(|s: String| s@);
            assert(entry_named(file_name(paths@[b]@)->0, before, names@[b]@));
            assert(!before.contains(names@[b]@));
            assert(before[a] == names@[a]@);
        }
    }
    Ok(names)
}

} // verus!
