//! A document package (the files of a ZIP container) held in memory: files
//! sorted by name, and the order in which they are written back, where a
//! new file goes last and a replaced file keeps its place.
use vstd::prelude::*;
use crate::json::{
    key_lt, lemma_insert_then_get, lemma_map_insert_skip, map_get, map_insert, sorted_keys, stops_before,
    string_eq,
};
use crate::text::{chars_of, lossy, lossy_text};

verus! {

pub type Files = Seq<(Seq<char>, Seq<u8>)>;

/// Mathematical form of a [`Package`].
pub struct PkgSpec {
    pub order: Seq<Seq<char>>,
    pub files: Files,
}

pub open spec fn put_spec(p: PkgSpec, name: Seq<char>, data: Seq<u8>) -> PkgSpec {
    PkgSpec {
        order: if map_get(p.files, name) is Some {
            p.order
        } else {
            p.order.push(name)
        },
        files: map_insert(p.files, name, data),
    }
}

/// The text of a file: its bytes decoded as UTF-8, lossily.
pub open spec fn text_spec(p: PkgSpec, name: Seq<char>) -> Option<Seq<char>> {
    match map_get(p.files, name) {
        Some(d) => Some(lossy(d)),
        None => None,
    }
}

/// The files of a container: `files` sorted by name, `order` the order in
/// which they are written back.
#[derive(Debug)]
pub struct Package {
    pub order: Vec<String>,
    pub files: Vec<(String, Vec<u8>)>,
}

pub open spec fn files_view(f: Seq<(String, Vec<u8>)>) -> Files {
    f.map_values(|e: (String, Vec<u8>)| (e.0@, e.1@))
}

/// A name is listed for writing once, and only names of stored files are.
pub open spec fn pkg_wf(p: PkgSpec) -> bool {
    &&& sorted_keys(p.files)
    &&& forall|n: Seq<char>| p.order.contains(n) <==> (#[trigger] map_get(p.files, n)) is Some
    &&& forall|i: int, j: int| 0 <= i < j < p.order.len() ==> p.order[i] != p.order[j]
}

proof fn lemma_get_some_index(e: Files, k: Seq<char>)
    ensures
        map_get(e, k) is Some <==> exists|j: int| 0 <= j < e.len() && e[j].0 == k,
    decreases e.len(),
{
    if e.len() > 0 {
        lemma_get_some_index(e.drop_first(), k);
        if e[0].0 != k && map_get(e, k) is None {
            assert forall|j: int| 0 <= j < e.len() implies e[j].0 != k by {
                if j > 0 {
                    assert(e[j] == e.drop_first()[j - 1]);
                }
            }
        }
        if e[0].0 != k && map_get(e, k) is Some {
            let j = choose|j: int| 0 <= j < e.drop_first().len() && e.drop_first()[j].0 == k;
            assert(e[j + 1].0 == k);
        }
    }
}

/// Storing a file keeps the package well formed, makes its content readable
/// and leaves every other file as it was.
pub proof fn lemma_put(p: PkgSpec, name: Seq<char>, data: Seq<u8>)
    requires
        pkg_wf(p),
    ensures
        pkg_wf(put_spec(p, name, data)),
        map_get(put_spec(p, name, data).files, name) == Some(data),
        forall|n: Seq<char>| n != name ==> #[trigger] map_get(put_spec(p, name, data).files, n) == map_get(p.files, n),
{
    lemma_insert_then_get(p.files, name, data);
    let q = put_spec(p, name, data);
    assert forall|n: Seq<char>| q.order.contains(n) <==> (#[trigger] map_get(q.files, n)) is Some by {
        if n == name {
            if map_get(p.files, name) is None {
                assert(q.order[q.order.len() - 1] == name);
            }
        } else {
            if map_get(p.files, name) is None {
                if q.order.contains(n) {
                    let i = choose|i: int| 0 <= i < q.order.len() && q.order[i] == n;
                    assert(p.order[i] == n);
                }
                if p.order.contains(n) {
                    let i = choose|i: int| 0 <= i < p.order.len() && p.order[i] == n;
                    assert(q.order[i] == n);
                }
            }
        }
    }
}

impl Package {
    pub open spec fn view_of(&self) -> PkgSpec {
        PkgSpec { order: self.order@.map_values(|s: String| s@), files: files_view(self.files@) }
    }

    /// An empty package.
    pub fn new() -> (p: Package)
        ensures
            p.view_of().order == Seq::<Seq<char>>::empty(),
            p.view_of().files == Files::empty(),
            pkg_wf(p.view_of()),
    {
        let p = Package { order: Vec::new(), files: Vec::new() };
        assert(p.view_of().order =~= Seq::<Seq<char>>::empty());
        assert(p.view_of().files =~= Files::empty());
        p
    }

    fn find(&self, name: &str) -> (r: Option<usize>)
        ensures
            match r {
                Some(i) => i < self.files@.len() && self.files@[i as int].0@ == name@ && map_get(
                    self.view_of().files,
                    name@,
                ) == Some(self.files@[i as int].1@),
                None => map_get(self.view_of().files, name@) is None,
            },
    {
        let ghost ev = self.view_of().files;
        let kc = chars_of(name);
        let mut i: usize = 0;
        assert(ev.skip(0) =~= ev);
        while i < self.files.len()
            invariant
                i <= self.files.len(),
                ev == self.view_of().files,
                ev.len() == self.files@.len(),
                kc@ == name@,
                map_get(ev, name@) == map_get(ev.skip(i as int), name@),
            decreases self.files.len() - i,
        {
            assert(ev.skip(i as int)[0] == ev[i as int]);
            if crate::text::eq_chars(chars_of(self.files[i].0.as_str()).as_slice(), kc.as_slice()) {
                return Some(i);
            }
            assert(ev.skip(i as int).drop_first() =~= ev.skip(i + 1));
            i += 1;
        }
        None
    }

    /// The content of a file, if stored.
    pub fn get(&self, name: &str) -> (r: Option<&Vec<u8>>)
        ensures
            match r {
                Some(d) => map_get(self.view_of().files, name@) == Some(d@),
                None => map_get(self.view_of().files, name@) is None,
            },
    {
        match self.find(name) {
            Some(i) => Some(&self.files[i].1),
            None => None,
        }
    }

    /// The text of a file (UTF-8, lossily), if stored.
    pub fn text(&self, name: &str) -> (r: Option<String>)
        ensures
            match r {
                Some(t) => text_spec(self.view_of(), name@) == Some(t@),
                None => text_spec(self.view_of(), name@) is None,
            },
    {
        match self.find(name) {
            Some(i) => Some(lossy_text(self.files[i].1.as_slice())),
            None => None,
        }
    }

    /// Stores a file; a new name is written back after the others.
    pub fn put(&mut self, name: &str, data: Vec<u8>)
        ensures
            final(self).view_of() == put_spec(old(self).view_of(), name@, data@),
    {
        let ghost before = self.view_of();
        let ghost ev = before.files;
        let ghost dv = data@;
        let existing = self.find(name);
        if existing.is_none() {
            let ghost ov = self.order@;
            self.order.push(name.to_string());
            assert(self.order@.map_values(|s: String| s@) =~= ov.map_values(|s: String| s@).push(name@));
        }
        let kc = chars_of(name);
        let mut i: usize = 0;
        while i < self.files.len() && !stops_before(kc.as_slice(), &self.files[i].0)
            invariant
                i <= self.files.len(),
                ev == files_view(self.files@),
                ev.len() == self.files@.len(),
                kc@ == name@,
                forall|j: int| 0 <= j < i ==> ev[j].0 != name@ && !key_lt(name@, ev[j].0),
            decreases self.files.len() - i,
        {
            i += 1;
        }
        proof {
            lemma_map_insert_skip(ev, name@, dv, i as int);
        }
        let key = name.to_string();
        if i < self.files.len() && string_eq(&self.files[i].0, &key) {
            self.files.set(i, (key, data));
            proof {
                let rest = ev.skip(i as int);
                assert(rest[0].0 == name@);
                assert(files_view(self.files@) =~= ev.take(i as int) + (seq![(name@, dv)] + rest.skip(1)));
            }
        } else {
            let ghost old_len = self.files@.len();
            self.files.insert(i, (key, data));
            proof {
                let rest = ev.skip(i as int);
                if i < old_len {
                    assert(rest[0].0 != name@);
                    assert(key_lt(name@, rest[0].0));
                } else {
                    assert(rest =~= Files::empty());
                }
                assert(files_view(self.files@) =~= ev.take(i as int) + (seq![(name@, dv)] + rest));
            }
        }
    }
}

// ── Reading ──────────────────────────────────────────────────────────────────

/// Largest total unpacked size of a document's files, in bytes (512 MiB).
pub const MAX_PACKAGE_BYTES: u64 = 536870912;

/// Why a container was not read.
#[derive(Debug)]
pub enum PackageError {
    /// The files' declared sizes add up past [`MAX_PACKAGE_BYTES`].
    TooLarge,
}

impl PackageError {
    /// The message shown for the error.
    pub fn message(&self) -> (r: String)
        ensures
            r@ == "Document trop volumineux une fois décompressé"@,
    {
        String::from_str("Document trop volumineux une fois décompressé")
    }
}

/// The running sum of declared sizes after one more file (adding
/// saturates at `u64::MAX`).
pub open spec fn size_sum(total: u64, size: u64) -> nat {
    if total + size > u64::MAX {
        u64::MAX as nat
    } else {
        (total + size) as nat
    }
}

/// Counts one more file of `size` declared bytes into the running `total`:
/// the new total, or the refusal once it passes [`MAX_PACKAGE_BYTES`].
pub fn count_file_size(total: u64, size: u64) -> (r: Result<u64, PackageError>)
    ensures
        size_sum(total, size) <= MAX_PACKAGE_BYTES ==> r == Ok::<u64, PackageError>(size_sum(total, size) as u64),
        size_sum(total, size) > MAX_PACKAGE_BYTES ==> r matches Err(PackageError::TooLarge),
{
    let t = total.saturating_add(size);
    if t > MAX_PACKAGE_BYTES {
        Err(PackageError::TooLarge)
    } else {
        Ok(t)
    }
}

// ── Writing back ─────────────────────────────────────────────────────────────

/// Entries written uncompressed: `mimetype` and PNG images.
pub open spec fn stored_entry(name: Seq<char>) -> bool {
    name == "mimetype"@ || crate::text::ends_with(name, ".png"@)
}

/// The write order: every `mimetype` first, then the other names, each
/// group in its order.
pub open spec fn save_order(order: Seq<Seq<char>>) -> Seq<Seq<char>> {
    order.filter(|n: Seq<char>| n == "mimetype"@) + order.filter(|n: Seq<char>| n != "mimetype"@)
}

impl Package {
    /// The entries as they are written to the ZIP (the order part of
    /// `Package::save`): `mimetype` first, then the others in their order,
    /// each with whether it is stored uncompressed.
    pub fn save_entries(&self) -> (r: Vec<(String, bool)>)
        ensures
            r@.len() == save_order(self.view_of().order).len(),
            forall|i: int|
                0 <= i < r@.len() ==> (#[trigger] r@[i]).0@ == save_order(self.view_of().order)[i] && r@[i].1
                    == stored_entry(r@[i].0@),
    {
        let ghost ov = self.view_of().order;
        let mut first: Vec<(String, bool)> = Vec::new();
        let mut rest: Vec<(String, bool)> = Vec::new();
        let mut i: usize = 0;
        proof {
            reveal_strlit("mimetype");
            reveal_strlit(".png");
        }
        while i < self.order.len()
            invariant
                i <= self.order.len(),
                ov == self.view_of().order,
                ov.len() == self.order@.len(),
                first@.len() == ov.take(i as int).filter(|n: Seq<char>| n == "mimetype"@).len(),
                rest@.len() == ov.take(i as int).filter(|n: Seq<char>| n != "mimetype"@).len(),
                forall|k: int|
                    0 <= k < first@.len() ==> (#[trigger] first@[k]).0@ == ov.take(i as int).filter(
                        |n: Seq<char>| n == "mimetype"@,
                    )[k] && first@[k].1 == stored_entry(first@[k].0@),
                forall|k: int|
                    0 <= k < rest@.len() ==> (#[trigger] rest@[k]).0@ == ov.take(i as int).filter(
                        |n: Seq<char>| n != "mimetype"@,
                    )[k] && rest@[k].1 == stored_entry(rest@[k].0@),
            decreases self.order.len() - i,
        {
            let name = &self.order[i];
            let c = chars_of(name.as_str());
            assert(ov[i as int] == name@);
            let stored = crate::text::is_lit(c.as_slice(), "mimetype") || crate::text::ends_with_exec(
                c.as_slice(),
                chars_of(".png").as_slice(),
            );
            let ghost t = ov.take(i + 1);
            assert(t.drop_last() =~= ov.take(i as int));
            assert(t.last() == name@);
            reveal(Seq::filter);
            if crate::text::is_lit(c.as_slice(), "mimetype") {
                first.push((name.clone(), stored));
            } else {
                rest.push((name.clone(), stored));
            }
            i += 1;
        }
        assert(ov.take(i as int) =~= ov);
        let ghost f = first@;
        let mut k: usize = 0;
        let n0 = first.len();
        while k < rest.len()
            invariant
                k <= rest@.len(),
                n0 == f.len(),
                first@.len() == n0 + k,
                forall|j: int| 0 <= j < n0 ==> #[trigger] first@[j] == f[j],
                forall|j: int| 0 <= j < k ==> #[trigger] first@[n0 + j] == rest@[j],
            decreases rest@.len() - k,
        {
            first.push((rest[k].0.clone(), rest[k].1));
            k += 1;
        }
        proof {
            let fm = ov.filter(|n: Seq<char>| n == "mimetype"@);
            let fr = ov.filter(|n: Seq<char>| n != "mimetype"@);
            assert forall|i: int| 0 <= i < first@.len() implies (#[trigger] first@[i]).0@ == save_order(ov)[i]
                && first@[i].1 == stored_entry(first@[i].0@) by {
                if i < n0 {
                    assert(first@[i] == f[i]);
                    assert(save_order(ov)[i] == fm[i]);
                } else {
                    assert(first@[n0 + (i - n0)] == rest@[i - n0]);
                    assert(save_order(ov)[i] == fr[i - n0]);
                }
            }
        }
        first
    }
}

} // verus!
