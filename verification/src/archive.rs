//! Archive conversion rules: entry-name sanitizing (zip-slip), the anti-bomb
//! scan applied while entries are read, and the choice of reader and writer.
use vstd::prelude::*;

use crate::text::{
    chars_of, contains, contains_exec, is_lit, join, join_exec, occurs_at, push_all, push_str,
    slice_copy, split, split_after, split_exec, starts_with, string_of, views,
};

verus! {

// ── Entry names ─────────────────────────────────────────────────────────────

/// `name` with every backslash turned into a slash.
pub open spec fn unslash(name: Seq<char>) -> Seq<char> {
    name.map_values(|c: char| if c == '\\' { '/' } else { c })
}

/// A path segment that is kept: not empty, not `.` and not `..`.
pub open spec fn keep_part(p: Seq<char>) -> bool {
    p.len() > 0 && p != "."@ && p != ".."@
}

/// The kept segments of `parts`, in order.
pub open spec fn kept(parts: Seq<Seq<char>>) -> Seq<Seq<char>>
    decreases parts.len(),
{
    if parts.len() == 0 {
        seq![]
    } else {
        let k = kept(parts.drop_last());
        if keep_part(parts.last()) {
            k.push(parts.last())
        } else {
            k
        }
    }
}

/// The kept segments of an entry name.
pub open spec fn entry_parts(name: Seq<char>) -> Seq<Seq<char>> {
    kept(split(unslash(name), "/"@))
}

/// The safe form of an entry name: its kept segments joined by `/`; none
/// when nothing is left or a `:` (drive letter) remains.
pub open spec fn sanitize_spec(name: Seq<char>) -> Option<Seq<char>> {
    let parts = entry_parts(name);
    if parts.len() == 0 {
        None
    } else {
        let j = join(parts, "/"@);
        if contains(j, ":"@) {
            None
        } else {
            Some(j)
        }
    }
}

fn unslash_exec(s: &[char]) -> (r: Vec<char>)
    ensures
        r@ == unslash(s@),
{
    let mut r: Vec<char> = Vec::new();
    let mut i: usize = 0;
    while i < s.len()
        invariant
            i <= s.len(),
            r@ == unslash(s@.take(i as int)),
        decreases s.len() - i,
    {
        let c = s[i];
        r.push(if c == '\\' { '/' } else { c });
        i += 1;
        assert(unslash(s@.take(i as int)) =~= unslash(s@.take(i - 1)).push(
            if c == '\\' { '/' } else { c },
        ));
    }
    assert(s@.take(i as int) =~= s@);
    r
}

fn keep_part_exec(p: &[char]) -> (b: bool)
    ensures
        b == keep_part(p@),
{
    p.len() > 0 && !is_lit(p, ".") && !is_lit(p, "..")
}

fn kept_exec(parts: &[Vec<char>]) -> (r: Vec<Vec<char>>)
    ensures
        views(r@) == kept(views(parts@)),
{
    let mut r: Vec<Vec<char>> = Vec::new();
    let mut i: usize = 0;
    assert(views(r@) =~= kept(views(parts@.take(0))));
    while i < parts.len()
        invariant
            i <= parts.len(),
            views(r@) == kept(views(parts@.take(i as int))),
        decreases parts.len() - i,
    {
        let ghost before = views(r@);
        let ghost pv = views(parts@.take(i + 1));
        assert(pv.drop_last() =~= views(parts@.take(i as int)));
        assert(pv.last() == parts@[i as int]@);
        let p = &parts[i];
        if keep_part_exec(p.as_slice()) {
            let copy = slice_copy(p.as_slice(), 0, p.len());
            assert(copy@ =~= p@);
            r.push(copy);
            assert(views(r@) =~= before.push(p@));
        }
        i += 1;
    }
    assert(parts@.take(i as int) =~= parts@);
    r
}

/// The safe form of an archive entry name, or `None` when nothing safe is
/// left of it (`sanitize_entry_name`).
pub fn sanitize_entry_name(name: &str) -> (r: Option<String>)
    ensures
        match r {
            Some(s) => sanitize_spec(name@) == Some(s@),
            None => sanitize_spec(name@) is None,
        },
{
    let chars = chars_of(name);
    let norm = unslash_exec(chars.as_slice());
    let slash = chars_of("/");
    proof {
        reveal_strlit("/");
    }
    let pieces = split_exec(norm.as_slice(), slash.as_slice());
    let parts = kept_exec(pieces.as_slice());
    if parts.len() == 0 {
        return None;
    }
    let joined = join_exec(parts.as_slice(), slash.as_slice());
    if contains_exec(joined.as_slice(), chars_of(":").as_slice()) {
        return None;
    }
    Some(string_of(joined.as_slice()))
}

// ── Reading: the anti-bomb scan ─────────────────────────────────────────────

/// Ceiling on the declared size of the kept entries, added up (512 MB).
pub const MAX_TOTAL_BYTES: u64 = 536870912;

/// Ceiling on the number of entries.
pub const MAX_ENTRIES: usize = 10000;

/// How the entry count is bounded while reading.
#[derive(Clone, Copy, Debug, PartialEq, Eq, Structural)]
pub enum ScanRule {
    /// Only the first `MAX_ENTRIES` entries are looked at (ZIP).
    FirstEntries,
    /// Keeping one more entry past `MAX_ENTRIES` fails (TAR, 7z).
    CountKept,
}

/// What the reader knows of an entry before reading its data.
#[derive(Debug)]
pub struct EntryHead {
    pub name: String,
    /// A regular file (not a folder, a link or another special entry).
    pub is_file: bool,
    /// The size the archive declares for the entry.
    pub size: u64,
}

/// Progress of a scan: entries looked at, entries kept and the added-up
/// declared size of the kept ones (saturating).
#[derive(Clone, Copy, Debug, PartialEq, Eq, Structural)]
pub struct Scan {
    pub seen: usize,
    pub kept: usize,
    pub total: u64,
}

/// What to do with an entry.
#[derive(Debug)]
pub enum ScanStep {
    /// Leave it out.
    Skip,
    /// Read its data and keep it under this (sanitized) name.
    Keep(String),
    /// Stop reading: the entries past this one are not looked at.
    Stop,
    /// Refuse the archive as too large once unpacked.
    TooLarge,
}

pub open spec fn sat_add(a: u64, b: u64) -> u64 {
    if a + b > u64::MAX {
        u64::MAX
    } else {
        (a + b) as u64
    }
}

/// The bounds every scan keeps: at most `MAX_ENTRIES` entries kept, whose
/// declared sizes add up to at most `MAX_TOTAL_BYTES`.
pub open spec fn scan_ok(st: Scan) -> bool {
    &&& st.kept <= MAX_ENTRIES
    &&& st.total <= MAX_TOTAL_BYTES
    &&& st.kept <= st.seen
}

/// The scan after one more entry looked at, and what to do with it: `None`
/// for the ZIP cut-off, `Some((next, kept name))` otherwise, with `Err` for a
/// refused archive.
pub open spec fn step_spec(rule: ScanRule, st: Scan, is_file: bool, size: u64, name: Seq<char>) -> Option<Result<(Scan, Option<Seq<char>>), ()>> {
    if rule == ScanRule::FirstEntries && st.seen >= MAX_ENTRIES {
        None
    } else {
        let seen = if st.seen == usize::MAX { st.seen } else { (st.seen + 1) as usize };
        let skip = Scan { seen, kept: st.kept, total: st.total };
        if !is_file {
            Some(Ok((skip, None)))
        } else {
            match sanitize_spec(name) {
                None => Some(Ok((skip, None))),
                Some(n) => {
                    let total = sat_add(st.total, size);
                    if total > MAX_TOTAL_BYTES || (rule == ScanRule::CountKept && st.kept >= MAX_ENTRIES) {
                        Some(Err(()))
                    } else {
                        Some(Ok((Scan { seen, kept: (st.kept + 1) as usize, total }, Some(n))))
                    }
                },
            }
        }
    }
}

impl Scan {
    /// A scan that has looked at nothing yet.
    pub fn new() -> (st: Scan)
        ensures
            st == (Scan { seen: 0, kept: 0, total: 0 }),
            scan_ok(st),
    {
        Scan { seen: 0, kept: 0, total: 0 }
    }
}

/// Decides what becomes of one entry of an archive being read, from what
/// is known of it before its data: folders and special entries are left
/// out, so are names with nothing safe in them; an entry that takes the
/// declared total past 512 MB (or, for TAR and 7z, the count past 10 000)
/// refuses the archive.
pub fn scan_step(rule: ScanRule, st: Scan, head: &EntryHead) -> (r: (Scan, ScanStep))
    requires
        scan_ok(st),
    ensures
        scan_ok(r.0),
        match step_spec(rule, st, head.is_file, head.size, head.name@) {
            None => r.1 is Stop && r.0 == st,
            Some(Err(())) => r.1 is TooLarge,
            Some(Ok((next, None))) => r.1 is Skip && r.0 == next,
            Some(Ok((next, Some(n)))) => r.1 matches ScanStep::Keep(k) && k@ == n && r.0 == next,
        },
{
    if rule == ScanRule::FirstEntries && st.seen >= MAX_ENTRIES {
        return (st, ScanStep::Stop);
    }
    let seen = if st.seen == usize::MAX { st.seen } else { st.seen + 1 };
    let skip = Scan { seen, kept: st.kept, total: st.total };
    if !head.is_file {
        return (skip, ScanStep::Skip);
    }
    match sanitize_entry_name(head.name.as_str()) {
        None => (skip, ScanStep::Skip),
        Some(n) => {
            let total = st.total.saturating_add(head.size);
            if total > MAX_TOTAL_BYTES || (rule == ScanRule::CountKept && st.kept >= MAX_ENTRIES) {
                (st, ScanStep::TooLarge)
            } else {
                (Scan { seen, kept: st.kept + 1, total }, ScanStep::Keep(n))
            }
        },
    }
}

// ── Formats ─────────────────────────────────────────────────────────────────

/// Archive formats that can be read.
#[derive(Clone, Copy, Debug, PartialEq, Eq, Structural)]
pub enum ArchiveInput {
    Zip,
    Tar,
    /// TAR compressed with gzip.
    Tgz,
    SevenZ,
}

/// Archive formats that can be written.
#[derive(Clone, Copy, Debug, PartialEq, Eq, Structural)]
pub enum ArchiveOutput {
    Zip,
    Tar,
    Tgz,
}

/// Why an archive is refused.
#[derive(Debug, PartialEq, Eq)]
pub enum ArchiveError {
    UnsupportedInput(String),
    UnsupportedOutput(String),
    /// Larger than allowed once unpacked.
    TooLarge,
    /// Nothing left to write.
    Empty,
    /// An entry name with nothing safe in it.
    InvalidName(String),
}

pub open spec fn input_spec(ext: Seq<char>) -> Option<ArchiveInput> {
    if ext == "zip"@ {
        Some(ArchiveInput::Zip)
    } else if ext == "tar"@ {
        Some(ArchiveInput::Tar)
    } else if ext == "tgz"@ || ext == "gz"@ {
        Some(ArchiveInput::Tgz)
    } else if ext == "7z"@ {
        Some(ArchiveInput::SevenZ)
    } else {
        None
    }
}

pub open spec fn output_spec(fmt: Seq<char>) -> Option<ArchiveOutput> {
    if fmt == "zip"@ {
        Some(ArchiveOutput::Zip)
    } else if fmt == "tar"@ {
        Some(ArchiveOutput::Tar)
    } else if fmt == "tgz"@ {
        Some(ArchiveOutput::Tgz)
    } else {
        None
    }
}

fn str_is(s: &str, lit: &str) -> (b: bool)
    ensures
        b == (s@ == lit@),
{
    is_lit(chars_of(s).as_slice(), lit)
}

/// The reader for an input extension.
pub fn archive_input(in_ext: &str) -> (r: Result<ArchiveInput, ArchiveError>)
    ensures
        match input_spec(in_ext@) {
            Some(f) => r == Ok::<ArchiveInput, ArchiveError>(f),
            None => r matches Err(ArchiveError::UnsupportedInput(e)) && e@ == in_ext@,
        },
{
    if str_is(in_ext, "zip") {
        Ok(ArchiveInput::Zip)
    } else if str_is(in_ext, "tar") {
        Ok(ArchiveInput::Tar)
    } else if str_is(in_ext, "tgz") || str_is(in_ext, "gz") {
        Ok(ArchiveInput::Tgz)
    } else if str_is(in_ext, "7z") {
        Ok(ArchiveInput::SevenZ)
    } else {
        Err(ArchiveError::UnsupportedInput(in_ext.to_string()))
    }
}

/// The writer for an output format.
pub fn archive_output(fmt: &str) -> (r: Result<ArchiveOutput, ArchiveError>)
    ensures
        match output_spec(fmt@) {
            Some(f) => r == Ok::<ArchiveOutput, ArchiveError>(f),
            None => r matches Err(ArchiveError::UnsupportedOutput(e)) && e@ == fmt@,
        },
{
    if str_is(fmt, "zip") {
        Ok(ArchiveOutput::Zip)
    } else if str_is(fmt, "tar") {
        Ok(ArchiveOutput::Tar)
    } else if str_is(fmt, "tgz") {
        Ok(ArchiveOutput::Tgz)
    } else {
        Err(ArchiveError::UnsupportedOutput(fmt.to_string()))
    }
}

impl ArchiveInput {
    /// How the entry count is bounded for this format.
    pub fn scan_rule(&self) -> (r: ScanRule)
        ensures
            r == (if *self == ArchiveInput::Zip { ScanRule::FirstEntries } else { ScanRule::CountKept }),
    {
        match self {
            ArchiveInput::Zip => ScanRule::FirstEntries,
            _ => ScanRule::CountKept,
        }
    }
}

/// An entry read from an archive: its sanitized name and its data.
#[derive(Debug)]
pub struct Entry {
    pub name: String,
    pub data: Vec<u8>,
}

/// Decides how the entries read from an archive are written back
/// (`convert_archive`): an archive with no entry left is refused, then the
/// output format chooses the writer.
pub fn convert_archive(entries: &[Entry], fmt: &str) -> (r: Result<ArchiveOutput, ArchiveError>)
    ensures
        entries@.len() == 0 ==> r == Err::<ArchiveOutput, ArchiveError>(ArchiveError::Empty),
        entries@.len() > 0 ==> match output_spec(fmt@) {
            Some(f) => r == Ok::<ArchiveOutput, ArchiveError>(f),
            None => r matches Err(ArchiveError::UnsupportedOutput(e)) && e@ == fmt@,
        },
{
    if entries.len() == 0 {
        return Err(ArchiveError::Empty);
    }
    archive_output(fmt)
}

/// The entry name a file is packed under, or the refusal of that name.
pub fn pack_entry_name(name: &str) -> (r: Result<String, ArchiveError>)
    ensures
        match sanitize_spec(name@) {
            Some(n) => r matches Ok(s) && s@ == n,
            None => r matches Err(ArchiveError::InvalidName(e)) && e@ == name@,
        },
{
    match sanitize_entry_name(name) {
        Some(n) => Ok(n),
        None => Err(ArchiveError::InvalidName(name.to_string())),
    }
}

impl ArchiveError {
    /// The message shown to the user.
    pub fn message(&self) -> (m: String)
        ensures
            match self {
                ArchiveError::UnsupportedInput(e) => m@ == "Format d'archive non supporté: "@ + e@,
                ArchiveError::UnsupportedOutput(e) => m@ == "Format d'archive de sortie non supporté: "@ + e@,
                ArchiveError::TooLarge => m@ == "Archive trop volumineuse une fois décompressée (> 512 MB)"@,
                ArchiveError::Empty => m@ == "Archive vide ou entrées toutes invalides"@,
                ArchiveError::InvalidName(e) => m@ == "Nom d'entrée invalide : "@ + e@,
            },
    {
        match self {
            ArchiveError::UnsupportedInput(e) => {
                let mut v = chars_of("Format d'archive non supporté: ");
                push_all(&mut v, chars_of(e.as_str()).as_slice());
                string_of(v.as_slice())
            },
            ArchiveError::UnsupportedOutput(e) => {
                let mut v = chars_of("Format d'archive de sortie non supporté: ");
                push_all(&mut v, chars_of(e.as_str()).as_slice());
                string_of(v.as_slice())
            },
            ArchiveError::TooLarge => String::from_str("Archive trop volumineuse une fois décompressée (> 512 MB)"),
            ArchiveError::Empty => String::from_str("Archive vide ou entrées toutes invalides"),
            ArchiveError::InvalidName(e) => {
                let mut v = chars_of("Nom d'entrée invalide : ");
                push_all(&mut v, chars_of(e.as_str()).as_slice());
                string_of(v.as_slice())
            },
        }
    }
}

// ── Laws of entry names ─────────────────────────────────────────────────────

/// `c` does not occur in `s`.
pub open spec fn no_char(s: Seq<char>, c: char) -> bool {
    forall|i: int| 0 <= i < s.len() ==> s[i] != c
}

proof fn lemma_slash_at(s: Seq<char>)
    requires
        s.len() > 0,
    ensures
        starts_with(s, "/"@) <==> s[0] == '/',
{
    reveal_strlit("/");
    if s[0] == '/' {
        assert(s.subrange(0, 1) =~= "/"@);
    }
    if starts_with(s, "/"@) {
        assert(s.subrange(0, 1)[0] == s[0]);
    }
}

proof fn lemma_split_no_slash(s: Seq<char>, cur: Seq<char>)
    requires
        no_char(s, '/'),
    ensures
        split_after(s, "/"@, cur) == seq![cur + s],
    decreases s.len(),
{
    reveal_strlit("/");
    if s.len() == 0 {
        assert(cur + s =~= cur);
    } else {
        lemma_slash_at(s);
        lemma_split_no_slash(s.drop_first(), cur.push(s[0]));
        assert(cur.push(s[0]) + s.drop_first() =~= cur + s);
    }
}

proof fn lemma_split_last_piece(x: Seq<char>, y: Seq<char>, cur: Seq<char>)
    requires
        no_char(y, '/'),
    ensures
        split_after(x + "/"@ + y, "/"@, cur) == split_after(x, "/"@, cur) + seq![y],
    decreases x.len(),
{
    reveal_strlit("/");
    let s = x + "/"@ + y;
    lemma_slash_at(s);
    if x.len() == 0 {
        assert(s.skip(1) =~= y);
        lemma_split_no_slash(y, seq![]);
        assert(seq![] + y =~= y);
    } else {
        lemma_slash_at(x);
        if x[0] == '/' {
            assert(s.skip(1) =~= x.skip(1) + "/"@ + y);
            lemma_split_last_piece(x.skip(1), y, seq![]);
        } else {
            assert(s.drop_first() =~= x.drop_first() + "/"@ + y);
            lemma_split_last_piece(x.drop_first(), y, cur.push(x[0]));
        }
    }
}

/// Pieces cut at `/` hold no `/`, nor any character absent from the input.
proof fn lemma_split_pieces(s: Seq<char>, cur: Seq<char>, c: char)
    requires
        no_char(cur, c),
        c == '/' || no_char(s, c),
    ensures
        forall|k: int|
            0 <= k < split_after(s, "/"@, cur).len() ==> no_char(#[trigger] split_after(s, "/"@, cur)[k], c),
    decreases s.len(),
{
    reveal_strlit("/");
    if s.len() == 0 {
        assert(split_after(s, "/"@, cur) == seq![cur]);
    } else {
        lemma_slash_at(s);
        if s[0] == '/' {
            lemma_split_pieces(s.skip(1), seq![], c);
            let rest = split_after(s.skip(1), "/"@, seq![]);
            assert(split_after(s, "/"@, cur) =~= seq![cur] + rest);
            assert forall|k: int| 0 <= k < split_after(s, "/"@, cur).len() implies no_char(
                #[trigger] split_after(s, "/"@, cur)[k],
                c,
            ) by {
                if k > 0 {
                    assert(split_after(s, "/"@, cur)[k] == rest[k - 1]);
                }
            }
        } else {
            assert(no_char(cur.push(s[0]), c)) by {
                assert forall|i: int| 0 <= i < cur.push(s[0]).len() implies cur.push(s[0])[i] != c by {
                    if i < cur.len() {
                        assert(cur.push(s[0])[i] == cur[i]);
                    }
                }
            }
            assert(c == '/' || no_char(s.drop_first(), c)) by {
                if c != '/' {
                    assert forall|i: int| 0 <= i < s.drop_first().len() implies s.drop_first()[i] != c by {
                        assert(s.drop_first()[i] == s[i + 1]);
                    }
                }
            }
            lemma_split_pieces(s.drop_first(), cur.push(s[0]), c);
            assert(split_after(s, "/"@, cur) == split_after(s.drop_first(), "/"@, cur.push(s[0])));
        }
    }
}

proof fn lemma_split_join(parts: Seq<Seq<char>>)
    requires
        parts.len() > 0,
        forall|k: int| 0 <= k < parts.len() ==> no_char(#[trigger] parts[k], '/'),
    ensures
        split(join(parts, "/"@), "/"@) == parts,
    decreases parts.len(),
{
    if parts.len() == 1 {
        lemma_split_no_slash(parts[0], seq![]);
        assert(seq![] + parts[0] =~= parts[0]);
        assert(seq![parts[0]] =~= parts);
    } else {
        let init = parts.drop_last();
        assert forall|k: int| 0 <= k < init.len() implies no_char(#[trigger] init[k], '/') by {
            assert(init[k] == parts[k]);
        }
        lemma_split_join(init);
        assert(no_char(parts[parts.len() - 1], '/'));
        lemma_split_last_piece(join(init, "/"@), parts.last(), seq![]);
        assert(init + seq![parts.last()] =~= parts);
    }
}

proof fn lemma_join_no_char(parts: Seq<Seq<char>>, c: char)
    requires
        c != '/',
        forall|k: int| 0 <= k < parts.len() ==> no_char(#[trigger] parts[k], c),
    ensures
        no_char(join(parts, "/"@), c),
        parts.len() > 0 ==> join(parts, "/"@).len() >= parts.last().len(),
    decreases parts.len(),
{
    reveal_strlit("/");
    if parts.len() > 1 {
        let init = parts.drop_last();
        assert forall|k: int| 0 <= k < init.len() implies no_char(#[trigger] init[k], c) by {
            assert(init[k] == parts[k]);
        }
        lemma_join_no_char(init, c);
        assert(no_char(parts[parts.len() - 1], c));
        let j = join(parts, "/"@);
        assert forall|i: int| 0 <= i < j.len() implies j[i] != c by {
            let a = join(init, "/"@);
            if i < a.len() {
                assert(j[i] == a[i]);
            } else if i == a.len() {
                assert(j[i] == '/');
            } else {
                assert(j[i] == parts.last()[i - a.len() - 1]);
            }
        }
    } else if parts.len() == 1 {
        assert(no_char(parts[0], c));
    }
}

proof fn lemma_kept(parts: Seq<Seq<char>>, c: char)
    ensures
        forall|k: int| 0 <= k < kept(parts).len() ==> keep_part(#[trigger] kept(parts)[k]),
        (forall|j: int| 0 <= j < parts.len() ==> no_char(#[trigger] parts[j], c)) ==> (forall|k: int|
            0 <= k < kept(parts).len() ==> no_char(#[trigger] kept(parts)[k], c)),
        (forall|j: int| 0 <= j < parts.len() ==> keep_part(#[trigger] parts[j])) ==> kept(parts)
            == parts,
    decreases parts.len(),
{
    if parts.len() > 0 {
        let init = parts.drop_last();
        lemma_kept(init, c);
        let k0 = kept(init);
        let all_c = forall|j: int| 0 <= j < parts.len() ==> no_char(#[trigger] parts[j], c);
        if all_c {
            assert forall|j: int| 0 <= j < init.len() implies no_char(#[trigger] init[j], c) by {
                assert(init[j] == parts[j]);
            }
            assert(no_char(parts[parts.len() - 1], c));
        }
        if keep_part(parts.last()) {
            assert(kept(parts) == k0.push(parts.last()));
            assert forall|k: int| 0 <= k < kept(parts).len() implies keep_part(#[trigger] kept(parts)[k]) by {
                if k < k0.len() {
                    assert(kept(parts)[k] == k0[k]);
                }
            }
            if all_c {
                assert forall|k: int| 0 <= k < kept(parts).len() implies no_char(#[trigger] kept(parts)[k], c) by {
                    if k < k0.len() {
                        assert(kept(parts)[k] == k0[k]);
                    }
                }
            }
        } else {
            assert(kept(parts) == k0);
        }
        if forall|j: int| 0 <= j < parts.len() ==> keep_part(#[trigger] parts[j]) {
            assert forall|j: int| 0 <= j < init.len() implies keep_part(#[trigger] init[j]) by {
                assert(init[j] == parts[j]);
            }
            assert(keep_part(parts[parts.len() - 1]));
            assert(init.push(parts.last()) =~= parts);
        }
    }
}

proof fn lemma_no_colon(s: Seq<char>)
    requires
        !contains(s, ":"@),
    ensures
        no_char(s, ':'),
{
    reveal_strlit(":");
    assert forall|i: int| 0 <= i < s.len() implies s[i] != ':' by {
        if s[i] == ':' {
            assert(s.subrange(i, i + 1) =~= ":"@);
            assert(occurs_at(s, ":"@, i));
        }
    }
}

proof fn lemma_parts_facts(name: Seq<char>)
    ensures
        forall|k: int| 0 <= k < entry_parts(name).len() ==> keep_part(#[trigger] entry_parts(name)[k]),
        forall|k: int| 0 <= k < entry_parts(name).len() ==> no_char(#[trigger] entry_parts(name)[k], '/'),
        forall|k: int| 0 <= k < entry_parts(name).len() ==> no_char(#[trigger] entry_parts(name)[k], '\\'),
{
    let u = unslash(name);
    assert(no_char(u, '\\'));
    lemma_split_pieces(u, seq![], '/');
    lemma_split_pieces(u, seq![], '\\');
    lemma_kept(split(u, "/"@), '/');
    lemma_kept(split(u, "/"@), '\\');
}

/// A sanitized entry name cannot leave the folder it is extracted to: it is
/// not empty, holds neither `\` nor `:`, and every `/`-separated segment is
/// a real name (not empty, not `.`, not `..`).
pub proof fn lemma_sanitized_name_is_safe(name: Seq<char>)
    requires
        sanitize_spec(name) is Some,
    ensures
        ({
            let s = sanitize_spec(name)->0;
            &&& s.len() > 0
            &&& no_char(s, '\\')
            &&& no_char(s, ':')
            &&& forall|k: int| 0 <= k < split(s, "/"@).len() ==> keep_part(#[trigger] split(s, "/"@)[k])
        }),
{
    let parts = entry_parts(name);
    lemma_parts_facts(name);
    let s = join(parts, "/"@);
    lemma_split_join(parts);
    lemma_join_no_char(parts, '\\');
    lemma_no_colon(s);
}

/// Sanitizing is idempotent: a sanitized name is its own safe form.
pub proof fn lemma_sanitize_idempotent(name: Seq<char>)
    requires
        sanitize_spec(name) is Some,
    ensures
        sanitize_spec(sanitize_spec(name)->0) == sanitize_spec(name),
{
    let parts = entry_parts(name);
    lemma_parts_facts(name);
    let s = join(parts, "/"@);
    lemma_split_join(parts);
    lemma_join_no_char(parts, '\\');
    assert(unslash(s) =~= s);
    lemma_kept(parts, '/');
    assert(entry_parts(s) == parts);
}

} // verus!
