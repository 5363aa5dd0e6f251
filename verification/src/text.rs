//! Character-level text toolkit shared by the converters: search, replace,
//! line splitting and trimming over sequences of `char`, with the exact
//! semantics of the corresponding `str` operations.
use vstd::prelude::*;

verus! {

broadcast use vstd::string::group_string_axioms;

// ── Specifications ───────────────────────────────────────────────────────────

/// `p` occurs in `s` starting at index `i`.
pub open spec fn occurs_at(s: Seq<char>, p: Seq<char>, i: int) -> bool {
    &&& 0 <= i
    &&& i + p.len() <= s.len()
    &&& s.subrange(i, i + p.len()) =~= p
}

pub open spec fn starts_with(s: Seq<char>, p: Seq<char>) -> bool {
    occurs_at(s, p, 0)
}

pub open spec fn ends_with(s: Seq<char>, p: Seq<char>) -> bool {
    p.len() <= s.len() && occurs_at(s, p, s.len() - p.len())
}

pub open spec fn contains(s: Seq<char>, p: Seq<char>) -> bool {
    exists|i: int| occurs_at(s, p, i)
}

/// First index `>= from` at which `p` occurs in `s`.
pub open spec fn find_from(s: Seq<char>, p: Seq<char>, from: int) -> Option<int>
    decreases s.len() - from,
{
    if from < 0 || from + p.len() > s.len() {
        None
    } else if occurs_at(s, p, from) {
        Some(from)
    } else {
        find_from(s, p, from + 1)
    }
}

/// First occurrence of `p` in `s` (`str::find`).
pub open spec fn find(s: Seq<char>, p: Seq<char>) -> Option<int> {
    find_from(s, p, 0)
}

/// Last index `<= to` at which `p` occurs in `s`.
pub open spec fn rfind_to(s: Seq<char>, p: Seq<char>, to: int) -> Option<int>
    decreases to + 1,
{
    if to < 0 {
        None
    } else if occurs_at(s, p, to) {
        Some(to)
    } else {
        rfind_to(s, p, to - 1)
    }
}

/// Last occurrence of `p` in `s` (`str::rfind`).
pub open spec fn rfind(s: Seq<char>, p: Seq<char>) -> Option<int> {
    rfind_to(s, p, s.len() - p.len())
}

/// Left-to-right replacement of every non-overlapping occurrence of `f` by `t`
/// (`str::replace`).
pub open spec fn replace_all(s: Seq<char>, f: Seq<char>, t: Seq<char>) -> Seq<char>
    decreases s.len(),
{
    if s.len() == 0 || f.len() == 0 {
        s
    } else if starts_with(s, f) {
        t + replace_all(s.skip(f.len() as int), f, t)
    } else {
        seq![s[0]] + replace_all(s.drop_first(), f, t)
    }
}

/// Replacement of the first occurrence of `f` by `t` (`str::replacen(.., 1)`).
pub open spec fn replace_first(s: Seq<char>, f: Seq<char>, t: Seq<char>) -> Seq<char> {
    match find(s, f) {
        Some(i) => s.take(i) + t + s.skip(i + f.len()),
        None => s,
    }
}

/// Unicode `White_Space` (what `char::is_whitespace` and `str::trim` use).
pub open spec fn is_ws(c: char) -> bool {
    let u = c as u32;
    ||| u == 0x20
    ||| 0x09 <= u <= 0x0d
    ||| u == 0x85
    ||| u == 0xa0
    ||| u == 0x1680
    ||| 0x2000 <= u <= 0x200a
    ||| u == 0x2028
    ||| u == 0x2029
    ||| u == 0x202f
    ||| u == 0x205f
    ||| u == 0x3000
}

pub open spec fn trim_start(s: Seq<char>) -> Seq<char>
    decreases s.len(),
{
    if s.len() > 0 && is_ws(s[0]) {
        trim_start(s.drop_first())
    } else {
        s
    }
}

pub open spec fn trim_end(s: Seq<char>) -> Seq<char>
    decreases s.len(),
{
    if s.len() > 0 && is_ws(s.last()) {
        trim_end(s.drop_last())
    } else {
        s
    }
}

pub open spec fn trim(s: Seq<char>) -> Seq<char> {
    trim_end(trim_start(s))
}

/// A line without its `\r` when it was ended by `\r\n`.
pub open spec fn strip_cr(l: Seq<char>) -> Seq<char> {
    if l.len() > 0 && l.last() == '\r' {
        l.drop_last()
    } else {
        l
    }
}

/// Lines of `s` after the partial line `cur` (`str::lines`): split at `\n`,
/// a `\r` before the `\n` dropped, no empty line after a final `\n`.
pub open spec fn lines_after(s: Seq<char>, cur: Seq<char>) -> Seq<Seq<char>>
    decreases s.len(),
{
    if s.len() == 0 {
        if cur.len() == 0 {
            seq![]
        } else {
            seq![cur]
        }
    } else if s[0] == '\n' {
        seq![strip_cr(cur)] + lines_after(s.drop_first(), seq![])
    } else {
        lines_after(s.drop_first(), cur.push(s[0]))
    }
}

pub open spec fn lines(s: Seq<char>) -> Seq<Seq<char>> {
    lines_after(s, seq![])
}

pub open spec fn is_ascii_digit(c: char) -> bool {
    '0' <= c <= '9'
}

pub open spec fn is_ascii_alpha(c: char) -> bool {
    ('a' <= c <= 'z') || ('A' <= c <= 'Z')
}

pub open spec fn ascii_lower(c: char) -> char {
    if 'A' <= c <= 'Z' {
        ((c as u32) + 32) as char
    } else {
        c
    }
}

pub open spec fn lower_ascii(s: Seq<char>) -> Seq<char> {
    s.map_values(|c: char| ascii_lower(c))
}

/// Concatenation of `parts`, each followed by `sep` but the last.
pub open spec fn join(parts: Seq<Seq<char>>, sep: Seq<char>) -> Seq<char>
    decreases parts.len(),
{
    if parts.len() == 0 {
        seq![]
    } else if parts.len() == 1 {
        parts[0]
    } else {
        join(parts.drop_last(), sep) + sep + parts.last()
    }
}

/// An optional index seen as an integer.
pub open spec fn idx(r: Option<usize>) -> Option<int> {
    match r {
        Some(k) => Some(k as int),
        None => None,
    }
}

/// Views of a sequence of character vectors.
pub open spec fn views(v: Seq<Vec<char>>) -> Seq<Seq<char>> {
    v.map_values(|x: Vec<char>| x@)
}

// ── Lemmas ───────────────────────────────────────────────────────────────────

pub proof fn lemma_find_from(s: Seq<char>, p: Seq<char>, from: int)
    requires
        0 <= from,
    ensures
        match find_from(s, p, from) {
            Some(k) => from <= k && occurs_at(s, p, k) && forall|j: int|
                from <= j < k ==> !occurs_at(s, p, j),
            None => forall|j: int| from <= j ==> !occurs_at(s, p, j),
        },
    decreases s.len() - from,
{
    if from + p.len() > s.len() {
    } else if occurs_at(s, p, from) {
    } else {
        lemma_find_from(s, p, from + 1);
    }
}

pub proof fn lemma_find(s: Seq<char>, p: Seq<char>)
    ensures
        match find(s, p) {
            Some(k) => occurs_at(s, p, k) && forall|j: int| 0 <= j < k ==> !occurs_at(s, p, j),
            None => forall|j: int| !occurs_at(s, p, j),
        },
{
    lemma_find_from(s, p, 0);
}

pub proof fn lemma_rfind_to(s: Seq<char>, p: Seq<char>, to: int)
    ensures
        match rfind_to(s, p, to) {
            Some(k) => k <= to && occurs_at(s, p, k) && forall|j: int|
                k < j <= to ==> !occurs_at(s, p, j),
            None => forall|j: int| j <= to ==> !occurs_at(s, p, j),
        },
    decreases to + 1,
{
    if to < 0 {
    } else if occurs_at(s, p, to) {
    } else {
        lemma_rfind_to(s, p, to - 1);
    }
}

pub proof fn lemma_rfind(s: Seq<char>, p: Seq<char>)
    ensures
        match rfind(s, p) {
            Some(k) => occurs_at(s, p, k) && forall|j: int| k < j ==> !occurs_at(s, p, j),
            None => forall|j: int| !occurs_at(s, p, j),
        },
{
    lemma_rfind_to(s, p, s.len() - p.len());
}

// ── Wrappers over std ────────────────────────────────────────────────────────

/// Appends one character to a `String` (`String::push`); the documented
/// effect is that `c` ends up after the existing characters.
#[verifier::external_body]
fn push_char(s: &mut String, c: char)
    ensures
        final(s)@ == old(s)@.push(c),
{
    s.push(c);
}

/// A Unicode scalar value (`char::from_u32` accepts it).
pub open spec fn valid_scalar(u: u32) -> bool {
    u <= 0x10FFFF && !(0xD800 <= u <= 0xDFFF)
}

/// `char::from_u32`: a character exactly when `u` is a Unicode scalar value.
#[verifier::external_body]
pub(crate) fn char_from_u32(u: u32) -> (r: Option<char>)
    ensures
        r == if valid_scalar(u) {
            Some(u as char)
        } else {
            None
        },
{
    char::from_u32(u)
}

/// The UTF-8 bytes of a text.
pub open spec fn utf8_of(s: Seq<char>) -> Seq<u8> {
    vstd::utf8::encode_utf8(s)
}

/// What `String::from_utf8` gives for bytes: the text they encode, or none
/// when they are not UTF-8.
pub open spec fn utf8_decode(b: Seq<u8>) -> Option<Seq<char>> {
    if vstd::utf8::valid_utf8(b) {
        Some(vstd::utf8::decode_utf8(b))
    } else {
        None
    }
}

/// What `String::from_utf8_lossy` gives for bytes that are not UTF-8: their
/// text, invalid sequences replaced by U+FFFD.
pub uninterp spec fn lossy_invalid(b: Seq<u8>) -> Seq<char>;

/// What `String::from_utf8_lossy` gives for bytes: the text of valid UTF-8,
/// else the text with invalid sequences replaced by U+FFFD.
pub open spec fn lossy(b: Seq<u8>) -> Seq<char> {
    if vstd::utf8::valid_utf8(b) {
        vstd::utf8::decode_utf8(b)
    } else {
        lossy_invalid(b)
    }
}

/// The UTF-8 encoding of a text, which decodes back to the same text.
pub(crate) fn text_bytes(s: &str) -> (r: Vec<u8>)
    ensures
        r@ == utf8_of(s@),
        utf8_decode(r@) == Some(s@),
{
    proof {
        broadcast use vstd::utf8::encode_utf8_valid_utf8, vstd::utf8::encode_utf8_decode_utf8;
    }
    vstd::slice::slice_to_vec(s.as_bytes())
}

/// `String::from_utf8`: the text the bytes encode, or none when they are
/// not UTF-8.
#[verifier::external_body]
pub(crate) fn text_from_bytes(b: &[u8]) -> (r: Option<String>)
    ensures
        match r {
            Some(t) => utf8_decode(b@) == Some(t@),
            None => utf8_decode(b@) is None,
        },
{
    String::from_utf8(b.to_vec()).ok()
}

/// `String::from_utf8_lossy`: for valid UTF-8, the text it encodes; else
/// the text with each invalid sequence replaced by U+FFFD.
#[verifier::external_body]
pub(crate) fn lossy_text(b: &[u8]) -> (r: String)
    ensures
        vstd::utf8::valid_utf8(b@) ==> r@ == vstd::utf8::decode_utf8(b@),
        !vstd::utf8::valid_utf8(b@) ==> r@ == lossy_invalid(b@),
{
    String::from_utf8_lossy(b).into_owned()
}

// ── Conversions ──────────────────────────────────────────────────────────────

/// The characters of a string slice, in order.
pub fn chars_of(s: &str) -> (v: Vec<char>)
    ensures
        v@ == s@,
{
    let mut v: Vec<char> = Vec::new();
    for c in it: s.chars()
        invariant
            v@ == it.seq().take(it.index()),
            it.seq() == s@,
    {
        v.push(c);
    }
    v
}

/// A `String` holding exactly the given characters.
pub fn string_of(v: &[char]) -> (s: String)
    ensures
        s@ == v@,
{
    let mut s = String::new();
    let mut i: usize = 0;
    while i < v.len()
        invariant
            i <= v.len(),
            s@ == v@.take(i as int),
        decreases v.len() - i,
    {
        push_char(&mut s, v[i]);
        i += 1;
    }
    s
}

// ── Building blocks ──────────────────────────────────────────────────────────

/// Appends all of `s` to `v`.
pub fn push_all(v: &mut Vec<char>, s: &[char])
    ensures
        final(v)@ == old(v)@ + s@,
{
    let ghost start = v@;
    let mut i: usize = 0;
    while i < s.len()
        invariant
            i <= s.len(),
            v@ == start + s@.take(i as int),
        decreases s.len() - i,
    {
        v.push(s[i]);
        i += 1;
    }
}

/// Appends the characters of `s` to `v`.
pub fn push_str(v: &mut Vec<char>, s: &str)
    ensures
        final(v)@ == old(v)@ + s@,
{
    let c = chars_of(s);
    push_all(v, c.as_slice());
}

/// Copy of `s[a..b]`.
pub fn slice_copy(s: &[char], a: usize, b: usize) -> (r: Vec<char>)
    requires
        a <= b <= s@.len(),
    ensures
        r@ == s@.subrange(a as int, b as int),
{
    let mut r: Vec<char> = Vec::new();
    let mut i = a;
    while i < b
        invariant
            a <= i <= b <= s@.len(),
            r@ == s@.subrange(a as int, i as int),
        decreases b - i,
    {
        r.push(s[i]);
        i += 1;
    }
    r
}

/// Whether `p` occurs in `s` at index `i`.
pub fn matches_at(s: &[char], p: &[char], i: usize) -> (b: bool)
    ensures
        b == occurs_at(s@, p@, i as int),
{
    if i > s.len() || p.len() > s.len() - i {
        return false;
    }
    let mut k: usize = 0;
    while k < p.len()
        invariant
            k <= p.len(),
            i + p.len() <= s.len(),
            forall|j: int| 0 <= j < k ==> s@[i + j] == p@[j],
        decreases p.len() - k,
    {
        if s[i + k] != p[k] {
            assert(s@.subrange(i as int, i + p.len())[k as int] != p@[k as int]);
            return false;
        }
        k += 1;
    }
    assert(s@.subrange(i as int, i + p.len()) =~= p@);
    true
}

pub fn starts_with_at0(s: &[char], p: &[char]) -> (b: bool)
    ensures
        b == starts_with(s@, p@),
{
    matches_at(s, p, 0)
}

pub fn ends_with_exec(s: &[char], p: &[char]) -> (b: bool)
    ensures
        b == ends_with(s@, p@),
{
    if p.len() > s.len() {
        false
    } else {
        matches_at(s, p, s.len() - p.len())
    }
}

/// First occurrence of `p` at or after `from` (`str::find` on `s[from..]`).
pub fn find_from_exec(s: &[char], p: &[char], from: usize) -> (r: Option<usize>)
    ensures
        idx(r) == find_from(s@, p@, from as int),
        r matches Some(k) ==> k + p@.len() <= s@.len(),
{
    let mut i = from;
    while i <= s.len() && p.len() <= s.len() - i
        invariant
            from <= i,
            find_from(s@, p@, from as int) == find_from(s@, p@, i as int),
        decreases s.len() + 1 - i,
    {
        if matches_at(s, p, i) {
            return Some(i);
        }
        i += 1;
    }
    None
}

/// First occurrence of `p` in `s`.
pub fn find_exec(s: &[char], p: &[char]) -> (r: Option<usize>)
    ensures
        idx(r) == find(s@, p@),
        r matches Some(k) ==> k + p@.len() <= s@.len(),
{
    find_from_exec(s, p, 0)
}

pub fn contains_exec(s: &[char], p: &[char]) -> (b: bool)
    ensures
        b == contains(s@, p@),
{
    proof {
        lemma_find(s@, p@);
    }
    find_exec(s, p).is_some()
}

/// Last occurrence of `p` in `s`.
pub fn rfind_exec(s: &[char], p: &[char]) -> (r: Option<usize>)
    ensures
        idx(r) == rfind(s@, p@),
        r matches Some(k) ==> k + p@.len() <= s@.len(),
{
    if p.len() > s.len() {
        return None;
    }
    let mut i: usize = s.len() - p.len();
    loop
        invariant
            i <= s.len() - p.len(),
            p.len() <= s.len(),
            rfind(s@, p@) == rfind_to(s@, p@, i as int),
        decreases i,
    {
        if matches_at(s, p, i) {
            return Some(i);
        }
        if i == 0 {
            return None;
        }
        i -= 1;
    }
}

/// Replaces every occurrence of `f` by `t` (`str::replace`).
pub fn replace_all_exec(s: &[char], f: &[char], t: &[char]) -> (r: Vec<char>)
    ensures
        r@ == replace_all(s@, f@, t@),
{
    let mut r: Vec<char> = Vec::new();
    if f.len() == 0 {
        push_all(&mut r, s);
        return r;
    }
    let mut i: usize = 0;
    assert(s@.skip(0) =~= s@);
    while i < s.len()
        invariant
            i <= s.len(),
            f@.len() > 0,
            r@ + replace_all(s@.skip(i as int), f@, t@) == replace_all(s@, f@, t@),
        decreases s.len() - i,
    {
        let ghost rest = s@.skip(i as int);
        if matches_at(s, f, i) {
            assert(rest.subrange(0, f@.len() as int) =~= s@.subrange(i as int, i + f@.len()));
            assert(rest.skip(f@.len() as int) =~= s@.skip(i + f@.len()));
            push_all(&mut r, t);
            i += f.len();
        } else {
            assert(!starts_with(rest, f@)) by {
                if starts_with(rest, f@) {
                    assert(rest.subrange(0, f@.len() as int) =~= s@.subrange(i as int, i + f@.len()));
                }
            }
            assert(rest.drop_first() =~= s@.skip(i + 1));
            r.push(s[i]);
            i += 1;
        }
    }
    assert(s@.skip(i as int) =~= Seq::<char>::empty());
    r
}

/// Replaces the first occurrence of `f` by `t` (`str::replacen(f, t, 1)`).
pub fn replace_first_exec(s: &[char], f: &[char], t: &[char]) -> (r: Vec<char>)
    ensures
        r@ == replace_first(s@, f@, t@),
{
    match find_exec(s, f) {
        Some(i) => {
            assert(i + f@.len() <= s@.len());
            assert(f.len() == f@.len() && s.len() == s@.len());
            let mut r = slice_copy(s, 0, i);
            push_all(&mut r, t);
            let tail = slice_copy(s, i + f.len(), s.len());
            push_all(&mut r, tail.as_slice());
            assert(r@ =~= s@.take(i as int) + t@ + s@.skip(i + f@.len()));
            r
        },
        None => slice_copy(s, 0, s.len()),
    }
}

pub fn is_ws_exec(c: char) -> (b: bool)
    ensures
        b == is_ws(c),
{
    let u = c as u32;
    u == 0x20 || (0x09 <= u && u <= 0x0d) || u == 0x85 || u == 0xa0 || u == 0x1680 || (0x2000
        <= u && u <= 0x200a) || u == 0x2028 || u == 0x2029 || u == 0x202f || u == 0x205f || u
        == 0x3000
}

proof fn lemma_trim_start_skip(s: Seq<char>, i: int)
    requires
        0 <= i <= s.len(),
        forall|j: int| 0 <= j < i ==> is_ws(s[j]),
    ensures
        trim_start(s) == trim_start(s.skip(i)),
    decreases i,
{
    if i > 0 {
        assert(s.drop_first().skip(i - 1) =~= s.skip(i));
        lemma_trim_start_skip(s.drop_first(), i - 1);
    } else {
        assert(s.skip(0) =~= s);
    }
}

proof fn lemma_trim_end_take(s: Seq<char>, i: int)
    requires
        0 <= i <= s.len(),
        forall|j: int| i <= j < s.len() ==> is_ws(s[j]),
    ensures
        trim_end(s) == trim_end(s.take(i)),
    decreases s.len() - i,
{
    if i < s.len() {
        assert(s.drop_last().take(i) =~= s.take(i));
        lemma_trim_end_take(s.drop_last(), i);
    } else {
        assert(s.take(i) =~= s);
    }
}

/// Index of the first non-whitespace character (or the length).
pub fn trim_start_index(s: &[char]) -> (i: usize)
    ensures
        i <= s@.len(),
        trim_start(s@) == s@.skip(i as int),
{
    let mut i: usize = 0;
    while i < s.len() && is_ws_exec(s[i])
        invariant
            i <= s.len(),
            forall|j: int| 0 <= j < i ==> is_ws(s@[j]),
        decreases s.len() - i,
    {
        i += 1;
    }
    proof {
        lemma_trim_start_skip(s@, i as int);
    }
    i
}

/// Index just past the last non-whitespace character (or 0).
pub fn trim_end_index(s: &[char]) -> (i: usize)
    ensures
        i <= s@.len(),
        trim_end(s@) == s@.take(i as int),
{
    let mut i: usize = s.len();
    while i > 0 && is_ws_exec(s[i - 1])
        invariant
            i <= s.len(),
            forall|j: int| i <= j < s@.len() ==> is_ws(s@[j]),
        decreases i,
    {
        i -= 1;
    }
    proof {
        lemma_trim_end_take(s@, i as int);
    }
    i
}

pub fn trim_start_exec(s: &[char]) -> (r: Vec<char>)
    ensures
        r@ == trim_start(s@),
{
    let i = trim_start_index(s);
    slice_copy(s, i, s.len())
}

pub fn trim_end_exec(s: &[char]) -> (r: Vec<char>)
    ensures
        r@ == trim_end(s@),
{
    let i = trim_end_index(s);
    slice_copy(s, 0, i)
}

pub fn trim_exec(s: &[char]) -> (r: Vec<char>)
    ensures
        r@ == trim(s@),
{
    let a = trim_start_exec(s);
    trim_end_exec(a.as_slice())
}

/// Splits into lines like `str::lines`.
pub fn lines_exec(s: &[char]) -> (r: Vec<Vec<char>>)
    ensures
        views(r@) == lines(s@),
{
    let mut r: Vec<Vec<char>> = Vec::new();
    let mut cur: Vec<char> = Vec::new();
    let mut i: usize = 0;
    assert(s@.skip(0) =~= s@);
    assert(views(r@) =~= Seq::<Seq<char>>::empty());
    while i < s.len()
        invariant
            i <= s.len(),
            views(r@) + lines_after(s@.skip(i as int), cur@) == lines(s@),
        decreases s.len() - i,
    {
        let ghost rest = s@.skip(i as int);
        assert(rest.drop_first() =~= s@.skip(i + 1));
        if s[i] == '\n' {
            let mut line = cur;
            if line.len() > 0 && line[line.len() - 1] == '\r' {
                line.pop();
            }
            assert(line@ == strip_cr(cur@));
            let ghost before = views(r@);
            r.push(line);
            assert(views(r@) =~= before + seq![strip_cr(cur@)]);
            cur = Vec::new();
        } else {
            cur.push(s[i]);
        }
        i += 1;
    }
    assert(s@.skip(i as int) =~= Seq::<char>::empty());
    if cur.len() > 0 {
        let ghost before = views(r@);
        let ghost c = cur@;
        r.push(cur);
        assert(views(r@) =~= before + seq![c]);
    } else {
        assert(views(r@) =~= views(r@) + Seq::<Seq<char>>::empty());
    }
    r
}

pub fn lower_ascii_exec(s: &[char]) -> (r: Vec<char>)
    ensures
        r@ == lower_ascii(s@),
{
    let mut r: Vec<char> = Vec::new();
    let mut i: usize = 0;
    while i < s.len()
        invariant
            i <= s.len(),
            r@ =~= lower_ascii(s@.take(i as int)),
        decreases s.len() - i,
    {
        let c = s[i];
        let l = if 'A' <= c && c <= 'Z' {
            ((c as u8) + 32) as char
        } else {
            c
        };
        assert(l == ascii_lower(c));
        r.push(l);
        assert(s@.take(i + 1) =~= s@.take(i as int).push(c));
        i += 1;
    }
    assert(s@.take(i as int) =~= s@);
    r
}

/// Concatenates `parts` with `sep` between them.
pub fn join_exec(parts: &[Vec<char>], sep: &[char]) -> (r: Vec<char>)
    ensures
        r@ == join(views(parts@), sep@),
{
    let mut r: Vec<char> = Vec::new();
    let mut i: usize = 0;
    while i < parts.len()
        invariant
            i <= parts.len(),
            r@ == join(views(parts@.take(i as int)), sep@),
        decreases parts.len() - i,
    {
        let ghost prev = views(parts@.take(i as int));
        assert(views(parts@.take(i + 1)) =~= prev.push(parts@[i as int]@));
        assert(views(parts@.take(i + 1)).drop_last() =~= prev);
        if i > 0 {
            push_all(&mut r, sep);
        }
        push_all(&mut r, parts[i].as_slice());
        i += 1;
    }
    assert(parts@.take(i as int) =~= parts@);
    r
}

} // verus!

verus! {

/// Character-wise equality.
pub fn eq_chars(a: &[char], b: &[char]) -> (r: bool)
    ensures
        r == (a@ == b@),
{
    if a.len() != b.len() {
        return false;
    }
    let mut i: usize = 0;
    while i < a.len()
        invariant
            i <= a.len(),
            a.len() == b.len(),
            forall|j: int| 0 <= j < i ==> a@[j] == b@[j],
        decreases a.len() - i,
    {
        if a[i] != b[i] {
            return false;
        }
        i += 1;
    }
    assert(a@ =~= b@);
    true
}

/// Whether `a` holds exactly the characters of `lit`.
pub fn is_lit(a: &[char], lit: &str) -> (r: bool)
    ensures
        r == (a@ == lit@),
{
    let l = chars_of(lit);
    eq_chars(a, l.as_slice())
}

} // verus!

verus! {

/// What `str::to_lowercase` returns for a string with these characters
/// (Unicode lower-case mapping, which can change the length).
pub uninterp spec fn lowercase(s: Seq<char>) -> Seq<char>;

/// Unicode lower-casing (`str::to_lowercase`). Nothing is claimed of the
/// mapping itself: its result is the name `lowercase` of the input.
#[verifier::external_body]
pub(crate) fn to_lowercase(s: &[char]) -> (r: Vec<char>)
    ensures
        r@ == lowercase(s@),
{
    let st: String = s.iter().collect();
    st.to_lowercase().chars().collect()
}

} // verus!

verus! {

// ── Numbers ──────────────────────────────────────────────────────────────────

/// Decimal digits of `n` (`n.to_string()`).
pub open spec fn dec_str(n: nat) -> Seq<char>
    decreases n,
{
    if n < 10 {
        seq![digit_char(n)]
    } else {
        dec_str(n / 10) + seq![digit_char(n % 10)]
    }
}

pub open spec fn digit_char(d: nat) -> char {
    ((d + 48) as u32) as char
}

/// The digits of `n` read back give `n`.
pub proof fn lemma_dec_str_value(n: nat)
    ensures
        digits_value(dec_str(n)) == n,
        dec_str(n).len() > 0,
    decreases n,
{
    if n < 10 {
        let d = dec_str(n);
        assert(d.drop_last() =~= Seq::<char>::empty());
        assert(digits_value(d.drop_last()) == 0);
        assert(d.last() == digit_char(n));
        assert((digit_char(n) as u32) == n + 48);
        assert(digits_value(d) == 10 * digits_value(d.drop_last()) + ((d.last() as u32) - 48) as nat);
    } else {
        lemma_dec_str_value(n / 10);
        let d = dec_str(n);
        assert(d.drop_last() =~= dec_str(n / 10));
        assert(d.last() == digit_char(n % 10));
        assert((digit_char(n % 10) as u32) == n % 10 + 48);
        assert(digits_value(d) == 10 * digits_value(d.drop_last()) + ((d.last() as u32) - 48) as nat);
        assert(10 * (n / 10) + n % 10 == n) by (nonlinear_arith);
    }
}

/// Different numbers have different decimal forms.
pub proof fn lemma_dec_str_injective(a: nat, b: nat)
    ensures
        dec_str(a) == dec_str(b) ==> a == b,
{
    lemma_dec_str_value(a);
    lemma_dec_str_value(b);
}

fn digit_char_exec(d: u64) -> (c: char)
    requires
        d < 10,
    ensures
        c == digit_char(d as nat),
{
    let b = (d as u8) + 48;
    b as char
}

/// Decimal representation of `n`.
pub fn dec_string(n: u64) -> (r: Vec<char>)
    ensures
        r@ == dec_str(n as nat),
    decreases n,
{
    if n < 10 {
        let mut r = Vec::new();
        r.push(digit_char_exec(n));
        r
    } else {
        let mut r = dec_string(n / 10);
        r.push(digit_char_exec(n % 10));
        r
    }
}

pub open spec fn all_digits(s: Seq<char>) -> bool {
    forall|i: int| 0 <= i < s.len() ==> is_ascii_digit(s[i])
}

pub fn all_digits_exec(s: &[char]) -> (b: bool)
    ensures
        b == all_digits(s@),
{
    let mut i: usize = 0;
    while i < s.len()
        invariant
            i <= s.len(),
            forall|j: int| 0 <= j < i ==> is_ascii_digit(s@[j]),
        decreases s.len() - i,
    {
        if !('0' <= s[i] && s[i] <= '9') {
            return false;
        }
        i += 1;
    }
    true
}

/// Value of a run of ASCII digits.
pub open spec fn digits_value(d: Seq<char>) -> nat
    decreases d.len(),
{
    if d.len() == 0 {
        0
    } else {
        10 * digits_value(d.drop_last()) + ((d.last() as u32) - 48) as nat
    }
}

/// `str::parse::<u64>`: an optional `+`, then at least one digit, no overflow.
pub open spec fn parse_u64(s: Seq<char>) -> Option<nat> {
    let d = if s.len() > 0 && s[0] == '+' {
        s.drop_first()
    } else {
        s
    };
    if d.len() == 0 || !all_digits(d) || digits_value(d) > u64::MAX {
        None
    } else {
        Some(digits_value(d))
    }
}

proof fn lemma_digits_mono(d: Seq<char>, k: int)
    requires
        0 <= k <= d.len(),
        all_digits(d),
    ensures
        digits_value(d.take(k)) <= digits_value(d),
    decreases d.len() - k,
{
    if k < d.len() {
        assert(d.drop_last().take(k) =~= d.take(k));
        lemma_digits_mono(d.drop_last(), k);
    } else {
        assert(d.take(k) =~= d);
    }
}

pub fn parse_u64_exec(s: &[char]) -> (r: Option<u64>)
    ensures
        match r {
            Some(v) => parse_u64(s@) == Some(v as nat),
            None => parse_u64(s@) is None,
        },
{
    let start: usize = if s.len() > 0 && s[0] == '+' {
        1
    } else {
        0
    };
    let ghost d = if s@.len() > 0 && s@[0] == '+' {
        s@.drop_first()
    } else {
        s@
    };
    assert(d =~= s@.skip(start as int));
    if start == s.len() {
        return None;
    }
    let dd = slice_copy(s, start, s.len());
    if !all_digits_exec(dd.as_slice()) {
        return None;
    }
    let mut v: u64 = 0;
    let mut k: usize = 0;
    while k < dd.len()
        invariant
            k <= dd@.len(),
            dd@ == d,
            d == (if s@.len() > 0 && s@[0] == '+' {
                s@.drop_first()
            } else {
                s@
            }),
            all_digits(d),
            v == digits_value(d.take(k as int)),
        decreases dd.len() - k,
    {
        assert(d.take(k + 1).drop_last() =~= d.take(k as int));
        let c = dd[k];
        let digit = ((c as u32) - 48) as u64;
        assert(digit <= 9);
        assert(digits_value(d.take(k + 1)) == 10 * v + digit);
        if v > (18446744073709551615u64 - digit) / 10 {
            assert(10 * v + digit > u64::MAX) by (nonlinear_arith)
                requires
                    v > (18446744073709551615u64 - digit) / 10,
                    digit <= 9,
            ;
            proof {
                lemma_digits_mono(d, k + 1);
                assert(digits_value(d) > u64::MAX);
                assert(parse_u64(s@) is None);
            }
            return None;
        }
        assert(10 * v + digit <= u64::MAX) by (nonlinear_arith)
            requires
                v <= (18446744073709551615u64 - digit) / 10,
                digit <= 9,
        ;
        v = 10 * v + digit;
        k += 1;
    }
    assert(d.take(dd@.len() as int) =~= d);
    Some(v)
}

// ── Splitting ────────────────────────────────────────────────────────────────

/// Pieces of `s` after the partial piece `cur`, cut at every `p` (`str::split`).
pub open spec fn split_after(s: Seq<char>, p: Seq<char>, cur: Seq<char>) -> Seq<Seq<char>>
    decreases s.len(),
{
    if s.len() == 0 {
        seq![cur]
    } else if p.len() > 0 && starts_with(s, p) {
        seq![cur] + split_after(s.skip(p.len() as int), p, seq![])
    } else {
        split_after(s.drop_first(), p, cur.push(s[0]))
    }
}

pub open spec fn split(s: Seq<char>, p: Seq<char>) -> Seq<Seq<char>> {
    split_after(s, p, seq![])
}

/// Whitespace-separated words of `s` after the partial word `cur`
/// (`str::split_whitespace`).
pub open spec fn words_after(s: Seq<char>, cur: Seq<char>) -> Seq<Seq<char>>
    decreases s.len(),
{
    if s.len() == 0 {
        if cur.len() == 0 {
            seq![]
        } else {
            seq![cur]
        }
    } else if is_ws(s[0]) {
        (if cur.len() == 0 {
            seq![]
        } else {
            seq![cur]
        }) + words_after(s.drop_first(), seq![])
    } else {
        words_after(s.drop_first(), cur.push(s[0]))
    }
}

pub open spec fn words(s: Seq<char>) -> Seq<Seq<char>> {
    words_after(s, seq![])
}

pub fn split_exec(s: &[char], p: &[char]) -> (r: Vec<Vec<char>>)
    requires
        p@.len() > 0,
    ensures
        views(r@) == split(s@, p@),
{
    let mut r: Vec<Vec<char>> = Vec::new();
    let mut cur: Vec<char> = Vec::new();
    let mut i: usize = 0;
    assert(s@.skip(0) =~= s@);
    assert(views(r@) =~= Seq::<Seq<char>>::empty());
    while i < s.len()
        invariant
            i <= s.len(),
            p@.len() > 0,
            views(r@) + split_after(s@.skip(i as int), p@, cur@) == split(s@, p@),
        decreases s.len() - i,
    {
        let ghost rest = s@.skip(i as int);
        if matches_at(s, p, i) {
            assert(rest.subrange(0, p@.len() as int) =~= s@.subrange(i as int, i + p@.len()));
            assert(rest.skip(p@.len() as int) =~= s@.skip(i + p@.len()));
            let ghost before = views(r@);
            let ghost c = cur@;
            r.push(cur);
            assert(views(r@) =~= before + seq![c]);
            cur = Vec::new();
            i += p.len();
        } else {
            assert(!starts_with(rest, p@)) by {
                if starts_with(rest, p@) {
                    assert(rest.subrange(0, p@.len() as int) =~= s@.subrange(i as int, i + p@.len()));
                }
            }
            assert(rest.drop_first() =~= s@.skip(i + 1));
            cur.push(s[i]);
            i += 1;
        }
    }
    assert(s@.skip(i as int) =~= Seq::<char>::empty());
    let ghost before = views(r@);
    let ghost c = cur@;
    r.push(cur);
    assert(views(r@) =~= before + seq![c]);
    r
}

pub fn words_exec(s: &[char]) -> (r: Vec<Vec<char>>)
    ensures
        views(r@) == words(s@),
{
    let mut r: Vec<Vec<char>> = Vec::new();
    let mut cur: Vec<char> = Vec::new();
    let mut i: usize = 0;
    assert(s@.skip(0) =~= s@);
    assert(views(r@) =~= Seq::<Seq<char>>::empty());
    while i < s.len()
        invariant
            i <= s.len(),
            views(r@) + words_after(s@.skip(i as int), cur@) == words(s@),
        decreases s.len() - i,
    {
        let ghost rest = s@.skip(i as int);
        assert(rest.drop_first() =~= s@.skip(i + 1));
        assert(rest[0] == s@[i as int]);
        assert(rest.len() > 0);
        if is_ws_exec(s[i]) {
            assert(words_after(rest, cur@) == (if cur@.len() == 0 {
                Seq::<Seq<char>>::empty()
            } else {
                seq![cur@]
            }) + words_after(s@.skip(i + 1), seq![]));
            if cur.len() > 0 {
                let ghost before = views(r@);
                let ghost c = cur@;
                r.push(cur);
                assert(views(r@) =~= before + seq![c]);
                assert(before + seq![c] + words_after(s@.skip(i + 1), seq![]) =~= before + (seq![c]
                    + words_after(s@.skip(i + 1), seq![])));
                cur = Vec::new();
            } else {
                assert(cur@ =~= Seq::<char>::empty());
                assert(Seq::<Seq<char>>::empty() + words_after(s@.skip(i + 1), seq![])
                    =~= words_after(s@.skip(i + 1), seq![]));
            }
        } else {
            assert(words_after(rest, cur@) == words_after(s@.skip(i + 1), cur@.push(s@[i as int])));
            cur.push(s[i]);
        }
        i += 1;
    }
    assert(s@.skip(i as int) =~= Seq::<char>::empty());
    if cur.len() > 0 {
        let ghost before = views(r@);
        let ghost c = cur@;
        r.push(cur);
        assert(views(r@) =~= before + seq![c]);
    } else {
        assert(views(r@) + Seq::<Seq<char>>::empty() =~= views(r@));
    }
    r
}

/// Number of occurrences of `c` in `s`.
pub open spec fn count_char(s: Seq<char>, c: char) -> nat
    decreases s.len(),
{
    if s.len() == 0 {
        0
    } else {
        count_char(s.drop_last(), c) + if s.last() == c {
            1nat
        } else {
            0nat
        }
    }
}

pub fn count_char_exec(s: &[char], c: char) -> (n: usize)
    ensures
        n == count_char(s@, c),
{
    let mut n: usize = 0;
    let mut i: usize = 0;
    while i < s.len()
        invariant
            i <= s.len(),
            n == count_char(s@.take(i as int), c),
            n <= i,
        decreases s.len() - i,
    {
        assert(s@.take(i + 1).drop_last() =~= s@.take(i as int));
        if s[i] == c {
            n += 1;
        }
        i += 1;
    }
    assert(s@.take(i as int) =~= s@);
    n
}

} // verus!
