//! Plain text out of RTF: paragraph and tab controls, `\'xx` and `\uN`
//! characters, escaped braces, and skipped destination groups (font and
//! colour tables, pictures, document information…).
use vstd::prelude::*;
use vstd::string::StringSliceAdditionalSpecFns;
use crate::text::{char_from_u32, chars_of, slice_copy, starts_with, starts_with_at0, string_of, trim, trim_exec, trim_start, trim_start_exec, valid_scalar};

verus! {

broadcast use vstd::string::group_string_axioms;

/// Scanner state: position, brace depth, depth of the group being skipped,
/// fallback characters still to drop after `\uN`, and the text so far.
pub struct RtfState {
    pub i: nat,
    pub depth: nat,
    pub skip: Option<nat>,
    pub pending: nat,
    pub out: Seq<char>,
}

pub open spec fn is_alpha_b(b: u8) -> bool {
    (65 <= b <= 90) || (97 <= b <= 122)
}

pub open spec fn is_digit_b(b: u8) -> bool {
    48 <= b <= 57
}

/// A UTF-8 continuation byte (never the start of a character).
pub open spec fn is_cont_b(b: u8) -> bool {
    128 <= b < 192
}

pub open spec fn hex_digit(b: u8) -> Option<nat> {
    if 48 <= b <= 57 {
        Some((b - 48) as nat)
    } else if 97 <= b <= 102 {
        Some((b - 87) as nat)
    } else if 65 <= b <= 70 {
        Some((b - 55) as nat)
    } else {
        None
    }
}

/// `u8::from_str_radix` of the two characters, base 16 (a leading `+` is allowed).
pub open spec fn hex_pair(b1: u8, b2: u8) -> Option<u8> {
    match (hex_digit(b1), hex_digit(b2)) {
        (Some(h), Some(l)) => Some((16 * h + l) as u8),
        (None, Some(l)) => if b1 == 43 {
            Some(l as u8)
        } else {
            None
        },
        _ => None,
    }
}

/// First index `>= i` that is not an ASCII letter.
pub open spec fn alpha_end(b: Seq<u8>, i: int) -> int
    decreases b.len() - i,
{
    if i >= b.len() || i < 0 || !is_alpha_b(b[i]) {
        i
    } else {
        alpha_end(b, i + 1)
    }
}

/// First index `>= i` that is not an ASCII digit.
pub open spec fn digit_end(b: Seq<u8>, i: int) -> int
    decreases b.len() - i,
{
    if i >= b.len() || i < 0 || !is_digit_b(b[i]) {
        i
    } else {
        digit_end(b, i + 1)
    }
}

/// Decimal value of a run of ASCII digits.
pub open spec fn dec(d: Seq<u8>) -> nat
    decreases d.len(),
{
    if d.len() == 0 {
        0
    } else {
        10 * dec(d.drop_last()) + (d.last() - 48) as nat
    }
}

/// `str::parse::<i64>` of an optional `-` followed by digits.
pub open spec fn parse_i64(s: Seq<u8>) -> Option<int> {
    if s.len() == 0 {
        None
    } else if s[0] == 45 {
        if s.len() == 1 || dec(s.drop_first()) > 9223372036854775808 {
            None
        } else {
            Some(-(dec(s.drop_first()) as int))
        }
    } else if dec(s) > 9223372036854775807 {
        None
    } else {
        Some(dec(s) as int)
    }
}

pub open spec fn bytes_chars(s: Seq<u8>) -> Seq<char> {
    s.map_values(|b: u8| b as char)
}

/// Destination groups whose content is not text.
pub open spec fn is_skip_dest(w: Seq<char>) -> bool {
    ||| w == "fonttbl"@
    ||| w == "colortbl"@
    ||| w == "stylesheet"@
    ||| w == "info"@
    ||| w == "pict"@
    ||| w == "object"@
    ||| w == "header"@
    ||| w == "footer"@
    ||| w == "themedata"@
    ||| w == "colorschememapping"@
    ||| w == "datastore"@
    ||| w == "latentstyles"@
    ||| w == "listtable"@
    ||| w == "listoverridetable"@
    ||| w == "generator"@
}

/// Character written for a control word, if any (other than `\u`).
pub open spec fn word_char(w: Seq<char>) -> Option<char> {
    if w == "par"@ || w == "line"@ || w == "sect"@ || w == "page"@ {
        Some('\n')
    } else if w == "tab"@ {
        Some('\t')
    } else if w == "emdash"@ {
        Some('\u{2014}')
    } else if w == "endash"@ {
        Some('\u{2013}')
    } else if w == "lquote"@ {
        Some('\u{2018}')
    } else if w == "rquote"@ {
        Some('\u{2019}')
    } else if w == "ldblquote"@ {
        Some('\u{201C}')
    } else if w == "rdblquote"@ {
        Some('\u{201D}')
    } else {
        None
    }
}


/// Code point named by `\uN` (negative values count from 65536), as `u32`.
pub open spec fn u_code(n: int) -> u32 {
    if n < 0 {
        (n + 65536) as u32
    } else {
        n as u32
    }
}

/// Outputs `c` unless a group is being skipped or a `\uN` fallback is due.
pub open spec fn emit(s: RtfState, c: char, i: nat) -> RtfState {
    if s.skip is Some {
        RtfState { i, ..s }
    } else if s.pending > 0 {
        RtfState { i, pending: (s.pending - 1) as nat, ..s }
    } else {
        RtfState { i, out: s.out.push(c), ..s }
    }
}

/// State after a control word `w` whose parameter is `param`, resuming at `after`.
pub open spec fn control_word(s: RtfState, w: Seq<char>, param: Option<int>, after: nat) -> RtfState {
    if is_skip_dest(w) && s.skip is None {
        RtfState { i: after, skip: Some(s.depth), ..s }
    } else if s.skip is Some {
        RtfState { i: after, ..s }
    } else if w == "u"@ {
        match param {
            Some(n) => {
                let code = u_code(n);
                let out = if valid_scalar(code) {
                    s.out.push(code as char)
                } else {
                    s.out
                };
                RtfState { i: after, out, pending: 1, ..s }
            },
            None => RtfState { i: after, ..s },
        }
    } else {
        match word_char(w) {
            Some(c) => RtfState { i: after, out: s.out.push(c), ..s },
            None => RtfState { i: after, ..s },
        }
    }
}

/// One scanning step from `s` (with `s.i < b.len()`); `None` where reading a
/// `\'xx` escape would cut a UTF-8 character in two.
pub open spec fn rtf_step(b: Seq<u8>, s: RtfState) -> Option<RtfState> {
    let n = b.len();
    let i = s.i as int;
    let c = b[i];
    if c == 123 {
        Some(RtfState { i: s.i + 1, depth: s.depth + 1, ..s })
    } else if c == 125 {
        let d: nat = if s.depth > 0 {
            (s.depth - 1) as nat
        } else {
            0
        };
        let skip = match s.skip {
            Some(k) => if d < k {
                None
            } else {
                Some(k)
            },
            None => None,
        };
        Some(RtfState { i: s.i + 1, depth: d, skip, ..s })
    } else if c == 92 {
        let j = i + 1;
        if j >= n {
            Some(RtfState { i: n, ..s })
        } else {
            let nx = b[j];
            if nx == 39 {
                if j + 2 < n {
                    if j + 3 < n && is_cont_b(b[j + 3]) {
                        None
                    } else {
                        match hex_pair(b[j + 1], b[j + 2]) {
                            Some(v) => Some(emit(s, v as char, (j + 3) as nat)),
                            None => Some(RtfState { i: (j + 3) as nat, ..s }),
                        }
                    }
                } else {
                    Some(RtfState { i: (j + 1) as nat, ..s })
                }
            } else if nx == 92 || nx == 123 || nx == 125 {
                let out = if s.skip is None {
                    s.out.push(nx as char)
                } else {
                    s.out
                };
                Some(RtfState { i: (j + 1) as nat, out, ..s })
            } else if nx == 42 {
                let skip = if s.skip is None {
                    Some(s.depth)
                } else {
                    s.skip
                };
                Some(RtfState { i: (j + 1) as nat, skip, ..s })
            } else if is_alpha_b(nx) {
                let we = alpha_end(b, j);
                let ds = if we < n && b[we] == 45 {
                    we + 1
                } else {
                    we
                };
                let de = digit_end(b, ds);
                let param = parse_i64(b.subrange(we, de));
                let after = if de < n && b[de] == 32 {
                    de + 1
                } else {
                    de
                };
                Some(control_word(s, bytes_chars(b.subrange(j, we)), param, after as nat))
            } else {
                Some(RtfState { i: (j + 1) as nat, ..s })
            }
        }
    } else if c == 13 || c == 10 {
        Some(RtfState { i: s.i + 1, ..s })
    } else {
        Some(emit(s, c as char, s.i + 1))
    }
}

pub proof fn lemma_alpha_end(b: Seq<u8>, i: int)
    requires
        0 <= i <= b.len(),
    ensures
        i <= alpha_end(b, i) <= b.len(),
        forall|k: int| i <= k < alpha_end(b, i) ==> is_alpha_b(b[k]),
        alpha_end(b, i) < b.len() ==> !is_alpha_b(b[alpha_end(b, i)]),
    decreases b.len() - i,
{
    if i < b.len() && is_alpha_b(b[i]) {
        lemma_alpha_end(b, i + 1);
    }
}

pub proof fn lemma_digit_end(b: Seq<u8>, i: int)
    requires
        0 <= i <= b.len(),
    ensures
        i <= digit_end(b, i) <= b.len(),
        forall|k: int| i <= k < digit_end(b, i) ==> is_digit_b(b[k]),
        digit_end(b, i) < b.len() ==> !is_digit_b(b[digit_end(b, i)]),
    decreases b.len() - i,
{
    if i < b.len() && is_digit_b(b[i]) {
        lemma_digit_end(b, i + 1);
    }
}

/// The bytes at `j` spell the control word `w`, which ends there (end of
/// input or a byte that is not a letter).
pub open spec fn word_at(b: Seq<u8>, j: int, w: Seq<char>) -> bool {
    &&& 0 <= j
    &&& j + w.len() <= b.len()
    &&& bytes_chars(b.subrange(j, j + w.len())) == w
    &&& (j + w.len() == b.len() || !is_alpha_b(b[j + w.len()]))
}

/// A control word made of ASCII letters is read whole: the scan that reads
/// it stops right after it.
proof fn lemma_word_read(b: Seq<u8>, j: int, w: Seq<char>)
    requires
        word_at(b, j, w),
        forall|k: int| 0 <= k < w.len() ==> ('a' <= #[trigger] w[k] <= 'z'),
    ensures
        alpha_end(b, j) == j + w.len(),
        bytes_chars(b.subrange(j, alpha_end(b, j))) == w,
{
    assert forall|k: int| j <= k < j + w.len() implies is_alpha_b(#[trigger] b[k]) by {
        assert(bytes_chars(b.subrange(j, j + w.len()))[k - j] == b[k] as char);
        assert('a' <= w[k - j] <= 'z');
    }
    lemma_alpha_end(b, j);
    let ae = alpha_end(b, j);
    if ae < j + w.len() {
        assert(is_alpha_b(b[ae]));
    }
    if ae > j + w.len() {
        assert(is_alpha_b(b[j + w.len()]));
    }
}

/// Outside skipped groups, each of the control words `\par`, `\line`,
/// `\sect` and `\page` adds exactly one line break to the text, and `\tab`
/// one tab; the scan moves past the word and keeps its depth.
pub proof fn lemma_break_words(b: Seq<u8>, s: RtfState, w: Seq<char>)
    requires
        w == "par"@ || w == "line"@ || w == "sect"@ || w == "page"@ || w == "tab"@,
        s.skip is None,
        s.i < b.len(),
        b[s.i as int] == 92,
        word_at(b, s.i + 1int, w),
    ensures
        rtf_step(b, s) matches Some(t) && t.out == s.out.push(if w == "tab"@ {
            '\t'
        } else {
            '\n'
        }) && t.depth == s.depth && t.skip is None && t.pending == s.pending && s.i + w.len() < t.i,
{
    reveal_strlit("par");
    reveal_strlit("line");
    reveal_strlit("sect");
    reveal_strlit("page");
    reveal_strlit("tab");
    reveal_strlit("u");
    reveal_strlit("fonttbl");
    reveal_strlit("colortbl");
    reveal_strlit("stylesheet");
    reveal_strlit("info");
    reveal_strlit("pict");
    reveal_strlit("object");
    reveal_strlit("header");
    reveal_strlit("footer");
    reveal_strlit("themedata");
    reveal_strlit("colorschememapping");
    reveal_strlit("datastore");
    reveal_strlit("latentstyles");
    reveal_strlit("listtable");
    reveal_strlit("listoverridetable");
    reveal_strlit("generator");
    let j: int = s.i + 1int;
    assert(forall|k: int| 0 <= k < w.len() ==> ('a' <= #[trigger] w[k] <= 'z'));
    lemma_word_read(b, j as int, w);
    let bw = bytes_chars(b.subrange(j as int, alpha_end(b, j as int)));
    assert(bw == w);
    assert(w[0] == 'p' || w[0] == 'l' || w[0] == 's' || w[0] == 't');
    assert(b[j as int] as char == w[0]) by {
        assert(bytes_chars(b.subrange(j, j + w.len()))[0] == b[j as int] as char);
    }
    assert(is_alpha_b(b[j as int]));
    assert(w.len() == 3 || w.len() == 4);
    assert(w != "info"@ && w != "pict"@) by {
        if w == "info"@ || w == "pict"@ {
            assert(w[0] == 'i' || w[0] == 'p');
            assert(w[1] == 'n' || w[1] == 'i');
            if w == "par"@ || w == "page"@ {
                assert(w[1] == 'a');
            } else if w == "line"@ {
                assert(w[0] == 'l');
            } else if w == "sect"@ {
                assert(w[0] == 's');
            } else {
                assert(w[0] == 't');
            }
        }
    }
    assert(!is_skip_dest(w));
    assert(w != "u"@);
    let we = alpha_end(b, j as int);
    let ds = if we < b.len() && b[we] == 45 {
        we + 1
    } else {
        we
    };
    lemma_digit_end(b, ds);
}

/// Each step moves forward.
pub proof fn lemma_step_advances(b: Seq<u8>, s: RtfState)
    requires
        s.i < b.len(),
    ensures
        rtf_step(b, s) matches Some(t) ==> s.i < t.i <= b.len(),
{
    let j = s.i + 1;
    if j < b.len() {
        lemma_alpha_end(b, j as int);
        let we = alpha_end(b, j as int);
        let ds = if we < b.len() && b[we] == 45 {
            we + 1
        } else {
            we
        };
        lemma_digit_end(b, ds);
    }
}

/// Text left by scanning from `s` to the end; `None` if some step fails.
pub open spec fn rtf_run(b: Seq<u8>, s: RtfState) -> Option<Seq<char>>
    decreases b.len() - s.i,
{
    if s.i >= b.len() {
        Some(s.out)
    } else {
        match rtf_step(b, s) {
            None => None,
            Some(t) => {
                proof {
                    lemma_step_advances(b, s);
                }
                if t.i <= s.i {
                    None
                } else {
                    rtf_run(b, t)
                }
            },
        }
    }
}

pub open spec fn rtf_start() -> RtfState {
    RtfState { i: 0, depth: 0, skip: None, pending: 0, out: seq![] }
}

/// The input starts (after leading whitespace) with the `{\rtf` header.
pub open spec fn has_rtf_header(raw: Seq<char>) -> bool {
    starts_with(trim_start(raw), "{\\rtf"@)
}

/// Extracting the text of this document reads no `\'xx` escape across a
/// multi-byte character.
pub open spec fn rtf_readable(raw: &str) -> bool {
    rtf_run(raw.spec_bytes(), rtf_start()) is Some
}

/// The text of an RTF document: scan, then trim.
pub open spec fn rtf_text(raw: &str) -> Seq<char> {
    trim(rtf_run(raw.spec_bytes(), rtf_start()).unwrap())
}

/// Error of the RTF reader.
#[derive(Debug, PartialEq, Eq, Structural)]
pub enum RtfError {
    /// The `{\rtf` header is missing.
    MissingHeader,
}

impl RtfError {
    /// The message shown for the error.
    pub fn message(&self) -> (r: String)
        ensures
            r@ == "Fichier RTF invalide (en-tête absent)"@,
    {
        String::from_str("Fichier RTF invalide (en-tête absent)")
    }
}

// ── Execution ────────────────────────────────────────────────────────────────


struct Scan {
    i: usize,
    depth: usize,
    skip: Option<usize>,
    pending: usize,
    out: Vec<char>,
}

impl Scan {
    spec fn state(&self) -> RtfState {
        RtfState {
            i: self.i as nat,
            depth: self.depth as nat,
            skip: match self.skip {
                Some(k) => Some(k as nat),
                None => None,
            },
            pending: self.pending as nat,
            out: self.out@,
        }
    }
}

fn hex_digit_exec(b: u8) -> (r: Option<u8>)
    ensures
        match r {
            Some(v) => hex_digit(b) == Some(v as nat),
            None => hex_digit(b) is None,
        },
{
    if 48 <= b && b <= 57 {
        Some(b - 48)
    } else if 97 <= b && b <= 102 {
        Some(b - 87)
    } else if 65 <= b && b <= 70 {
        Some(b - 55)
    } else {
        None
    }
}

fn hex_pair_exec(b1: u8, b2: u8) -> (r: Option<u8>)
    ensures
        r == hex_pair(b1, b2),
{
    match (hex_digit_exec(b1), hex_digit_exec(b2)) {
        (Some(h), Some(l)) => Some(16 * h + l),
        (None, Some(l)) => if b1 == 43 {
            Some(l)
        } else {
            None
        },
        _ => None,
    }
}

proof fn lemma_dec_mono(d: Seq<u8>, k: int)
    requires
        0 <= k <= d.len(),
        forall|j: int| 0 <= j < d.len() ==> is_digit_b(d[j]),
    ensures
        dec(d.take(k)) <= dec(d),
    decreases d.len() - k,
{
    if k < d.len() {
        assert(d.drop_last().take(k) =~= d.take(k));
        lemma_dec_mono(d.drop_last(), k);
    } else {
        assert(d.take(k) =~= d);
    }
}

/// Value of the digit run `b[a..e]`, or `None` once it exceeds `limit`.
fn dec_capped(b: &[u8], a: usize, e: usize, limit: u64) -> (r: Option<u64>)
    requires
        a <= e <= b@.len(),
        forall|k: int| a <= k < e ==> is_digit_b(b@[k]),
        9 <= limit <= 9223372036854775808,
    ensures
        match r {
            Some(v) => v == dec(b@.subrange(a as int, e as int)) && v <= limit,
            None => dec(b@.subrange(a as int, e as int)) > limit,
        },
{
    let ghost d = b@.subrange(a as int, e as int);
    let mut v: u64 = 0;
    let mut k = a;
    while k < e
        invariant
            a <= k <= e <= b@.len(),
            d == b@.subrange(a as int, e as int),
            forall|j: int| a <= j < e ==> is_digit_b(b@[j]),
            v == dec(d.take(k - a)),
            v <= limit,
            9 <= limit <= 9223372036854775808,
        decreases e - k,
    {
        assert(d.take(k - a + 1).drop_last() =~= d.take(k - a));
        let digit = (b[k] - 48) as u64;
        assert(digit <= 9);
        assert(dec(d.take(k - a + 1)) == 10 * v + digit);
        assert(v > (limit - digit) / 10 <==> 10 * v + digit > limit) by (nonlinear_arith)
            requires
                digit <= 9,
                digit <= limit,
        ;
        if v > (limit - digit) / 10 {
            proof {
                assert(dec(d.take(k - a + 1)) > limit);
                lemma_dec_mono(d, k - a + 1);
            }
            return None;
        }
        v = 10 * v + digit;
        k += 1;
    }
    assert(d.take(e - a) =~= d);
    Some(v)
}

/// `str::parse::<i64>` of `b[a..e]` (an optional `-`, then digits).
fn parse_i64_exec(b: &[u8], a: usize, e: usize) -> (r: Option<i64>)
    requires
        a <= e <= b@.len(),
        a < e && b@[a as int] == 45 ==> forall|k: int| a < k < e ==> is_digit_b(b@[k]),
        !(a < e && b@[a as int] == 45) ==> forall|k: int| a <= k < e ==> is_digit_b(b@[k]),
    ensures
        match r {
            Some(v) => parse_i64(b@.subrange(a as int, e as int)) == Some(v as int),
            None => parse_i64(b@.subrange(a as int, e as int)) is None,
        },
{
    let ghost s = b@.subrange(a as int, e as int);
    if a == e {
        return None;
    }
    if b[a] == 45 {
        if e == a + 1 {
            return None;
        }
        assert(s.drop_first() =~= b@.subrange(a + 1, e as int));
        match dec_capped(b, a + 1, e, 9223372036854775808) {
            None => None,
            Some(v) => {
                if v == 9223372036854775808 {
                    Some(-9223372036854775807i64 - 1)
                } else {
                    Some(-(v as i64))
                }
            },
        }
    } else {
        match dec_capped(b, a, e, 9223372036854775807) {
            None => None,
            Some(v) => Some(v as i64),
        }
    }
}

fn is_word(w: &[char], lit: &str) -> (r: bool)
    ensures
        r == (w@ == lit@),
{
    crate::text::is_lit(w, lit)
}

fn is_skip_dest_exec(w: &[char]) -> (r: bool)
    ensures
        r == is_skip_dest(w@),
{
    is_word(w, "fonttbl") || is_word(w, "colortbl") || is_word(w, "stylesheet") || is_word(
        w,
        "info",
    ) || is_word(w, "pict") || is_word(w, "object") || is_word(w, "header") || is_word(
        w,
        "footer",
    ) || is_word(w, "themedata") || is_word(w, "colorschememapping") || is_word(
        w,
        "datastore",
    ) || is_word(w, "latentstyles") || is_word(w, "listtable") || is_word(
        w,
        "listoverridetable",
    ) || is_word(w, "generator")
}

fn word_char_exec(w: &[char]) -> (r: Option<char>)
    ensures
        r == word_char(w@),
{
    if is_word(w, "par") || is_word(w, "line") || is_word(w, "sect") || is_word(w, "page") {
        Some('\n')
    } else if is_word(w, "tab") {
        Some('\t')
    } else if is_word(w, "emdash") {
        Some('\u{2014}')
    } else if is_word(w, "endash") {
        Some('\u{2013}')
    } else if is_word(w, "lquote") {
        Some('\u{2018}')
    } else if is_word(w, "rquote") {
        Some('\u{2019}')
    } else if is_word(w, "ldblquote") {
        Some('\u{201C}')
    } else if is_word(w, "rdblquote") {
        Some('\u{201D}')
    } else {
        None
    }
}

fn emit_exec(s: &mut Scan, c: char, i: usize)
    ensures
        final(s).state() == emit(old(s).state(), c, i as nat),
{
    if s.skip.is_some() {
    } else if s.pending > 0 {
        s.pending = s.pending - 1;
    } else {
        s.out.push(c);
    }
    s.i = i;
}

fn latin1(b: u8) -> (c: char)
    ensures
        c == b as char,
{
    b as char
}

fn step_exec(b: &[u8], s: &mut Scan) -> (ok: bool)
    requires
        old(s).i < b@.len(),
        old(s).depth <= old(s).i,
    ensures
        ok == (rtf_step(b@, old(s).state()) is Some),
        ok ==> rtf_step(b@, old(s).state()) == Some(final(s).state()),
        ok ==> final(s).depth <= final(s).i,
{
    let n = b.len();
    let i = s.i;
    let c = b[i];
    if c == 123 {
        s.i = i + 1;
        s.depth = s.depth + 1;
        return true;
    } else if c == 125 {
        let d = if s.depth > 0 {
            s.depth - 1
        } else {
            0
        };
        s.depth = d;
        if let Some(k) = s.skip {
            if d < k {
                s.skip = None;
            }
        }
        s.i = i + 1;
        return true;
    } else if c == 92 {
        let j = i + 1;
        if j >= n {
            s.i = n;
            return true;
        }
        let nx = b[j];
        if nx == 39 {
            if n - j > 2 {
                if n - j > 3 && 128 <= b[j + 3] && b[j + 3] < 192 {
                    return false;
                }
                match hex_pair_exec(b[j + 1], b[j + 2]) {
                    Some(v) => {
                        let ch = latin1(v);
                        emit_exec(s, ch, j + 3);
                    },
                    None => {
                        s.i = j + 3;
                    },
                }
            } else {
                s.i = j + 1;
            }
            return true;
        } else if nx == 92 || nx == 123 || nx == 125 {
            if s.skip.is_none() {
                s.out.push(latin1(nx));
            }
            s.i = j + 1;
            return true;
        } else if nx == 42 {
            if s.skip.is_none() {
                s.skip = Some(s.depth);
            }
            s.i = j + 1;
            return true;
        } else if (65 <= nx && nx <= 90) || (97 <= nx && nx <= 122) {
            let mut we = j;
            while we < n && ((65 <= b[we] && b[we] <= 90) || (97 <= b[we] && b[we] <= 122))
                invariant
                    j <= we <= n,
                    n == b@.len(),
                    alpha_end(b@, j as int) == alpha_end(b@, we as int),
                    forall|k: int| j <= k < we ==> is_alpha_b(b@[k]),
                decreases n - we,
            {
                we += 1;
            }
            let ds = if we < n && b[we] == 45 {
                we + 1
            } else {
                we
            };
            let mut de = ds;
            while de < n && 48 <= b[de] && b[de] <= 57
                invariant
                    ds <= de <= n,
                    n == b@.len(),
                    digit_end(b@, ds as int) == digit_end(b@, de as int),
                    forall|k: int| ds <= k < de ==> is_digit_b(b@[k]),
                decreases n - de,
            {
                de += 1;
            }
            let param = parse_i64_exec(b, we, de);
            let after = if de < n && b[de] == 32 {
                de + 1
            } else {
                de
            };
            let mut w: Vec<char> = Vec::new();
            let mut k = j;
            while k < we
                invariant
                    j <= k <= we <= n,
                    n == b@.len(),
                    w@ =~= bytes_chars(b@.subrange(j as int, k as int)),
                decreases we - k,
            {
                w.push(latin1(b[k]));
                k += 1;
            }
            let ghost pv: Option<int> = match param {
                Some(v) => Some(v as int),
                None => None,
            };
            assert(pv == parse_i64(b@.subrange(we as int, de as int)));
            if is_skip_dest_exec(w.as_slice()) && s.skip.is_none() {
                s.skip = Some(s.depth);
            } else if s.skip.is_some() {
            } else if is_word(w.as_slice(), "u") {
                if let Some(pn) = param {
                    let code: u32 = if pn < 0 {
                        #[verifier::truncate] ((pn + 65536) as u32)
                    } else {
                        #[verifier::truncate] (pn as u32)
                    };
                    assert(code == u_code(pn as int));
                    if let Some(ch) = char_from_u32(code) {
                        s.out.push(ch);
                    }
                    s.pending = 1;
                }
            } else {
                if let Some(ch) = word_char_exec(w.as_slice()) {
                    s.out.push(ch);
                }
            }
            s.i = after;
            return true;
        } else {
            s.i = j + 1;
            return true;
        }
    } else if c == 13 || c == 10 {
        s.i = i + 1;
        return true;
    } else {
        let ch = latin1(c);
        emit_exec(s, ch, i + 1);
        return true;
    }
}

/// Runs the scanner over the bytes of `raw`; `None` where a step fails.
fn scan_all(raw: &str) -> (r: Option<Vec<char>>)
    ensures
        match r {
            Some(out) => rtf_run(raw.spec_bytes(), rtf_start()) == Some(out@),
            None => rtf_run(raw.spec_bytes(), rtf_start()) is None,
        },
{
    let b = raw.as_bytes();
    let mut s = Scan { i: 0, depth: 0, skip: None, pending: 0, out: Vec::new() };
    assert(s.state() == rtf_start());
    while s.i < b.len()
        invariant
            s.depth <= s.i,
            b@ == raw.spec_bytes(),
            rtf_run(b@, s.state()) == rtf_run(b@, rtf_start()),
        decreases b.len() - s.i,
    {
        let ghost before = s.state();
        proof {
            lemma_step_advances(b@, before);
        }
        let ok = step_exec(b, &mut s);
        if !ok {
            proof {
                assert(rtf_run(b@, before) is None);
                assert(rtf_run(raw.spec_bytes(), rtf_start()) is None);
            }
            return None;
        }
    }
    Some(s.out)
}

/// Whether the text of `raw` can be extracted: it lacks the `{\rtf` header
/// (and is refused), or no `\'xx` escape is read across a multi-byte
/// character.
pub fn rtf_is_readable(raw: &str) -> (b: bool)
    ensures
        b == (has_rtf_header(raw@) ==> rtf_readable(raw)),
{
    let chars = chars_of(raw);
    let ts = trim_start_exec(chars.as_slice());
    let head = chars_of("{\\rtf");
    if !starts_with_at0(ts.as_slice(), head.as_slice()) {
        return true;
    }
    scan_all(raw).is_some()
}

/// Text of an RTF document (`raw`): the `{\rtf` header is required; control
/// words are interpreted, destination groups skipped, and the result trimmed.
pub fn rtf_to_text(raw: &str) -> (r: Result<String, RtfError>)
    requires
        has_rtf_header(raw@) ==> rtf_readable(raw),
    ensures
        match r {
            Ok(t) => has_rtf_header(raw@) && t@ == rtf_text(raw),
            Err(e) => !has_rtf_header(raw@) && e == RtfError::MissingHeader,
        },
{
    let chars = chars_of(raw);
    let ts = trim_start_exec(chars.as_slice());
    let head = chars_of("{\\rtf");
    if !starts_with_at0(ts.as_slice(), head.as_slice()) {
        return Err(RtfError::MissingHeader);
    }
    match scan_all(raw) {
        Some(out) => {
            let t = trim_exec(out.as_slice());
            Ok(string_of(t.as_slice()))
        },
        None => Err(RtfError::MissingHeader),
    }
}

} // verus!
