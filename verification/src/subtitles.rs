//! Subtitle conversions (SRT ↔ WebVTT, dialogue-only text) and the permanent
//! watermark cue added to a subtitle file.
use vstd::prelude::*;
use crate::text::{
    ends_with, find, find_exec, idx, trim_end, trim_end_exec, trim_start, trim_start_exec,
    all_digits, all_digits_exec, chars_of, contains, contains_exec, count_char, count_char_exec,
    dec_str, dec_string, is_lit, join, join_exec, lines, lines_exec, matches_at, parse_u64,
    parse_u64_exec, push_all, push_str, replace_all, replace_all_exec, slice_copy, split,
    split_exec, starts_with, starts_with_at0, string_of, trim, trim_exec, views, words,
    words_exec,
};

verus! {

broadcast use vstd::string::group_string_axioms;

/// A line carrying a cue timing (`-->`).
pub open spec fn is_timestamp_line(l: Seq<char>) -> bool {
    contains(l, "-->"@)
}

pub fn is_timestamp_line_exec(l: &[char]) -> (b: bool)
    ensures
        b == is_timestamp_line(l@),
{
    let arrow = chars_of("-->");
    contains_exec(l, arrow.as_slice())
}

// ── SRT → WebVTT ─────────────────────────────────────────────────────────────

/// What one SRT line becomes in WebVTT: timings use `.`, cue counters go.
pub open spec fn srt_line(l: Seq<char>) -> Seq<char> {
    if is_timestamp_line(l) {
        replace_all(l, ","@, "."@) + "\n"@
    } else if all_digits(trim(l)) && trim(l).len() > 0 {
        seq![]
    } else {
        l + "\n"@
    }
}

pub open spec fn srt_lines(ls: Seq<Seq<char>>) -> Seq<char>
    decreases ls.len(),
{
    if ls.len() == 0 {
        seq![]
    } else {
        srt_lines(ls.drop_last()) + srt_line(ls.last())
    }
}

/// Every `,` of a text turned into `.`, each other character kept in place.
proof fn lemma_commas_to_dots(s: Seq<char>)
    ensures
        replace_all(s, ","@, "."@).len() == s.len(),
        forall|k: int| 0 <= k < s.len() ==> #[trigger] replace_all(s, ","@, "."@)[k] == (if s[k] == ',' {
            '.'
        } else {
            s[k]
        }),
    decreases s.len(),
{
    reveal_strlit(",");
    reveal_strlit(".");
    if s.len() > 0 {
        let r = replace_all(s, ","@, "."@);
        let rest = replace_all(s.drop_first(), ","@, "."@);
        lemma_commas_to_dots(s.drop_first());
        if starts_with(s, ","@) {
            assert(s.subrange(0, 1)[0] == s[0]);
            assert(s.skip(1) =~= s.drop_first());
            assert(r == "."@ + rest);
        } else {
            assert(s[0] != ',') by {
                if s[0] == ',' {
                    assert(s.subrange(0, 1) =~= ","@);
                }
            }
            assert(r == seq![s[0]] + rest);
        }
        assert forall|k: int| 0 <= k < s.len() implies #[trigger] r[k] == (if s[k] == ',' {
            '.'
        } else {
            s[k]
        }) by {
            if k > 0 {
                assert(r[k] == rest[k - 1]);
                assert(s.drop_first()[k - 1] == s[k]);
            }
        }
    }
}

/// A dialogue line of an SRT file (no `-->` timing, not a cue counter) is
/// copied to WebVTT unchanged, followed by a line break.
pub proof fn lemma_srt_dialogue_kept(l: Seq<char>)
    requires
        !contains(l, "-->"@),
        !(all_digits(trim(l)) && trim(l).len() > 0),
    ensures
        srt_line(l) == l + "\n"@,
{
}

/// A cue counter (digits only, once trimmed) is dropped from the WebVTT.
pub proof fn lemma_srt_counter_dropped(l: Seq<char>)
    requires
        !contains(l, "-->"@),
        all_digits(trim(l)),
        trim(l).len() > 0,
    ensures
        srt_line(l).len() == 0,
{
}

/// A timing line keeps every character in place but for `,`, which becomes
/// the `.` that WebVTT uses before milliseconds; a line break ends it.
pub proof fn lemma_srt_timing_dots(l: Seq<char>)
    requires
        contains(l, "-->"@),
    ensures
        srt_line(l).len() == l.len() + 1,
        srt_line(l)[l.len() as int] == '\n',
        forall|k: int| 0 <= k < l.len() ==> #[trigger] srt_line(l)[k] == (if l[k] == ',' {
            '.'
        } else {
            l[k]
        }),
{
    reveal_strlit("\n");
    lemma_commas_to_dots(l);
    let r = replace_all(l, ","@, "."@);
    assert(srt_line(l) == r + "\n"@);
    assert forall|k: int| 0 <= k < l.len() implies #[trigger] srt_line(l)[k] == (if l[k] == ',' {
        '.'
    } else {
        l[k]
    }) by {
        assert(srt_line(l)[k] == r[k]);
    }
}

/// Lines are converted one by one, in order: the WebVTT body of two runs
/// of lines one after the other is the body of the first followed by the
/// body of the second.
pub proof fn lemma_srt_lines_concat(a: Seq<Seq<char>>, b: Seq<Seq<char>>)
    ensures
        srt_lines(a + b) == srt_lines(a) + srt_lines(b),
    decreases b.len(),
{
    if b.len() == 0 {
        assert(a + b =~= a);
        assert(srt_lines(a) + srt_lines(b) =~= srt_lines(a));
    } else {
        lemma_srt_lines_concat(a, b.drop_last());
        assert((a + b).drop_last() =~= a + b.drop_last());
        assert((a + b).last() == b.last());
        assert(srt_lines(a) + srt_lines(b.drop_last()) + srt_line(b.last()) =~= srt_lines(a) + (srt_lines(
            b.drop_last(),
        ) + srt_line(b.last())));
    }
}

pub open spec fn srt_to_vtt_spec(raw: Seq<char>) -> Seq<char> {
    "WEBVTT\n\n"@ + srt_lines(lines(raw))
}

/// SRT text converted to WebVTT.
pub fn srt_to_vtt(raw: &str) -> (r: String)
    ensures
        r@ == srt_to_vtt_spec(raw@),
{
    let src = chars_of(raw);
    let ls = lines_exec(src.as_slice());
    let mut out = chars_of("WEBVTT\n\n");
    let comma = chars_of(",");
    let dot = chars_of(".");
    let mut i: usize = 0;
    while i < ls.len()
        invariant
            i <= ls.len(),
            comma@ == ","@,
            dot@ == "."@,
            out@ == "WEBVTT\n\n"@ + srt_lines(views(ls@).take(i as int)),
        decreases ls.len() - i,
    {
        let l = ls[i].as_slice();
        assert(views(ls@).take(i + 1).drop_last() =~= views(ls@).take(i as int));
        assert(views(ls@).take(i + 1).last() == l@);
        if is_timestamp_line_exec(l) {
            let fixed = replace_all_exec(l, comma.as_slice(), dot.as_slice());
            push_all(&mut out, fixed.as_slice());
            push_str(&mut out, "\n");
        } else {
            let t = trim_exec(l);
            if all_digits_exec(t.as_slice()) && t.len() > 0 {
            } else {
                push_all(&mut out, l);
                push_str(&mut out, "\n");
            }
        }
        i += 1;
    }
    assert(views(ls@).take(i as int) =~= views(ls@));
    string_of(out.as_slice())
}

// ── WebVTT → SRT ─────────────────────────────────────────────────────────────

/// A timing piece in SRT form: `,` for `.`, and an hour added to `MM:SS.mmm`.
pub open spec fn srt_time(t: Seq<char>) -> Seq<char> {
    let t2 = replace_all(t, "."@, ","@);
    if count_char(t2, ':') == 1 {
        "00:"@ + t2
    } else {
        t2
    }
}

pub open spec fn map_srt_time(ps: Seq<Seq<char>>) -> Seq<Seq<char>> {
    ps.map_values(|t: Seq<char>| srt_time(t))
}

pub open spec fn take3(ws: Seq<Seq<char>>) -> Seq<Seq<char>> {
    if ws.len() <= 3 {
        ws
    } else {
        ws.take(3)
    }
}

/// A WebVTT timing line in SRT form: cue settings dropped, times rewritten.
pub open spec fn srt_timing(trimmed: Seq<char>) -> Seq<char> {
    let ts = join(take3(words(trimmed)), " "@);
    join(map_srt_time(split(ts, " --> "@)), " --> "@)
}

pub struct VttState {
    pub out: Seq<char>,
    pub counter: nat,
    pub in_note: bool,
}

pub open spec fn vtt_step(st: VttState, line: Seq<char>) -> VttState {
    let t = trim(line);
    if starts_with(t, "WEBVTT"@) || starts_with(t, "STYLE"@) || starts_with(t, "REGION"@)
        || starts_with(t, "NOTE"@) {
        VttState { in_note: true, ..st }
    } else if t.len() == 0 {
        VttState {
            out: if !st.in_note && st.counter > 0 {
                st.out + "\n"@
            } else {
                st.out
            },
            in_note: false,
            ..st
        }
    } else if st.in_note {
        st
    } else if is_timestamp_line(t) {
        let c = st.counter + 1;
        VttState { out: st.out + dec_str(c) + "\n"@ + srt_timing(t) + "\n"@, counter: c, ..st }
    } else if st.counter > 0 {
        VttState { out: st.out + line + "\n"@, ..st }
    } else {
        st
    }
}

pub open spec fn vtt_fold(ls: Seq<Seq<char>>) -> VttState
    decreases ls.len(),
{
    if ls.len() == 0 {
        VttState { out: seq![], counter: 0, in_note: false }
    } else {
        vtt_step(vtt_fold(ls.drop_last()), ls.last())
    }
}

pub proof fn lemma_vtt_counter(ls: Seq<Seq<char>>)
    ensures
        vtt_fold(ls).counter <= ls.len(),
    decreases ls.len(),
{
    if ls.len() > 0 {
        lemma_vtt_counter(ls.drop_last());
    }
}

pub open spec fn vtt_to_srt_spec(raw: Seq<char>) -> Seq<char> {
    vtt_fold(lines(raw)).out
}

fn srt_timing_exec(t: &[char]) -> (r: Vec<char>)
    ensures
        r@ == srt_timing(t@),
{
    let ws = words_exec(t);
    let mut w3: Vec<Vec<char>> = Vec::new();
    let mut k: usize = 0;
    while k < ws.len() && k < 3
        invariant
            k <= ws.len(),
            k <= 3,
            views(w3@) =~= views(ws@).take(k as int),
        decreases ws.len() - k,
    {
        let ghost before = views(w3@);
        let item = slice_copy(ws[k].as_slice(), 0, ws[k].len());
        assert(item@ =~= ws@[k as int]@);
        w3.push(item);
        assert(views(w3@) =~= before.push(ws@[k as int]@));
        assert(views(ws@).take(k + 1) =~= views(ws@).take(k as int).push(ws@[k as int]@));
        k += 1;
    }
    assert(views(w3@) =~= take3(views(ws@)));
    let space = chars_of(" ");
    let ts = join_exec(w3.as_slice(), space.as_slice());
    let arrow = chars_of(" --> ");
    proof {
        reveal_strlit(" --> ");
    }
    let pieces = split_exec(ts.as_slice(), arrow.as_slice());
    let dot = chars_of(".");
    let comma = chars_of(",");
    let mut fixed: Vec<Vec<char>> = Vec::new();
    let mut j: usize = 0;
    while j < pieces.len()
        invariant
            j <= pieces.len(),
            dot@ == "."@,
            comma@ == ","@,
            views(fixed@) =~= map_srt_time(views(pieces@).take(j as int)),
        decreases pieces.len() - j,
    {
        let t2 = replace_all_exec(pieces[j].as_slice(), dot.as_slice(), comma.as_slice());
        let f = if count_char_exec(t2.as_slice(), ':') == 1 {
            let mut h = chars_of("00:");
            push_all(&mut h, t2.as_slice());
            h
        } else {
            t2
        };
        assert(f@ == srt_time(pieces@[j as int]@));
        let ghost before = views(fixed@);
        fixed.push(f);
        assert(views(fixed@) =~= before.push(srt_time(pieces@[j as int]@)));
        assert(views(pieces@).take(j + 1) =~= views(pieces@).take(j as int).push(pieces@[j as int]@));
        assert(map_srt_time(views(pieces@).take(j + 1)) =~= map_srt_time(views(pieces@).take(j as int)).push(srt_time(pieces@[j as int]@)));
        j += 1;
    }
    assert(views(pieces@).take(j as int) =~= views(pieces@));
    join_exec(fixed.as_slice(), arrow.as_slice())
}

/// WebVTT text converted to SRT: header, style, region and note blocks
/// dropped, cues numbered from 1, cue identifiers dropped.
pub fn vtt_to_srt(raw: &str) -> (r: String)
    ensures
        r@ == vtt_to_srt_spec(raw@),
{
    let src = chars_of(raw);
    let ls = lines_exec(src.as_slice());
    let mut out: Vec<char> = Vec::new();
    let mut counter: u64 = 0;
    let mut in_note = false;
    let mut i: usize = 0;
    while i < ls.len()
        invariant
            i <= ls.len(),
            vtt_fold(views(ls@).take(i as int)) == (VttState {
                out: out@,
                counter: counter as nat,
                in_note,
            }),
        decreases ls.len() - i,
    {
        let l = ls[i].as_slice();
        assert(views(ls@).take(i + 1).drop_last() =~= views(ls@).take(i as int));
        assert(views(ls@).take(i + 1).last() == l@);
        proof {
            lemma_vtt_counter(views(ls@).take(i as int));
        }
        let t = trim_exec(l);
        let ts = t.as_slice();
        if starts_with_at0(ts, chars_of("WEBVTT").as_slice()) || starts_with_at0(
            ts,
            chars_of("STYLE").as_slice(),
        ) || starts_with_at0(ts, chars_of("REGION").as_slice()) || starts_with_at0(
            ts,
            chars_of("NOTE").as_slice(),
        ) {
            in_note = true;
        } else if t.len() == 0 {
            if !in_note && counter > 0 {
                push_str(&mut out, "\n");
            }
            in_note = false;
        } else if in_note {
        } else if is_timestamp_line_exec(ts) {
            counter = counter + 1;
            let d = dec_string(counter);
            push_all(&mut out, d.as_slice());
            push_str(&mut out, "\n");
            let timing = srt_timing_exec(ts);
            push_all(&mut out, timing.as_slice());
            push_str(&mut out, "\n");
        } else if counter > 0 {
            push_all(&mut out, l);
            push_str(&mut out, "\n");
        }
        i += 1;
    }
    assert(views(ls@).take(i as int) =~= views(ls@));
    string_of(out.as_slice())
}

// ── Subtitles → text ─────────────────────────────────────────────────────────

/// Text with `<…>` and `{…}` markup removed, from inside a tag or not.
pub open spec fn untag(s: Seq<char>, in_tag: bool) -> Seq<char>
    decreases s.len(),
{
    if s.len() == 0 {
        seq![]
    } else {
        let c = s[0];
        if c == '<' || c == '{' {
            untag(s.drop_first(), true)
        } else if c == '>' || c == '}' {
            untag(s.drop_first(), false)
        } else if !in_tag {
            seq![c] + untag(s.drop_first(), in_tag)
        } else {
            untag(s.drop_first(), in_tag)
        }
    }
}

fn untag_exec(s: &[char]) -> (r: Vec<char>)
    ensures
        r@ == untag(s@, false),
{
    let mut r: Vec<char> = Vec::new();
    let mut in_tag = false;
    let mut i: usize = 0;
    assert(s@.skip(0) =~= s@);
    while i < s.len()
        invariant
            i <= s.len(),
            r@ + untag(s@.skip(i as int), in_tag) == untag(s@, false),
        decreases s.len() - i,
    {
        let ghost rest = s@.skip(i as int);
        assert(rest.drop_first() =~= s@.skip(i + 1));
        assert(rest[0] == s@[i as int]);
        let c = s[i];
        if c == '<' || c == '{' {
            in_tag = true;
        } else if c == '>' || c == '}' {
            in_tag = false;
        } else if !in_tag {
            assert(r@.push(c) + untag(s@.skip(i + 1), in_tag) =~= r@ + (seq![c] + untag(
                s@.skip(i + 1),
                in_tag,
            )));
            r.push(c);
        }
        i += 1;
    }
    assert(s@.skip(i as int) =~= Seq::<char>::empty());
    assert(r@ + Seq::<char>::empty() =~= r@);
    r
}

pub struct TextState {
    pub out: Seq<char>,
    pub in_header: bool,
}

pub open spec fn text_step(st: TextState, line: Seq<char>) -> TextState {
    let t = trim(line);
    if starts_with(t, "WEBVTT"@) || starts_with(t, "NOTE"@) || starts_with(t, "STYLE"@)
        || starts_with(t, "REGION"@) {
        TextState { in_header: true, ..st }
    } else if t.len() == 0 {
        TextState { in_header: false, ..st }
    } else if st.in_header || is_timestamp_line(t) || all_digits(t) {
        st
    } else {
        let clean = trim(untag(t, false));
        if clean.len() > 0 {
            TextState { out: st.out + clean + "\n"@, ..st }
        } else {
            st
        }
    }
}

pub open spec fn text_fold(ls: Seq<Seq<char>>) -> TextState
    decreases ls.len(),
{
    if ls.len() == 0 {
        TextState { out: seq![], in_header: false }
    } else {
        text_step(text_fold(ls.drop_last()), ls.last())
    }
}

/// Dialogue of an SRT or WebVTT file: no header blocks, timings, counters or markup.
pub fn subtitles_to_text(raw: &str) -> (r: String)
    ensures
        r@ == text_fold(lines(raw@)).out,
{
    let src = chars_of(raw);
    let ls = lines_exec(src.as_slice());
    let mut out: Vec<char> = Vec::new();
    let mut in_header = false;
    let mut i: usize = 0;
    while i < ls.len()
        invariant
            i <= ls.len(),
            text_fold(views(ls@).take(i as int)) == (TextState { out: out@, in_header }),
        decreases ls.len() - i,
    {
        let l = ls[i].as_slice();
        assert(views(ls@).take(i + 1).drop_last() =~= views(ls@).take(i as int));
        assert(views(ls@).take(i + 1).last() == l@);
        let t = trim_exec(l);
        let ts = t.as_slice();
        if starts_with_at0(ts, chars_of("WEBVTT").as_slice()) || starts_with_at0(
            ts,
            chars_of("NOTE").as_slice(),
        ) || starts_with_at0(ts, chars_of("STYLE").as_slice()) || starts_with_at0(
            ts,
            chars_of("REGION").as_slice(),
        ) {
            in_header = true;
        } else if t.len() == 0 {
            in_header = false;
        } else if in_header || is_timestamp_line_exec(ts) || all_digits_exec(ts) {
        } else {
            let u = untag_exec(ts);
            let clean = trim_exec(u.as_slice());
            if clean.len() > 0 {
                push_all(&mut out, clean.as_slice());
                push_str(&mut out, "\n");
            }
        }
        i += 1;
    }
    assert(views(ls@).take(i as int) =~= views(ls@));
    string_of(out.as_slice())
}


// ── Watermark cue ────────────────────────────────────────────────────────────

/// Cue-safe text: each line with `-->` turned into `->` and trimmed, blank
/// lines dropped, `©` when nothing is left.
pub open spec fn cue_lines(ls: Seq<Seq<char>>) -> Seq<Seq<char>>
    decreases ls.len(),
{
    if ls.len() == 0 {
        seq![]
    } else {
        let l = trim(replace_all(ls.last(), "-->"@, "->"@));
        cue_lines(ls.drop_last()) + if l.len() > 0 {
            seq![l]
        } else {
            seq![]
        }
    }
}

pub open spec fn cue_text_spec(text: Seq<char>) -> Seq<char> {
    let ls = cue_lines(lines(text));
    if ls.len() == 0 {
        "©"@
    } else {
        join(ls, "\n"@)
    }
}

pub fn cue_text(text: &str) -> (r: Vec<char>)
    ensures
        r@ == cue_text_spec(text@),
{
    let src = chars_of(text);
    let ls = lines_exec(src.as_slice());
    let arrow = chars_of("-->");
    let short = chars_of("->");
    let mut kept: Vec<Vec<char>> = Vec::new();
    let mut i: usize = 0;
    while i < ls.len()
        invariant
            i <= ls.len(),
            arrow@ == "-->"@,
            short@ == "->"@,
            views(kept@) =~= cue_lines(views(ls@).take(i as int)),
        decreases ls.len() - i,
    {
        assert(views(ls@).take(i + 1).drop_last() =~= views(ls@).take(i as int));
        assert(views(ls@).take(i + 1).last() == ls@[i as int]@);
        let r = replace_all_exec(ls[i].as_slice(), arrow.as_slice(), short.as_slice());
        let t = trim_exec(r.as_slice());
        if t.len() > 0 {
            let ghost before = views(kept@);
            let ghost tv = t@;
            kept.push(t);
            assert(views(kept@) =~= before + seq![tv]);
        } else {
            assert(views(kept@) =~= views(kept@) + Seq::<Seq<char>>::empty());
        }
        i += 1;
    }
    assert(views(ls@).take(i as int) =~= views(ls@));
    if kept.len() == 0 {
        chars_of("©")
    } else {
        let nl = chars_of("\n");
        join_exec(kept.as_slice(), nl.as_slice())
    }
}

// ── Safety of the cue text ───────────────────────────────────────────────────

/// Text that cannot end a cue: not empty, no `\n` at either end, no two
/// `\n` in a row.
pub open spec fn no_blank_line(s: Seq<char>) -> bool {
    &&& s.len() > 0
    &&& s[0] != '\n'
    &&& s.last() != '\n'
    &&& forall|i: int| 0 <= i < s.len() - 1 ==> !(s[i] == '\n' && #[trigger] s[i + 1] == '\n')
}

proof fn lemma_lines_no_newline(s: Seq<char>, cur: Seq<char>)
    requires
        !cur.contains('\n'),
    ensures
        forall|i: int|
            0 <= i < crate::text::lines_after(s, cur).len() ==> !(#[trigger] crate::text::lines_after(
                s,
                cur,
            )[i]).contains('\n'),
    decreases s.len(),
{
    let r = crate::text::lines_after(s, cur);
    if s.len() == 0 {
        if cur.len() > 0 {
            assert(r[0] == cur);
        }
    } else if s[0] == '\n' {
        lemma_lines_no_newline(s.drop_first(), seq![]);
        let h = crate::text::strip_cr(cur);
        assert forall|j: int| 0 <= j < h.len() implies h[j] != '\n' by {
            assert(h[j] == cur[j]);
        }
        let t = crate::text::lines_after(s.drop_first(), seq![]);
        assert forall|i: int| 0 <= i < r.len() implies !(#[trigger] r[i]).contains('\n') by {
            if i > 0 {
                assert(r[i] == t[i - 1]);
            }
        }
    } else {
        let c2 = cur.push(s[0]);
        assert forall|j: int| 0 <= j < c2.len() implies c2[j] != '\n' by {
            if j < cur.len() {
                assert(c2[j] == cur[j]);
            }
        }
        lemma_lines_no_newline(s.drop_first(), c2);
        assert(r == crate::text::lines_after(s.drop_first(), c2));
    }
}

proof fn lemma_replace_keeps_out(s: Seq<char>, f: Seq<char>, t: Seq<char>, c: char)
    requires
        !s.contains(c),
        !t.contains(c),
    ensures
        !replace_all(s, f, t).contains(c),
    decreases s.len(),
{
    let r = replace_all(s, f, t);
    if s.len() == 0 || f.len() == 0 {
    } else if starts_with(s, f) {
        let rest = s.skip(f.len() as int);
        assert forall|j: int| 0 <= j < rest.len() implies rest[j] != c by {
            assert(rest[j] == s[j + f.len()]);
        }
        lemma_replace_keeps_out(rest, f, t, c);
        let rr = replace_all(rest, f, t);
        assert forall|j: int| 0 <= j < r.len() implies r[j] != c by {
            if j < t.len() {
                assert(r[j] == t[j]);
            } else {
                assert(r[j] == rr[j - t.len()]);
            }
        }
    } else {
        let rest = s.drop_first();
        assert forall|j: int| 0 <= j < rest.len() implies rest[j] != c by {
            assert(rest[j] == s[j + 1]);
        }
        lemma_replace_keeps_out(rest, f, t, c);
        let rr = replace_all(rest, f, t);
        assert forall|j: int| 0 <= j < r.len() implies r[j] != c by {
            if j > 0 {
                assert(r[j] == rr[j - 1]);
            }
        }
    }
}

proof fn lemma_trim_start_window(s: Seq<char>) -> (k: int)
    ensures
        0 <= k <= s.len(),
        trim_start(s) == s.skip(k),
    decreases s.len(),
{
    if s.len() > 0 && crate::text::is_ws(s[0]) {
        let k = lemma_trim_start_window(s.drop_first());
        assert(s.drop_first().skip(k) =~= s.skip(k + 1));
        k + 1
    } else {
        assert(s.skip(0) =~= s);
        0
    }
}

proof fn lemma_trim_end_window(s: Seq<char>) -> (k: int)
    ensures
        0 <= k <= s.len(),
        trim_end(s) == s.take(k),
    decreases s.len(),
{
    if s.len() > 0 && crate::text::is_ws(s.last()) {
        let k = lemma_trim_end_window(s.drop_last());
        assert(s.drop_last().take(k) =~= s.take(k));
        k
    } else {
        assert(s.take(s.len() as int) =~= s);
        s.len() as int
    }
}

/// The trimmed text is a window of the text.
proof fn lemma_trim_window(s: Seq<char>) -> (w: (int, int))
    ensures
        0 <= w.0 <= w.1 <= s.len(),
        trim(s) == s.subrange(w.0, w.1),
{
    let a = lemma_trim_start_window(s);
    let b = lemma_trim_end_window(s.skip(a));
    assert(s.skip(a).take(b) =~= s.subrange(a, a + b));
    (a, a + b)
}

/// A window holds no character and no pattern that the whole lacks.
proof fn lemma_window_keeps_out(s: Seq<char>, a: int, b: int, c: char, p: Seq<char>)
    requires
        0 <= a <= b <= s.len(),
    ensures
        !s.contains(c) ==> !s.subrange(a, b).contains(c),
        !contains(s, p) ==> !contains(s.subrange(a, b), p),
{
    let w = s.subrange(a, b);
    if !s.contains(c) {
        assert forall|j: int| 0 <= j < w.len() implies w[j] != c by {
            assert(w[j] == s[a + j]);
        }
    }
    if !contains(s, p) {
        assert forall|i: int| !crate::text::occurs_at(w, p, i) by {
            if crate::text::occurs_at(w, p, i) {
                assert(w.subrange(i, i + p.len()) =~= s.subrange(a + i, a + i + p.len()));
                assert(crate::text::occurs_at(s, p, a + i));
            }
        }
    }
}

/// `R(t)` starting with `>` means `t` does.
proof fn lemma_unarrow_head(t: Seq<char>)
    requires
        replace_all(t, "-->"@, "->"@).len() > 0,
        replace_all(t, "-->"@, "->"@)[0] == '>',
    ensures
        t.len() > 0 && t[0] == '>',
{
    reveal_strlit("-->");
    reveal_strlit("->");
    if t.len() > 0 && starts_with(t, "-->"@) {
        assert(replace_all(t, "-->"@, "->"@)[0] == '-');
    }
}

/// `R(s)` starting with `->` means `s` starts with `-->` or `->`.
proof fn lemma_unarrow_start(s: Seq<char>)
    requires
        replace_all(s, "-->"@, "->"@).len() >= 2,
        replace_all(s, "-->"@, "->"@)[0] == '-',
        replace_all(s, "-->"@, "->"@)[1] == '>',
    ensures
        starts_with(s, "-->"@) || starts_with(s, "->"@),
{
    reveal_strlit("-->");
    reveal_strlit("->");
    if !starts_with(s, "-->"@) {
        let s1 = s.drop_first();
        let r1 = replace_all(s1, "-->"@, "->"@);
        assert(replace_all(s, "-->"@, "->"@) == seq![s[0]] + r1);
        lemma_unarrow_head(s1);
        assert(s.subrange(0, 2) =~= "->"@);
    }
}

/// With no `--->` in `s`, turning every `-->` into `->` leaves no `-->`.
proof fn lemma_unarrow(s: Seq<char>)
    requires
        !contains(s, "--->"@),
    ensures
        !contains(replace_all(s, "-->"@, "->"@), "-->"@),
    decreases s.len(),
{
    reveal_strlit("-->");
    reveal_strlit("->");
    reveal_strlit("--->");
    let p = "-->"@;
    let r = replace_all(s, p, "->"@);
    if s.len() == 0 {
        assert forall|i: int| !crate::text::occurs_at(r, p, i) by {}
    } else if starts_with(s, p) {
        let rest = s.skip(3);
        lemma_window_keeps_out(s, 3, s.len() as int, ' ', "--->"@);
        assert(rest =~= s.subrange(3, s.len() as int));
        lemma_unarrow(rest);
        let rr = replace_all(rest, p, "->"@);
        assert(r == "->"@ + rr);
        assert forall|i: int| !crate::text::occurs_at(r, p, i) by {
            if crate::text::occurs_at(r, p, i) {
                if i == 0 {
                    assert(r.subrange(0, 3)[1] == p[1]);
                } else if i == 1 {
                    assert(r.subrange(1, 4)[0] == p[0]);
                } else {
                    assert(r.subrange(i, i + 3) =~= rr.subrange(i - 2, i + 1));
                    assert(crate::text::occurs_at(rr, p, i - 2));
                }
            }
        }
    } else {
        let rest = s.drop_first();
        lemma_window_keeps_out(s, 1, s.len() as int, ' ', "--->"@);
        assert(rest =~= s.subrange(1, s.len() as int));
        lemma_unarrow(rest);
        let rr = replace_all(rest, p, "->"@);
        assert(r == seq![s[0]] + rr);
        assert forall|i: int| !crate::text::occurs_at(r, p, i) by {
            if crate::text::occurs_at(r, p, i) {
                if i == 0 {
                    assert(r.subrange(0, 3)[0] == p[0]);
                    assert(r.subrange(0, 3)[1] == p[1]);
                    assert(r.subrange(0, 3)[2] == p[2]);
                    assert(rr[0] == '-' && rr[1] == '>');
                    lemma_unarrow_start(rest);
                    if starts_with(rest, p) {
                        assert(s.subrange(0, 4) =~= "--->"@);
                        assert(crate::text::occurs_at(s, "--->"@, 0));
                    } else {
                        assert(rest.subrange(0, 2)[0] == rest[0]);
                        assert(rest.subrange(0, 2)[1] == rest[1]);
                        assert(s[0] == r[0]);
                        assert(s[1] == rest[0] && s[2] == rest[1]);
                        assert(s.subrange(0, 3) =~= p);
                    }
                } else {
                    assert(r.subrange(i, i + 3) =~= rr.subrange(i - 1, i + 2));
                    assert(crate::text::occurs_at(rr, p, i - 1));
                }
            }
        }
    }
}

proof fn lemma_cue_lines(ls: Seq<Seq<char>>)
    requires
        forall|i: int| 0 <= i < ls.len() ==> !(#[trigger] ls[i]).contains('\n'),
    ensures
        forall|i: int|
            0 <= i < cue_lines(ls).len() ==> (#[trigger] cue_lines(ls)[i]).len() > 0 && !cue_lines(
                ls,
            )[i].contains('\n'),
        (forall|i: int| 0 <= i < ls.len() ==> !contains(#[trigger] ls[i], "--->"@)) ==> forall|i: int|
            0 <= i < cue_lines(ls).len() ==> !contains(#[trigger] cue_lines(ls)[i], "-->"@),
    decreases ls.len(),
{
    reveal_strlit("->");
    if ls.len() > 0 {
        let init = ls.drop_last();
        assert forall|i: int| 0 <= i < init.len() implies !(#[trigger] init[i]).contains('\n') by {
            assert(init[i] == ls[i]);
        }
        lemma_cue_lines(init);
        let l0 = replace_all(ls.last(), "-->"@, "->"@);
        assert(!ls[ls.len() - 1].contains('\n'));
        assert forall|j: int| 0 <= j < "->"@.len() implies "->"@[j] != '\n' by {}
        lemma_replace_keeps_out(ls.last(), "-->"@, "->"@, '\n');
        let w = lemma_trim_window(l0);
        lemma_window_keeps_out(l0, w.0, w.1, '\n', "-->"@);
        let l = trim(l0);
        let tail: Seq<Seq<char>> = if l.len() > 0 {
            seq![l]
        } else {
            seq![]
        };
        let c = cue_lines(ls);
        assert(c == cue_lines(init) + tail);
        assert forall|i: int| 0 <= i < c.len() implies (#[trigger] c[i]).len() > 0 && !c[i].contains('\n') by {
            if i < cue_lines(init).len() {
                assert(c[i] == cue_lines(init)[i]);
            } else {
                assert(c[i] == l);
            }
        }
        if forall|i: int| 0 <= i < ls.len() ==> !contains(#[trigger] ls[i], "--->"@) {
            assert forall|i: int| 0 <= i < init.len() implies !contains(#[trigger] init[i], "--->"@) by {
                assert(init[i] == ls[i]);
            }
            assert(!contains(ls[ls.len() - 1], "--->"@));
            lemma_unarrow(ls.last());
            assert forall|i: int| 0 <= i < c.len() implies !contains(#[trigger] c[i], "-->"@) by {
                if i < cue_lines(init).len() {
                    assert(c[i] == cue_lines(init)[i]);
                } else {
                    assert(c[i] == l);
                }
            }
        }
    }
}

proof fn lemma_join_safe(parts: Seq<Seq<char>>)
    requires
        parts.len() > 0,
        forall|i: int| 0 <= i < parts.len() ==> (#[trigger] parts[i]).len() > 0 && !parts[i].contains('\n'),
    ensures
        no_blank_line(join(parts, "\n"@)),
        (forall|i: int| 0 <= i < parts.len() ==> !contains(#[trigger] parts[i], "-->"@)) ==> !contains(
            join(parts, "\n"@),
            "-->"@,
        ),
    decreases parts.len(),
{
    reveal_strlit("\n");
    reveal_strlit("-->");
    let p = "-->"@;
    if parts.len() == 1 {
        let b = parts[0];
        assert(join(parts, "\n"@) == b);
        assert(b[0] != '\n');
        assert(b[b.len() - 1] != '\n');
    } else {
        let init = parts.drop_last();
        assert forall|i: int| 0 <= i < init.len() implies (#[trigger] init[i]).len() > 0 && !init[i].contains('\n') by {
            assert(init[i] == parts[i]);
        }
        lemma_join_safe(init);
        let a = join(init, "\n"@);
        let b = parts.last();
        assert(b.len() > 0 && !parts[parts.len() - 1].contains('\n'));
        let r = join(parts, "\n"@);
        assert(r == a + "\n"@ + b);
        assert(r[0] == a[0]);
        assert(r.last() == b[b.len() - 1]);
        assert forall|i: int| 0 <= i < r.len() - 1 implies !(r[i] == '\n' && #[trigger] r[i + 1] == '\n') by {
            if i < a.len() - 1 {
                assert(r[i] == a[i] && r[i + 1] == a[i + 1]);
            } else if i == a.len() - 1 {
                assert(r[i] == a.last());
            } else if i == a.len() {
                assert(r[i + 1] == b[0]);
            } else {
                assert(r[i] == b[i - a.len() - 1]);
            }
        }
        if forall|i: int| 0 <= i < parts.len() ==> !contains(#[trigger] parts[i], p) {
            assert forall|i: int| 0 <= i < init.len() implies !contains(#[trigger] init[i], p) by {
                assert(init[i] == parts[i]);
            }
            assert(!contains(parts[parts.len() - 1], p));
            assert forall|i: int| !crate::text::occurs_at(r, p, i) by {
                if crate::text::occurs_at(r, p, i) {
                    if i + 3 <= a.len() {
                        assert(r.subrange(i, i + 3) =~= a.subrange(i, i + 3));
                        assert(crate::text::occurs_at(a, p, i));
                    } else if i <= a.len() {
                        let k = a.len() - i;
                        assert(r[a.len() as int] == '\n');
                        assert(r.subrange(i, i + 3)[k] == p[k]);
                    } else {
                        let j = i - a.len() - 1;
                        assert(r.subrange(i, i + 3) =~= b.subrange(j, j + 3));
                        assert(crate::text::occurs_at(b, p, j));
                    }
                }
            }
        }
    }
}

/// The watermark cue cannot end a cue early: its text is not empty and
/// holds no blank line. And when no line of the given text holds `--->`,
/// it holds no timing arrow `-->` either.
pub proof fn lemma_cue_text_safe(text: Seq<char>)
    ensures
        no_blank_line(cue_text_spec(text)),
        (forall|i: int| 0 <= i < lines(text).len() ==> !contains(#[trigger] lines(text)[i], "--->"@))
            ==> !contains(cue_text_spec(text), "-->"@),
{
    lemma_lines_no_newline(text, seq![]);
    lemma_cue_lines(lines(text));
    let ls = cue_lines(lines(text));
    if ls.len() == 0 {
        reveal_strlit("©");
        reveal_strlit("-->");
        let c = "©"@;
        assert(c.len() == 1);
        assert forall|i: int| !crate::text::occurs_at(c, "-->"@, i) by {}
    } else {
        lemma_join_safe(ls);
    }
}

/// `s` without its leading byte-order marks.
pub open spec fn strip_bom(s: Seq<char>) -> Seq<char>
    decreases s.len(),
{
    if s.len() > 0 && s[0] == '\u{feff}' {
        strip_bom(s.drop_first())
    } else {
        s
    }
}

fn strip_bom_exec(s: &[char]) -> (r: Vec<char>)
    ensures
        r@ == strip_bom(s@),
{
    let mut i: usize = 0;
    assert(s@.skip(0) =~= s@);
    while i < s.len() && s[i] == '\u{feff}'
        invariant
            i <= s.len(),
            strip_bom(s@) == strip_bom(s@.skip(i as int)),
        decreases s.len() - i,
    {
        assert(s@.skip(i as int).drop_first() =~= s@.skip(i + 1));
        i += 1;
    }
    slice_copy(s, i, s.len())
}

/// Line `i` of an SRT file holds a cue number (a timing line follows).
pub open spec fn is_cue_number(ls: Seq<Seq<char>>, i: int) -> bool {
    &&& parse_u64(trim(strip_bom(ls[i]))) is Some
    &&& i + 1 < ls.len()
    &&& is_timestamp_line(ls[i + 1])
}

/// Line `i` of an SRT file after shifting cue numbers by one.
pub open spec fn renumbered_line(ls: Seq<Seq<char>>, i: int) -> Seq<char> {
    if is_cue_number(ls, i) {
        dec_str(parse_u64(trim(strip_bom(ls[i]))).unwrap() + 1)
    } else {
        strip_bom(ls[i])
    }
}

pub open spec fn renumbered(ls: Seq<Seq<char>>, n: int) -> Seq<char>
    decreases n,
{
    if n <= 0 {
        seq![]
    } else {
        renumbered(ls, n - 1) + renumbered_line(ls, n - 1) + "\n"@
    }
}

/// No cue number is `u64::MAX` (renumbering it would overflow).
pub open spec fn srt_numbers_fit(input: Seq<char>) -> bool {
    let ls = lines(input);
    forall|i: int|
        0 <= i < ls.len() && #[trigger] is_cue_number(ls, i) ==> parse_u64(
            trim(strip_bom(ls[i])),
        ).unwrap() < u64::MAX
}

pub open spec fn srt_watermark_spec(input: Seq<char>, an: Seq<char>, cue: Seq<char>) -> Seq<char> {
    "1\n00:00:00,000 --> 99:59:59,999\n{\\an"@ + an + "}"@ + cue + "\n\n"@ + renumbered(
        lines(input),
        lines(input).len() as int,
    )
}

/// Where the WebVTT header block ends (before the first blank line).
pub open spec fn vtt_header_end(s: Seq<char>) -> Option<int> {
    match find(s, "\n\n"@) {
        Some(i) => Some(i),
        None => find(s, "\r\n\r\n"@),
    }
}

pub open spec fn vtt_watermark_spec(
    input: Seq<char>,
    cue: Seq<char>,
    line_pct: Seq<char>,
    position_pct: Seq<char>,
) -> Seq<char> {
    let src = strip_bom(input);
    let (header, rest) = match vtt_header_end(src) {
        Some(i) => (src.take(i), src.skip(i)),
        None => (src, seq![]),
    };
    trim_end(header) + "\n\n00:00:00.000 --> 99:59:59.999 line:"@ + line_pct + "% position:"@
        + position_pct + "% align:center\n"@ + cue + "\n"@ + rest + "\n"@
}

/// Whether every cue number of an SRT file can be shifted by one without
/// leaving `u64`.
pub fn srt_numbers_fit_exec(input: &str) -> (b: bool)
    ensures
        b == srt_numbers_fit(input@),
{
    let src = chars_of(input);
    let ls = lines_exec(src.as_slice());
    let ghost vl = views(ls@);
    let mut i: usize = 0;
    while i < ls.len()
        invariant
            i <= ls.len(),
            vl == views(ls@),
            vl == lines(input@),
            forall|j: int| 0 <= j < i && #[trigger] is_cue_number(vl, j) ==> parse_u64(
                trim(strip_bom(vl[j])),
            ).unwrap() < u64::MAX,
        decreases ls.len() - i,
    {
        assert(vl[i as int] == ls@[i as int]@);
        assert(i + 1 < ls.len() ==> vl[i + 1] == ls@[i + 1]@);
        let stripped = strip_bom_exec(ls[i].as_slice());
        let t = trim_exec(stripped.as_slice());
        let next_is_timing = i + 1 < ls.len() && is_timestamp_line_exec(ls[i + 1].as_slice());
        match parse_u64_exec(t.as_slice()) {
            Some(n) => {
                if next_is_timing && n == u64::MAX {
                    assert(is_cue_number(vl, i as int));
                    return false;
                }
            },
            None => {},
        }
        i += 1;
    }
    true
}

/// Why a subtitle file cannot be watermarked.
#[derive(Debug)]
pub enum SubtitleError {
    /// The WebVTT file lacks its `WEBVTT` header.
    MissingVttHeader,
    /// Neither SRT nor WebVTT (the extension given).
    Unsupported(String),
}

/// Adds a cue lasting the whole file, carrying the watermark `text`.
/// SRT: the cue comes first, placed by `{\anN}` (`an`), the other cues are
/// renumbered. WebVTT: the cue follows the header, placed at `line_pct` /
/// `position_pct` percent.
pub fn watermark_subtitles(
    input: &str,
    ext: &str,
    text: &str,
    an: &str,
    line_pct: &str,
    position_pct: &str,
) -> (r: Result<String, SubtitleError>)
    requires
        ext@ == "srt"@ ==> srt_numbers_fit(input@),
    ensures
        match r {
            Ok(out) => (ext@ == "srt"@ && out@ == srt_watermark_spec(
                input@,
                an@,
                cue_text_spec(text@),
            )) || (ext@ == "vtt"@ && starts_with(trim_start(strip_bom(input@)), "WEBVTT"@)
                && out@ == vtt_watermark_spec(
                input@,
                cue_text_spec(text@),
                line_pct@,
                position_pct@,
            )),
            Err(SubtitleError::MissingVttHeader) => ext@ == "vtt"@ && !starts_with(
                trim_start(strip_bom(input@)),
                "WEBVTT"@,
            ),
            Err(SubtitleError::Unsupported(e)) => ext@ != "srt"@ && ext@ != "vtt"@ && e@ == ext@,
        },
{
    let cue = cue_text(text);
    let e = chars_of(ext);
    let src = chars_of(input);
    if is_lit(e.as_slice(), "srt") {
        let ls = lines_exec(src.as_slice());
        let arrow = chars_of("-->");
        let mut body: Vec<char> = Vec::new();
        let mut i: usize = 0;
        while i < ls.len()
            invariant
                i <= ls.len(),
                views(ls@) == lines(input@),
                srt_numbers_fit(input@),
                body@ == renumbered(views(ls@), i as int),
            decreases ls.len() - i,
        {
            let ghost vl = views(ls@);
            let stripped = strip_bom_exec(ls[i].as_slice());
            let t = trim_exec(stripped.as_slice());
            let next_is_timing = i + 1 < ls.len() && is_timestamp_line_exec(ls[i + 1].as_slice());
            assert(vl[i as int] == ls@[i as int]@);
            assert(i + 1 < ls.len() ==> vl[i + 1] == ls@[i + 1]@);
            match parse_u64_exec(t.as_slice()) {
                Some(n) if next_is_timing => {
                    assert(is_cue_number(vl, i as int));
                    assert(n < u64::MAX);
                    let d = dec_string(n + 1);
                    push_all(&mut body, d.as_slice());
                },
                _ => {
                    assert(!is_cue_number(vl, i as int));
                    push_all(&mut body, stripped.as_slice());
                },
            }
            push_str(&mut body, "\n");
            i += 1;
        }
        let mut out = chars_of("1\n00:00:00,000 --> 99:59:59,999\n{\\an");
        push_str(&mut out, an);
        push_str(&mut out, "}");
        push_all(&mut out, cue.as_slice());
        push_str(&mut out, "\n\n");
        push_all(&mut out, body.as_slice());
        Ok(string_of(out.as_slice()))
    } else if is_lit(e.as_slice(), "vtt") {
        let s = strip_bom_exec(src.as_slice());
        let ts = trim_start_exec(s.as_slice());
        if !starts_with_at0(ts.as_slice(), chars_of("WEBVTT").as_slice()) {
            return Err(SubtitleError::MissingVttHeader);
        }
        let blank = chars_of("\n\n");
        let crlf = chars_of("\r\n\r\n");
        let split_at = match find_exec(s.as_slice(), blank.as_slice()) {
            Some(k) => Some(k),
            None => find_exec(s.as_slice(), crlf.as_slice()),
        };
        let (header, rest) = match split_at {
            Some(k) => (slice_copy(s.as_slice(), 0, k), slice_copy(s.as_slice(), k, s.len())),
            None => (slice_copy(s.as_slice(), 0, s.len()), Vec::new()),
        };
        let mut out = trim_end_exec(header.as_slice());
        push_str(&mut out, "\n\n00:00:00.000 --> 99:59:59.999 line:");
        push_str(&mut out, line_pct);
        push_str(&mut out, "% position:");
        push_str(&mut out, position_pct);
        push_str(&mut out, "% align:center\n");
        push_all(&mut out, cue.as_slice());
        push_str(&mut out, "\n");
        push_all(&mut out, rest.as_slice());
        push_str(&mut out, "\n");
        proof {
            match vtt_header_end(s@) {
                Some(k) => {
                    assert(header@ =~= s@.take(k));
                    assert(rest@ =~= s@.skip(k));
                },
                None => {
                    assert(header@ =~= s@);
                    assert(rest@ =~= Seq::<char>::empty());
                },
            }
        }
        Ok(string_of(out.as_slice()))
    } else {
        Err(SubtitleError::Unsupported(ext.to_owned()))
    }
}

} // verus!
