//! Text laid out for PDF pages: lines wrapped at a column count on the last
//! space, pages of a fixed number of lines, and the text of Markdown and
//! HTML documents that the pages are made from.
use vstd::prelude::*;
use crate::text::{
    chars_of, is_ws, join, join_exec, lines, lines_exec, lowercase, occurs_at, push_all, rfind,
    rfind_exec, slice_copy, starts_with, string_of, to_lowercase, trim, trim_exec, trim_start,
    trim_start_exec, views, words, words_exec,
};

verus! {

// ── Wrapping ─────────────────────────────────────────────────────────────────

pub proof fn lemma_trim_start_len(s: Seq<char>)
    ensures
        trim_start(s).len() <= s.len(),
        s.len() > 0 && is_ws(s[0]) ==> trim_start(s).len() < s.len(),
    decreases s.len(),
{
    if s.len() > 0 && is_ws(s[0]) {
        lemma_trim_start_len(s.drop_first());
    }
}

/// Pieces of an over-long line: cut at the last space within the width
/// (or at the width), the rest trimmed at its start and cut again.
pub open spec fn wrap_rest(rem: Seq<char>, max: nat) -> Seq<Seq<char>>
    decreases rem.len(),
{
    if max == 0 || rem.len() <= max {
        if rem.len() == 0 {
            seq![]
        } else {
            seq![rem]
        }
    } else {
        let cut = match rfind(rem.take(max as int), seq![' ']) {
            Some(k) => k,
            None => max as int,
        };
        proof {
            crate::text::lemma_rfind(rem.take(max as int), seq![' ']);
            lemma_trim_start_len(rem.skip(cut));
            if cut == 0 {
                assert(rem.take(max as int).subrange(0, 1)[0] == ' ');
                assert(rem.skip(cut)[0] == ' ');
            }
        }
        seq![rem.take(cut)] + wrap_rest(trim_start(rem.skip(cut)), max)
    }
}

/// One line wrapped: kept whole if it fits.
pub open spec fn wrap_line(l: Seq<char>, max: nat) -> Seq<Seq<char>> {
    if l.len() <= max {
        seq![l]
    } else {
        wrap_rest(l, max)
    }
}

pub open spec fn wrap_lines(ls: Seq<Seq<char>>, max: nat) -> Seq<Seq<char>>
    decreases ls.len(),
{
    if ls.len() == 0 {
        seq![]
    } else {
        wrap_lines(ls.drop_last(), max) + wrap_line(ls.last(), max)
    }
}

/// The lines of `text`, each wrapped to `max` columns.
pub open spec fn wrap_spec(text: Seq<char>, max: nat) -> Seq<Seq<char>> {
    wrap_lines(lines(text), max)
}

fn wrap_line_exec(l: &Vec<char>, max: usize, out: &mut Vec<Vec<char>>)
    requires
        max > 0,
    ensures
        views(final(out)@) == views(old(out)@) + wrap_line(l@, max as nat),
{
    if l.len() <= max {
        let ghost before = views(out@);
        let c = slice_copy(l.as_slice(), 0, l.len());
        assert(c@ =~= l@);
        out.push(c);
        assert(views(out@) =~= before + seq![l@]);
        return;
    }
    let mut rem = slice_copy(l.as_slice(), 0, l.len());
    assert(rem@ =~= l@);
    let sp = chars_of(" ");
    proof {
        reveal_strlit(" ");
        assert(sp@ =~= seq![' ']);
    }
    let ghost base = views(out@);
    assert(views(out@) + wrap_rest(rem@, max as nat) =~= base + wrap_rest(l@, max as nat));
    while rem.len() > max
        invariant
            max > 0,
            sp@ == seq![' '],
            views(out@) + wrap_rest(rem@, max as nat) == base + wrap_rest(l@, max as nat),
        decreases rem.len(),
    {
        let ghost r0 = rem@;
        let head = slice_copy(rem.as_slice(), 0, max);
        assert(head@ =~= r0.take(max as int));
        let cut = match rfind_exec(head.as_slice(), sp.as_slice()) {
            Some(k) => k,
            None => max,
        };
        proof {
            crate::text::lemma_rfind(r0.take(max as int), seq![' ']);
            lemma_trim_start_len(r0.skip(cut as int));
            if cut == 0 {
                assert(r0.take(max as int).subrange(0, 1)[0] == ' ');
                assert(r0.skip(0)[0] == ' ');
            }
        }
        let piece = slice_copy(rem.as_slice(), 0, cut);
        let tail = slice_copy(rem.as_slice(), cut, rem.len());
        let ghost before = views(out@);
        out.push(piece);
        assert(views(out@) =~= before + seq![r0.take(cut as int)]);
        rem = trim_start_exec(tail.as_slice());
        assert(tail@ =~= r0.skip(cut as int));
        assert(before + wrap_rest(r0, max as nat) =~= before + (seq![r0.take(cut as int)] + wrap_rest(rem@, max as nat)));
        assert(views(out@) + wrap_rest(rem@, max as nat) =~= before + wrap_rest(r0, max as nat));
    }
    if rem.len() > 0 {
        let ghost before = views(out@);
        let ghost rv = rem@;
        out.push(rem);
        assert(views(out@) =~= before + seq![rv]);
    } else {
        assert(wrap_rest(rem@, max as nat) =~= Seq::<Seq<char>>::empty());
        assert(views(out@) + Seq::<Seq<char>>::empty() =~= views(out@));
    }
}

/// The lines of `text` wrapped to `max_cols` columns.
pub fn wrap_text(text: &str, max_cols: usize) -> (r: Vec<String>)
    requires
        max_cols > 0,
    ensures
        r@.map_values(|s: String| s@) == wrap_spec(text@, max_cols as nat),
{
    let t = chars_of(text);
    let ls = lines_exec(t.as_slice());
    let ghost lv = views(ls@);
    let mut acc: Vec<Vec<char>> = Vec::new();
    let mut i: usize = 0;
    while i < ls.len()
        invariant
            i <= ls.len(),
            max_cols > 0,
            lv == views(ls@),
            views(acc@) == wrap_lines(lv.take(i as int), max_cols as nat),
        decreases ls.len() - i,
    {
        assert(lv.take(i + 1).drop_last() =~= lv.take(i as int));
        wrap_line_exec(&ls[i], max_cols, &mut acc);
        i += 1;
    }
    assert(lv.take(i as int) =~= lv);
    let mut r: Vec<String> = Vec::new();
    let mut k: usize = 0;
    while k < acc.len()
        invariant
            k <= acc.len(),
            r@.len() == k,
            forall|j: int| 0 <= j < k ==> #[trigger] r@[j]@ == acc@[j]@,
        decreases acc.len() - k,
    {
        r.push(string_of(acc[k].as_slice()));
        k += 1;
    }
    assert(r@.map_values(|s: String| s@) =~= views(acc@));
    r
}

// ── Pages ────────────────────────────────────────────────────────────────────

/// Columns of a PDF text line.
pub const WRAP_COLUMNS: usize = 95;

/// Lines on a PDF page: an A4 page of 297 mm less two 18 mm margins, at
/// 5 mm a line (52 whole lines).
pub const LINES_PER_PAGE: usize = 52;

/// Lines a page holds.
pub fn lines_per_page() -> (n: usize)
    ensures
        n == LINES_PER_PAGE,
{
    LINES_PER_PAGE
}

/// Consecutive groups of `n` lines, the last one possibly shorter.
pub open spec fn chunks(ls: Seq<Seq<char>>, n: nat) -> Seq<Seq<Seq<char>>>
    decreases ls.len(),
{
    if ls.len() == 0 {
        seq![]
    } else if n == 0 || ls.len() <= n {
        seq![ls]
    } else {
        seq![ls.take(n as int)] + chunks(ls.skip(n as int), n)
    }
}

/// The pages for some lines: at least one, blank for no line.
pub open spec fn pages_of(ls: Seq<Seq<char>>) -> Seq<Seq<Seq<char>>> {
    if ls.len() == 0 {
        seq![seq![]]
    } else {
        chunks(ls, LINES_PER_PAGE as nat)
    }
}

/// The pages of a text: its lines wrapped to [`WRAP_COLUMNS`], grouped by
/// [`LINES_PER_PAGE`].
pub open spec fn text_pages(text: Seq<char>) -> Seq<Seq<Seq<char>>> {
    pages_of(wrap_spec(text, WRAP_COLUMNS as nat))
}

proof fn lemma_wrap_rest_fits(rem: Seq<char>, max: nat)
    requires
        max > 0,
    ensures
        forall|i: int| 0 <= i < wrap_rest(rem, max).len() ==> (#[trigger] wrap_rest(rem, max)[i]).len() <= max,
    decreases rem.len(),
{
    if rem.len() > max {
        let cut = match rfind(rem.take(max as int), seq![' ']) {
            Some(k) => k,
            None => max as int,
        };
        crate::text::lemma_rfind(rem.take(max as int), seq![' ']);
        lemma_trim_start_len(rem.skip(cut));
        if cut == 0 {
            assert(rem.take(max as int).subrange(0, 1)[0] == ' ');
            assert(rem.skip(cut)[0] == ' ');
        }
        let rest = trim_start(rem.skip(cut));
        lemma_wrap_rest_fits(rest, max);
        let w = wrap_rest(rem, max);
        assert(w == seq![rem.take(cut)] + wrap_rest(rest, max));
        assert forall|i: int| 0 <= i < w.len() implies (#[trigger] w[i]).len() <= max by {
            if i > 0 {
                assert(w[i] == wrap_rest(rest, max)[i - 1]);
            }
        }
    }
}

proof fn lemma_wrap_lines_fit(ls: Seq<Seq<char>>, max: nat)
    requires
        max > 0,
    ensures
        forall|i: int| 0 <= i < wrap_lines(ls, max).len() ==> (#[trigger] wrap_lines(ls, max)[i]).len() <= max,
    decreases ls.len(),
{
    if ls.len() > 0 {
        lemma_wrap_lines_fit(ls.drop_last(), max);
        let a = wrap_lines(ls.drop_last(), max);
        let b = wrap_line(ls.last(), max);
        if ls.last().len() > max {
            lemma_wrap_rest_fits(ls.last(), max);
        }
        assert forall|i: int| 0 <= i < (a + b).len() implies (#[trigger] (a + b)[i]).len() <= max by {
            if i >= a.len() {
                assert((a + b)[i] == b[i - a.len()]);
            }
        }
    }
}

/// Every wrapped line fits in the width: no line of `wrap_spec(text, max)`
/// is longer than `max` characters.
pub proof fn lemma_wrapped_lines_fit(text: Seq<char>, max: nat)
    requires
        max > 0,
    ensures
        forall|i: int| 0 <= i < wrap_spec(text, max).len() ==> (#[trigger] wrap_spec(text, max)[i]).len() <= max,
{
    lemma_wrap_lines_fit(lines(text), max);
}

proof fn lemma_chunks(ls: Seq<Seq<char>>, n: nat)
    requires
        n > 0,
    ensures
        forall|i: int| 0 <= i < chunks(ls, n).len() ==> {
            let c = #[trigger] chunks(ls, n)[i];
            0 < c.len() <= n
        },
        chunks(ls, n).fold_left(Seq::<Seq<char>>::empty(), |acc: Seq<Seq<char>>, c: Seq<Seq<char>>| acc + c) == ls,
    decreases ls.len(),
{
    let f = |acc: Seq<Seq<char>>, c: Seq<Seq<char>>| acc + c;
    if ls.len() == 0 {
        assert(chunks(ls, n) =~= Seq::<Seq<Seq<char>>>::empty());
        assert(ls =~= Seq::<Seq<char>>::empty());
    } else if ls.len() <= n {
        let cs = chunks(ls, n);
        assert(cs == seq![ls]);
        assert(cs.drop_last() =~= Seq::<Seq<Seq<char>>>::empty());
        assert(cs.fold_left(Seq::<Seq<char>>::empty(), f) == f(cs.drop_last().fold_left(Seq::<Seq<char>>::empty(), f), cs.last()));
        assert(Seq::<Seq<char>>::empty() + ls =~= ls);
    } else {
        let rest = ls.skip(n as int);
        lemma_chunks(rest, n);
        let cs = chunks(ls, n);
        let head = ls.take(n as int);
        assert(cs == seq![head] + chunks(rest, n));
        assert forall|i: int| 0 <= i < cs.len() implies {
            let c = #[trigger] cs[i];
            0 < c.len() <= n
        } by {
            if i > 0 {
                assert(cs[i] == chunks(rest, n)[i - 1]);
            }
        }
        lemma_fold_concat_front(head, chunks(rest, n));
        assert(head + rest =~= ls);
    }
}

/// Folding a list of chunks with a chunk in front adds that chunk first.
proof fn lemma_fold_concat_front(head: Seq<Seq<char>>, cs: Seq<Seq<Seq<char>>>)
    ensures
        (seq![head] + cs).fold_left(Seq::<Seq<char>>::empty(), |acc: Seq<Seq<char>>, c: Seq<Seq<char>>| acc + c)
            == head + cs.fold_left(Seq::<Seq<char>>::empty(), |acc: Seq<Seq<char>>, c: Seq<Seq<char>>| acc + c),
    decreases cs.len(),
{
    let f = |acc: Seq<Seq<char>>, c: Seq<Seq<char>>| acc + c;
    let e = Seq::<Seq<char>>::empty();
    let all = seq![head] + cs;
    if cs.len() == 0 {
        assert(all =~= seq![head]);
        assert(all.drop_last() =~= Seq::<Seq<Seq<char>>>::empty());
        assert(all.fold_left(e, f) == f(all.drop_last().fold_left(e, f), all.last()));
        assert(e + head =~= head);
        assert(cs.fold_left(e, f) == e);
        assert(head + e =~= head);
    } else {
        lemma_fold_concat_front(head, cs.drop_last());
        assert(all.drop_last() =~= seq![head] + cs.drop_last());
        assert(all.fold_left(e, f) == f(all.drop_last().fold_left(e, f), all.last()));
        assert(cs.fold_left(e, f) == f(cs.drop_last().fold_left(e, f), cs.last()));
        assert(all.last() == cs.last());
        assert(head + cs.drop_last().fold_left(e, f) + cs.last() =~= head + (cs.drop_last().fold_left(e, f) + cs.last()));
    }
}

/// Pages keep every line, in order: a text's pages, put end to end, give
/// its wrapped lines; each page holds at most [`LINES_PER_PAGE`] of them
/// and, but for the blank page of an empty text, at least one.
pub proof fn lemma_pages_keep_lines(text: Seq<char>)
    ensures
        ({
            let ls = wrap_spec(text, WRAP_COLUMNS as nat);
            let ps = text_pages(text);
            &&& ps.len() > 0
            &&& forall|i: int| 0 <= i < ps.len() ==> (#[trigger] ps[i]).len() <= LINES_PER_PAGE
            &&& ls.len() > 0 ==> ps.fold_left(Seq::<Seq<char>>::empty(), |acc: Seq<Seq<char>>, c: Seq<Seq<char>>| acc + c) == ls
            &&& ls.len() > 0 ==> forall|i: int| 0 <= i < ps.len() ==> (#[trigger] ps[i]).len() > 0
        }),
{
    let ls = wrap_spec(text, WRAP_COLUMNS as nat);
    if ls.len() > 0 {
        lemma_chunks(ls, LINES_PER_PAGE as nat);
        assert(chunks(ls, LINES_PER_PAGE as nat).len() > 0);
    } else {
        let ps = text_pages(text);
        assert(ps == seq![Seq::<Seq<char>>::empty()]);
    }
}

pub open spec fn pages_view(p: Seq<Vec<String>>) -> Seq<Seq<Seq<char>>> {
    p.map_values(|pg: Vec<String>| pg@.map_values(|s: String| s@))
}

/// The pages of the PDF made from a text (`create_pdf_from_text`): the
/// PDF itself is drawn from them.
pub fn create_pdf_from_text(text: &str) -> (r: Vec<Vec<String>>)
    ensures
        pages_view(r@) == text_pages(text@),
{
    let ls = wrap_text(text, WRAP_COLUMNS);
    let ghost lv = ls@.map_values(|s: String| s@);
    let mut pages: Vec<Vec<String>> = Vec::new();
    if ls.len() == 0 {
        let empty: Vec<String> = Vec::new();
        assert(empty@.map_values(|s: String| s@) =~= Seq::<Seq<char>>::empty());
        pages.push(empty);
        assert(pages_view(pages@) =~= seq![Seq::<Seq<char>>::empty()]);
        return pages;
    }
    let mut i: usize = 0;
    assert(lv.skip(0) =~= lv);
    assert(pages_view(pages@) + chunks(lv.skip(0), 52) =~= chunks(lv, 52));
    while i < ls.len()
        invariant
            i <= ls.len(),
            lv == ls@.map_values(|s: String| s@),
            pages_view(pages@) + chunks(lv.skip(i as int), 52) == chunks(lv, 52),
        decreases ls.len() - i,
    {
        let end = if ls.len() - i <= LINES_PER_PAGE { ls.len() } else { i + LINES_PER_PAGE };
        let mut page: Vec<String> = Vec::new();
        let mut k = i;
        while k < end
            invariant
                i <= k <= end <= ls.len(),
                page@.len() == k - i,
                forall|j: int| 0 <= j < k - i ==> #[trigger] page@[j]@ == ls@[i + j]@,
            decreases end - k,
        {
            page.push(ls[k].clone());
            k += 1;
        }
        let ghost rest = lv.skip(i as int);
        proof {
            if ls.len() - i <= 52 {
                assert(page@.map_values(|s: String| s@) =~= rest);
                assert(lv.skip(end as int) =~= Seq::<Seq<char>>::empty());
            } else {
                assert(page@.map_values(|s: String| s@) =~= rest.take(52));
                assert(rest.skip(52) =~= lv.skip(end as int));
            }
        }
        let ghost before = pages_view(pages@);
        let ghost pv = page@.map_values(|s: String| s@);
        pages.push(page);
        assert(pages_view(pages@) =~= before.push(pv));
        i = end;
    }
    pages
}

// ── Text of an HTML page ─────────────────────────────────────────────────────

/// Scanner state: inside a tag, inside a skipped element (script, style,
/// head), the last tag's text, and the text so far.
pub struct HtmlScan {
    pub in_tag: bool,
    pub in_skip: bool,
    pub tag: Seq<char>,
    pub out: Seq<char>,
}

/// Tags after which the text goes on on a new line.
pub open spec fn line_tag(t: Seq<char>) -> bool {
    ||| starts_with(t, "br"@)
    ||| starts_with(t, "p"@)
    ||| starts_with(t, "/p"@)
    ||| starts_with(t, "div"@)
    ||| starts_with(t, "/div"@)
    ||| starts_with(t, "li"@)
    ||| starts_with(t, "h1"@)
    ||| starts_with(t, "h2"@)
    ||| starts_with(t, "h3"@)
    ||| starts_with(t, "h4"@)
    ||| starts_with(t, "h5"@)
    ||| starts_with(t, "h6"@)
    ||| starts_with(t, "tr"@)
}

pub open spec fn skip_open(t: Seq<char>) -> bool {
    starts_with(t, "script"@) || starts_with(t, "style"@) || starts_with(t, "head"@)
}

pub open spec fn skip_close(t: Seq<char>) -> bool {
    starts_with(t, "/script"@) || starts_with(t, "/style"@) || starts_with(t, "/head"@)
}

/// One character: `<` starts a tag, `>` acts on the last tag's trimmed,
/// lower-cased text, other characters go to the tag or to the text.
pub open spec fn html_step(st: HtmlScan, c: char) -> HtmlScan {
    if c == '<' {
        HtmlScan { in_tag: true, tag: seq![], ..st }
    } else if c == '>' {
        let t = lowercase(trim(st.tag));
        if skip_open(t) {
            HtmlScan { in_skip: true, in_tag: false, ..st }
        } else if skip_close(t) {
            HtmlScan { in_skip: false, in_tag: false, ..st }
        } else if !st.in_skip && line_tag(t) {
            HtmlScan { out: st.out.push('\n'), in_tag: false, ..st }
        } else {
            HtmlScan { in_tag: false, ..st }
        }
    } else if st.in_tag {
        HtmlScan { tag: st.tag.push(c), ..st }
    } else if !st.in_skip {
        HtmlScan { out: st.out.push(c), ..st }
    } else {
        st
    }
}

pub open spec fn html_scan(h: Seq<char>) -> HtmlScan
    decreases h.len(),
{
    if h.len() == 0 {
        HtmlScan { in_tag: false, in_skip: false, tag: seq![], out: seq![] }
    } else {
        html_step(html_scan(h.drop_last()), h.last())
    }
}

/// Lines with their words joined by single spaces; empty ones dropped.
pub open spec fn clean_lines(ls: Seq<Seq<char>>) -> Seq<Seq<char>>
    decreases ls.len(),
{
    if ls.len() == 0 {
        seq![]
    } else {
        let l = join(words(ls.last()), " "@);
        clean_lines(ls.drop_last()) + if l.len() == 0 {
            seq![]
        } else {
            seq![l]
        }
    }
}

/// Text of an HTML page: what the scan keeps, with normalised spaces, one
/// non-empty line per line.
pub open spec fn html_text(h: Seq<char>) -> Seq<char> {
    join(clean_lines(lines(html_scan(h).out)), "\n"@)
}

fn prefix_any(t: &[char], lits: &[&str]) -> (b: bool)
    ensures
        b == exists|i: int| 0 <= i < lits@.len() && starts_with(t@, lits@[i]@),
{
    let mut i: usize = 0;
    while i < lits.len()
        invariant
            i <= lits.len(),
            forall|j: int| 0 <= j < i ==> !starts_with(t@, lits@[j]@),
        decreases lits.len() - i,
    {
        let p = chars_of(lits[i]);
        if crate::text::starts_with_at0(t, p.as_slice()) {
            return true;
        }
        i += 1;
    }
    false
}

fn line_tag_exec(t: &[char]) -> (b: bool)
    ensures
        b == line_tag(t@),
{
    let lits: [&str; 13] = ["br", "p", "/p", "div", "/div", "li", "h1", "h2", "h3", "h4", "h5", "h6", "tr"];
    let b = prefix_any(t, &lits);
    proof {
        if b {
            let i = choose|i: int| 0 <= i < lits@.len() && starts_with(t@, lits@[i]@);
            assert(line_tag(t@));
        } else {
            assert(!starts_with(t@, lits@[0]@));
            assert(!starts_with(t@, lits@[1]@));
            assert(!starts_with(t@, lits@[2]@));
            assert(!starts_with(t@, lits@[3]@));
            assert(!starts_with(t@, lits@[4]@));
            assert(!starts_with(t@, lits@[5]@));
            assert(!starts_with(t@, lits@[6]@));
            assert(!starts_with(t@, lits@[7]@));
            assert(!starts_with(t@, lits@[8]@));
            assert(!starts_with(t@, lits@[9]@));
            assert(!starts_with(t@, lits@[10]@));
            assert(!starts_with(t@, lits@[11]@));
            assert(!starts_with(t@, lits@[12]@));
        }
    }
    b
}

fn skip_exec(t: &[char], close: bool) -> (b: bool)
    ensures
        b == if close { skip_close(t@) } else { skip_open(t@) },
{
    if close {
        let lits: [&str; 3] = ["/script", "/style", "/head"];
        let b = prefix_any(t, &lits);
        proof {
            if !b {
                assert(!starts_with(t@, lits@[0]@));
                assert(!starts_with(t@, lits@[1]@));
                assert(!starts_with(t@, lits@[2]@));
            }
        }
        b
    } else {
        let lits: [&str; 3] = ["script", "style", "head"];
        let b = prefix_any(t, &lits);
        proof {
            if !b {
                assert(!starts_with(t@, lits@[0]@));
                assert(!starts_with(t@, lits@[1]@));
                assert(!starts_with(t@, lits@[2]@));
            }
        }
        b
    }
}

/// Text of an HTML page (`extract_text_from_html`).
pub fn extract_text_from_html(html: &str) -> (r: String)
    ensures
        r@ == html_text(html@),
{
    let h = chars_of(html);
    let mut in_tag = false;
    let mut in_skip = false;
    let mut tag: Vec<char> = Vec::new();
    let mut out: Vec<char> = Vec::new();
    let mut i: usize = 0;
    while i < h.len()
        invariant
            i <= h.len(),
            html_scan(h@.take(i as int)) == (HtmlScan { in_tag, in_skip, tag: tag@, out: out@ }),
        decreases h.len() - i,
    {
        assert(h@.take(i + 1).drop_last() =~= h@.take(i as int));
        let c = h[i];
        if c == '<' {
            in_tag = true;
            tag = Vec::new();
        } else if c == '>' {
            let tt = trim_exec(tag.as_slice());
            let t = to_lowercase(tt.as_slice());
            if skip_exec(t.as_slice(), false) {
                in_skip = true;
            } else if skip_exec(t.as_slice(), true) {
                in_skip = false;
            } else if !in_skip && line_tag_exec(t.as_slice()) {
                out.push('\n');
            }
            in_tag = false;
        } else if in_tag {
            tag.push(c);
        } else if !in_skip {
            out.push(c);
        }
        proof {
            let n = html_scan(h@.take(i + 1));
            assert(n.tag =~= tag@);
            assert(n.out =~= out@);
        }
        i += 1;
    }
    assert(h@.take(i as int) =~= h@);
    let ls = lines_exec(out.as_slice());
    let ghost lv = views(ls@);
    let mut kept: Vec<Vec<char>> = Vec::new();
    let sp = chars_of(" ");
    let mut k: usize = 0;
    while k < ls.len()
        invariant
            k <= ls.len(),
            lv == views(ls@),
            sp@ == " "@,
            views(kept@) == clean_lines(lv.take(k as int)),
        decreases ls.len() - k,
    {
        assert(lv.take(k + 1).drop_last() =~= lv.take(k as int));
        let ws = words_exec(ls[k].as_slice());
        let l = join_exec(ws.as_slice(), sp.as_slice());
        if l.len() > 0 {
            let ghost before = views(kept@);
            let ghost lvv = l@;
            kept.push(l);
            assert(views(kept@) =~= before + seq![lvv]);
        } else {
            assert(views(kept@) + Seq::<Seq<char>>::empty() =~= views(kept@));
        }
        k += 1;
    }
    assert(lv.take(k as int) =~= lv);
    let nl = chars_of("\n");
    let r = join_exec(kept.as_slice(), nl.as_slice());
    string_of(r.as_slice())
}

/// The pages of the PDF made from a Markdown document: its plain text.
pub fn md_to_pdf(md: &str) -> (r: Vec<Vec<String>>)
    ensures
        pages_view(r@) == text_pages(crate::docs::md_text(md@)),
{
    let t = crate::docs::md_to_txt(md);
    create_pdf_from_text(t.as_str())
}

/// The pages of the PDF made from an HTML page: its text.
pub fn html_to_pdf(html: &str) -> (r: Vec<Vec<String>>)
    ensures
        pages_view(r@) == text_pages(html_text(html@)),
{
    let t = extract_text_from_html(html);
    create_pdf_from_text(t.as_str())
}

} // verus!
