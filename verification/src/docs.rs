//! Documents as text: plain text to HTML paragraphs, the body of XHTML
//! chapters, tag stripping, and the assembly of EPUB chapters into one page
//! or one text.
use vstd::prelude::*;
use pulldown_cmark::{Event, Options, Parser, TagEnd};
use epub_builder::{EpubBuilder, EpubContent, ReferenceType, ZipLibrary};
use crate::text::{
    chars_of, find_from, find_from_exec, is_lit, lemma_find_from, lines, lines_exec, lower_ascii,
    lower_ascii_exec, matches_at, occurs_at, push_all, push_str, replace_all, replace_all_exec,
    slice_copy, split, split_exec, starts_with, string_of, trim, trim_exec, views,
};

verus! {

// ── Escaping and paragraphs ──────────────────────────────────────────────────

pub open spec fn html_esc_char(c: char) -> Seq<char> {
    if c == '&' {
        "&amp;"@
    } else if c == '<' {
        "&lt;"@
    } else if c == '>' {
        "&gt;"@
    } else {
        seq![c]
    }
}

/// `&`, `<` and `>` written as entities.
pub open spec fn html_escape(s: Seq<char>) -> Seq<char>
    decreases s.len(),
{
    if s.len() == 0 {
        seq![]
    } else {
        html_escape(s.drop_last()) + html_esc_char(s.last())
    }
}

pub fn html_escape_exec(s: &[char]) -> (r: Vec<char>)
    ensures
        r@ == html_escape(s@),
{
    let mut r: Vec<char> = Vec::new();
    let mut i: usize = 0;
    while i < s.len()
        invariant
            i <= s.len(),
            r@ == html_escape(s@.take(i as int)),
        decreases s.len() - i,
    {
        assert(s@.take(i + 1).drop_last() =~= s@.take(i as int));
        let c = s[i];
        if c == '&' {
            push_str(&mut r, "&amp;");
        } else if c == '<' {
            push_str(&mut r, "&lt;");
        } else if c == '>' {
            push_str(&mut r, "&gt;");
        } else {
            r.push(c);
        }
        i += 1;
    }
    assert(s@.take(i as int) =~= s@);
    r
}

/// One paragraph of plain text: trimmed, escaped, line breaks as `br`.
pub open spec fn txt_paragraph(block: Seq<char>, br: Seq<char>) -> Seq<char> {
    "<p>"@ + replace_all(html_escape(trim(block)), "\n"@, br) + "</p>\n"@
}

pub open spec fn txt_paragraphs(blocks: Seq<Seq<char>>, br: Seq<char>) -> Seq<char>
    decreases blocks.len(),
{
    if blocks.len() == 0 {
        seq![]
    } else {
        txt_paragraphs(blocks.drop_last(), br) + txt_paragraph(blocks.last(), br)
    }
}

/// Plain text as HTML paragraphs: one per blank-line-separated block.
pub open spec fn txt_body(text: Seq<char>, br: Seq<char>) -> Seq<char> {
    txt_paragraphs(split(text, "\n\n"@), br)
}

/// The HTML page frame with an escaped title.
pub open spec fn html_page(title: Seq<char>, body: Seq<char>) -> Seq<char> {
    "<!DOCTYPE html>\n<html><head><meta charset=\"utf-8\"><title>"@ + html_escape(title)
        + "</title></head><body>\n"@ + body + "</body></html>\n"@
}

/// The paragraphs of plain text, line breaks written as `br`.
pub fn txt_body_exec(text: &str, br: &str) -> (r: Vec<char>)
    ensures
        r@ == txt_body(text@, br@),
{
    let t = chars_of(text);
    let sep = chars_of("\n\n");
    proof {
        reveal_strlit("\n\n");
    }
    let nl = chars_of("\n");
    let brc = chars_of(br);
    let blocks = split_exec(t.as_slice(), sep.as_slice());
    let ghost bv = views(blocks@);
    let mut r: Vec<char> = Vec::new();
    let mut i: usize = 0;
    while i < blocks.len()
        invariant
            i <= blocks.len(),
            bv == views(blocks@),
            nl@ == "\n"@,
            brc@ == br@,
            r@ == txt_paragraphs(bv.take(i as int), br@),
        decreases blocks.len() - i,
    {
        assert(bv.take(i + 1).drop_last() =~= bv.take(i as int));
        let tb = trim_exec(blocks[i].as_slice());
        let esc = html_escape_exec(tb.as_slice());
        let rep = replace_all_exec(esc.as_slice(), nl.as_slice(), brc.as_slice());
        push_str(&mut r, "<p>");
        push_all(&mut r, rep.as_slice());
        push_str(&mut r, "</p>\n");
        i += 1;
    }
    assert(bv.take(i as int) =~= bv);
    r
}

fn push_page_head(out: &mut Vec<char>, title: &str)
    ensures
        final(out)@ == old(out)@ + "<!DOCTYPE html>\n<html><head><meta charset=\"utf-8\"><title>"@
            + html_escape(title@) + "</title></head><body>\n"@,
{
    push_str(out, "<!DOCTYPE html>\n<html><head><meta charset=\"utf-8\"><title>");
    let esc = html_escape_exec(chars_of(title).as_slice());
    push_all(out, esc.as_slice());
    push_str(out, "</title></head><body>\n");
}

/// A text file as an HTML page titled `title` (`txt_to_html`).
pub fn txt_to_html(text: &str, title: &str) -> (r: String)
    ensures
        r@ == html_page(title@, txt_body(text@, "<br>\n"@)),
{
    let mut out: Vec<char> = Vec::new();
    push_page_head(&mut out, title);
    let body = txt_body_exec(text, "<br>\n");
    push_all(&mut out, body.as_slice());
    push_str(&mut out, "</body></html>\n");
    string_of(out.as_slice())
}

// ── The body of an XHTML chapter ─────────────────────────────────────────────

/// Where the content of `<body …>` starts and ends in `x` (found case
/// insensitively; the start is just past the tag's `>`).
pub open spec fn body_range(x: Seq<char>) -> Option<(int, int)> {
    let l = lower_ascii(x);
    match (find_from(l, "<body"@, 0), crate::text::rfind(l, "</body>"@)) {
        (Some(s), Some(e)) => if e > s {
            let a = match find_from(x, ">"@, s) {
                Some(k) => k + 1,
                None => s,
            };
            Some((a, e))
        } else {
            None
        },
        _ => None,
    }
}

/// The body can be cut out: its tag closes before `</body>` (else the
/// cut would start past its end).
pub open spec fn body_cuttable(x: Seq<char>) -> bool {
    match body_range(x) {
        Some((a, e)) => a <= e,
        None => true,
    }
}

/// The content of the body element, or the whole document.
pub open spec fn extract_body(x: Seq<char>) -> Seq<char> {
    match body_range(x) {
        Some((a, e)) => x.subrange(a, e),
        None => x,
    }
}

pub fn extract_body_exec(x: &[char]) -> (r: Vec<char>)
    requires
        body_cuttable(x@),
    ensures
        r@ == extract_body(x@),
{
    let l = lower_ascii_exec(x);
    let open = chars_of("<body");
    let close = chars_of("</body>");
    let gt = chars_of(">");
    proof {
        crate::text::lemma_find_from(l@, open@, 0);
        crate::text::lemma_rfind(l@, close@);
    }
    match (find_from_exec(l.as_slice(), open.as_slice(), 0), crate::text::rfind_exec(l.as_slice(), close.as_slice())) {
        (Some(s), Some(e)) => {
            if e > s {
                proof {
                    lemma_find_from(x@, gt@, s as int);
                }
                let a = match find_from_exec(x, gt.as_slice(), s) {
                    Some(k) => k + 1,
                    None => s,
                };
                slice_copy(x, a, e)
            } else {
                slice_copy(x, 0, x.len())
            }
        },
        _ => slice_copy(x, 0, x.len()),
    }
}

/// Whether the body of `x` can be cut out (see [`body_cuttable`]).
pub fn body_cuttable_exec(x: &str) -> (b: bool)
    ensures
        b == body_cuttable(x@),
{
    let xc = chars_of(x);
    let l = lower_ascii_exec(xc.as_slice());
    let open = chars_of("<body");
    let close = chars_of("</body>");
    let gt = chars_of(">");
    proof {
        crate::text::lemma_find_from(l@, open@, 0);
        crate::text::lemma_rfind(l@, close@);
    }
    match (find_from_exec(l.as_slice(), open.as_slice(), 0), crate::text::rfind_exec(l.as_slice(), close.as_slice())) {
        (Some(s), Some(e)) => {
            if e > s {
                proof {
                    lemma_find_from(xc@, gt@, s as int);
                }
                let a = match find_from_exec(xc.as_slice(), gt.as_slice(), s) {
                    Some(k) => k + 1,
                    None => s,
                };
                a <= e
            } else {
                true
            }
        },
        _ => true,
    }
}

// ── Tag stripping ────────────────────────────────────────────────────────────

/// A tag that ends a line of text when stripped.
pub open spec fn breaking_tag(t: Seq<char>) -> bool {
    ||| starts_with(t, "<p"@)
    ||| starts_with(t, "</p"@)
    ||| starts_with(t, "<br"@)
    ||| starts_with(t, "<div"@)
    ||| starts_with(t, "</h"@)
    ||| starts_with(t, "<li"@)
}

pub open spec fn script_close() -> Seq<char> {
    seq!['<', '/', 's', 'c', 'r', 'i', 'p', 't', '>']
}

pub open spec fn style_close() -> Seq<char> {
    seq!['<', '/', 's', 't', 'y', 'l', 'e', '>']
}

/// Text of `h` from position `i` on: script and style elements dropped
/// whole, other tags dropped with a line break for the breaking ones (tags
/// are matched in ASCII lower case); an unclosed tag or element ends the text.
pub open spec fn strip_scan(h: Seq<char>, i: int, out: Seq<char>) -> Seq<char>
    decreases h.len() - i,
{
    let l = lower_ascii(h);
    if i < 0 || i >= h.len() {
        out
    } else if occurs_at(l, "<script"@, i) || occurs_at(l, "<style"@, i) {
        let close = if occurs_at(l, "<script"@, i) {
            script_close()
        } else {
            style_close()
        };
        match find_from(l, close, i) {
            Some(k) => {
                proof {
                    lemma_find_from(l, close, i);
                }
                strip_scan(h, k + close.len(), out)
            },
            None => out,
        }
    } else if h[i] == '<' {
        match find_from(h, ">"@, i) {
            Some(k) => {
                proof {
                    lemma_find_from(h, ">"@, i);
                }
                strip_scan(h, k + 1, if breaking_tag(l.subrange(i, k + 1)) {
                    out.push('\n')
                } else {
                    out
                })
            },
            None => out,
        }
    } else {
        strip_scan(h, i + 1, out.push(h[i]))
    }
}

/// The tag at `i` (read in ASCII lower case) opens a paragraph, list item,
/// division or line break, or closes a paragraph or heading.
pub open spec fn line_tag_at(h: Seq<char>, i: int) -> bool {
    let l = lower_ascii(h);
    ||| occurs_at(l, "<p"@, i)
    ||| occurs_at(l, "</p"@, i)
    ||| occurs_at(l, "<br"@, i)
    ||| occurs_at(l, "<div"@, i)
    ||| occurs_at(l, "</h"@, i)
    ||| occurs_at(l, "<li"@, i)
}

/// A tag starting at `i` and ending at the `>` at `k`: read in ASCII lower
/// case, its text starts with `pfx` exactly when `pfx` occurs at `i`.
proof fn lemma_tag_prefix(h: Seq<char>, i: int, k: int, pfx: Seq<char>)
    requires
        0 <= i <= k < h.len(),
        find_from(h, ">"@, i) == Some(k),
        forall|j: int| 0 <= j < pfx.len() ==> #[trigger] pfx[j] != '>',
    ensures
        starts_with(lower_ascii(h).subrange(i, k + 1), pfx) <==> occurs_at(lower_ascii(h), pfx, i),
{
    reveal_strlit(">");
    lemma_find_from(h, ">"@, i);
    let l = lower_ascii(h);
    let t = l.subrange(i, k + 1);
    if occurs_at(l, pfx, i) {
        if i + pfx.len() > k + 1 {
            assert(l.subrange(i, i + pfx.len())[k - i] == l[k]);
            assert(h.subrange(k, k + 1)[0] == h[k]);
            assert(h[k] == '>');
            assert(pfx[k - i] == '>');
        }
        assert(t.subrange(0, pfx.len() as int) =~= l.subrange(i, i + pfx.len()));
    }
    if starts_with(t, pfx) {
        assert(l.subrange(i, i + pfx.len()) =~= t.subrange(0, pfx.len() as int));
    }
}

/// Stripping tags, a tag that opens a paragraph, list item, division or
/// line break, or closes a paragraph or heading (in any ASCII case), ends
/// the line: it leaves exactly one line break and the text goes on after
/// its `>`. Any other tag (but script and style elements) leaves nothing.
pub proof fn lemma_tag_breaks_line(h: Seq<char>, i: int, k: int, out: Seq<char>)
    requires
        0 <= i < h.len(),
        h[i] == '<',
        !occurs_at(lower_ascii(h), "<script"@, i),
        !occurs_at(lower_ascii(h), "<style"@, i),
        find_from(h, ">"@, i) == Some(k),
    ensures
        strip_scan(h, i, out) == strip_scan(h, k + 1, if line_tag_at(h, i) {
            out.push('\n')
        } else {
            out
        }),
{
    reveal_strlit(">");
    reveal_strlit("<p");
    reveal_strlit("</p");
    reveal_strlit("<br");
    reveal_strlit("<div");
    reveal_strlit("</h");
    reveal_strlit("<li");
    lemma_find_from(h, ">"@, i);
    assert(i <= k < h.len());
    lemma_tag_prefix(h, i, k, "<p"@);
    lemma_tag_prefix(h, i, k, "</p"@);
    lemma_tag_prefix(h, i, k, "<br"@);
    lemma_tag_prefix(h, i, k, "<div"@);
    lemma_tag_prefix(h, i, k, "</h"@);
    lemma_tag_prefix(h, i, k, "<li"@);
    assert(breaking_tag(lower_ascii(h).subrange(i, k + 1)) == line_tag_at(h, i));
}

/// The common entities decoded, one after the other.
pub open spec fn decode_entities(s: Seq<char>) -> Seq<char> {
    replace_all(
        replace_all(
            replace_all(
                replace_all(replace_all(replace_all(s, "&nbsp;"@, " "@), "&amp;"@, "&"@), "&lt;"@, "<"@),
                "&gt;"@,
                ">"@,
            ),
            "&quot;"@,
            "\""@,
        ),
        "&#39;"@,
        "'"@,
    )
}

/// Lines trimmed, each ended by a line break; a run of blank lines
/// becomes one empty line. The text so far and the length of the current
/// blank run.
pub open spec fn squeeze(ls: Seq<Seq<char>>) -> (Seq<char>, nat)
    decreases ls.len(),
{
    if ls.len() == 0 {
        (seq![], 0)
    } else {
        let (out, blank) = squeeze(ls.drop_last());
        let t = trim(ls.last());
        if t.len() == 0 {
            (if blank + 1 <= 1 {
                out.push('\n')
            } else {
                out
            }, blank + 1)
        } else {
            ((out + t).push('\n'), 0)
        }
    }
}

/// Text of an HTML fragment: tags stripped, entities decoded, lines
/// trimmed and blank runs squeezed.
pub open spec fn strip_html_tags(h: Seq<char>) -> Seq<char> {
    squeeze(lines(decode_entities(strip_scan(h, 0, seq![])))).0
}

fn breaking_tag_exec(t: &[char]) -> (b: bool)
    ensures
        b == breaking_tag(t@),
{
    let p = chars_of("<p");
    let cp = chars_of("</p");
    let br = chars_of("<br");
    let dv = chars_of("<div");
    let ch = chars_of("</h");
    let li = chars_of("<li");
    matches_at(t, p.as_slice(), 0) || matches_at(t, cp.as_slice(), 0) || matches_at(t, br.as_slice(), 0)
        || matches_at(t, dv.as_slice(), 0) || matches_at(t, ch.as_slice(), 0) || matches_at(
        t,
        li.as_slice(),
        0,
    )
}

fn strip_scan_exec(h: &[char]) -> (r: Vec<char>)
    ensures
        r@ == strip_scan(h@, 0, seq![]),
{
    let l = lower_ascii_exec(h);
    let sc = chars_of("<script");
    let st = chars_of("<style");
    let csc = chars_of("</script>");
    let cst = chars_of("</style>");
    let gt = chars_of(">");
    proof {
        reveal_strlit("</script>");
        reveal_strlit("</style>");
        assert(csc@ =~= script_close());
        assert(cst@ =~= style_close());
    }
    let mut out: Vec<char> = Vec::new();
    let mut i: usize = 0;
    while i < h.len()
        invariant
            l@ == lower_ascii(h@),
            l@.len() == h@.len(),
            sc@ == "<script"@,
            st@ == "<style"@,
            csc@ == script_close(),
            cst@ == style_close(),
            csc@.len() == 9,
            cst@.len() == 8,
            gt@ == ">"@,
            strip_scan(h@, i as int, out@) == strip_scan(h@, 0, seq![]),
        decreases h.len() - i,
    {
        let is_sc = matches_at(l.as_slice(), sc.as_slice(), i);
        if is_sc || matches_at(l.as_slice(), st.as_slice(), i) {
            let close = if is_sc {
                &csc
            } else {
                &cst
            };
            proof {
                lemma_find_from(l@, close@, i as int);
            }
            match find_from_exec(l.as_slice(), close.as_slice(), i) {
                Some(k) => {
                    i = k + close.len();
                },
                None => {
                    return out;
                },
            }
        } else if h[i] == '<' {
            proof {
                lemma_find_from(h@, gt@, i as int);
            }
            match find_from_exec(h, gt.as_slice(), i) {
                Some(k) => {
                    let tag = slice_copy(l.as_slice(), i, k + 1);
                    if breaking_tag_exec(tag.as_slice()) {
                        out.push('\n');
                    }
                    i = k + 1;
                },
                None => {
                    return out;
                },
            }
        } else {
            out.push(h[i]);
            i += 1;
        }
    }
    out
}

fn decode_entities_exec(s: &[char]) -> (r: Vec<char>)
    ensures
        r@ == decode_entities(s@),
{
    let a = replace_all_exec(s, chars_of("&nbsp;").as_slice(), chars_of(" ").as_slice());
    let b = replace_all_exec(a.as_slice(), chars_of("&amp;").as_slice(), chars_of("&").as_slice());
    let c = replace_all_exec(b.as_slice(), chars_of("&lt;").as_slice(), chars_of("<").as_slice());
    let d = replace_all_exec(c.as_slice(), chars_of("&gt;").as_slice(), chars_of(">").as_slice());
    let e = replace_all_exec(d.as_slice(), chars_of("&quot;").as_slice(), chars_of("\"").as_slice());
    replace_all_exec(e.as_slice(), chars_of("&#39;").as_slice(), chars_of("'").as_slice())
}

fn squeeze_exec(ls: &Vec<Vec<char>>) -> (r: Vec<char>)
    ensures
        r@ == squeeze(views(ls@)).0,
{
    let ghost lv = views(ls@);
    let mut out: Vec<char> = Vec::new();
    let mut blank: usize = 0;
    let mut i: usize = 0;
    while i < ls.len()
        invariant
            i <= ls.len(),
            lv == views(ls@),
            blank <= i,
            squeeze(lv.take(i as int)) == (out@, blank as nat),
        decreases ls.len() - i,
    {
        assert(lv.take(i + 1).drop_last() =~= lv.take(i as int));
        assert(lv.take(i + 1).last() == ls@[i as int]@);
        let t = trim_exec(ls[i].as_slice());
        let ghost prev = squeeze(lv.take(i as int));
        if t.len() == 0 {
            blank += 1;
            if blank <= 1 {
                out.push('\n');
            }
        } else {
            blank = 0;
            push_all(&mut out, t.as_slice());
            out.push('\n');
        }
        proof {
            let nxt = squeeze(lv.take(i + 1));
            assert(nxt.0 =~= out@);
            assert(nxt.1 == blank as nat);
        }
        i += 1;
    }
    assert(lv.take(i as int) =~= lv);
    out
}

/// `strip_html_tags` of a fragment.
pub fn strip_html_tags_exec(h: &[char]) -> (r: Vec<char>)
    ensures
        r@ == strip_html_tags(h@),
{
    let a = strip_scan_exec(h);
    let b = decode_entities_exec(a.as_slice());
    let ls = lines_exec(b.as_slice());
    squeeze_exec(&ls)
}

// ── EPUB chapters ────────────────────────────────────────────────────────────

/// Why a document conversion failed.
#[derive(Debug)]
pub enum DocError {
    /// The EPUB has no readable chapter.
    EmptyEpub,
    /// The HTML to Markdown converter's message.
    HtmlToMarkdown(String),
    /// The EPUB writer's message.
    EpubWrite(String),
    /// The DOCX writer's message.
    DocxWrite(String),
}

fn prefixed(head: &str, m: &String) -> (r: String)
    ensures
        r@ == head@ + m@,
{
    let mut out = chars_of(head);
    push_str(&mut out, m.as_str());
    string_of(out.as_slice())
}

impl DocError {
    /// The message shown for the error.
    pub fn message(&self) -> (r: String)
        ensures
            r@ == match *self {
                DocError::EmptyEpub => "EPUB sans contenu lisible"@,
                DocError::HtmlToMarkdown(m) => "HTML → Markdown: "@ + m@,
                DocError::EpubWrite(m) => "EPUB génération: "@ + m@,
                DocError::DocxWrite(m) => "DOCX pack: "@ + m@,
            },
    {
        match self {
            DocError::EmptyEpub => String::from_str("EPUB sans contenu lisible"),
            DocError::HtmlToMarkdown(m) => prefixed("HTML → Markdown: ", m),
            DocError::EpubWrite(m) => prefixed("EPUB génération: ", m),
            DocError::DocxWrite(m) => prefixed("DOCX pack: ", m),
        }
    }
}

pub open spec fn strings_of(v: Seq<String>) -> Seq<Seq<char>> {
    v.map_values(|s: String| s@)
}

/// Chapter bodies, each followed by a rule.
pub open spec fn chapters_html(cs: Seq<Seq<char>>) -> Seq<char>
    decreases cs.len(),
{
    if cs.len() == 0 {
        seq![]
    } else {
        chapters_html(cs.drop_last()) + extract_body(cs.last()) + "\n<hr>\n"@
    }
}

/// Chapter texts, each followed by a blank line.
pub open spec fn chapters_text(cs: Seq<Seq<char>>) -> Seq<char>
    decreases cs.len(),
{
    if cs.len() == 0 {
        seq![]
    } else {
        chapters_text(cs.drop_last()) + strip_html_tags(extract_body(cs.last())) + "\n\n"@
    }
}

/// EPUB chapters (their XHTML, in reading order) as one HTML page.
pub fn epub_to_html(chapters: &Vec<String>, title: &str) -> (r: Result<String, DocError>)
    requires
        forall|i: int| 0 <= i < chapters@.len() ==> body_cuttable(#[trigger] chapters@[i]@),
    ensures
        chapters@.len() == 0 ==> r matches Err(DocError::EmptyEpub),
        chapters@.len() > 0 ==> (r matches Ok(s) && s@ == html_page(title@, chapters_html(strings_of(chapters@)))),
{
    if chapters.len() == 0 {
        return Err(DocError::EmptyEpub);
    }
    let ghost cv = strings_of(chapters@);
    let mut out: Vec<char> = Vec::new();
    push_page_head(&mut out, title);
    let ghost head = out@;
    let mut i: usize = 0;
    while i < chapters.len()
        invariant
            i <= chapters.len(),
            cv == strings_of(chapters@),
            forall|j: int| 0 <= j < chapters@.len() ==> body_cuttable(#[trigger] chapters@[j]@),
            out@ == head + chapters_html(cv.take(i as int)),
        decreases chapters.len() - i,
    {
        assert(cv.take(i + 1).drop_last() =~= cv.take(i as int));
        assert(body_cuttable(chapters@[i as int]@));
        let b = extract_body_exec(chars_of(chapters[i].as_str()).as_slice());
        push_all(&mut out, b.as_slice());
        push_str(&mut out, "\n<hr>\n");
        i += 1;
    }
    assert(cv.take(i as int) =~= cv);
    push_str(&mut out, "</body></html>\n");
    Ok(string_of(out.as_slice()))
}

/// EPUB chapters as plain text: each body stripped of its tags, chapters
/// separated by a blank line, the whole trimmed.
pub fn epub_to_text(chapters: &Vec<String>) -> (r: Result<String, DocError>)
    requires
        forall|i: int| 0 <= i < chapters@.len() ==> body_cuttable(#[trigger] chapters@[i]@),
    ensures
        chapters@.len() == 0 ==> r matches Err(DocError::EmptyEpub),
        chapters@.len() > 0 ==> (r matches Ok(s) && s@ == trim(chapters_text(strings_of(chapters@)))),
{
    if chapters.len() == 0 {
        return Err(DocError::EmptyEpub);
    }
    let ghost cv = strings_of(chapters@);
    let mut out: Vec<char> = Vec::new();
    let mut i: usize = 0;
    while i < chapters.len()
        invariant
            i <= chapters.len(),
            cv == strings_of(chapters@),
            forall|j: int| 0 <= j < chapters@.len() ==> body_cuttable(#[trigger] chapters@[j]@),
            out@ == chapters_text(cv.take(i as int)),
        decreases chapters.len() - i,
    {
        assert(cv.take(i + 1).drop_last() =~= cv.take(i as int));
        assert(body_cuttable(chapters@[i as int]@));
        let b = extract_body_exec(chars_of(chapters[i].as_str()).as_slice());
        let t = strip_html_tags_exec(b.as_slice());
        push_all(&mut out, t.as_slice());
        push_str(&mut out, "\n\n");
        i += 1;
    }
    assert(cv.take(i as int) =~= cv);
    let t = trim_exec(out.as_slice());
    Ok(string_of(t.as_slice()))
}

// ── Markdown through `pulldown_cmark` ────────────────────────────────────────

/// Mathematical form of an [`MdEvent`].
pub enum MdEv {
    Text(Seq<char>),
    Code(Seq<char>),
    SoftBreak,
    HardBreak,
    EndParagraph,
    EndHeading,
    EndItem,
    EndCodeBlock,
    Other,
}

/// The parser events that plain-text extraction looks at.
#[derive(Debug)]
pub enum MdEvent {
    Text(String),
    Code(String),
    SoftBreak,
    HardBreak,
    EndParagraph,
    EndHeading,
    EndItem,
    EndCodeBlock,
    Other,
}

impl MdEvent {
    pub open spec fn ev(&self) -> MdEv {
        match self {
            MdEvent::Text(t) => MdEv::Text(t@),
            MdEvent::Code(t) => MdEv::Code(t@),
            MdEvent::SoftBreak => MdEv::SoftBreak,
            MdEvent::HardBreak => MdEv::HardBreak,
            MdEvent::EndParagraph => MdEv::EndParagraph,
            MdEvent::EndHeading => MdEv::EndHeading,
            MdEvent::EndItem => MdEv::EndItem,
            MdEvent::EndCodeBlock => MdEv::EndCodeBlock,
            MdEvent::Other => MdEv::Other,
        }
    }
}

/// The events `pulldown_cmark::Parser` (all extensions on) yields for a
/// Markdown text.
pub uninterp spec fn md_event_seq(md: Seq<char>) -> Seq<MdEv>;

/// The HTML `pulldown_cmark::html::push_html` writes for a Markdown text
/// (all extensions on).
pub uninterp spec fn md_html(md: Seq<char>) -> Seq<char>;

/// Runs `pulldown_cmark::Parser` with `Options::all()` over `md`, keeping
/// each event's kind and text. The events are a function of the text alone.
#[verifier::external_body]
fn md_events(md: &str) -> (r: Vec<MdEvent>)
    ensures
        r@.map_values(|e: MdEvent| e.ev()) == md_event_seq(md@),
{
    Parser::new_ext(md, Options::all()).map(|e| match e {
        Event::Text(t) => MdEvent::Text(t.into_string()),
        Event::Code(t) => MdEvent::Code(t.into_string()),
        Event::SoftBreak => MdEvent::SoftBreak,
        Event::HardBreak => MdEvent::HardBreak,
        Event::End(TagEnd::Paragraph) => MdEvent::EndParagraph,
        Event::End(TagEnd::Heading(_)) => MdEvent::EndHeading,
        Event::End(TagEnd::Item) => MdEvent::EndItem,
        Event::End(TagEnd::CodeBlock) => MdEvent::EndCodeBlock,
        _ => MdEvent::Other,
    }).collect()
}

/// `pulldown_cmark::html::push_html` over `Parser::new_ext(md, Options::all())`.
#[verifier::external_body]
fn markdown_to_html(md: &str) -> (r: String)
    ensures
        r@ == md_html(md@),
{
    let mut html = String::new();
    pulldown_cmark::html::push_html(&mut html, Parser::new_ext(md, Options::all()));
    html
}

/// Text of Markdown events: text and code as they are, a line break for
/// each break, a blank line after paragraphs and headings, a line break
/// after list items and code blocks.
pub open spec fn md_plain(evs: Seq<MdEv>) -> Seq<char>
    decreases evs.len(),
{
    if evs.len() == 0 {
        seq![]
    } else {
        md_plain(evs.drop_last()) + match evs.last() {
            MdEv::Text(t) => t,
            MdEv::Code(t) => t,
            MdEv::SoftBreak => "\n"@,
            MdEv::HardBreak => "\n"@,
            MdEv::EndParagraph => "\n\n"@,
            MdEv::EndHeading => "\n\n"@,
            MdEv::EndItem => "\n"@,
            MdEv::EndCodeBlock => "\n"@,
            MdEv::Other => seq![],
        }
    }
}

/// Plain text of Markdown: the events' text, trimmed.
pub open spec fn md_text(md: Seq<char>) -> Seq<char> {
    trim(md_plain(md_event_seq(md)))
}

/// The plain text of a list of Markdown events (see [`md_plain`]), trimmed.
pub fn md_events_text(evs: &Vec<MdEvent>) -> (r: Vec<char>)
    ensures
        r@ == trim(md_plain(evs@.map_values(|e: MdEvent| e.ev()))),
{
    let ghost ev = evs@.map_values(|e: MdEvent| e.ev());
    let mut out: Vec<char> = Vec::new();
    let mut i: usize = 0;
    while i < evs.len()
        invariant
            i <= evs.len(),
            ev == evs@.map_values(|e: MdEvent| e.ev()),
            out@ == md_plain(ev.take(i as int)),
        decreases evs.len() - i,
    {
        assert(ev.take(i + 1).drop_last() =~= ev.take(i as int));
        assert(ev.take(i + 1).last() == evs@[i as int].ev());
        match &evs[i] {
            MdEvent::Text(t) => push_str(&mut out, t.as_str()),
            MdEvent::Code(t) => push_str(&mut out, t.as_str()),
            MdEvent::SoftBreak => push_str(&mut out, "\n"),
            MdEvent::HardBreak => push_str(&mut out, "\n"),
            MdEvent::EndParagraph => push_str(&mut out, "\n\n"),
            MdEvent::EndHeading => push_str(&mut out, "\n\n"),
            MdEvent::EndItem => push_str(&mut out, "\n"),
            MdEvent::EndCodeBlock => push_str(&mut out, "\n"),
            MdEvent::Other => {},
        }
        i += 1;
    }
    assert(ev.take(i as int) =~= ev);
    trim_exec(out.as_slice())
}

/// Plain text of a Markdown document (`md_to_txt`).
pub fn md_to_txt(md: &str) -> (r: String)
    ensures
        r@ == md_text(md@),
{
    let evs = md_events(md);
    let t = md_events_text(&evs);
    string_of(t.as_slice())
}

/// A Markdown document as an HTML page (`md_to_html`).
pub open spec fn md_page(md: Seq<char>) -> Seq<char> {
    "<!DOCTYPE html>\n<html>\n<head><meta charset=\"UTF-8\"><style>body{font-family:sans-serif;max-width:800px;margin:auto;padding:2rem}</style></head>\n<body>\n"@
        + md_html(md) + "\n</body>\n</html>"@
}

pub fn md_to_html(md: &str) -> (r: String)
    ensures
        r@ == md_page(md@),
{
    let mut out = chars_of(
        "<!DOCTYPE html>\n<html>\n<head><meta charset=\"UTF-8\"><style>body{font-family:sans-serif;max-width:800px;margin:auto;padding:2rem}</style></head>\n<body>\n",
    );
    let body = markdown_to_html(md);
    push_str(&mut out, body.as_str());
    push_str(&mut out, "\n</body>\n</html>");
    string_of(out.as_slice())
}

// ── HTML → Markdown through `htmd` ───────────────────────────────────────────

/// What `htmd::convert` returns for an HTML text: Markdown, or the text of
/// its error.
pub uninterp spec fn htmd_markdown(html: Seq<char>) -> Result<Seq<char>, Seq<char>>;

/// `htmd::convert` with the default options. Its result is a function of
/// the text alone.
#[verifier::external_body]
fn htmd_convert(html: &str) -> (r: Result<String, String>)
    ensures
        match r {
            Ok(m) => htmd_markdown(html@) == Ok::<Seq<char>, Seq<char>>(m@),
            Err(e) => htmd_markdown(html@) == Err::<Seq<char>, Seq<char>>(e@),
        },
{
    htmd::convert(html).map_err(|e| e.to_string())
}

/// An HTML page as Markdown (`html_to_md`).
pub fn html_to_md(html: &str) -> (r: Result<String, DocError>)
    ensures
        match htmd_markdown(html@) {
            Ok(m) => r matches Ok(s) && s@ == m,
            Err(e) => r matches Err(DocError::HtmlToMarkdown(m)) && m@ == e,
        },
{
    match htmd_convert(html) {
        Ok(m) => Ok(m),
        Err(e) => Err(DocError::HtmlToMarkdown(e)),
    }
}

// ── EPUB output ──────────────────────────────────────────────────────────────

/// The single XHTML chapter of a generated EPUB.
pub open spec fn epub_xhtml_spec(title: Seq<char>, body: Seq<char>) -> Seq<char> {
    "<?xml version=\"1.0\" encoding=\"UTF-8\"?>\n<html xmlns=\"http://www.w3.org/1999/xhtml\">\n<head><title>"@
        + html_escape(title) + "</title></head>\n<body>\n"@ + body + "\n</body>\n</html>"@
}

pub fn epub_xhtml(title: &str, body: &str) -> (r: String)
    ensures
        r@ == epub_xhtml_spec(title@, body@),
{
    let mut out = chars_of(
        "<?xml version=\"1.0\" encoding=\"UTF-8\"?>\n<html xmlns=\"http://www.w3.org/1999/xhtml\">\n<head><title>",
    );
    let esc = html_escape_exec(chars_of(title).as_slice());
    push_all(&mut out, esc.as_slice());
    push_str(&mut out, "</title></head>\n<body>\n");
    push_str(&mut out, body);
    push_str(&mut out, "\n</body>\n</html>");
    string_of(out.as_slice())
}

/// The guide reference a chapter is given in an EPUB (`epub_builder`'s
/// `ReferenceType`); the library's chapters are body text.
#[derive(Clone, Copy, Debug)]
pub enum ChapterKind {
    Text,
}

/// What an EPUB is made of: its title and author, and its one chapter,
/// stored as `file`, holding `xhtml`, of reference kind `kind`.
#[derive(Debug)]
pub struct EpubChapter {
    pub title: String,
    pub author: String,
    pub file: String,
    pub xhtml: String,
    pub kind: ChapterKind,
}

/// The EPUB made for a title and a chapter body: author
/// `UniversalConverter`, one body-text chapter `content.xhtml` holding
/// [`epub_xhtml`] of the title and body.
pub fn epub_chapter(title: &str, body_html: &str) -> (c: EpubChapter)
    ensures
        c.title@ == title@,
        c.author@ == "UniversalConverter"@,
        c.file@ == "content.xhtml"@,
        c.xhtml@ == epub_xhtml_spec(title@, body_html@),
        c.kind is Text,
{
    EpubChapter {
        title: title.to_string(),
        author: String::from_str("UniversalConverter"),
        file: String::from_str("content.xhtml"),
        xhtml: epub_xhtml(title, body_html),
        kind: ChapterKind::Text,
    }
}

/// Generates an EPUB with `epub_builder` (zip library) from `c`: metadata
/// title and author, and the one chapter, titled like the book. The bytes
/// hold a generated identifier and date, so nothing is claimed of them.
#[verifier::external_body]
fn epub_generate(c: &EpubChapter) -> (r: Result<Vec<u8>, String>) {
    let reftype = match c.kind {
        ChapterKind::Text => ReferenceType::Text,
    };
    let s = |e: epub_builder::Error| e.to_string();
    let mut b = EpubBuilder::new(ZipLibrary::new().map_err(s)?).map_err(s)?;
    b.metadata("title", c.title.as_str()).map_err(s)?;
    b.metadata("author", c.author.as_str()).map_err(s)?;
    let content = EpubContent::new(c.file.as_str(), c.xhtml.as_bytes()).title(c.title.as_str()).reftype(reftype);
    b.add_content(content).map_err(s)?;
    let mut out: Vec<u8> = Vec::new();
    b.generate(&mut out).map_err(s)?;
    Ok(out)
}

/// An EPUB holding one chapter with this body (`build_epub`): what goes
/// into it is [`epub_chapter`] of the title and body.
pub fn build_epub(title: &str, body_html: &str) -> (r: Result<Vec<u8>, DocError>)
    ensures
        r is Ok || r matches Err(DocError::EpubWrite(_)),
{
    let c = epub_chapter(title, body_html);
    match epub_generate(&c) {
        Ok(b) => Ok(b),
        Err(e) => Err(DocError::EpubWrite(e)),
    }
}

/// The chapter body of a text file's EPUB: its paragraphs, `<br/>` breaks.
pub fn txt_epub_body(text: &str) -> (r: String)
    ensures
        r@ == txt_body(text@, "<br/>\n"@),
{
    let b = txt_body_exec(text, "<br/>\n");
    string_of(b.as_slice())
}

/// A text file as an EPUB (`txt_to_epub`); its chapter is [`txt_epub_body`].
pub fn txt_to_epub(text: &str, title: &str) -> (r: Result<Vec<u8>, DocError>)
    ensures
        r is Ok || r matches Err(DocError::EpubWrite(_)),
{
    let body = txt_epub_body(text);
    build_epub(title, body.as_str())
}

/// A Markdown document as an EPUB (`md_to_epub`); its chapter is the
/// Markdown's HTML.
pub fn md_to_epub(md: &str, title: &str) -> (r: Result<Vec<u8>, DocError>)
    ensures
        r is Ok || r matches Err(DocError::EpubWrite(_)),
{
    let html = markdown_to_html(md);
    build_epub(title, html.as_str())
}

/// An HTML page as an EPUB (`html_to_epub`): through Markdown, back to
/// clean HTML.
pub fn html_to_epub(html: &str, title: &str) -> (r: Result<Vec<u8>, DocError>)
    ensures
        htmd_markdown(html@) is Err ==> r matches Err(DocError::HtmlToMarkdown(_)),
        htmd_markdown(html@) is Ok ==> (r is Ok || r matches Err(DocError::EpubWrite(_))),
{
    let md = match html_to_md(html) {
        Ok(m) => m,
        Err(e) => {
            return Err(e);
        },
    };
    let h = markdown_to_html(md.as_str());
    build_epub(title, h.as_str())
}

// ── DOCX output ──────────────────────────────────────────────────────────────

/// Mathematical form of a [`DocxPara`].
pub struct DocxP {
    pub text: Seq<char>,
    pub size: Option<nat>,
    pub bold: bool,
}

/// A DOCX paragraph: one run of text, with an optional size (half-points)
/// and weight.
#[derive(Debug)]
pub struct DocxPara {
    pub text: String,
    pub size: Option<usize>,
    pub bold: bool,
}

impl DocxPara {
    pub open spec fn para(&self) -> DocxP {
        DocxP {
            text: self.text@,
            size: match self.size {
                Some(n) => Some(n as nat),
                None => None,
            },
            bold: self.bold,
        }
    }
}

pub open spec fn paras_view(p: Seq<DocxPara>) -> Seq<DocxP> {
    p.map_values(|x: DocxPara| x.para())
}

/// Paragraphs of a text file: one plain paragraph per line.
pub open spec fn txt_paras(text: Seq<char>) -> Seq<DocxP> {
    lines(text).map_values(|l: Seq<char>| DocxP { text: l, size: None, bold: false })
}

/// Inline Markdown marks dropped: `**` and backquotes.
pub open spec fn strip_inline(s: Seq<char>) -> Seq<char> {
    replace_all(replace_all(s, "**"@, seq![]), "`"@, seq![])
}

/// A Markdown line as a paragraph: headings by level, list items with a
/// bullet, other lines as they are; inline marks dropped.
pub open spec fn md_para(line: Seq<char>) -> DocxP {
    let t = crate::text::trim_end(line);
    let ts = crate::text::trim_start(t);
    if starts_with(t, "### "@) {
        DocxP { text: strip_inline(t.skip(4)), size: Some(28), bold: true }
    } else if starts_with(t, "## "@) {
        DocxP { text: strip_inline(t.skip(3)), size: Some(32), bold: true }
    } else if starts_with(t, "# "@) {
        DocxP { text: strip_inline(t.skip(2)), size: Some(36), bold: true }
    } else if starts_with(ts, "- "@) || starts_with(ts, "* "@) {
        DocxP { text: "\u{2022} "@ + strip_inline(ts.skip(2)), size: None, bold: false }
    } else {
        DocxP { text: strip_inline(t), size: None, bold: false }
    }
}

pub open spec fn md_paras(md: Seq<char>) -> Seq<DocxP> {
    lines(md).map_values(|l: Seq<char>| md_para(l))
}

#[verifier::external_type_specification]
#[verifier::external_body]
pub struct ExDocx(docx_rs::Docx);

#[verifier::external_type_specification]
#[verifier::external_body]
pub struct ExXmlDocx(docx_rs::XMLDocx);

#[verifier::external_type_specification]
#[verifier::external_body]
pub struct ExParagraph(docx_rs::Paragraph);

#[verifier::external_type_specification]
#[verifier::external_body]
pub struct ExRun(docx_rs::Run);

/// What one run of a DOCX paragraph shows: its pieces of text in order, its
/// size in half-points where one was set, and whether it is bold.
pub struct RunShown {
    pub texts: Seq<Seq<char>>,
    pub size: Option<nat>,
    pub bold: bool,
}

/// The pieces of text that a `docx_rs::Run` shows, in order (as given to
/// `add_text`, before any XML escaping).
pub uninterp spec fn run_texts(r: docx_rs::Run) -> Seq<Seq<char>>;

/// The size in half-points set on a `docx_rs::Run`, if any.
pub uninterp spec fn run_size_of(r: docx_rs::Run) -> Option<nat>;

/// Whether a `docx_rs::Run` is bold.
pub uninterp spec fn run_is_bold(r: docx_rs::Run) -> bool;

/// The runs of a `docx_rs::Paragraph`, in order.
pub uninterp spec fn paragraph_runs(p: docx_rs::Paragraph) -> Seq<RunShown>;

/// The paragraphs of the body of a `docx_rs::Docx`, in order, each given by
/// its runs.
pub uninterp spec fn docx_paragraphs(d: docx_rs::Docx) -> Seq<Seq<RunShown>>;

/// What a run shows once made from `run_texts`, `run_size_of` and
/// `run_is_bold`.
pub open spec fn shown(r: docx_rs::Run) -> RunShown {
    RunShown { texts: run_texts(r), size: run_size_of(r), bold: run_is_bold(r) }
}

/// The text that `add_text` keeps of `t`: every line break taken out.
pub open spec fn without_newlines(t: Seq<char>) -> Seq<char> {
    t.filter(|c: char| c != '\n')
}

/// The single run that stands for one paragraph of the document.
pub open spec fn para_run(p: DocxP) -> RunShown {
    RunShown { texts: seq![without_newlines(p.text)], size: p.size, bold: p.bold }
}

/// The body of the document made of these paragraphs: one paragraph of one
/// run each.
pub open spec fn docx_body(ps: Seq<DocxP>) -> Seq<Seq<RunShown>> {
    ps.map_values(|p: DocxP| seq![para_run(p)])
}

/// `docx_rs::Docx::new`: a document whose body holds no paragraph.
#[verifier::external_body]
fn docx_new() -> (d: docx_rs::Docx)
    ensures
        docx_paragraphs(d) == Seq::<Seq<RunShown>>::empty(),
{
    docx_rs::Docx::new()
}

/// `docx_rs::Docx::add_paragraph`: the document with `p` appended to its
/// body.
#[verifier::external_body]
fn docx_add_paragraph(docx: docx_rs::Docx, p: docx_rs::Paragraph) -> (d: docx_rs::Docx)
    ensures
        docx_paragraphs(d) == docx_paragraphs(docx).push(paragraph_runs(p)),
{
    docx.add_paragraph(p)
}

/// `docx_rs::Docx::build`: the document's package parts. Nothing is claimed
/// of them: they carry paragraph ids drawn from a process-wide counter.
#[verifier::external_body]
fn docx_build(docx: docx_rs::Docx) -> docx_rs::XMLDocx {
    docx.build()
}

/// `docx_rs::XMLDocx::pack` into memory: the DOCX bytes, or the zip
/// writer's error. Nothing is claimed of the bytes.
#[verifier::external_body]
fn xml_docx_pack(x: docx_rs::XMLDocx) -> (r: Result<Vec<u8>, String>) {
    let mut buf = std::io::Cursor::new(Vec::new());
    x.pack(&mut buf).map_err(|e| e.to_string())?;
    Ok(buf.into_inner())
}

/// `docx_rs::Paragraph::new`: a paragraph with no run. Its id comes from a
/// per-thread `u32` counter, which panics only once a thread has made
/// 2^32 - 1 paragraphs; the id is left out of `paragraph_runs`.
#[verifier::external_body]
fn paragraph_new() -> (p: docx_rs::Paragraph)
    ensures
        paragraph_runs(p) == Seq::<RunShown>::empty(),
{
    docx_rs::Paragraph::new()
}

/// `docx_rs::Paragraph::add_run`: the paragraph with `run` appended.
#[verifier::external_body]
fn paragraph_add_run(p: docx_rs::Paragraph, run: docx_rs::Run) -> (r: docx_rs::Paragraph)
    ensures
        paragraph_runs(r) == paragraph_runs(p).push(shown(run)),
{
    p.add_run(run)
}

/// `docx_rs::Run::new`: a run with no text, no size and not bold.
#[verifier::external_body]
fn run_new() -> (r: docx_rs::Run)
    ensures
        run_texts(r) == Seq::<Seq<char>>::empty(),
        run_size_of(r) == None::<nat>,
        !run_is_bold(r),
{
    docx_rs::Run::new()
}

/// `docx_rs::Run::add_text`: the run with `text` appended as one more piece,
/// its line breaks taken out; size and weight unchanged.
#[verifier::external_body]
fn run_add_text(run: docx_rs::Run, text: &str) -> (r: docx_rs::Run)
    ensures
        run_texts(r) == run_texts(run).push(without_newlines(text@)),
        run_size_of(r) == run_size_of(run),
        run_is_bold(r) == run_is_bold(run),
{
    run.add_text(text)
}

/// `docx_rs::Run::size`: the run with this size (half-points); text and
/// weight unchanged.
#[verifier::external_body]
fn run_size(run: docx_rs::Run, size: usize) -> (r: docx_rs::Run)
    ensures
        run_texts(r) == run_texts(run),
        run_size_of(r) == Some(size as nat),
        run_is_bold(r) == run_is_bold(run),
{
    run.size(size)
}

/// `docx_rs::Run::bold`: the run in bold; text and size unchanged.
#[verifier::external_body]
fn run_bold(run: docx_rs::Run) -> (r: docx_rs::Run)
    ensures
        run_texts(r) == run_texts(run),
        run_size_of(r) == run_size_of(run),
        run_is_bold(r),
{
    run.bold()
}

/// The run that stands for one paragraph: its text, with its size when it
/// has one, in bold when it is bold.
fn para_run_exec(p: &DocxPara) -> (r: docx_rs::Run)
    ensures
        shown(r) == para_run(p.para()),
{
    let mut run = run_add_text(run_new(), p.text.as_str());
    match p.size {
        Some(n) => {
            run = run_size(run, n);
        },
        None => {},
    }
    if p.bold {
        run = run_bold(run);
    }
    assert(run_texts(run) =~= seq![without_newlines(p.text@)]);
    run
}

/// The document made of these paragraphs: each one paragraph of one run
/// holding its text (line breaks taken out), with its size when it has one,
/// in bold when it is bold.
pub fn docx_document(paras: &Vec<DocxPara>) -> (d: docx_rs::Docx)
    ensures
        docx_paragraphs(d) == docx_body(paras_view(paras@)),
{
    let mut docx = docx_new();
    let mut i: usize = 0;
    while i < paras.len()
        invariant
            i <= paras.len(),
            docx_paragraphs(docx) == docx_body(paras_view(paras@).take(i as int)),
        decreases paras.len() - i,
    {
        let run = para_run_exec(&paras[i]);
        docx = docx_add_paragraph(docx, paragraph_add_run(paragraph_new(), run));
        assert(paras_view(paras@).take(i + 1) =~= paras_view(paras@).take(i as int).push(
            paras@[i as int].para(),
        ));
        i += 1;
        assert(docx_paragraphs(docx) =~= docx_body(paras_view(paras@).take(i as int)));
    }
    assert(paras_view(paras@).take(i as int) =~= paras_view(paras@));
    docx
}

/// A DOCX made of these paragraphs: the package of [`docx_document`], or
/// the zip writer's error.
pub fn write_docx(paras: &Vec<DocxPara>) -> (r: Result<Vec<u8>, DocError>)
    ensures
        r is Ok || r matches Err(DocError::DocxWrite(_)),
{
    let docx = docx_document(paras);
    match xml_docx_pack(docx_build(docx)) {
        Ok(b) => Ok(b),
        Err(e) => Err(DocError::DocxWrite(e)),
    }
}

/// The paragraphs of a text file's DOCX.
pub fn txt_docx_paragraphs(text: &str) -> (r: Vec<DocxPara>)
    ensures
        paras_view(r@) == txt_paras(text@),
{
    let ls = lines_exec(chars_of(text).as_slice());
    let ghost lv = views(ls@);
    let mut r: Vec<DocxPara> = Vec::new();
    let mut i: usize = 0;
    while i < ls.len()
        invariant
            i <= ls.len(),
            lv == views(ls@),
            paras_view(r@) == lv.take(i as int).map_values(
                |l: Seq<char>| DocxP { text: l, size: None, bold: false },
            ),
        decreases ls.len() - i,
    {
        let ghost prev = paras_view(r@);
        r.push(DocxPara { text: string_of(ls[i].as_slice()), size: None, bold: false });
        assert(lv[i as int] == ls@[i as int]@);
        assert(paras_view(r@) =~= prev.push(DocxP { text: lv[i as int], size: None, bold: false }));
        assert(lv.take(i + 1) =~= lv.take(i as int).push(lv[i as int]));
        i += 1;
        assert(paras_view(r@) =~= lv.take(i as int).map_values(
            |l: Seq<char>| DocxP { text: l, size: None, bold: false },
        ));
    }
    assert(lv.take(i as int) =~= lv);
    r
}

fn strip_inline_exec(s: &[char]) -> (r: Vec<char>)
    ensures
        r@ == strip_inline(s@),
{
    let empty: Vec<char> = Vec::new();
    assert(empty@ =~= Seq::<char>::empty());
    let a = replace_all_exec(s, chars_of("**").as_slice(), empty.as_slice());
    replace_all_exec(a.as_slice(), chars_of("`").as_slice(), empty.as_slice())
}

fn md_para_exec(line: &Vec<char>) -> (p: DocxPara)
    ensures
        p.para() == md_para(line@),
{
    let t = crate::text::trim_end_exec(line.as_slice());
    let ts = crate::text::trim_start_exec(t.as_slice());
    proof {
        reveal_strlit("### ");
        reveal_strlit("## ");
        reveal_strlit("# ");
        reveal_strlit("- ");
        reveal_strlit("* ");
    }
    if crate::text::starts_with_at0(t.as_slice(), chars_of("### ").as_slice()) {
        let rest = slice_copy(t.as_slice(), 4, t.len());
        assert(rest@ =~= t@.skip(4));
        DocxPara { text: string_of(strip_inline_exec(rest.as_slice()).as_slice()), size: Some(28), bold: true }
    } else if crate::text::starts_with_at0(t.as_slice(), chars_of("## ").as_slice()) {
        let rest = slice_copy(t.as_slice(), 3, t.len());
        assert(rest@ =~= t@.skip(3));
        DocxPara { text: string_of(strip_inline_exec(rest.as_slice()).as_slice()), size: Some(32), bold: true }
    } else if crate::text::starts_with_at0(t.as_slice(), chars_of("# ").as_slice()) {
        let rest = slice_copy(t.as_slice(), 2, t.len());
        assert(rest@ =~= t@.skip(2));
        DocxPara { text: string_of(strip_inline_exec(rest.as_slice()).as_slice()), size: Some(36), bold: true }
    } else if crate::text::starts_with_at0(ts.as_slice(), chars_of("- ").as_slice())
        || crate::text::starts_with_at0(ts.as_slice(), chars_of("* ").as_slice()) {
        let rest = slice_copy(ts.as_slice(), 2, ts.len());
        assert(rest@ =~= ts@.skip(2));
        let mut txt = chars_of("\u{2022} ");
        push_all(&mut txt, strip_inline_exec(rest.as_slice()).as_slice());
        DocxPara { text: string_of(txt.as_slice()), size: None, bold: false }
    } else {
        DocxPara { text: string_of(strip_inline_exec(t.as_slice()).as_slice()), size: None, bold: false }
    }
}

/// The paragraphs of a Markdown document's DOCX, line by line.
pub fn md_docx_paragraphs(md: &str) -> (r: Vec<DocxPara>)
    ensures
        paras_view(r@) == md_paras(md@),
{
    let ls = lines_exec(chars_of(md).as_slice());
    let ghost lv = views(ls@);
    let mut r: Vec<DocxPara> = Vec::new();
    let mut i: usize = 0;
    while i < ls.len()
        invariant
            i <= ls.len(),
            lv == views(ls@),
            paras_view(r@) == lv.take(i as int).map_values(|l: Seq<char>| md_para(l)),
        decreases ls.len() - i,
    {
        let ghost prev = paras_view(r@);
        r.push(md_para_exec(&ls[i]));
        assert(lv[i as int] == ls@[i as int]@);
        assert(paras_view(r@) =~= prev.push(md_para(lv[i as int])));
        assert(lv.take(i + 1) =~= lv.take(i as int).push(lv[i as int]));
        i += 1;
        assert(paras_view(r@) =~= lv.take(i as int).map_values(|l: Seq<char>| md_para(l)));
    }
    assert(lv.take(i as int) =~= lv);
    r
}

/// A text file as a DOCX (`txt_to_docx`).
pub fn txt_to_docx(text: &str) -> (r: Result<Vec<u8>, DocError>)
    ensures
        r is Ok || r matches Err(DocError::DocxWrite(_)),
{
    write_docx(&txt_docx_paragraphs(text))
}

/// A Markdown document as a DOCX (`md_to_docx`).
pub fn md_to_docx(md: &str) -> (r: Result<Vec<u8>, DocError>)
    ensures
        r is Ok || r matches Err(DocError::DocxWrite(_)),
{
    write_docx(&md_docx_paragraphs(md))
}

} // verus!
