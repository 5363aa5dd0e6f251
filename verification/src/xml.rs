//! XML documents as structured values. `quick_xml` splits the text into
//! tokens; the tree is then built here: attributes become `@name` entries,
//! text becomes `#text`, repeated children become arrays, an element holding
//! only text becomes that text, and the root element names the one entry of
//! the resulting object.
use vstd::prelude::*;
use quick_xml::events::attributes::Attributes;
use quick_xml::events::Event::{Empty, Eof, GeneralRef, Start, Text};
use quick_xml::events::Event;
use quick_xml::Reader;
use crate::json::{
    entries_view, items_view, json_clone, lemma_items_spec, map_get, map_insert, obj_get, obj_insert,
    JsonSpec, JsonValue,
};
use crate::text::{char_from_u32, chars_of, is_lit, lossy, lossy_text, string_of, valid_scalar};

verus! {

// ── Tokens ───────────────────────────────────────────────────────────────────

/// Mathematical form of an [`XmlToken`].
pub enum XmlTok {
    Start(Seq<char>, Seq<(Seq<char>, Seq<char>)>),
    Empty(Seq<char>, Seq<(Seq<char>, Seq<char>)>),
    Text(Seq<char>),
    Ref(Seq<char>),
    End,
    Other,
}

/// One token of an XML document: an opening tag with its attributes (raw
/// values), a self-closing tag, raw character data, an entity or character
/// reference (the name between `&` and `;`), a closing tag, or anything
/// else (comment, CDATA, processing instruction, declaration).
#[derive(Debug)]
pub enum XmlToken {
    Start(String, Vec<(String, String)>),
    Empty(String, Vec<(String, String)>),
    Text(String),
    Ref(String),
    End,
    Other,
}

pub open spec fn attrs_view(a: Seq<(String, String)>) -> Seq<(Seq<char>, Seq<char>)> {
    a.map_values(|p: (String, String)| (p.0@, p.1@))
}

impl XmlToken {
    pub open spec fn tok(&self) -> XmlTok {
        match self {
            XmlToken::Start(n, a) => XmlTok::Start(n@, attrs_view(a@)),
            XmlToken::Empty(n, a) => XmlTok::Empty(n@, attrs_view(a@)),
            XmlToken::Text(t) => XmlTok::Text(t@),
            XmlToken::Ref(r) => XmlTok::Ref(r@),
            XmlToken::End => XmlTok::End,
            XmlToken::Other => XmlTok::Other,
        }
    }
}

pub open spec fn toks_view(t: Seq<XmlToken>) -> Seq<XmlTok> {
    t.map_values(|x: XmlToken| x.tok())
}

/// An event as `quick_xml` reads it, in bytes: a tag (self-closing or not)
/// with its raw content (name, then attributes) and the length of its name,
/// character data, the name of an entity or character reference, a closing
/// tag, or anything else.
#[derive(Debug)]
pub enum RawToken {
    Tag(bool, Vec<u8>, usize),
    Text(Vec<u8>),
    Ref(Vec<u8>),
    End,
    Other,
}

/// Mathematical form of a [`RawToken`].
pub enum RawTok {
    Tag(bool, Seq<u8>, nat),
    Text(Seq<u8>),
    Ref(Seq<u8>),
    End,
    Other,
}

impl RawToken {
    pub open spec fn raw(&self) -> RawTok {
        match self {
            RawToken::Tag(e, c, n) => RawTok::Tag(*e, c@, *n as nat),
            RawToken::Text(b) => RawTok::Text(b@),
            RawToken::Ref(b) => RawTok::Ref(b@),
            RawToken::End => RawTok::End,
            RawToken::Other => RawTok::Other,
        }
    }
}

pub open spec fn raw_result_view(r: Result<Vec<RawToken>, String>) -> Result<Seq<RawTok>, Seq<char>> {
    match r {
        Ok(v) => Ok(v@.map_values(|t: RawToken| t.raw())),
        Err(e) => Err(e@),
    }
}

/// The events `quick_xml::Reader::read_event` gives for a document, up to
/// its end, or the text of the error it stops on.
pub uninterp spec fn xml_raw_tokens(raw: Seq<char>) -> Result<Seq<RawTok>, Seq<char>>;

/// The attributes (key and raw value, as UTF-8 taken lossily) that
/// `quick_xml::events::attributes::Attributes` finds in a tag's content
/// after its name; malformed attributes are left out.
pub uninterp spec fn tag_attrs(content: Seq<u8>, name_len: nat) -> Seq<(Seq<char>, Seq<char>)>;

/// Reads `raw` with `quick_xml::Reader::read_event` until `Eof`, keeping
/// each event's bytes. The events are a function of the text alone; they
/// are named, not described.
#[verifier::external_body]
fn read_raw_tokens(raw: &str) -> (r: Result<Vec<RawToken>, String>)
    ensures
        raw_result_view(r) == xml_raw_tokens(raw@),
{
    let (mut reader, mut out) = (Reader::from_str(raw), vec![]);
    loop {
        let ev = reader.read_event();
        let empty = matches!(ev, Ok(Empty(_)));
        out.push(match ev {
            Ok(Start(e) | Empty(e)) => RawToken::Tag(empty, e.to_vec(), e.name().0.len()),
            Ok(Text(t)) => RawToken::Text(t.to_vec()),
            Ok(GeneralRef(g)) => RawToken::Ref(g.to_vec()),
            Ok(Event::End(_)) => RawToken::End,
            Ok(Eof) => return Ok(out),
            Ok(_) => RawToken::Other, Err(e) => return Err(e.to_string()),
        });
    }
}

/// The attributes of a tag's content past its name, read by
/// `quick_xml::events::attributes::Attributes::new` (XML rules); content
/// that is not UTF-8 gives none.
#[verifier::external_body]
fn tag_attributes(content: &[u8], name_len: usize) -> (r: Vec<(String, String)>)
    requires
        name_len <= content@.len(),
    ensures
        attrs_view(r@) == tag_attrs(content@, name_len as nat),
{
    let lossy = |b: &[u8]| String::from_utf8_lossy(b).into_owned();
    match std::str::from_utf8(content) {
        Ok(s) => Attributes::new(s, name_len).flatten().map(|a| (lossy(a.key.0), lossy(&a.value))).collect(),
        Err(_) => Vec::new(),
    }
}

/// A reader event as a token: the tag's name is the start of its content.
pub open spec fn tok_of_raw(t: RawTok) -> XmlTok {
    match t {
        RawTok::Tag(empty, c, nl) => {
            let fits = nl <= c.len();
            let name = if fits { lossy(c.take(nl as int)) } else { lossy(c) };
            let a = if fits { tag_attrs(c, nl) } else { seq![] };
            if empty {
                XmlTok::Empty(name, a)
            } else {
                XmlTok::Start(name, a)
            }
        },
        RawTok::Text(b) => XmlTok::Text(lossy(b)),
        RawTok::Ref(b) => XmlTok::Ref(lossy(b)),
        RawTok::End => XmlTok::End,
        RawTok::Other => XmlTok::Other,
    }
}

/// The tokens of a document, or the text of the error the reader stops on.
pub open spec fn xml_tokens(raw: Seq<char>) -> Result<Seq<XmlTok>, Seq<char>> {
    match xml_raw_tokens(raw) {
        Ok(ts) => Ok(ts.map_values(|t: RawTok| tok_of_raw(t))),
        Err(e) => Err(e),
    }
}

pub open spec fn tokens_result_view(r: Result<Vec<XmlToken>, String>) -> Result<
    Seq<XmlTok>,
    Seq<char>,
> {
    match r {
        Ok(v) => Ok(toks_view(v@)),
        Err(e) => Err(e@),
    }
}

fn token_of_raw(t: &RawToken) -> (r: XmlToken)
    ensures
        r.tok() == tok_of_raw(t.raw()),
{
    match t {
        RawToken::Tag(empty, c, nl) => {
            let fits = *nl <= c.len();
            let name = if fits {
                let mut head: Vec<u8> = Vec::new();
                let mut i: usize = 0;
                while i < *nl
                    invariant
                        i <= *nl,
                        *nl <= c@.len(),
                        head@ == c@.take(i as int),
                    decreases *nl - i,
                {
                    head.push(c[i]);
                    i += 1;
                    assert(head@ =~= c@.take(i as int));
                }
                lossy_text(head.as_slice())
            } else {
                lossy_text(c.as_slice())
            };
            let a = if fits {
                tag_attributes(c.as_slice(), *nl)
            } else {
                Vec::new()
            };
            proof {
                if !fits {
                    assert(attrs_view(a@) =~= Seq::<(Seq<char>, Seq<char>)>::empty());
                }
            }
            if *empty {
                XmlToken::Empty(name, a)
            } else {
                XmlToken::Start(name, a)
            }
        },
        RawToken::Text(b) => XmlToken::Text(lossy_text(b.as_slice())),
        RawToken::Ref(b) => XmlToken::Ref(lossy_text(b.as_slice())),
        RawToken::End => XmlToken::End,
        RawToken::Other => XmlToken::Other,
    }
}

/// The document's tokens as `quick_xml` reads them.
fn read_xml_tokens(raw: &str) -> (r: Result<Vec<XmlToken>, String>)
    ensures
        tokens_result_view(r) == xml_tokens(raw@),
{
    let raws = match read_raw_tokens(raw) {
        Ok(v) => v,
        Err(e) => {
            return Err(e);
        },
    };
    let ghost rv = raws@.map_values(|t: RawToken| t.raw());
    let mut out: Vec<XmlToken> = Vec::new();
    let mut i: usize = 0;
    while i < raws.len()
        invariant
            i <= raws.len(),
            rv == raws@.map_values(|t: RawToken| t.raw()),
            toks_view(out@) == rv.take(i as int).map_values(|t: RawTok| tok_of_raw(t)),
        decreases raws.len() - i,
    {
        let tk = token_of_raw(&raws[i]);
        let ghost before = toks_view(out@);
        out.push(tk);
        proof {
            assert(toks_view(out@) =~= before.push(tk.tok()));
            assert(rv.take(i + 1).map_values(|t: RawTok| tok_of_raw(t)) =~= rv.take(i as int).map_values(
                |t: RawTok| tok_of_raw(t),
            ).push(tok_of_raw(rv[i as int])));
        }
        i += 1;
    }
    assert(rv.take(i as int) =~= rv);
    Ok(out)
}

// ── References ───────────────────────────────────────────────────────────────

pub open spec fn hex_val(c: char) -> Option<nat> {
    if '0' <= c <= '9' {
        Some((c as u32 - 48) as nat)
    } else if 'a' <= c <= 'f' {
        Some((c as u32 - 87) as nat)
    } else if 'A' <= c <= 'F' {
        Some((c as u32 - 55) as nat)
    } else {
        None
    }
}

pub open spec fn dec_val(c: char) -> Option<nat> {
    if '0' <= c <= '9' {
        Some((c as u32 - 48) as nat)
    } else {
        None
    }
}

/// Value of the digits `d` in base 16 (`hex`) or 10, if every one is a digit.
pub open spec fn radix_value(d: Seq<char>, hex: bool) -> Option<nat>
    decreases d.len(),
{
    if d.len() == 0 {
        Some(0)
    } else {
        let last = if hex {
            hex_val(d.last())
        } else {
            dec_val(d.last())
        };
        match (radix_value(d.drop_last(), hex), last) {
            (Some(v), Some(x)) => Some(v * (if hex {
                16nat
            } else {
                10nat
            }) + x),
            _ => None,
        }
    }
}

/// A character reference `#N` or `#xH`: non-empty digits whose value is a
/// non-zero Unicode scalar value.
pub open spec fn char_ref(n: Seq<char>) -> Option<char> {
    let hex = n.len() >= 2 && n[1] == 'x';
    let d = if hex {
        n.skip(2)
    } else {
        n.skip(1)
    };
    if n.len() >= 1 && n[0] == '#' && d.len() > 0 {
        match radix_value(d, hex) {
            Some(v) => if 0 < v < 0x1_0000_0000 && valid_scalar(v as u32) {
                Some((v as u32) as char)
            } else {
                None
            },
            None => None,
        }
    } else {
        None
    }
}

/// The character a reference stands for: one of the five predefined
/// entities, or a character reference.
pub open spec fn resolve_ref(n: Seq<char>) -> Option<char> {
    if n == "lt"@ {
        Some('<')
    } else if n == "gt"@ {
        Some('>')
    } else if n == "amp"@ {
        Some('&')
    } else if n == "apos"@ {
        Some('\'')
    } else if n == "quot"@ {
        Some('"')
    } else {
        char_ref(n)
    }
}

// ── Tree building ────────────────────────────────────────────────────────────

pub open spec fn is_xml_ws(c: char) -> bool {
    c == ' ' || c == '\t' || c == '\r' || c == '\n'
}

pub open spec fn trim_front(s: Seq<char>) -> Seq<char>
    decreases s.len(),
{
    if s.len() > 0 && is_xml_ws(s[0]) {
        trim_front(s.drop_first())
    } else {
        s
    }
}

pub open spec fn trim_back(s: Seq<char>) -> Seq<char>
    decreases s.len(),
{
    if s.len() > 0 && is_xml_ws(s.last()) {
        trim_back(s.drop_last())
    } else {
        s
    }
}

/// Text without the XML white space around it.
pub open spec fn xml_trim(s: Seq<char>) -> Seq<char> {
    trim_back(trim_front(s))
}

pub type Entries = Seq<(Seq<char>, JsonSpec)>;

/// Appends text to the `#text` entry (creating it as a string).
pub open spec fn add_text(m: Entries, t: Seq<char>) -> Entries {
    match map_get(m, "#text"@) {
        Some(JsonSpec::Str(e)) => map_insert(m, "#text"@, JsonSpec::Str(e + t)),
        _ => map_insert(m, "#text"@, JsonSpec::Str(t)),
    }
}

/// Adds a child element: the first under its name is stored as is, a
/// second turns the entry into an array, later ones are appended to it.
pub open spec fn insert_child(m: Entries, name: Seq<char>, child: JsonSpec) -> Entries {
    match map_get(m, name) {
        Some(JsonSpec::Array(a)) => map_insert(m, name, JsonSpec::Array(a.push(child))),
        Some(prev) => map_insert(m, name, JsonSpec::Array(seq![prev, child])),
        None => map_insert(m, name, child),
    }
}

/// Attributes as `@name` entries holding their raw values.
pub open spec fn attrs_map(a: Seq<(Seq<char>, Seq<char>)>) -> Entries
    decreases a.len(),
{
    if a.len() == 0 {
        seq![]
    } else {
        map_insert(attrs_map(a.drop_last()), "@"@ + a.last().0, JsonSpec::Str(a.last().1))
    }
}

/// The value of a closed element: its text alone if that is all it holds,
/// `null` if it holds nothing, its entries otherwise.
pub open spec fn finalize(m: Entries) -> JsonSpec {
    if m.len() == 1 && m[0].0 == "#text"@ && m[0].1 is Str {
        m[0].1
    } else if m.len() == 0 {
        JsonSpec::Null
    } else {
        JsonSpec::Object(m)
    }
}

/// Tree-building state: open elements with their entries so far, the text
/// read since the last tag, and the last element closed at the top level.
pub struct XmlBuild {
    pub stack: Seq<(Seq<char>, Entries)>,
    pub text: Seq<char>,
    pub root: Option<(Seq<char>, JsonSpec)>,
}

pub open spec fn build_start() -> XmlBuild {
    XmlBuild { stack: seq![], text: seq![], root: None }
}

/// Ends a run of text: trimmed and non-empty, it goes to the innermost
/// open element.
pub open spec fn flush(st: XmlBuild) -> XmlBuild {
    let t = xml_trim(st.text);
    let cleared = XmlBuild { text: seq![], ..st };
    if t.len() > 0 && st.stack.len() > 0 {
        let top = st.stack.last();
        XmlBuild { stack: st.stack.drop_last().push((top.0, add_text(top.1, t))), ..cleared }
    } else {
        cleared
    }
}

/// A closed element goes to its parent, or becomes the root.
pub open spec fn attach(st: XmlBuild, name: Seq<char>, child: JsonSpec) -> XmlBuild {
    if st.stack.len() > 0 {
        let top = st.stack.last();
        XmlBuild { stack: st.stack.drop_last().push((top.0, insert_child(top.1, name, child))), ..st }
    } else {
        XmlBuild { root: Some((name, child)), ..st }
    }
}

pub open spec fn build_step(st: XmlBuild, t: XmlTok) -> XmlBuild {
    match t {
        XmlTok::Text(x) => XmlBuild { text: st.text + x, ..st },
        XmlTok::Ref(n) => match resolve_ref(n) {
            Some(c) => XmlBuild { text: st.text.push(c), ..st },
            None => XmlBuild { text: st.text + "&"@ + n + ";"@, ..st },
        },
        XmlTok::Start(name, a) => {
            let f = flush(st);
            XmlBuild { stack: f.stack.push((name, attrs_map(a))), ..f }
        },
        XmlTok::Empty(name, a) => attach(flush(st), name, finalize(attrs_map(a))),
        XmlTok::End => {
            let f = flush(st);
            if f.stack.len() > 0 {
                let top = f.stack.last();
                attach(XmlBuild { stack: f.stack.drop_last(), ..f }, top.0, finalize(top.1))
            } else {
                f
            }
        },
        XmlTok::Other => flush(st),
    }
}

pub open spec fn build_run(t: Seq<XmlTok>) -> XmlBuild
    decreases t.len(),
{
    if t.len() == 0 {
        build_start()
    } else {
        build_step(build_run(t.drop_last()), t.last())
    }
}

/// The value of a token sequence: `{root: value}` for the last element
/// closed at the top level, none if there is no such element.
pub open spec fn xml_value(t: Seq<XmlTok>) -> Option<JsonSpec> {
    match build_run(t).root {
        Some((n, v)) => Some(JsonSpec::Object(seq![(n, v)])),
        None => None,
    }
}

/// Why an XML document could not be read.
#[derive(Debug)]
pub enum XmlError {
    /// The reader stopped on malformed XML (its message).
    Malformed(String),
    /// The document has no root element.
    NoRoot,
}

// ── Execution ────────────────────────────────────────────────────────────────

pub open spec fn stack_view(s: Seq<(String, Vec<(String, JsonValue)>)>) -> Seq<(Seq<char>, Entries)> {
    s.map_values(|p: (String, Vec<(String, JsonValue)>)| (p.0@, entries_view(p.1@)))
}

struct Build {
    stack: Vec<(String, Vec<(String, JsonValue)>)>,
    text: Vec<char>,
    root: Option<(String, JsonValue)>,
}

impl Build {
    spec fn view_of(&self) -> XmlBuild {
        XmlBuild {
            stack: stack_view(self.stack@),
            text: self.text@,
            root: match self.root {
                Some(r) => Some((r.0@, r.1.spec_of())),
                None => None,
            },
        }
    }
}

fn text_key() -> (k: String)
    ensures
        k@ == "#text"@,
{
    String::from_str("#text")
}

fn add_text_exec(m: &mut Vec<(String, JsonValue)>, t: &[char])
    ensures
        entries_view(final(m)@) == add_text(entries_view(old(m)@), t@),
{
    let k = text_key();
    let nv = match obj_get(m, "#text") {
        Some(JsonValue::Str(e)) => {
            let mut c = chars_of(e.as_str());
            crate::text::push_all(&mut c, t);
            JsonValue::Str(string_of(c.as_slice()))
        },
        _ => JsonValue::Str(string_of(t)),
    };
    obj_insert(m, k, nv);
}

fn insert_child_exec(m: &mut Vec<(String, JsonValue)>, name: String, child: JsonValue)
    ensures
        entries_view(final(m)@) == insert_child(entries_view(old(m)@), name@, child.spec_of()),
{
    let ghost cs = child.spec_of();
    let existing = match obj_get(m, name.as_str()) {
        Some(v) => Some(json_clone(v)),
        None => None,
    };
    let nv = match existing {
        Some(JsonValue::Array(a)) => {
            let mut a2 = a;
            let ghost before = a2@;
            a2.push(child);
            proof {
                lemma_items_spec(before, before.len() as int);
                lemma_items_spec(a2@, a2@.len() as int);
                assert(items_view(a2@) =~= items_view(before).push(cs));
            }
            JsonValue::Array(a2)
        },
        Some(prev) => {
            let ghost ps = prev.spec_of();
            let mut a2: Vec<JsonValue> = Vec::new();
            a2.push(prev);
            a2.push(child);
            proof {
                lemma_items_spec(a2@, a2@.len() as int);
                assert(items_view(a2@) =~= seq![ps, cs]);
            }
            JsonValue::Array(a2)
        },
        None => child,
    };
    obj_insert(m, name, nv);
}


fn is_xml_ws_exec(c: char) -> (b: bool)
    ensures
        b == is_xml_ws(c),
{
    c == ' ' || c == '\t' || c == '\r' || c == '\n'
}

proof fn lemma_trim_front(s: Seq<char>, i: int)
    requires
        0 <= i <= s.len(),
        forall|j: int| 0 <= j < i ==> is_xml_ws(s[j]),
    ensures
        trim_front(s) == trim_front(s.skip(i)),
    decreases i,
{
    if i > 0 {
        lemma_trim_front(s.drop_first(), i - 1);
        assert(s.drop_first().skip(i - 1) =~= s.skip(i));
    } else {
        assert(s.skip(0) =~= s);
    }
}

proof fn lemma_trim_back(s: Seq<char>, i: int)
    requires
        0 <= i <= s.len(),
        forall|j: int| i <= j < s.len() ==> is_xml_ws(s[j]),
    ensures
        trim_back(s) == trim_back(s.take(i)),
    decreases s.len() - i,
{
    if i < s.len() {
        lemma_trim_back(s.drop_last(), i);
        assert(s.drop_last().take(i) =~= s.take(i));
    } else {
        assert(s.take(i) =~= s);
    }
}

fn xml_trim_exec(s: &[char]) -> (r: Vec<char>)
    ensures
        r@ == xml_trim(s@),
{
    let mut a: usize = 0;
    while a < s.len() && is_xml_ws_exec(s[a])
        invariant
            a <= s.len(),
            forall|j: int| 0 <= j < a ==> is_xml_ws(s@[j]),
        decreases s.len() - a,
    {
        a += 1;
    }
    proof {
        lemma_trim_front(s@, a as int);
    }
    let ghost f = s@.skip(a as int);
    let mut b: usize = s.len();
    while b > a && is_xml_ws_exec(s[b - 1])
        invariant
            a <= b <= s.len(),
            forall|j: int| b <= j < s.len() ==> is_xml_ws(s@[j]),
        decreases b,
    {
        b -= 1;
    }
    proof {
        assert(trim_front(s@) == f);
        assert(a < s.len() ==> !is_xml_ws(f[0]));
        lemma_trim_back(f, b - a);
        assert(f.take(b - a) =~= s@.subrange(a as int, b as int));
    }
    crate::text::slice_copy(s, a, b)
}

fn attrs_map_exec(a: &Vec<(String, String)>) -> (m: Vec<(String, JsonValue)>)
    ensures
        entries_view(m@) == attrs_map(attrs_view(a@)),
{
    let mut m: Vec<(String, JsonValue)> = Vec::new();
    let mut i: usize = 0;
    while i < a.len()
        invariant
            i <= a.len(),
            entries_view(m@) == attrs_map(attrs_view(a@.take(i as int))),
        decreases a.len() - i,
    {
        let mut k = chars_of("@");
        let kc = chars_of(a[i].0.as_str());
        crate::text::push_all(&mut k, kc.as_slice());
        let v = a[i].1.clone();
        proof {
            let t = attrs_view(a@.take(i + 1));
            assert(t.drop_last() =~= attrs_view(a@.take(i as int)));
            assert(t.last() == (a@[i as int].0@, a@[i as int].1@));
        }
        obj_insert(&mut m, string_of(k.as_slice()), JsonValue::Str(v));
        i += 1;
    }
    assert(a@.take(i as int) =~= a@);
    m
}

fn finalize_exec(m: Vec<(String, JsonValue)>) -> (v: JsonValue)
    ensures
        v.spec_of() == finalize(entries_view(m@)),
{
    proof {
        crate::json::lemma_entries_spec(m@, m@.len() as int);
    }
    if m.len() == 1 && is_lit(chars_of(m[0].0.as_str()).as_slice(), "#text") {
        match &m[0].1 {
            JsonValue::Str(s) => {
                return JsonValue::Str(s.clone());
            },
            _ => {},
        }
    }
    if m.len() == 0 {
        JsonValue::Null
    } else {
        JsonValue::Object(m)
    }
}

fn flush_exec(b: &mut Build)
    ensures
        final(b).view_of() == flush(old(b).view_of()),
{
    let t = xml_trim_exec(b.text.as_slice());
    if t.len() > 0 && b.stack.len() > 0 {
        let ghost sv = stack_view(b.stack@);
        let (name, mut m) = b.stack.pop().unwrap();
        add_text_exec(&mut m, t.as_slice());
        b.stack.push((name, m));
        proof {
            assert(stack_view(b.stack@) =~= sv.drop_last().push(
                (sv.last().0, add_text(sv.last().1, t@)),
            ));
        }
    }
    b.text = Vec::new();
}

fn attach_exec(b: &mut Build, name: String, child: JsonValue)
    ensures
        final(b).view_of() == attach(old(b).view_of(), name@, child.spec_of()),
{
    if b.stack.len() > 0 {
        let ghost sv = stack_view(b.stack@);
        let ghost cs = child.spec_of();
        let (pname, mut m) = b.stack.pop().unwrap();
        insert_child_exec(&mut m, name, child);
        b.stack.push((pname, m));
        proof {
            assert(stack_view(b.stack@) =~= sv.drop_last().push(
                (sv.last().0, insert_child(sv.last().1, name@, cs)),
            ));
        }
    } else {
        b.root = Some((name, child));
    }
}

proof fn lemma_radix_prefix(d: Seq<char>, hex: bool, k: int)
    requires
        0 <= k <= d.len(),
        radix_value(d, hex) is Some,
    ensures
        radix_value(d.take(k), hex) is Some,
        radix_value(d.take(k), hex)->0 <= radix_value(d, hex)->0,
    decreases d.len() - k,
{
    if k < d.len() {
        assert(d.drop_last().take(k) =~= d.take(k));
        lemma_radix_prefix(d.drop_last(), hex, k);
    } else {
        assert(d.take(k) =~= d);
    }
}

fn digit_value(c: char, hex: bool) -> (r: Option<u64>)
    ensures
        match r {
            Some(x) => (if hex { hex_val(c) } else { dec_val(c) }) == Some(x as nat) && x < 16,
            None => (if hex { hex_val(c) } else { dec_val(c) }) is None,
        },
{
    if '0' <= c && c <= '9' {
        Some((c as u32 - 48) as u64)
    } else if hex && 'a' <= c && c <= 'f' {
        Some((c as u32 - 87) as u64)
    } else if hex && 'A' <= c && c <= 'F' {
        Some((c as u32 - 55) as u64)
    } else {
        None
    }
}

fn char_ref_exec(n: &[char]) -> (r: Option<char>)
    ensures
        r == char_ref(n@),
{
    if n.len() < 1 || n[0] != '#' {
        return None;
    }
    let hex = n.len() >= 2 && n[1] == 'x';
    let a: usize = if hex { 2 } else { 1 };
    if a >= n.len() {
        return None;
    }
    let ghost d = n@.skip(a as int);
    let base: u64 = if hex { 16 } else { 10 };
    let mut v: u64 = 0;
    let mut k = a;
    assert(d.take(0) =~= Seq::<char>::empty());
    while k < n.len()
        invariant
            a <= k <= n.len(),
            d == n@.skip(a as int),
            n@.len() >= 1 && n@[0] == '#',
            hex == (n@.len() >= 2 && n@[1] == 'x'),
            a == (if hex { 2usize } else { 1usize }),
            base == (if hex { 16u64 } else { 10u64 }),
            radix_value(d.take(k - a), hex) == Some(v as nat),
            v < 0x1_0000_0000,
        decreases n.len() - k,
    {
        assert(d.take(k - a + 1).drop_last() =~= d.take(k - a));
        assert(d.take(k - a + 1).last() == n@[k as int]);
        match digit_value(n[k], hex) {
            None => {
                proof {
                    if radix_value(d, hex) is Some {
                        lemma_radix_prefix(d, hex, k - a + 1);
                    }
                }
                return None;
            },
            Some(x) => {
                let nv = v * base + x;
                if nv >= 0x1_0000_0000 {
                    proof {
                        if radix_value(d, hex) is Some {
                            lemma_radix_prefix(d, hex, k - a + 1);
                        }
                    }
                    return None;
                }
                v = nv;
            },
        }
        k += 1;
    }
    assert(d.take(k - a) =~= d);
    if v == 0 {
        return None;
    }
    char_from_u32(v as u32)
}

fn resolve_ref_exec(n: &String) -> (r: Option<char>)
    ensures
        r == resolve_ref(n@),
{
    let c = chars_of(n.as_str());
    if is_lit(c.as_slice(), "lt") {
        Some('<')
    } else if is_lit(c.as_slice(), "gt") {
        Some('>')
    } else if is_lit(c.as_slice(), "amp") {
        Some('&')
    } else if is_lit(c.as_slice(), "apos") {
        Some('\'')
    } else if is_lit(c.as_slice(), "quot") {
        Some('"')
    } else {
        char_ref_exec(c.as_slice())
    }
}

fn build_step_exec(b: &mut Build, t: &XmlToken)
    ensures
        final(b).view_of() == build_step(old(b).view_of(), t.tok()),
{
    match t {
        XmlToken::Text(x) => {
            let xc = chars_of(x.as_str());
            crate::text::push_all(&mut b.text, xc.as_slice());
        },
        XmlToken::Ref(n) => match resolve_ref_exec(n) {
            Some(c) => b.text.push(c),
            None => {
                crate::text::push_str(&mut b.text, "&");
                crate::text::push_str(&mut b.text, n.as_str());
                crate::text::push_str(&mut b.text, ";");
            },
        },
        XmlToken::Start(name, a) => {
            flush_exec(b);
            let ghost sv = stack_view(b.stack@);
            let m = attrs_map_exec(a);
            b.stack.push((name.clone(), m));
            proof {
                assert(stack_view(b.stack@) =~= sv.push((name@, attrs_map(attrs_view(a@)))));
            }
        },
        XmlToken::Empty(name, a) => {
            flush_exec(b);
            let m = attrs_map_exec(a);
            let child = finalize_exec(m);
            attach_exec(b, name.clone(), child);
        },
        XmlToken::End => {
            flush_exec(b);
            if b.stack.len() > 0 {
                let ghost sv = stack_view(b.stack@);
                let (name, m) = b.stack.pop().unwrap();
                proof {
                    assert(stack_view(b.stack@) =~= sv.drop_last());
                }
                let child = finalize_exec(m);
                attach_exec(b, name, child);
            }
        },
        XmlToken::Other => flush_exec(b),
    }
}

/// The value of a token sequence (see [`xml_value`]): `{root: value}`, or
/// `NoRoot` when no element closes at the top level.
pub fn xml_value_from_tokens(tokens: &Vec<XmlToken>) -> (r: Result<JsonValue, XmlError>)
    ensures
        match xml_value(toks_view(tokens@)) {
            Some(v) => r matches Ok(x) && x.spec_of() == v,
            None => r matches Err(XmlError::NoRoot),
        },
{
    let mut b = Build { stack: Vec::new(), text: Vec::new(), root: None };
    let mut i: usize = 0;
    assert(stack_view(b.stack@) =~= Seq::<(Seq<char>, Entries)>::empty());
    assert(b.text@ =~= Seq::<char>::empty());
    assert(b.view_of() == build_start());
    assert(toks_view(tokens@).take(0) =~= Seq::<XmlTok>::empty());
    while i < tokens.len()
        invariant
            i <= tokens.len(),
            b.view_of() == build_run(toks_view(tokens@).take(i as int)),
        decreases tokens.len() - i,
    {
        build_step_exec(&mut b, &tokens[i]);
        proof {
            let tv = toks_view(tokens@);
            assert(tv.take(i + 1).drop_last() =~= tv.take(i as int));
            assert(tv.take(i + 1).last() == tokens@[i as int].tok());
        }
        i += 1;
    }
    assert(toks_view(tokens@).take(i as int) =~= toks_view(tokens@));
    match b.root {
        Some((n, v)) => {
            let ghost ns = n@;
            let ghost vs = v.spec_of();
            let mut o: Vec<(String, JsonValue)> = Vec::new();
            o.push((n, v));
            proof {
                crate::json::lemma_entries_spec(o@, 1);
                assert(entries_view(o@) =~= seq![(ns, vs)]);
            }
            Ok(JsonValue::Object(o))
        },
        None => Err(XmlError::NoRoot),
    }
}

/// `xml_to_value`: reads the document's tokens with `quick_xml` and builds
/// its value; a reader error is `Malformed` with the reader's message.
pub fn xml_to_value(raw: &str) -> (r: Result<JsonValue, XmlError>)
    ensures
        match xml_tokens(raw@) {
            Err(e) => r matches Err(XmlError::Malformed(m)) && m@ == e,
            Ok(t) => match xml_value(t) {
                Some(v) => r matches Ok(x) && x.spec_of() == v,
                None => r matches Err(XmlError::NoRoot),
            },
        },
{
    match read_xml_tokens(raw) {
        Err(e) => Err(XmlError::Malformed(e)),
        Ok(t) => xml_value_from_tokens(&t),
    }
}

// ── Writing XML ──────────────────────────────────────────────────────────────

pub open spec fn esc_char(c: char) -> Seq<char> {
    if c == '&' {
        "&amp;"@
    } else if c == '<' {
        "&lt;"@
    } else if c == '>' {
        "&gt;"@
    } else if c == '"' {
        "&quot;"@
    } else {
        seq![c]
    }
}

/// `&`, `<`, `>` and `"` written as entities.
pub open spec fn xml_escape(s: Seq<char>) -> Seq<char>
    decreases s.len(),
{
    if s.len() == 0 {
        seq![]
    } else {
        xml_escape(s.drop_last()) + esc_char(s.last())
    }
}

/// Whether `char::is_alphanumeric` holds of `c` (Unicode Alphabetic or
/// Numeric).
pub uninterp spec fn alnum(c: char) -> bool;

/// `char::is_alphanumeric`; on ASCII it is exactly the letters and digits.
#[verifier::external_body]
fn is_alnum(c: char) -> (b: bool)
    ensures
        b == alnum(c),
        (c as u32) < 128 ==> (b <==> (crate::text::is_ascii_alpha(c) || crate::text::is_ascii_digit(c))),
{
    c.is_alphanumeric()
}

pub open spec fn name_char(c: char) -> char {
    if alnum(c) || c == '_' || c == '-' || c == '.' {
        c
    } else {
        '_'
    }
}

pub open spec fn trim_us_front(s: Seq<char>) -> Seq<char>
    decreases s.len(),
{
    if s.len() > 0 && s[0] == '_' {
        trim_us_front(s.drop_first())
    } else {
        s
    }
}

pub open spec fn trim_us_back(s: Seq<char>) -> Seq<char>
    decreases s.len(),
{
    if s.len() > 0 && s.last() == '_' {
        trim_us_back(s.drop_last())
    } else {
        s
    }
}

/// A valid element name for a key: other characters become `_`, outer
/// `_` are dropped, and an empty or digit-led result is prefixed with `item`.
pub open spec fn xml_name(s: Seq<char>) -> Seq<char> {
    let cl = trim_us_back(trim_us_front(s.map_values(|c: char| name_char(c))));
    if cl.len() == 0 {
        "item"@
    } else if crate::text::is_ascii_digit(cl[0]) {
        "item_"@ + cl
    } else {
        cl
    }
}

/// A character of an element name made from a key: a letter or digit
/// (`char::is_alphanumeric`, or an ASCII letter), `_`, `-` or `.`.
pub open spec fn name_piece(c: char) -> bool {
    alnum(c) || crate::text::is_ascii_alpha(c) || c == '_' || c == '-' || c == '.'
}

proof fn lemma_trim_us_front(s: Seq<char>)
    ensures
        exists|k: int| 0 <= k <= s.len() && trim_us_front(s) == s.skip(k),
        trim_us_front(s).len() > 0 ==> trim_us_front(s)[0] != '_',
    decreases s.len(),
{
    if s.len() > 0 && s[0] == '_' {
        lemma_trim_us_front(s.drop_first());
        let k = choose|k: int| 0 <= k <= s.drop_first().len() && trim_us_front(s.drop_first()) == s.drop_first().skip(k);
        assert(s.drop_first().skip(k) =~= s.skip(k + 1));
    } else {
        assert(s.skip(0) =~= s);
    }
}

proof fn lemma_trim_us_back(s: Seq<char>)
    ensures
        exists|k: int| 0 <= k <= s.len() && trim_us_back(s) == s.take(k),
    decreases s.len(),
{
    if s.len() > 0 && s.last() == '_' {
        lemma_trim_us_back(s.drop_last());
        let k = choose|k: int| 0 <= k <= s.drop_last().len() && trim_us_back(s.drop_last()) == s.drop_last().take(k);
        assert(s.drop_last().take(k) =~= s.take(k));
    } else {
        assert(s.take(s.len() as int) =~= s);
    }
}

/// The element name made from a key is never empty, starts with neither a
/// digit nor `_`, and holds only letters, digits, `_`, `-` and `.`.
pub proof fn lemma_xml_name_shape(s: Seq<char>)
    ensures
        xml_name(s).len() > 0,
        !crate::text::is_ascii_digit(xml_name(s)[0]),
        xml_name(s)[0] != '_',
        forall|i: int| 0 <= i < xml_name(s).len() ==> name_piece(#[trigger] xml_name(s)[i]),
{
    let m = s.map_values(|c: char| name_char(c));
    assert forall|i: int| 0 <= i < m.len() implies name_piece(#[trigger] m[i]) by {
        assert(m[i] == name_char(s[i]));
    }
    let f = trim_us_front(m);
    lemma_trim_us_front(m);
    let a = choose|k: int| 0 <= k <= m.len() && f == m.skip(k);
    let cl = trim_us_back(f);
    lemma_trim_us_back(f);
    let b = choose|k: int| 0 <= k <= f.len() && cl == f.take(k);
    assert forall|i: int| 0 <= i < cl.len() implies name_piece(#[trigger] cl[i]) by {
        assert(cl[i] == f[i]);
        assert(f[i] == m[i + a]);
    }
    if cl.len() > 0 {
        assert(cl[0] == f[0]);
    }
    reveal_strlit("item");
    reveal_strlit("item_");
    let n = xml_name(s);
    if cl.len() == 0 {
        assert(n == "item"@);
    } else if crate::text::is_ascii_digit(cl[0]) {
        assert(n == "item_"@ + cl);
        assert forall|i: int| 0 <= i < n.len() implies name_piece(#[trigger] n[i]) by {
            if i >= 5 {
                assert(n[i] == cl[i - 5]);
            }
        }
    }
}

/// How a scalar is written as element text.
pub open spec fn scalar_text(v: JsonSpec) -> Seq<char> {
    match v {
        JsonSpec::Str(s) => s,
        _ => crate::json::json_compact(v),
    }
}

pub open spec fn is_attr_key(k: Seq<char>) -> bool {
    k.len() > 0 && k[0] == '@'
}

/// Entries that are not attributes.
pub open spec fn child_entries(m: Entries) -> Entries {
    m.filter(|e: (Seq<char>, JsonSpec)| !is_attr_key(e.0))
}

/// ` name="value"` for each `@name` entry holding a string.
pub open spec fn xml_attrs(m: Entries, n: int) -> Seq<char>
    decreases n,
{
    if n <= 0 || n > m.len() {
        seq![]
    } else {
        xml_attrs(m, n - 1) + if is_attr_key(m[n - 1].0) && m[n - 1].1 is Str {
            " "@ + xml_name(m[n - 1].0.skip(1)) + "=\""@ + xml_escape(m[n - 1].1->Str_0) + "\""@
        } else {
            seq![]
        }
    }
}

/// The element(s) written for `v` under `name`, indented by `pad`: an
/// array repeats the element, an object gives attributes and children,
/// `null` an empty element, a scalar its escaped text.
pub open spec fn xml_node(name: Seq<char>, v: JsonSpec, pad: Seq<char>) -> Seq<char>
    decreases v, 0int,
{
    match v {
        JsonSpec::Array(a) => xml_items(name, a, pad, a.len() as int),
        JsonSpec::Object(m) => {
            let open = pad + "<"@ + name + xml_attrs(m, m.len() as int);
            let ch = child_entries(m);
            if ch.len() == 0 {
                open + "/>\n"@
            } else if ch.len() == 1 && ch[0].0 == "#text"@ && ch[0].1 is Str {
                open + ">"@ + xml_escape(ch[0].1->Str_0) + "</"@ + name + ">\n"@
            } else {
                open + ">\n"@ + xml_children(m, pad, m.len() as int) + pad + "</"@ + name + ">\n"@
            }
        },
        JsonSpec::Null => pad + "<"@ + name + "/>\n"@,
        _ => pad + "<"@ + name + ">"@ + xml_escape(scalar_text(v)) + "</"@ + name + ">\n"@,
    }
}

pub open spec fn xml_items(name: Seq<char>, a: Seq<JsonSpec>, pad: Seq<char>, n: int) -> Seq<char>
    decreases a, n,
{
    if n <= 0 || n > a.len() {
        seq![]
    } else {
        xml_items(name, a, pad, n - 1) + xml_node(name, a[n - 1], pad)
    }
}

pub open spec fn xml_children(m: Entries, pad: Seq<char>, n: int) -> Seq<char>
    decreases m, n,
{
    if n <= 0 || n > m.len() {
        seq![]
    } else {
        xml_children(m, pad, n - 1) + if is_attr_key(m[n - 1].0) {
            seq![]
        } else if m[n - 1].0 == "#text"@ {
            match m[n - 1].1 {
                JsonSpec::Str(t) => pad + "  "@ + xml_escape(t) + "\n"@,
                _ => seq![],
            }
        } else {
            xml_node(xml_name(m[n - 1].0), m[n - 1].1, pad + "  "@)
        }
    }
}

/// The XML document for a value: an object with a single entry names the
/// root element after its key, anything else sits under `<root>`.
pub open spec fn value_xml(v: JsonSpec) -> Seq<char> {
    "<?xml version=\"1.0\" encoding=\"UTF-8\"?>\n"@ + match v {
        JsonSpec::Object(m) => if m.len() == 1 {
            xml_node(xml_name(m[0].0), m[0].1, seq![])
        } else {
            xml_node("root"@, v, seq![])
        },
        _ => xml_node("root"@, v, seq![]),
    }
}

fn push_escaped(out: &mut Vec<char>, s: &[char])
    ensures
        final(out)@ == old(out)@ + xml_escape(s@),
{
    let ghost start = out@;
    let mut i: usize = 0;
    while i < s.len()
        invariant
            i <= s.len(),
            out@ == start + xml_escape(s@.take(i as int)),
        decreases s.len() - i,
    {
        assert(s@.take(i + 1).drop_last() =~= s@.take(i as int));
        let c = s[i];
        if c == '&' {
            crate::text::push_str(out, "&amp;");
        } else if c == '<' {
            crate::text::push_str(out, "&lt;");
        } else if c == '>' {
            crate::text::push_str(out, "&gt;");
        } else if c == '"' {
            crate::text::push_str(out, "&quot;");
        } else {
            out.push(c);
        }
        assert(out@ =~= start + xml_escape(s@.take(i + 1)));
        i += 1;
    }
    assert(s@.take(i as int) =~= s@);
}

/// `xml_escape` of a string.
pub fn xml_escape_exec(s: &str) -> (r: String)
    ensures
        r@ == xml_escape(s@),
{
    let c = chars_of(s);
    let mut out: Vec<char> = Vec::new();
    push_escaped(&mut out, c.as_slice());
    string_of(out.as_slice())
}

proof fn lemma_us_front(s: Seq<char>, i: int)
    requires
        0 <= i <= s.len(),
        forall|j: int| 0 <= j < i ==> s[j] == '_',
    ensures
        trim_us_front(s) == trim_us_front(s.skip(i)),
    decreases i,
{
    if i > 0 {
        lemma_us_front(s.drop_first(), i - 1);
        assert(s.drop_first().skip(i - 1) =~= s.skip(i));
    } else {
        assert(s.skip(0) =~= s);
    }
}

proof fn lemma_us_back(s: Seq<char>, i: int)
    requires
        0 <= i <= s.len(),
        forall|j: int| i <= j < s.len() ==> s[j] == '_',
    ensures
        trim_us_back(s) == trim_us_back(s.take(i)),
    decreases s.len() - i,
{
    if i < s.len() {
        lemma_us_back(s.drop_last(), i);
        assert(s.drop_last().take(i) =~= s.take(i));
    } else {
        assert(s.take(i) =~= s);
    }
}

fn xml_name_exec(s: &[char]) -> (r: Vec<char>)
    ensures
        r@ == xml_name(s@),
{
    let mut m: Vec<char> = Vec::new();
    let mut i: usize = 0;
    while i < s.len()
        invariant
            i <= s.len(),
            m@ == s@.take(i as int).map_values(|c: char| name_char(c)),
        decreases s.len() - i,
    {
        let c = s[i];
        let keep = is_alnum(c) || c == '_' || c == '-' || c == '.';
        m.push(if keep { c } else { '_' });
        i += 1;
        assert(m@ =~= s@.take(i as int).map_values(|c: char| name_char(c)));
    }
    assert(s@.take(i as int) =~= s@);
    let ghost mv = m@;
    let mut a: usize = 0;
    while a < m.len() && m[a] == '_'
        invariant
            a <= m.len(),
            forall|j: int| 0 <= j < a ==> m@[j] == '_',
        decreases m.len() - a,
    {
        a += 1;
    }
    proof {
        lemma_us_front(mv, a as int);
    }
    let ghost f = mv.skip(a as int);
    let mut b: usize = m.len();
    while b > a && m[b - 1] == '_'
        invariant
            a <= b <= m.len(),
            forall|j: int| b <= j < m.len() ==> m@[j] == '_',
        decreases b,
    {
        b -= 1;
    }
    proof {
        assert(trim_us_front(mv) == f);
        assert(a < m.len() ==> f[0] != '_');
        lemma_us_back(f, b - a);
        assert(f.take(b - a) =~= mv.subrange(a as int, b as int));
    }
    let cl = crate::text::slice_copy(m.as_slice(), a, b);
    if cl.len() == 0 {
        chars_of("item")
    } else if '0' <= cl[0] && cl[0] <= '9' {
        let mut r = chars_of("item_");
        crate::text::push_all(&mut r, cl.as_slice());
        r
    } else {
        cl
    }
}

fn push_attrs(out: &mut Vec<char>, m: &Vec<(String, JsonValue)>)
    ensures
        final(out)@ == old(out)@ + xml_attrs(entries_view(m@), m@.len() as int),
{
    let ghost ev = entries_view(m@);
    proof {
        crate::json::lemma_entries_spec(m@, m@.len() as int);
    }
    let ghost start = out@;
    let mut i: usize = 0;
    while i < m.len()
        invariant
            i <= m.len(),
            ev == entries_view(m@),
            ev.len() == m@.len(),
            forall|j: int| 0 <= j < m@.len() ==> #[trigger] ev[j] == (m@[j].0@, m@[j].1.spec_of()),
            out@ == start + xml_attrs(ev, i as int),
        decreases m.len() - i,
    {
        let k = chars_of(m[i].0.as_str());
        if k.len() > 0 && k[0] == '@' {
            match &m[i].1 {
                JsonValue::Str(v) => {
                    crate::text::push_str(out, " ");
                    let rest = crate::text::slice_copy(k.as_slice(), 1, k.len());
                    assert(rest@ =~= k@.skip(1));
                    let nm = xml_name_exec(rest.as_slice());
                    crate::text::push_all(out, nm.as_slice());
                    crate::text::push_str(out, "=\"");
                    let vc = chars_of(v.as_str());
                    push_escaped(out, vc.as_slice());
                    crate::text::push_str(out, "\"");
                },
                _ => {},
            }
        }
        assert(out@ =~= start + xml_attrs(ev, i + 1));
        i += 1;
    }
}

/// Number of child (non-attribute) entries, and where the first one is.
fn child_summary(m: &Vec<(String, JsonValue)>) -> (r: (usize, usize))
    ensures
        r.0 == child_entries(entries_view(m@)).len(),
        r.0 > 0 ==> r.1 < m@.len() && child_entries(entries_view(m@))[0] == entries_view(m@)[r.1 as int],
{
    let ghost ev = entries_view(m@);
    let ghost pred = |e: (Seq<char>, JsonSpec)| !is_attr_key(e.0);
    proof {
        crate::json::lemma_entries_spec(m@, m@.len() as int);
    }
    let mut cnt: usize = 0;
    let mut first: usize = 0;
    let mut i: usize = 0;
    assert(ev.take(0).filter(pred) =~= Seq::<(Seq<char>, JsonSpec)>::empty()) by {
        reveal(Seq::filter);
    }
    while i < m.len()
        invariant
            i <= m.len(),
            ev == entries_view(m@),
            ev.len() == m@.len(),
            forall|j: int| 0 <= j < m@.len() ==> #[trigger] ev[j] == (m@[j].0@, m@[j].1.spec_of()),
            pred == (|e: (Seq<char>, JsonSpec)| !is_attr_key(e.0)),
            cnt == ev.take(i as int).filter(pred).len(),
            cnt <= i,
            cnt > 0 ==> first < i && ev.take(i as int).filter(pred)[0] == ev[first as int],
        decreases m.len() - i,
    {
        let k = chars_of(m[i].0.as_str());
        let attr = k.len() > 0 && k[0] == '@';
        proof {
            assert(ev.take(i + 1) =~= ev.take(i as int).push(ev[i as int]));
            ev.take(i as int).lemma_filter_push(ev[i as int], pred);
        }
        if !attr {
            if cnt == 0 {
                first = i;
            }
            cnt += 1;
        }
        i += 1;
    }
    assert(ev.take(i as int) =~= ev);
    (cnt, first)
}

fn push_tag(out: &mut Vec<char>, pad: &[char], open: &str, name: &[char], close: &str)
    ensures
        final(out)@ == old(out)@ + pad@ + open@ + name@ + close@,
{
    crate::text::push_all(out, pad);
    crate::text::push_str(out, open);
    crate::text::push_all(out, name);
    crate::text::push_str(out, close);
}

/// Appends `xml_node(name, v, pad)`.
#[verifier::rlimit(50)]
fn push_xml_node(out: &mut Vec<char>, name: &[char], v: &JsonValue, pad: &Vec<char>)
    ensures
        final(out)@ == old(out)@ + xml_node(name@, v.spec_of(), pad@),
    decreases v,
{
    let ghost start = out@;
    match v {
        JsonValue::Array(a) => {
            proof {
                lemma_items_spec(a@, a@.len() as int);
            }
            let mut i: usize = 0;
            while i < a.len()
                invariant
                    i <= a.len(),
                    out@ == start + xml_items(name@, items_view(a@), pad@, i as int),
                    items_view(a@).len() == a@.len(),
                    forall|j: int| 0 <= j < a@.len() ==> #[trigger] items_view(a@)[j] == a@[j].spec_of(),
                    *v == JsonValue::Array(*a),
                decreases a.len() - i,
            {
                proof {
                    let ghost arr = *a;
                    assert(decreases_to!(*v => (*v)->Array_0));
                    assert(decreases_to!(arr => arr@));
                    assert(decreases_to!(arr@ => arr@[i as int]));
                }
                push_xml_node(out, name, &a[i], pad);
                i += 1;
            }
        },
        JsonValue::Object(m) => {
            let ghost ev = entries_view(m@);
            proof {
                crate::json::lemma_entries_spec(m@, m@.len() as int);
            }
            crate::text::push_all(out, pad.as_slice());
            crate::text::push_str(out, "<");
            crate::text::push_all(out, name);
            push_attrs(out, m);
            let (cnt, first) = child_summary(m);
            if cnt == 0 {
                crate::text::push_str(out, "/>\n");
                return;
            }
            if cnt == 1 && is_lit(chars_of(m[first].0.as_str()).as_slice(), "#text") {
                match &m[first].1 {
                    JsonValue::Str(t) => {
                        crate::text::push_str(out, ">");
                        push_escaped(out, chars_of(t.as_str()).as_slice());
                        push_tag(out, &[], "</", name, ">\n");
                        return;
                    },
                    _ => {},
                }
            }
            crate::text::push_str(out, ">\n");
            let ghost mid = out@;
            let mut inner = pad.clone();
            crate::text::push_str(&mut inner, "  ");
            let mut i: usize = 0;
            while i < m.len()
                invariant
                    i <= m.len(),
                    ev == entries_view(m@),
                    ev.len() == m@.len(),
                    forall|j: int| 0 <= j < m@.len() ==> #[trigger] ev[j] == (m@[j].0@, m@[j].1.spec_of()),
                    out@ == mid + xml_children(ev, pad@, i as int),
                    inner@ == pad@ + "  "@,
                    *v == JsonValue::Object(*m),
                decreases m.len() - i,
            {
                let k = chars_of(m[i].0.as_str());
                if k.len() > 0 && k[0] == '@' {
                } else if is_lit(k.as_slice(), "#text") {
                    match &m[i].1 {
                        JsonValue::Str(t) => {
                            crate::text::push_all(out, inner.as_slice());
                            push_escaped(out, chars_of(t.as_str()).as_slice());
                            crate::text::push_str(out, "\n");
                        },
                        _ => {},
                    }
                } else {
                    let nm = xml_name_exec(k.as_slice());
                    proof {
                        let ghost obj = *m;
                        let ghost entry = obj@[i as int];
                        assert(decreases_to!(*v => (*v)->Object_0));
                        assert(decreases_to!(obj => obj@));
                        assert(decreases_to!(obj@ => entry));
                        assert(decreases_to!(entry => entry.1));
                    }
                    push_xml_node(out, nm.as_slice(), &m[i].1, &inner);
                }
                assert(out@ =~= mid + xml_children(ev, pad@, i + 1));
                i += 1;
            }
            push_tag(out, pad.as_slice(), "</", name, ">\n");
        },
        JsonValue::Null => push_tag(out, pad.as_slice(), "<", name, "/>\n"),
        JsonValue::Str(t) => {
            push_tag(out, pad.as_slice(), "<", name, ">");
            push_escaped(out, chars_of(t.as_str()).as_slice());
            push_tag(out, &[], "</", name, ">\n");
        },
        _ => {
            push_tag(out, pad.as_slice(), "<", name, ">");
            let mut txt: Vec<char> = Vec::new();
            crate::json::push_json(&mut txt, v);
            assert(txt@ =~= crate::json::json_compact(v.spec_of()));
            push_escaped(out, txt.as_slice());
            push_tag(out, &[], "</", name, ">\n");
        },
    }
}

/// The XML document for a value (see [`value_xml`]).
pub fn value_to_xml(v: &JsonValue) -> (r: String)
    ensures
        r@ == value_xml(v.spec_of()),
{
    let mut out = chars_of("<?xml version=\"1.0\" encoding=\"UTF-8\"?>\n");
    let pad: Vec<char> = Vec::new();
    match v {
        JsonValue::Object(m) => {
            proof {
                crate::json::lemma_entries_spec(m@, m@.len() as int);
            }
            if m.len() == 1 {
                let nm = xml_name_exec(chars_of(m[0].0.as_str()).as_slice());
                push_xml_node(&mut out, nm.as_slice(), &m[0].1, &pad);
            } else {
                push_xml_node(&mut out, chars_of("root").as_slice(), v, &pad);
            }
        },
        _ => push_xml_node(&mut out, chars_of("root").as_slice(), v, &pad),
    }
    string_of(out.as_slice())
}

} // verus!
