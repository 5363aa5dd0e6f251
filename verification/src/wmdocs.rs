//! Watermarks that keep a document's format. Containers (DOCX, PPTX, XLSX,
//! ODT, ODS, ODP, EPUB) get the layer as an image inside the document; HTML
//! and SVG get it as a data URL over their content; plain-text formats get
//! the watermark's text in their own syntax. All edits are targeted text
//! edits of the XML parts.
use vstd::prelude::*;
use base64::engine::general_purpose::STANDARD;
use base64::Engine;
use crate::json::map_get;
use crate::package::{put_spec, text_spec, Package, PkgSpec};
use crate::text::{
    chars_of, contains, find, find_exec, find_from, find_from_exec, lemma_find, lemma_find_from,
    lemma_rfind, occurs_at, push_all, push_str, replace_all, replace_first, replace_first_exec,
    is_lit, rfind, rfind_exec, slice_copy, string_of, text_bytes, utf8_of,
};

verus! {

// ── Attributes and tags ──────────────────────────────────────────────────────

/// The value of `name="…"` in a tag.
pub open spec fn attr_spec(tag: Seq<char>, name: Seq<char>) -> Option<Seq<char>> {
    let key = name + "=\""@;
    match find(tag, key) {
        None => None,
        Some(i) => {
            let start = i + key.len();
            match find_from(tag, "\""@, start) {
                Some(e) => Some(tag.subrange(start, e)),
                None => None,
            }
        },
    }
}

/// The value of attribute `name` in a tag (`attr`).
pub fn attr(tag: &[char], name: &str) -> (r: Option<Vec<char>>)
    ensures
        match r {
            Some(v) => attr_spec(tag@, name@) == Some(v@),
            None => attr_spec(tag@, name@) is None,
        },
{
    let mut key = chars_of(name);
    push_str(&mut key, "=\"");
    let q = chars_of("\"");
    proof {
        lemma_find(tag@, key@);
    }
    match find_exec(tag, key.as_slice()) {
        None => None,
        Some(i) => {
            assert(key.len() == key@.len() && tag.len() == tag@.len());
            let start = i + key.len();
            proof {
                lemma_find_from(tag@, q@, start as int);
            }
            match find_from_exec(tag, q.as_slice(), start) {
                Some(e) => Some(slice_copy(tag, start, e)),
                None => None,
            }
        },
    }
}

/// Characters that may follow a tag's name.
pub open spec fn ends_name(c: char) -> bool {
    c == ' ' || c == '/' || c == '>' || c == '\n' || c == '\r' || c == '\t'
}

/// Start and end (the `>`) of the first tag named exactly `prefix` (a `<`
/// and a name) at or after `from`: an occurrence followed by another name
/// character is skipped.
pub open spec fn open_tag_from(xml: Seq<char>, prefix: Seq<char>, from: int) -> Option<(int, int)>
    decreases xml.len() - from,
{
    if prefix.len() == 0 || from < 0 {
        None
    } else {
        match find_from(xml, prefix, from) {
            None => None,
            Some(s) => {
                proof {
                    lemma_find_from(xml, prefix, from);
                }
                let a = s + prefix.len();
                if a < xml.len() && ends_name(xml[a]) {
                    match find_from(xml, ">"@, s) {
                        Some(e) => Some((s, e)),
                        None => None,
                    }
                } else {
                    open_tag_from(xml, prefix, a)
                }
            },
        }
    }
}

/// The first complete opening tag `prefix…>` (`open_tag`).
pub open spec fn open_tag_spec(xml: Seq<char>, prefix: Seq<char>) -> Option<Seq<char>> {
    match open_tag_from(xml, prefix, 0) {
        Some((s, e)) => Some(xml.subrange(s, e + 1)),
        None => None,
    }
}

pub proof fn lemma_open_tag_from(xml: Seq<char>, prefix: Seq<char>, from: int)
    ensures
        match open_tag_from(xml, prefix, from) {
            Some((s, e)) => from <= s && s + prefix.len() < xml.len() && occurs_at(xml, prefix, s)
                && s <= e < xml.len() && xml[e] == '>' && find_from(xml, ">"@, s) == Some(e),
            None => true,
        },
    decreases xml.len() - from,
{
    if prefix.len() > 0 && from >= 0 {
        lemma_find_from(xml, prefix, from);
        match find_from(xml, prefix, from) {
            None => {},
            Some(s) => {
                let a = s + prefix.len();
                if a < xml.len() && ends_name(xml[a]) {
                    lemma_find_from(xml, ">"@, s);
                    reveal_strlit(">");
                    match find_from(xml, ">"@, s) {
                        Some(e) => {
                            assert(xml.subrange(e, e + 1) =~= ">"@);
                            assert(xml.subrange(e, e + 1)[0] == xml[e]);
                        },
                        None => {},
                    }
                } else {
                    lemma_open_tag_from(xml, prefix, a);
                }
            },
        }
    }
}

/// A tag name prefix: `<`, then characters that are neither `<` nor `>`.
pub open spec fn tag_prefix(p: Seq<char>) -> bool {
    &&& p.len() > 0
    &&& p[0] == '<'
    &&& forall|i: int| 1 <= i < p.len() ==> p[i] != '<'
    &&& forall|i: int| 0 <= i < p.len() ==> p[i] != '>'
}

/// The prefix, followed by a character that ends a tag name, starts at `s`.
pub open spec fn named_at(xml: Seq<char>, prefix: Seq<char>, s: int) -> bool {
    &&& occurs_at(xml, prefix, s)
    &&& s + prefix.len() < xml.len()
    &&& ends_name(xml[s + prefix.len()])
}

pub(crate) proof fn lemma_open_tag_first(xml: Seq<char>, prefix: Seq<char>, from: int)
    requires
        tag_prefix(prefix),
        from >= 0,
    ensures
        match open_tag_from(xml, prefix, from) {
            Some((s, e)) => named_at(xml, prefix, s) && from <= s && s + prefix.len() <= e && forall|j: int|
                from <= j < s ==> !named_at(xml, prefix, j),
            None => true,
        },
    decreases xml.len() - from,
{
    lemma_find_from(xml, prefix, from);
    lemma_open_tag_from(xml, prefix, from);
    match find_from(xml, prefix, from) {
        None => {},
        Some(s0) => {
            let a = s0 + prefix.len();
            if a < xml.len() && ends_name(xml[a]) {
                match open_tag_from(xml, prefix, from) {
                    Some((s, e)) => {
                        assert(s == s0);
                        // No `>` inside the prefix: the tag ends past it.
                        if e < a {
                            assert(xml.subrange(s0, a)[e - s0] == xml[e]);
                            assert(prefix[e - s0] != '>');
                        }
                    },
                    None => {},
                }
            } else {
                lemma_open_tag_first(xml, prefix, a);
                match open_tag_from(xml, prefix, a) {
                    Some((s, e)) => {
                        assert forall|j: int| from <= j < s implies !named_at(xml, prefix, j) by {
                            if s0 < j < a && occurs_at(xml, prefix, j) {
                                // A second `<` would start inside the first occurrence.
                                assert(xml.subrange(j, j + prefix.len())[0] == xml[j]);
                                assert(xml.subrange(s0, a)[j - s0] == xml[j]);
                                assert(prefix[j - s0] == '<');
                            }
                        }
                    },
                    None => {},
                }
            }
        },
    }
}

/// `open_tag` does not confuse prefixes: the tag it finds is the first
/// place where the prefix is followed by a character that ends a tag name
/// (a space, `/`, `>` or a line break), it starts with the prefix, ends at
/// the first `>` after it, and stands in the document.
pub proof fn lemma_open_tag_exact(xml: Seq<char>, prefix: Seq<char>)
    requires
        tag_prefix(prefix),
    ensures
        open_tag_spec(xml, prefix) matches Some(t) ==> exists|s: int|
            #![trigger named_at(xml, prefix, s)]
            {
                &&& named_at(xml, prefix, s)
                &&& forall|j: int| 0 <= j < s ==> !named_at(xml, prefix, j)
                &&& t == xml.subrange(s, s + t.len())
                &&& t.take(prefix.len() as int) == prefix
                &&& prefix.len() < t.len()
                &&& ends_name(t[prefix.len() as int])
                &&& t.last() == '>'
                &&& forall|i: int| 0 <= i < t.len() - 1 ==> t[i] != '>'
            },
{
    lemma_open_tag_first(xml, prefix, 0);
    lemma_open_tag_from(xml, prefix, 0);
    match open_tag_from(xml, prefix, 0) {
        Some((s, e)) => {
            let t = xml.subrange(s, e + 1);
            lemma_find_from(xml, ">"@, s);
            reveal_strlit(">");
            assert(t.take(prefix.len() as int) =~= xml.subrange(s, s + prefix.len()));
            assert(t[prefix.len() as int] == xml[s + prefix.len()]);
            assert forall|i: int| 0 <= i < t.len() - 1 implies t[i] != '>' by {
                if t[i] == '>' {
                    assert(xml.subrange(s + i, s + i + 1) =~= ">"@);
                    assert(occurs_at(xml, ">"@, s + i));
                }
            }
            assert(named_at(xml, prefix, s));
        },
        None => {},
    }
}

/// Position of the first tag `prefix…>` (start, end inclusive).
pub fn open_tag_pos(xml: &[char], prefix: &[char]) -> (r: Option<(usize, usize)>)
    ensures
        match r {
            Some((s, e)) => open_tag_from(xml@, prefix@, 0) == Some((s as int, e as int)),
            None => open_tag_from(xml@, prefix@, 0) is None,
        },
{
    if prefix.len() == 0 {
        return None;
    }
    let gt = chars_of(">");
    let mut from: usize = 0;
    while from <= xml.len()
        invariant
            prefix@.len() > 0,
            gt@ == ">"@,
            open_tag_from(xml@, prefix@, from as int) == open_tag_from(xml@, prefix@, 0),
        decreases xml.len() + 1 - from,
    {
        proof {
            lemma_find_from(xml@, prefix@, from as int);
        }
        match find_from_exec(xml, prefix, from) {
            None => {
                return None;
            },
            Some(s) => {
                let a = s + prefix.len();
                if a < xml.len() && (xml[a] == ' ' || xml[a] == '/' || xml[a] == '>' || xml[a] == '\n'
                    || xml[a] == '\r' || xml[a] == '\t') {
                    return match find_from_exec(xml, gt.as_slice(), s) {
                        Some(e) => Some((s, e)),
                        None => None,
                    };
                }
                from = a;
            },
        }
    }
    proof {
        lemma_find_from(xml@, prefix@, from as int);
    }
    None
}

/// The first complete opening tag `prefix…>`, as text (`open_tag`).
pub fn open_tag(xml: &str, prefix: &str) -> (r: Option<String>)
    ensures
        match r {
            Some(t) => open_tag_spec(xml@, prefix@) == Some(t@),
            None => open_tag_spec(xml@, prefix@) is None,
        },
{
    let x = chars_of(xml);
    let p = chars_of(prefix);
    match open_tag_pos(x.as_slice(), p.as_slice()) {
        Some((s, e)) => {
            proof {
                lemma_open_tag_from(x@, p@, 0);
                assert(e < x@.len());
            }
            Some(string_of(slice_copy(x.as_slice(), s, e + 1).as_slice()))
        },
        None => None,
    }
}

fn open_tag_chars(xml: &[char], prefix: &str) -> (r: Option<Vec<char>>)
    ensures
        match r {
            Some(t) => open_tag_spec(xml@, prefix@) == Some(t@),
            None => open_tag_spec(xml@, prefix@) is None,
        },
{
    let p = chars_of(prefix);
    match open_tag_pos(xml, p.as_slice()) {
        Some((s, e)) => {
            proof {
                lemma_open_tag_from(xml@, p@, 0);
                assert(e < xml@.len());
                assert(xml@.len() == xml.len());
            }
            Some(slice_copy(xml, s, e + 1))
        },
        None => None,
    }
}

/// Declares namespace `prefix` on the root element named `root` when it is
/// missing, just after the element's name.
pub open spec fn ensure_ns_spec(xml: Seq<char>, root: Seq<char>, prefix: Seq<char>, uri: Seq<char>) -> Seq<char> {
    match open_tag_spec(xml, root) {
        None => xml,
        Some(tag) => if contains(tag, "xmlns:"@ + prefix + "="@) {
            xml
        } else {
            let at = (match find(xml, tag) {
                Some(i) => i,
                None => 0,
            }) + root.len();
            xml.take(at) + " xmlns:"@ + prefix + "=\""@ + uri + "\""@ + xml.skip(at)
        },
    }
}

pub fn ensure_ns(xml: &[char], root: &str, prefix: &str, uri: &str) -> (r: Vec<char>)
    ensures
        r@ == ensure_ns_spec(xml@, root@, prefix@, uri@),
{
    let rc = chars_of(root);
    let tag = match open_tag_chars(xml, root) {
        None => {
            return slice_copy(xml, 0, xml.len());
        },
        Some(t) => t,
    };
    let mut decl = chars_of("xmlns:");
    push_str(&mut decl, prefix);
    push_str(&mut decl, "=");
    if crate::text::contains_exec(tag.as_slice(), decl.as_slice()) {
        return slice_copy(xml, 0, xml.len());
    }
    proof {
        lemma_open_tag_from(xml@, rc@, 0);
        lemma_find(xml@, tag@);
        let (s, e) = open_tag_from(xml@, rc@, 0)->0;
        assert(xml@.subrange(s, e + 1) == tag@);
        assert(occurs_at(xml@, tag@, s)) by {
            assert(xml@.subrange(s, s + tag@.len()) =~= tag@);
        }
        assert(find(xml@, tag@) is Some);
        assert(find(xml@, tag@)->0 <= s);
        assert(s + rc@.len() < xml@.len());
        assert(find(xml@, tag@)->0 + rc@.len() < xml@.len());
    }
    assert(xml@.len() == xml.len());
    let i = match find_exec(xml, tag.as_slice()) {
        Some(i) => i,
        None => 0,
    };
    assert(rc.len() == rc@.len());
    let at = i + rc.len();
    let mut out = slice_copy(xml, 0, at);
    push_str(&mut out, " xmlns:");
    push_str(&mut out, prefix);
    push_str(&mut out, "=\"");
    push_str(&mut out, uri);
    push_str(&mut out, "\"");
    let tail = slice_copy(xml, at, xml.len());
    push_all(&mut out, tail.as_slice());
    out
}

// ── Relationships ────────────────────────────────────────────────────────────

/// The relationships part of a package part: `dir/_rels/file.rels`.
pub open spec fn rels_of_spec(part: Seq<char>) -> Seq<char> {
    match rfind(part, "/"@) {
        Some(k) => part.take(k) + "/_rels/"@ + part.skip(k + 1) + ".rels"@,
        None => "/_rels/"@ + part + ".rels"@,
    }
}

pub fn rels_of(part: &str) -> (r: String)
    ensures
        r@ == rels_of_spec(part@),
{
    let p = chars_of(part);
    let slash = chars_of("/");
    proof {
        lemma_rfind(p@, slash@);
        reveal_strlit("/");
        assert(slash@.len() == 1);
    }
    let mut out: Vec<char> = match rfind_exec(p.as_slice(), slash.as_slice()) {
        Some(k) => {
            assert(k + 1 <= p@.len());
            assert(p@.len() == p.len());
            let mut o = slice_copy(p.as_slice(), 0, k);
            push_str(&mut o, "/_rels/");
            let f = slice_copy(p.as_slice(), k + 1, p.len());
            push_all(&mut o, f.as_slice());
            o
        },
        None => {
            let mut o = chars_of("/_rels/");
            push_all(&mut o, p.as_slice());
            o
        },
    };
    push_str(&mut out, ".rels");
    string_of(out.as_slice())
}

/// The target of relationship `id` in a relationships part.
pub open spec fn rel_target_spec(rels: Seq<char>, id: Seq<char>) -> Option<Seq<char>> {
    match find(rels, "Id=\""@ + id + "\""@) {
        None => None,
        Some(pos) => match rfind(rels.take(pos), "<"@) {
            None => None,
            Some(start) => match find_from(rels, ">"@, pos) {
                None => None,
                Some(end) => attr_spec(rels.subrange(start, end + 1), "Target"@),
            },
        },
    }
}

pub fn rel_target(rels: &[char], id: &[char]) -> (r: Option<Vec<char>>)
    ensures
        match r {
            Some(t) => rel_target_spec(rels@, id@) == Some(t@),
            None => rel_target_spec(rels@, id@) is None,
        },
{
    let mut key = chars_of("Id=\"");
    push_all(&mut key, id);
    push_str(&mut key, "\"");
    proof {
        lemma_find(rels@, key@);
    }
    let pos = match find_exec(rels, key.as_slice()) {
        None => {
            return None;
        },
        Some(p) => p,
    };
    let head = slice_copy(rels, 0, pos);
    let lt = chars_of("<");
    let gt = chars_of(">");
    assert(head@ =~= rels@.take(pos as int));
    proof {
        reveal_strlit("<");
        assert(lt@.len() == 1);
    }
    let start = match rfind_exec(head.as_slice(), lt.as_slice()) {
        None => {
            return None;
        },
        Some(s) => s,
    };
    proof {
        lemma_find_from(rels@, gt@, pos as int);
    }
    let end = match find_from_exec(rels, gt.as_slice(), pos) {
        None => {
            return None;
        },
        Some(e) => e,
    };
    assert(rels@.len() == rels.len());
    assert(start < pos && pos <= end && end < rels@.len());
    let tag = slice_copy(rels, start, end + 1);
    attr(tag.as_slice(), "Target")
}

pub open spec fn default_rels() -> Seq<char> {
    "<?xml version=\"1.0\" encoding=\"UTF-8\" standalone=\"yes\"?>\n<Relationships xmlns=\"http://schemas.openxmlformats.org/package/2006/relationships\"></Relationships>"@
}

/// The relationship id `rIdUCWM<n>`.
pub open spec fn rel_id(n: nat) -> Seq<char> {
    "rIdUCWM"@ + crate::text::dec_str(n)
}

/// The first number from `n` on whose id is not used in `xml` (searched
/// below 2^63).
pub open spec fn free_rel_n(xml: Seq<char>, n: nat) -> nat
    decreases 0x8000_0000_0000_0000 - n,
{
    if n >= 0x8000_0000_0000_0000 {
        n
    } else if contains(xml, "Id=\""@ + rel_id(n) + "\""@) {
        free_rel_n(xml, n + 1)
    } else {
        n
    }
}

/// The id of a relationship already pointing at `target`.
pub open spec fn existing_rel(xml: Seq<char>, target: Seq<char>) -> Option<Seq<char>> {
    match find(xml, "Target=\""@ + target + "\""@) {
        None => None,
        Some(pos) => match rfind(xml.take(pos), "<"@) {
            None => None,
            Some(ts) => attr_spec(xml.subrange(ts, pos + target.len() + 9), "Id"@),
        },
    }
}

/// A new relationship element.
pub open spec fn rel_element(id: Seq<char>, rel_type: Seq<char>, target: Seq<char>) -> Seq<char> {
    "<Relationship Id=\""@ + id + "\" Type=\""@ + rel_type + "\" Target=\""@ + target + "\"/>"@
}

/// Relationships with a new one added before the closing tag (or, with
/// none, after an empty element turned into an open one).
pub open spec fn rels_with(xml: Seq<char>, rel: Seq<char>) -> Seq<char> {
    match rfind(xml, "</Relationships>"@) {
        Some(i) => xml.take(i) + rel + xml.skip(i),
        None => replace_all(xml, "/>"@, ">"@ + rel + "</Relationships>"@),
    }
}

/// The relationships a part has, or the empty default when it has none.
pub open spec fn rels_text(p: PkgSpec, rels_path: Seq<char>) -> Seq<char> {
    match text_spec(p, rels_path) {
        Some(t) => t,
        None => default_rels(),
    }
}

/// Adding a relationship to a part's relationships (created if missing):
/// an existing one to the same target is reused, else one is added under
/// the first free `rIdUCWM<n>`. The package after, and the id.
pub open spec fn add_rel_spec(p: PkgSpec, rels_path: Seq<char>, rel_type: Seq<char>, target: Seq<char>) -> (
    PkgSpec,
    Seq<char>,
) {
    let xml = rels_text(p, rels_path);
    match existing_rel(xml, target) {
        Some(id) => (p, id),
        None => {
            let id = rel_id(free_rel_n(xml, 1));
            (put_spec(p, rels_path, utf8_of(rels_with(xml, rel_element(id, rel_type, target)))), id)
        },
    }
}

/// A relationship to `target` is found again once added: one exists
/// already, or the part's relationships hold no `Target="target"` but a
/// closing tag or a self-closing root, and neither the type nor the target
/// holds `<`.
pub open spec fn rel_found_again(p: PkgSpec, rels_path: Seq<char>, rel_type: Seq<char>, target: Seq<char>) -> bool {
    let xml = rels_text(p, rels_path);
    ||| existing_rel(xml, target) is Some
    ||| {
        &&& find(xml, "Target=\""@ + target + "\""@) is None
        &&& (rfind(xml, "</Relationships>"@) is Some || contains(xml, "/>"@))
        &&& !rel_type.contains('<')
        &&& !target.contains('<')
    }
}

fn rel_id_exec(n: u64) -> (r: Vec<char>)
    ensures
        r@ == rel_id(n as nat),
{
    let mut r = chars_of("rIdUCWM");
    let d = crate::text::dec_string(n);
    push_all(&mut r, d.as_slice());
    r
}

fn existing_rel_exec(xml: &[char], target: &[char]) -> (r: Option<Vec<char>>)
    ensures
        match r {
            Some(t) => existing_rel(xml@, target@) == Some(t@),
            None => existing_rel(xml@, target@) is None,
        },
{
    let mut key = chars_of("Target=\"");
    push_all(&mut key, target);
    push_str(&mut key, "\"");
    proof {
        lemma_find(xml@, key@);
        reveal_strlit("Target=\"");
        reveal_strlit("\"");
        assert(key@.len() == target@.len() + 9);
    }
    let pos = match find_exec(xml, key.as_slice()) {
        None => {
            return None;
        },
        Some(p) => p,
    };
    let head = slice_copy(xml, 0, pos);
    assert(head@ =~= xml@.take(pos as int));
    let lt = chars_of("<");
    let ts = match rfind_exec(head.as_slice(), lt.as_slice()) {
        None => {
            return None;
        },
        Some(t) => t,
    };
    assert(xml@.len() == xml.len() && target@.len() == target.len());
    let tag = slice_copy(xml, ts, pos + target.len() + 9);
    attr(tag.as_slice(), "Id")
}

fn id_used(xml: &[char], n: u64) -> (b: bool)
    ensures
        b == contains(xml@, "Id=\""@ + rel_id(n as nat) + "\""@),
{
    let mut probe = chars_of("Id=\"");
    let rid = rel_id_exec(n);
    push_all(&mut probe, rid.as_slice());
    push_str(&mut probe, "\"");
    crate::text::contains_exec(xml, probe.as_slice())
}

/// Adds (or finds) the relationship to `target` in `rels_path` and returns
/// its id (`add_relationship`).
pub fn add_relationship(pkg: &mut Package, rels_path: &str, rel_type: &str, target: &str) -> (id: String)
    ensures
        (final(pkg).view_of(), id@) == add_rel_spec(old(pkg).view_of(), rels_path@, rel_type@, target@),
        rel_found_again(old(pkg).view_of(), rels_path@, rel_type@, target@) ==> add_rel_spec(
            final(pkg).view_of(),
            rels_path@,
            rel_type@,
            target@,
        ) == (final(pkg).view_of(), id@),
{
    let xml_s = match pkg.text(rels_path) {
        Some(t) => t,
        None => String::from_str(
            "<?xml version=\"1.0\" encoding=\"UTF-8\" standalone=\"yes\"?>\n<Relationships xmlns=\"http://schemas.openxmlformats.org/package/2006/relationships\"></Relationships>",
        ),
    };
    let xml = chars_of(xml_s.as_str());
    let tc = chars_of(target);
    match existing_rel_exec(xml.as_slice(), tc.as_slice()) {
        Some(id) => {
            return string_of(id.as_slice());
        },
        None => {},
    }
    let mut n: u64 = 1;
    while n < 0x8000_0000_0000_0000 && id_used(xml.as_slice(), n)
        invariant
            1 <= n <= 0x8000_0000_0000_0000,
            free_rel_n(xml@, n as nat) == free_rel_n(xml@, 1),
        decreases 0x8000_0000_0000_0000 - n,
    {
        n += 1;
    }
    let id = rel_id_exec(n);
    let mut rel = chars_of("<Relationship Id=\"");
    push_all(&mut rel, id.as_slice());
    push_str(&mut rel, "\" Type=\"");
    push_str(&mut rel, rel_type);
    push_str(&mut rel, "\" Target=\"");
    push_str(&mut rel, target);
    push_str(&mut rel, "\"/>");
    let close = chars_of("</Relationships>");
    let updated = match rfind_exec(xml.as_slice(), close.as_slice()) {
        Some(i) => {
            let mut u = slice_copy(xml.as_slice(), 0, i);
            push_all(&mut u, rel.as_slice());
            let t = slice_copy(xml.as_slice(), i, xml.len());
            push_all(&mut u, t.as_slice());
            u
        },
        None => {
            let mut with = chars_of(">");
            push_all(&mut with, rel.as_slice());
            push_str(&mut with, "</Relationships>");
            crate::text::replace_all_exec(xml.as_slice(), chars_of("/>").as_slice(), with.as_slice())
        },
    };
    let us = string_of(updated.as_slice());
    let ghost before = pkg.view_of();
    let bytes = text_bytes(us.as_str());
    let ghost bv = bytes@;
    pkg.put(rels_path, bytes);
    proof {
        if rel_found_again(before, rels_path@, rel_type@, target@) {
            crate::json::lemma_insert_get(before.files, rels_path@, bv);
            assert(rels_text(pkg.view_of(), rels_path@) == us@);
            crate::tag_laws::lemma_rel_found_again(xml@, n as nat, rel_type@, target@);
        }
    }
    string_of(id.as_slice())
}

/// `[Content_Types].xml` with a PNG default added when none is declared
/// (the test ignores case).
pub open spec fn png_ct_spec(p: PkgSpec) -> PkgSpec {
    match text_spec(p, "[Content_Types].xml"@) {
        Some(ct) => if !contains(crate::text::lowercase(ct), "extension=\"png\""@) {
            put_spec(
                p,
                "[Content_Types].xml"@,
                utf8_of(replace_first(
                    ct,
                    "<Default "@,
                    "<Default Extension=\"png\" ContentType=\"image/png\"/><Default "@,
                )),
            )
        } else {
            p
        },
        None => p,
    }
}

pub fn ensure_png_content_type(pkg: &mut Package)
    ensures
        final(pkg).view_of() == png_ct_spec(old(pkg).view_of()),
{
    match pkg.text("[Content_Types].xml") {
        Some(ct) => {
            let c = chars_of(ct.as_str());
            let low = crate::text::to_lowercase(c.as_slice());
            if !crate::text::contains_exec(low.as_slice(), chars_of("extension=\"png\"").as_slice()) {
                let u = replace_first_exec(
                    c.as_slice(),
                    chars_of("<Default ").as_slice(),
                    chars_of("<Default Extension=\"png\" ContentType=\"image/png\"/><Default ").as_slice(),
                );
                let us = string_of(u.as_slice());
                pkg.put("[Content_Types].xml", text_bytes(us.as_str()));
            }
        },
        None => {},
    }
}

// ── Plain-text formats ───────────────────────────────────────────────────────

/// Why a document could not be watermarked.
#[derive(Debug)]
pub enum WmDocError {
    EmptyText,
    TextUnsupported(String),
    VisualUnsupported(String),
    InvalidRtf,
    NoSvgElement,
    NoSvgEnd,
    MissingPart(String),
    MissingOpf(String),
    InvalidHeader(String),
    InvalidSlide(String),
    InvalidSheet(String),
    NoSection,
    NoSlide,
    NoSheet,
    NoPageLayout,
    MasterPagesWithoutLayout,
    InvalidStyles,
    NoOpf,
    NoXhtmlChapter,
}

/// The message for a missing part, by the part.
pub open spec fn missing_part_message(p: Seq<char>) -> Seq<char> {
    if p == "word/document.xml"@ {
        "DOCX sans document.xml"@
    } else if p == "ppt/presentation.xml"@ {
        "PPTX sans presentation.xml"@
    } else if p == "content.xml"@ {
        "ODP sans content.xml"@
    } else if p == "META-INF/container.xml"@ {
        "EPUB sans container.xml"@
    } else {
        "Document sans "@ + p
    }
}

fn missing_part_text(p: &String) -> (r: String)
    ensures
        r@ == missing_part_message(p@),
{
    proof {
        reveal_strlit("");
    }
    let c = chars_of(p.as_str());
    if is_lit(c.as_slice(), "word/document.xml") {
        String::from_str("DOCX sans document.xml")
    } else if is_lit(c.as_slice(), "ppt/presentation.xml") {
        String::from_str("PPTX sans presentation.xml")
    } else if is_lit(c.as_slice(), "content.xml") {
        String::from_str("ODP sans content.xml")
    } else if is_lit(c.as_slice(), "META-INF/container.xml") {
        String::from_str("EPUB sans container.xml")
    } else {
        with_part("Document sans ", p, "")
    }
}

/// The message shown for an error.
pub open spec fn wm_message_spec(e: WmDocError) -> Seq<char> {
    match e {
        WmDocError::EmptyText => "Texte du filigrane vide"@,
        WmDocError::TextUnsupported(x) => "Filigrane texte non disponible pour ."@ + x@,
        WmDocError::VisualUnsupported(x) => "Filigrane visuel non disponible pour ."@ + x@,
        WmDocError::InvalidRtf => "RTF invalide"@,
        WmDocError::NoSvgElement => "SVG sans élément <svg>"@,
        WmDocError::NoSvgEnd => "SVG sans </svg>"@,
        WmDocError::MissingPart(p) => missing_part_message(p@),
        WmDocError::MissingOpf(p) => "EPUB : "@ + p@ + " absent"@,
        WmDocError::InvalidHeader(p) => "En-tête Word invalide: "@ + p@,
        WmDocError::InvalidSlide(p) => "Diapositive invalide: "@ + p@,
        WmDocError::InvalidSheet(p) => "Feuille invalide: "@ + p@,
        WmDocError::NoSection => "DOCX sans section"@,
        WmDocError::NoSlide => "Présentation sans diapositive"@,
        WmDocError::NoSheet => "Classeur sans feuille"@,
        WmDocError::NoPageLayout => "Aucune mise en page dans styles.xml"@,
        WmDocError::MasterPagesWithoutLayout => "styles.xml : pages maîtresses sans mise en page"@,
        WmDocError::InvalidStyles => "styles.xml invalide"@,
        WmDocError::NoOpf => "EPUB : OPF introuvable"@,
        WmDocError::NoXhtmlChapter => "EPUB sans chapitre XHTML"@,
    }
}

fn with_part(head: &str, p: &String, tail: &str) -> (r: String)
    ensures
        r@ == head@ + p@ + tail@,
{
    let mut out = chars_of(head);
    push_str(&mut out, p.as_str());
    push_str(&mut out, tail);
    string_of(out.as_slice())
}

impl WmDocError {
    /// The message shown for the error.
    pub fn message(&self) -> (r: String)
        ensures
            r@ == wm_message_spec(*self),
    {
        proof {
            reveal_strlit("");
        }
        match self {
            WmDocError::EmptyText => String::from_str("Texte du filigrane vide"),
            WmDocError::TextUnsupported(x) => with_part("Filigrane texte non disponible pour .", x, ""),
            WmDocError::VisualUnsupported(x) => with_part("Filigrane visuel non disponible pour .", x, ""),
            WmDocError::InvalidRtf => String::from_str("RTF invalide"),
            WmDocError::NoSvgElement => String::from_str("SVG sans élément <svg>"),
            WmDocError::NoSvgEnd => String::from_str("SVG sans </svg>"),
            WmDocError::MissingPart(p) => missing_part_text(p),
            WmDocError::MissingOpf(p) => with_part("EPUB : ", p, " absent"),
            WmDocError::InvalidHeader(p) => with_part("En-tête Word invalide: ", p, ""),
            WmDocError::InvalidSlide(p) => with_part("Diapositive invalide: ", p, ""),
            WmDocError::InvalidSheet(p) => with_part("Feuille invalide: ", p, ""),
            WmDocError::NoSection => String::from_str("DOCX sans section"),
            WmDocError::NoSlide => String::from_str("Présentation sans diapositive"),
            WmDocError::NoSheet => String::from_str("Classeur sans feuille"),
            WmDocError::NoPageLayout => String::from_str("Aucune mise en page dans styles.xml"),
            WmDocError::MasterPagesWithoutLayout => String::from_str("styles.xml : pages maîtresses sans mise en page"),
            WmDocError::InvalidStyles => String::from_str("styles.xml invalide"),
            WmDocError::NoOpf => String::from_str("EPUB : OPF introuvable"),
            WmDocError::NoXhtmlChapter => String::from_str("EPUB sans chapitre XHTML"),
        }
    }
}

/// The watermark's lines: trimmed, the empty ones dropped.
pub open spec fn wm_lines(text: Seq<char>) -> Seq<Seq<char>> {
    crate::text::lines(text).map_values(|l: Seq<char>| crate::text::trim(l)).filter(
        |l: Seq<char>| l.len() > 0,
    )
}

pub open spec fn md_special(c: char) -> bool {
    c == '\\' || c == '`' || c == '*' || c == '_' || c == '[' || c == ']' || c == '#' || c == '<'
        || c == '>'
}

/// Markdown's special characters escaped with a backslash.
pub open spec fn md_escape(s: Seq<char>) -> Seq<char>
    decreases s.len(),
{
    if s.len() == 0 {
        seq![]
    } else {
        md_escape(s.drop_last()) + if md_special(s.last()) {
            seq!['\\', s.last()]
        } else {
            seq![s.last()]
        }
    }
}

/// A code point as RTF writes it: its low 16 bits as a signed number.
pub open spec fn rtf_code(u: nat) -> int {
    let low = u % 65536;
    if low >= 32768 {
        low - 65536
    } else {
        low as int
    }
}

pub open spec fn int_str(v: int) -> Seq<char> {
    if v < 0 {
        "-"@ + crate::text::dec_str((-v) as nat)
    } else {
        crate::text::dec_str(v as nat)
    }
}

/// RTF text: `\`, `{`, `}` escaped, non-ASCII as `\uN?`.
pub open spec fn rtf_escape(s: Seq<char>) -> Seq<char>
    decreases s.len(),
{
    if s.len() == 0 {
        seq![]
    } else {
        let c = s.last();
        rtf_escape(s.drop_last()) + if c == '\\' || c == '{' || c == '}' {
            seq!['\\', c]
        } else if (c as u32) < 128 {
            seq![c]
        } else {
            "\\u"@ + int_str(rtf_code(c as u32 as nat)) + "?"@
        }
    }
}

/// `<!-- … -->` cannot hold `--`.
pub open spec fn xml_comment(one: Seq<char>) -> Seq<char> {
    "<!-- "@ + replace_all(one, "--"@, "\u{2014}"@) + " -->\n"@
}

pub open spec fn strip_newlines_front(s: Seq<char>) -> Seq<char>
    decreases s.len(),
{
    if s.len() > 0 && (s[0] == '\r' || s[0] == '\n') {
        strip_newlines_front(s.drop_first())
    } else {
        s
    }
}

pub open spec fn hash_comments(ls: Seq<Seq<char>>) -> Seq<char>
    decreases ls.len(),
{
    if ls.len() == 0 {
        seq![]
    } else {
        hash_comments(ls.drop_last()) + "# "@ + ls.last() + "\n"@
    }
}

/// A plain-text document with the watermark's text written in its syntax
/// (`apply_textual`, without the file reading and writing).
pub open spec fn textual_spec(src: Seq<char>, ext: Seq<char>, text: Seq<char>) -> Option<Seq<char>> {
    let ls = wm_lines(text);
    let one = crate::text::join(ls, " \u{b7} "@);
    if ext == "txt"@ {
        Some(one + "\n\n"@ + src + "\n\n"@ + one + "\n"@)
    } else if ext == "md"@ || ext == "markdown"@ {
        Some("> **"@ + md_escape(one) + "**\n\n"@ + src + "\n\n> **"@ + md_escape(one) + "**\n"@)
    } else if ext == "yaml"@ || ext == "yml"@ || ext == "toml"@ {
        Some(hash_comments(ls) + src)
    } else if ext == "xml"@ {
        let c = xml_comment(one);
        if crate::text::starts_with(crate::text::trim_start(src), "<?xml"@) && find(src, "?>"@) is Some {
            let i = find(src, "?>"@)->0;
            Some(src.take(i + 2) + "\n"@ + c + strip_newlines_front(src.skip(i + 2)))
        } else {
            Some(c + src)
        }
    } else if ext == "rtf"@ {
        match rfind(src, "}"@) {
            None => None,
            Some(end) => {
                let para = "\\pard\\qc\\b "@ + rtf_escape(one) + "\\b0\\par\\pard "@;
                let at = match find(src, "\\pard"@) {
                    Some(k) => k,
                    None => end,
                };
                Some(src.take(at) + para + src.skip(at))
            },
        }
    } else {
        None
    }
}

fn wm_lines_exec(text: &str) -> (r: Vec<Vec<char>>)
    ensures
        crate::text::views(r@) == wm_lines(text@),
{
    let ls = crate::text::lines_exec(chars_of(text).as_slice());
    let ghost lv = crate::text::views(ls@);
    let ghost tv = lv.map_values(|l: Seq<char>| crate::text::trim(l));
    let ghost pred = |l: Seq<char>| l.len() > 0;
    let mut r: Vec<Vec<char>> = Vec::new();
    let mut i: usize = 0;
    assert(tv.take(0).filter(pred) =~= Seq::<Seq<char>>::empty()) by {
        reveal(Seq::filter);
    }
    while i < ls.len()
        invariant
            i <= ls.len(),
            lv == crate::text::views(ls@),
            tv == lv.map_values(|l: Seq<char>| crate::text::trim(l)),
            pred == (|l: Seq<char>| l.len() > 0),
            crate::text::views(r@) == tv.take(i as int).filter(pred),
        decreases ls.len() - i,
    {
        let t = crate::text::trim_exec(ls[i].as_slice());
        proof {
            assert(tv[i as int] == t@);
            assert(tv.take(i + 1) =~= tv.take(i as int).push(t@));
            tv.take(i as int).lemma_filter_push(t@, pred);
        }
        if t.len() > 0 {
            let ghost before = crate::text::views(r@);
            let ghost tt = t@;
            r.push(t);
            assert(crate::text::views(r@) =~= before.push(tt));
        }
        i += 1;
    }
    assert(tv.take(i as int) =~= tv);
    r
}

fn md_escape_exec(s: &[char]) -> (r: Vec<char>)
    ensures
        r@ == md_escape(s@),
{
    let mut r: Vec<char> = Vec::new();
    let mut i: usize = 0;
    while i < s.len()
        invariant
            i <= s.len(),
            r@ == md_escape(s@.take(i as int)),
        decreases s.len() - i,
    {
        assert(s@.take(i + 1).drop_last() =~= s@.take(i as int));
        let c = s[i];
        if c == '\\' || c == '`' || c == '*' || c == '_' || c == '[' || c == ']' || c == '#' || c == '<'
            || c == '>' {
            r.push('\\');
        }
        r.push(c);
        assert(r@ =~= md_escape(s@.take(i + 1)));
        i += 1;
    }
    assert(s@.take(i as int) =~= s@);
    r
}

fn rtf_escape_exec(s: &[char]) -> (r: Vec<char>)
    ensures
        r@ == rtf_escape(s@),
{
    let mut r: Vec<char> = Vec::new();
    let mut i: usize = 0;
    while i < s.len()
        invariant
            i <= s.len(),
            r@ == rtf_escape(s@.take(i as int)),
        decreases s.len() - i,
    {
        assert(s@.take(i + 1).drop_last() =~= s@.take(i as int));
        let c = s[i];
        let ghost before = r@;
        if c == '\\' || c == '{' || c == '}' {
            r.push('\\');
            r.push(c);
        } else if (c as u32) < 128 {
            r.push(c);
        } else {
            push_str(&mut r, "\\u");
            let low = (c as u32) % 65536;
            if low >= 32768 {
                push_str(&mut r, "-");
                let d = crate::text::dec_string((65536 - low) as u64);
                push_all(&mut r, d.as_slice());
            } else {
                let d = crate::text::dec_string(low as u64);
                push_all(&mut r, d.as_slice());
            }
            push_str(&mut r, "?");
        }
        assert(r@ =~= rtf_escape(s@.take(i + 1)));
        i += 1;
    }
    assert(s@.take(i as int) =~= s@);
    r
}

/// Writes the watermark's text into a plain-text document of type `ext`
/// (`apply_textual`, on the document's text).
pub fn apply_textual(src: &str, ext: &str, text: &str) -> (r: Result<String, WmDocError>)
    ensures
        wm_lines(text@).len() == 0 ==> r matches Err(WmDocError::EmptyText),
        wm_lines(text@).len() > 0 ==> match textual_spec(src@, ext@, text@) {
            Some(o) => r matches Ok(s) && s@ == o,
            None => if ext@ == "rtf"@ {
                r matches Err(WmDocError::InvalidRtf)
            } else {
                r matches Err(WmDocError::TextUnsupported(e)) && e@ == ext@
            },
        },
{
    let ls = wm_lines_exec(text);
    if ls.len() == 0 {
        return Err(WmDocError::EmptyText);
    }
    let one = crate::text::join_exec(ls.as_slice(), chars_of(" \u{b7} ").as_slice());
    let sc = chars_of(src);
    let e = chars_of(ext);
    let e = e.as_slice();
    let mut out: Vec<char> = Vec::new();
    if crate::text::is_lit(e, "txt") {
        push_all(&mut out, one.as_slice());
        push_str(&mut out, "\n\n");
        push_all(&mut out, sc.as_slice());
        push_str(&mut out, "\n\n");
        push_all(&mut out, one.as_slice());
        push_str(&mut out, "\n");
    } else if crate::text::is_lit(e, "md") || crate::text::is_lit(e, "markdown") {
        let m = md_escape_exec(one.as_slice());
        push_str(&mut out, "> **");
        push_all(&mut out, m.as_slice());
        push_str(&mut out, "**\n\n");
        push_all(&mut out, sc.as_slice());
        push_str(&mut out, "\n\n> **");
        push_all(&mut out, m.as_slice());
        push_str(&mut out, "**\n");
    } else if crate::text::is_lit(e, "yaml") || crate::text::is_lit(e, "yml") || crate::text::is_lit(e, "toml") {
        let mut k: usize = 0;
        while k < ls.len()
            invariant
                k <= ls.len(),
                out@ == hash_comments(crate::text::views(ls@).take(k as int)),
            decreases ls.len() - k,
        {
            assert(crate::text::views(ls@).take(k + 1).drop_last() =~= crate::text::views(ls@).take(k as int));
            push_str(&mut out, "# ");
            push_all(&mut out, ls[k].as_slice());
            push_str(&mut out, "\n");
            k += 1;
        }
        assert(crate::text::views(ls@).take(k as int) =~= crate::text::views(ls@));
        push_all(&mut out, sc.as_slice());
    } else if crate::text::is_lit(e, "xml") {
        let mut c = chars_of("<!-- ");
        let rep = crate::text::replace_all_exec(one.as_slice(), chars_of("--").as_slice(), chars_of("\u{2014}").as_slice());
        push_all(&mut c, rep.as_slice());
        push_str(&mut c, " -->\n");
        let ts = crate::text::trim_start_exec(sc.as_slice());
        let decl = crate::text::starts_with_at0(ts.as_slice(), chars_of("<?xml").as_slice());
        let q = chars_of("?>");
        proof {
            reveal_strlit("?>");
            lemma_find(sc@, q@);
        }
        match find_exec(sc.as_slice(), q.as_slice()) {
            Some(i) if decl => {
                assert(q@.len() == 2 && i + 2 <= sc@.len() && sc@.len() == sc.len());
                let head = slice_copy(sc.as_slice(), 0, i + 2);
                push_all(&mut out, head.as_slice());
                push_str(&mut out, "\n");
                push_all(&mut out, c.as_slice());
                let mut k = i + 2;
                while k < sc.len() && (sc[k] == '\r' || sc[k] == '\n')
                    invariant
                        i + 2 <= k <= sc@.len(),
                        strip_newlines_front(sc@.skip(i + 2)) == strip_newlines_front(sc@.skip(k as int)),
                    decreases sc.len() - k,
                {
                    assert(sc@.skip(k as int).drop_first() =~= sc@.skip(k + 1));
                    k += 1;
                }
                let tail = slice_copy(sc.as_slice(), k, sc.len());
                assert(tail@ =~= sc@.skip(k as int));
                push_all(&mut out, tail.as_slice());
            },
            _ => {
                push_all(&mut out, c.as_slice());
                push_all(&mut out, sc.as_slice());
            },
        }
    } else if crate::text::is_lit(e, "rtf") {
        let brace = chars_of("}");
        let end = match rfind_exec(sc.as_slice(), brace.as_slice()) {
            Some(k) => k,
            None => {
                return Err(WmDocError::InvalidRtf);
            },
        };
        let mut para = chars_of("\\pard\\qc\\b ");
        push_all(&mut para, rtf_escape_exec(one.as_slice()).as_slice());
        push_str(&mut para, "\\b0\\par\\pard ");
        let pard = chars_of("\\pard");
        proof {
            lemma_find(sc@, pard@);
        }
        let at = match find_exec(sc.as_slice(), pard.as_slice()) {
            Some(k) => k,
            None => end,
        };
        let head = slice_copy(sc.as_slice(), 0, at);
        push_all(&mut out, head.as_slice());
        push_all(&mut out, para.as_slice());
        let tail = slice_copy(sc.as_slice(), at, sc.len());
        push_all(&mut out, tail.as_slice());
    } else {
        return Err(WmDocError::TextUnsupported(ext.to_string()));
    }
    Ok(string_of(out.as_slice()))
}

// ── HTML and SVG ─────────────────────────────────────────────────────────────

/// The character of a 6-bit value in the standard base64 alphabet.
pub open spec fn b64_digit(v: int) -> char {
    if v < 26 {
        (('A' as int) + v) as char
    } else if v < 52 {
        (('a' as int) + v - 26) as char
    } else if v < 62 {
        (('0' as int) + v - 52) as char
    } else if v == 62 {
        '+'
    } else {
        '/'
    }
}

/// The standard base64 text of some bytes (RFC 4648 alphabet, padded with
/// `=`): each group of three bytes, read as 24 bits, gives four digits; a
/// last group of one or two bytes gives two or three digits and padding.
pub open spec fn b64_encode(b: Seq<u8>) -> Seq<char>
    decreases b.len(),
{
    if b.len() == 0 {
        seq![]
    } else if b.len() == 1 {
        let n = b[0] as int * 65536;
        seq![b64_digit(n / 262144), b64_digit((n / 4096) % 64), '=', '=']
    } else if b.len() == 2 {
        let n = b[0] as int * 65536 + b[1] as int * 256;
        seq![b64_digit(n / 262144), b64_digit((n / 4096) % 64), b64_digit((n / 64) % 64), '=']
    } else {
        let n = b[0] as int * 65536 + b[1] as int * 256 + b[2] as int;
        seq![b64_digit(n / 262144), b64_digit((n / 4096) % 64), b64_digit((n / 64) % 64), b64_digit(n % 64)]
            + b64_encode(b.skip(3))
    }
}

/// `base64::engine::general_purpose::STANDARD.encode`: the standard padded
/// base64 text of the bytes.
#[verifier::external_body]
fn base64_encode(b: &[u8]) -> (r: String)
    ensures
        r@ == b64_encode(b@),
{
    STANDARD.encode(b)
}

/// A PNG as a `data:` URL.
pub open spec fn data_url_spec(png: Seq<u8>) -> Seq<char> {
    "data:image/png;base64,"@ + b64_encode(png)
}

pub fn data_url(png: &[u8]) -> (r: String)
    ensures
        r@ == data_url_spec(png@),
{
    let mut out = chars_of("data:image/png;base64,");
    let e = base64_encode(png);
    push_str(&mut out, e.as_str());
    string_of(out.as_slice())
}

/// The layer image laid over an HTML page.
pub open spec fn overlay_img(png: Seq<u8>, blend: Seq<char>) -> Seq<char> {
    "<img alt=\"\" aria-hidden=\"true\" data-uc-filigrane src=\""@ + data_url_spec(png)
        + "\" style=\"position:fixed;inset:0;width:100vw;height:100vh;object-fit:contain;pointer-events:none;z-index:2147483647;mix-blend-mode:"@
        + blend + "\">"@
}

/// An HTML page with the layer just before its last `</body>` (found
/// ignoring ASCII case), or at its end.
pub open spec fn html_overlay_spec(src: Seq<char>, png: Seq<u8>, blend: Seq<char>) -> Seq<char> {
    match rfind(crate::text::lower_ascii(src), "</body>"@) {
        Some(i) => src.take(i) + overlay_img(png, blend) + src.skip(i),
        None => src + overlay_img(png, blend),
    }
}

pub fn html_with_overlay(src: &str, png: &[u8], blend: &str) -> (r: String)
    ensures
        r@ == html_overlay_spec(src@, png@, blend@),
{
    let sc = chars_of(src);
    let low = crate::text::lower_ascii_exec(sc.as_slice());
    let mut img = chars_of("<img alt=\"\" aria-hidden=\"true\" data-uc-filigrane src=\"");
    push_str(&mut img, data_url(png).as_str());
    push_str(
        &mut img,
        "\" style=\"position:fixed;inset:0;width:100vw;height:100vh;object-fit:contain;pointer-events:none;z-index:2147483647;mix-blend-mode:",
    );
    push_str(&mut img, blend);
    push_str(&mut img, "\">");
    let out = match rfind_exec(low.as_slice(), chars_of("</body>").as_slice()) {
        Some(i) => {
            let mut o = slice_copy(sc.as_slice(), 0, i);
            push_all(&mut o, img.as_slice());
            let t = slice_copy(sc.as_slice(), i, sc.len());
            push_all(&mut o, t.as_slice());
            o
        },
        None => {
            let mut o = sc;
            push_all(&mut o, img.as_slice());
            o
        },
    };
    string_of(out.as_slice())
}

/// Where an SVG's drawing area comes from: its `viewBox`, else its `width`
/// and `height` attributes.
#[derive(Debug)]
pub enum SvgArea {
    ViewBox(String),
    Size(Option<String>, Option<String>),
}

/// The attribute texts that give an SVG's drawing area (the numbers are
/// read from them around the library).
pub fn svg_area(src: &str) -> (r: Result<SvgArea, WmDocError>)
    ensures
        match open_tag_spec(src@, "<svg"@) {
            None => r matches Err(WmDocError::NoSvgElement),
            Some(tag) => match attr_spec(tag, "viewBox"@) {
                Some(v) => r matches Ok(SvgArea::ViewBox(x)) && x@ == v,
                None => r matches Ok(SvgArea::Size(w, h)) && (match w {
                    Some(x) => attr_spec(tag, "width"@) == Some(x@),
                    None => attr_spec(tag, "width"@) is None,
                }) && (match h {
                    Some(x) => attr_spec(tag, "height"@) == Some(x@),
                    None => attr_spec(tag, "height"@) is None,
                }),
            },
        },
{
    let tag = match open_tag_chars(chars_of(src).as_slice(), "<svg") {
        None => {
            return Err(WmDocError::NoSvgElement);
        },
        Some(t) => t,
    };
    match attr(tag.as_slice(), "viewBox") {
        Some(v) => Ok(SvgArea::ViewBox(string_of(v.as_slice()))),
        None => {
            let w = match attr(tag.as_slice(), "width") {
                Some(x) => Some(string_of(x.as_slice())),
                None => None,
            };
            let h = match attr(tag.as_slice(), "height") {
                Some(x) => Some(string_of(x.as_slice())),
                None => None,
            };
            Ok(SvgArea::Size(w, h))
        },
    }
}

/// An SVG with an element inserted before its last `</svg>`.
pub fn svg_insert(src: &str, image: &str) -> (r: Result<String, WmDocError>)
    ensures
        match rfind(src@, "</svg>"@) {
            None => r matches Err(WmDocError::NoSvgEnd),
            Some(i) => r matches Ok(s) && s@ == src@.take(i) + image@ + src@.skip(i),
        },
{
    let sc = chars_of(src);
    match rfind_exec(sc.as_slice(), chars_of("</svg>").as_slice()) {
        None => Err(WmDocError::NoSvgEnd),
        Some(i) => {
            let mut o = slice_copy(sc.as_slice(), 0, i);
            push_str(&mut o, image);
            let t = slice_copy(sc.as_slice(), i, sc.len());
            push_all(&mut o, t.as_slice());
            Ok(string_of(o.as_slice()))
        },
    }
}

// ── Word ─────────────────────────────────────────────────────────────────────

pub open spec fn rel_image() -> Seq<char> {
    "http://schemas.openxmlformats.org/officeDocument/2006/relationships/image"@
}

pub open spec fn rel_header() -> Seq<char> {
    "http://schemas.openxmlformats.org/officeDocument/2006/relationships/header"@
}

pub open spec fn ns_r() -> Seq<char> {
    "http://schemas.openxmlformats.org/officeDocument/2006/relationships"@
}

pub open spec fn ns_wp() -> Seq<char> {
    "http://schemas.openxmlformats.org/drawingml/2006/wordprocessingDrawing"@
}

/// `str::parse::<i64>`: an optional sign, at least one digit, in range.
pub open spec fn parse_i64_text(s: Seq<char>) -> Option<int> {
    if s.len() > 0 && s[0] == '-' {
        let d = s.drop_first();
        if d.len() == 0 || !crate::text::all_digits(d) || crate::text::digits_value(d) > 0x8000_0000_0000_0000 {
            None
        } else {
            Some(-(crate::text::digits_value(d) as int))
        }
    } else {
        match crate::text::parse_u64(s) {
            Some(v) => if v <= 0x7fff_ffff_ffff_ffff {
                Some(v as int)
            } else {
                None
            },
            None => None,
        }
    }
}

fn parse_i64_exec(s: &[char]) -> (r: Option<i64>)
    ensures
        match r {
            Some(v) => parse_i64_text(s@) == Some(v as int),
            None => parse_i64_text(s@) is None,
        },
{
    if s.len() > 0 && s[0] == '-' {
        let d = slice_copy(s, 1, s.len());
        assert(d@ =~= s@.drop_first());
        if d.len() == 0 || !('0' <= d[0] && d[0] <= '9') {
            proof {
                if d@.len() > 0 {
                    assert(!crate::text::all_digits(d@));
                }
            }
            return None;
        }
        match crate::text::parse_u64_exec(d.as_slice()) {
            Some(v) => {
                if v <= 0x8000_0000_0000_0000 {
                    if v == 0x8000_0000_0000_0000 {
                        Some(i64::MIN)
                    } else {
                        Some(-(v as i64))
                    }
                } else {
                    None
                }
            },
            None => {
                proof {
                    assert(d@[0] != '+');
                }
                None
            },
        }
    } else {
        match crate::text::parse_u64_exec(s) {
            Some(v) => if v <= 0x7fff_ffff_ffff_ffff {
                Some(v as i64)
            } else {
                None
            },
            None => None,
        }
    }
}

/// The page size in twips from `<w:pgSz w:w=… w:h=…>`, else A4.
pub open spec fn docx_twips(doc: Seq<char>) -> (int, int) {
    match open_tag_spec(doc, "<w:pgSz"@) {
        Some(t) => match (attr_spec(t, "w:w"@), attr_spec(t, "w:h"@)) {
            (Some(a), Some(b)) => match (parse_i64_text(a), parse_i64_text(b)) {
                (Some(x), Some(y)) => (x, y),
                _ => (11906, 16838),
            },
            _ => (11906, 16838),
        },
        None => (11906, 16838),
    }
}

/// Twips to EMU (×635) as 64-bit integers do it.
pub open spec fn emu(t: int) -> int {
    ((t as i64).wrapping_mul(635)) as int
}

/// The anchored full-page image put in a header.
pub open spec fn docx_drawing(rid: Seq<char>, cx: Seq<char>, cy: Seq<char>) -> Seq<char> {
    "<w:p><w:r><w:drawing><wp:anchor distT=\"0\" distB=\"0\" distL=\"0\" distR=\"0\" simplePos=\"0\" relativeHeight=\"251659264\" behindDoc=\"1\" locked=\"1\" layoutInCell=\"1\" allowOverlap=\"1\"><wp:simplePos x=\"0\" y=\"0\"/><wp:positionH relativeFrom=\"page\"><wp:posOffset>0</wp:posOffset></wp:positionH><wp:positionV relativeFrom=\"page\"><wp:posOffset>0</wp:posOffset></wp:positionV><wp:extent cx=\""@
        + cx + "\" cy=\""@ + cy
        + "\"/><wp:effectExtent l=\"0\" t=\"0\" r=\"0\" b=\"0\"/><wp:wrapNone/><wp:docPr id=\"99001\" name=\"UC Filigrane\"/><wp:cNvGraphicFramePr/><a:graphic xmlns:a=\"http://schemas.openxmlformats.org/drawingml/2006/main\"><a:graphicData uri=\"http://schemas.openxmlformats.org/drawingml/2006/picture\"><pic:pic xmlns:pic=\"http://schemas.openxmlformats.org/drawingml/2006/picture\"><pic:nvPicPr><pic:cNvPr id=\"99001\" name=\"ucwm.png\"/><pic:cNvPicPr/></pic:nvPicPr><pic:blipFill><a:blip r:embed=\""@
        + rid + "\"/><a:stretch><a:fillRect/></a:stretch></pic:blipFill><pic:spPr><a:xfrm><a:off x=\"0\" y=\"0\"/><a:ext cx=\""@
        + cx + "\" cy=\""@ + cy
        + "\"/></a:xfrm><a:prstGeom prst=\"rect\"><a:avLst/></a:prstGeom></pic:spPr></pic:pic></a:graphicData></a:graphic></wp:anchor></w:drawing></w:r></w:p>"@
}

fn push_docx_drawing(out: &mut Vec<char>, rid: &str, cx: &[char], cy: &[char])
    ensures
        final(out)@ == old(out)@ + docx_drawing(rid@, cx@, cy@),
{
    push_str(
        out,
        "<w:p><w:r><w:drawing><wp:anchor distT=\"0\" distB=\"0\" distL=\"0\" distR=\"0\" simplePos=\"0\" relativeHeight=\"251659264\" behindDoc=\"1\" locked=\"1\" layoutInCell=\"1\" allowOverlap=\"1\"><wp:simplePos x=\"0\" y=\"0\"/><wp:positionH relativeFrom=\"page\"><wp:posOffset>0</wp:posOffset></wp:positionH><wp:positionV relativeFrom=\"page\"><wp:posOffset>0</wp:posOffset></wp:positionV><wp:extent cx=\"",
    );
    push_all(out, cx);
    push_str(out, "\" cy=\"");
    push_all(out, cy);
    push_str(
        out,
        "\"/><wp:effectExtent l=\"0\" t=\"0\" r=\"0\" b=\"0\"/><wp:wrapNone/><wp:docPr id=\"99001\" name=\"UC Filigrane\"/><wp:cNvGraphicFramePr/><a:graphic xmlns:a=\"http://schemas.openxmlformats.org/drawingml/2006/main\"><a:graphicData uri=\"http://schemas.openxmlformats.org/drawingml/2006/picture\"><pic:pic xmlns:pic=\"http://schemas.openxmlformats.org/drawingml/2006/picture\"><pic:nvPicPr><pic:cNvPr id=\"99001\" name=\"ucwm.png\"/><pic:cNvPicPr/></pic:nvPicPr><pic:blipFill><a:blip r:embed=\"",
    );
    push_str(out, rid);
    push_str(
        out,
        "\"/><a:stretch><a:fillRect/></a:stretch></pic:blipFill><pic:spPr><a:xfrm><a:off x=\"0\" y=\"0\"/><a:ext cx=\"",
    );
    push_all(out, cx);
    push_str(out, "\" cy=\"");
    push_all(out, cy);
    push_str(
        out,
        "\"/></a:xfrm><a:prstGeom prst=\"rect\"><a:avLst/></a:prstGeom></pic:spPr></pic:pic></a:graphicData></a:graphic></wp:anchor></w:drawing></w:r></w:p>",
    );
}

fn int_string(v: i64) -> (r: Vec<char>)
    ensures
        r@ == int_str(v as int),
{
    if v < 0 {
        let mut r = chars_of("-");
        let m: u64 = if v == i64::MIN { 0x8000_0000_0000_0000 } else { (-v) as u64 };
        push_all(&mut r, crate::text::dec_string(m).as_slice());
        r
    } else {
        crate::text::dec_string(v as u64)
    }
}

/// `s` without all its leading copies of `p`.
pub open spec fn trim_prefix_all(s: Seq<char>, p: Seq<char>) -> Seq<char>
    decreases s.len(),
{
    if p.len() > 0 && crate::text::starts_with(s, p) {
        trim_prefix_all(s.skip(p.len() as int), p)
    } else {
        s
    }
}

fn trim_prefix_all_exec(s: &[char], p: &str) -> (r: Vec<char>)
    ensures
        r@ == trim_prefix_all(s@, p@),
{
    let pc = chars_of(p);
    let mut i: usize = 0;
    if pc.len() == 0 {
        return slice_copy(s, 0, s.len());
    }
    assert(s@.skip(0) =~= s@);
    while crate::text::matches_at(s, pc.as_slice(), i)
        invariant
            i <= s@.len(),
            pc@ == p@,
            pc@.len() > 0,
            trim_prefix_all(s@, p@) == trim_prefix_all(s@.skip(i as int), p@),
        decreases s@.len() - i,
    {
        assert(s@.skip(i as int).subrange(0, pc@.len() as int) =~= s@.subrange(i as int, i + pc@.len()));
        assert(s@.skip(i as int).skip(pc@.len() as int) =~= s@.skip(i + pc@.len()));
        assert(i + pc@.len() <= s@.len() && s@.len() == s.len() && pc@.len() == pc.len());
        i += pc.len();
    }
    assert(!crate::text::starts_with(s@.skip(i as int), p@)) by {
        if crate::text::starts_with(s@.skip(i as int), p@) {
            assert(s@.skip(i as int).subrange(0, p@.len() as int) =~= s@.subrange(i as int, i + p@.len()));
        }
    }
    let r = slice_copy(s, i, s.len());
    assert(r@ =~= s@.skip(i as int));
    r
}

/// The package part a header target points at.
pub open spec fn header_part(target: Seq<char>) -> Seq<char> {
    "word/"@ + trim_prefix_all(trim_prefix_all(target, "/"@), "word/"@)
}

/// Header parts referenced by the sections (each once, in order), from
/// position `from` of the document on.
pub open spec fn header_refs(doc: Seq<char>, rels: Seq<char>, from: int, acc: Seq<Seq<char>>) -> Seq<Seq<char>>
    decreases doc.len() - from,
{
    if from < 0 {
        acc
    } else {
        match find_from(doc, "<w:headerReference"@, from) {
            None => acc,
            Some(s) => {
                proof {
                    lemma_find_from(doc, "<w:headerReference"@, from);
                    reveal_strlit("<w:headerReference");
                }
                let tag = match open_tag_spec(doc.skip(s), "<w:headerReference"@) {
                    Some(t) => t,
                    None => seq![],
                };
                let acc2 = match attr_spec(tag, "r:id"@) {
                    Some(id) => match rel_target_spec(rels, id) {
                        Some(target) => if acc.contains(header_part(target)) {
                            acc
                        } else {
                            acc.push(header_part(target))
                        },
                        None => acc,
                    },
                    None => acc,
                };
                header_refs(doc, rels, s + 1, acc2)
            },
        }
    }
}

/// Mathematical form of a [`WmDocError`] from the container edits.
pub enum WmErr {
    Missing(Seq<char>),
    MissingOpf(Seq<char>),
    InvalidHeader(Seq<char>),
    InvalidSlide(Seq<char>),
    InvalidSheet(Seq<char>),
    NoSection,
    NoSlide,
    NoSheet,
    NoPageLayout,
    MastersWithoutLayout,
    InvalidStyles,
    NoOpf,
    NoXhtml,
    Other,
}

pub open spec fn err_of(e: WmDocError) -> WmErr {
    match e {
        WmDocError::MissingPart(p) => WmErr::Missing(p@),
        WmDocError::MissingOpf(p) => WmErr::MissingOpf(p@),
        WmDocError::InvalidHeader(p) => WmErr::InvalidHeader(p@),
        WmDocError::InvalidSlide(p) => WmErr::InvalidSlide(p@),
        WmDocError::InvalidSheet(p) => WmErr::InvalidSheet(p@),
        WmDocError::NoSection => WmErr::NoSection,
        WmDocError::NoSlide => WmErr::NoSlide,
        WmDocError::NoSheet => WmErr::NoSheet,
        WmDocError::NoPageLayout => WmErr::NoPageLayout,
        WmDocError::MasterPagesWithoutLayout => WmErr::MastersWithoutLayout,
        WmDocError::InvalidStyles => WmErr::InvalidStyles,
        WmDocError::NoOpf => WmErr::NoOpf,
        WmDocError::NoXhtmlChapter => WmErr::NoXhtml,
        _ => WmErr::Other,
    }
}

/// How a container edit ended, against its specification.
pub open spec fn edit_done(r: Result<(), WmDocError>, after: PkgSpec, expected: Result<PkgSpec, WmErr>) -> bool {
    match expected {
        Ok(q) => r is Ok && after == q,
        Err(e) => r matches Err(x) && err_of(x) == e,
    }
}

fn header_refs_exec(doc: &[char], rels: &[char]) -> (r: Vec<Vec<char>>)
    ensures
        crate::text::views(r@) == header_refs(doc@, rels@, 0, seq![]),
{
    let key = chars_of("<w:headerReference");
    proof {
        reveal_strlit("<w:headerReference");
    }
    let mut acc: Vec<Vec<char>> = Vec::new();
    let mut from: usize = 0;
    assert(crate::text::views(acc@) =~= Seq::<Seq<char>>::empty());
    while from <= doc.len()
        invariant
            key@ == "<w:headerReference"@,
            header_refs(doc@, rels@, from as int, crate::text::views(acc@)) == header_refs(doc@, rels@, 0, seq![]),
        decreases doc.len() + 1 - from,
    {
        proof {
            lemma_find_from(doc@, key@, from as int);
        }
        let s = match find_from_exec(doc, key.as_slice(), from) {
            None => {
                return acc;
            },
            Some(s) => s,
        };
        proof {
            reveal_strlit("<w:headerReference");
        }
        assert(key@.len() == 18 && s + 18 <= doc@.len() && doc@.len() == doc.len());
        let rest = slice_copy(doc, s, doc.len());
        assert(rest@ =~= doc@.skip(s as int));
        let tag = match open_tag_chars(rest.as_slice(), "<w:headerReference") {
            Some(t) => t,
            None => Vec::new(),
        };
        let ghost av = crate::text::views(acc@);
        match attr(tag.as_slice(), "r:id") {
            Some(id) => match rel_target(rels, id.as_slice()) {
                Some(target) => {
                    let t1 = trim_prefix_all_exec(target.as_slice(), "/");
                    let t2 = trim_prefix_all_exec(t1.as_slice(), "word/");
                    let mut part = chars_of("word/");
                    push_all(&mut part, t2.as_slice());
                    let mut seen = false;
                    let mut k: usize = 0;
                    while k < acc.len()
                        invariant
                            k <= acc.len(),
                            av == crate::text::views(acc@),
                            seen ==> av.contains(part@),
                            !seen ==> forall|j: int| 0 <= j < k ==> av[j] != part@,
                        decreases acc.len() - k,
                    {
                        if crate::text::eq_chars(acc[k].as_slice(), part.as_slice()) {
                            assert(av[k as int] == part@);
                            seen = true;
                        }
                        k += 1;
                    }
                    proof {
                        if !seen {
                            assert(!av.contains(part@));
                        }
                    }
                    if !seen {
                        let ghost pv = part@;
                        acc.push(part);
                        assert(crate::text::views(acc@) =~= av.push(pv));
                    }
                },
                None => {},
            },
            None => {},
        }
        from = s + 1;
    }
    proof {
        lemma_find_from(doc@, key@, from as int);
    }
    acc
}

pub open spec fn stamp_header(p: PkgSpec, part: Seq<char>, cx: Seq<char>, cy: Seq<char>) -> Result<PkgSpec, WmErr> {
    match text_spec(p, part) {
        None => Ok(p),
        Some(xml) => {
            let (p2, rid) = add_rel_spec(p, rels_of_spec(part), rel_image(), "media/ucwm.png"@);
            let x = ensure_ns_spec(ensure_ns_spec(xml, "<w:hdr"@, "r"@, ns_r()), "<w:hdr"@, "wp"@, ns_wp());
            match rfind(x, "</w:hdr>"@) {
                None => Err(WmErr::InvalidHeader(part)),
                Some(end) => Ok(put_spec(p2, part, utf8_of(x.take(end) + docx_drawing(rid, cx, cy) + x.skip(end)))),
            }
        },
    }
}

/// Each referenced header gets the drawing, in order.
pub open spec fn stamp_headers(p: PkgSpec, parts: Seq<Seq<char>>, cx: Seq<char>, cy: Seq<char>) -> Result<PkgSpec, WmErr>
    decreases parts.len(),
{
    if parts.len() == 0 {
        Ok(p)
    } else {
        match stamp_headers(p, parts.drop_last(), cx, cy) {
            Err(e) => Err(e),
            Ok(q) => stamp_header(q, parts.last(), cx, cy),
        }
    }
}

fn stamp_header_exec(pkg: &mut Package, part: &[char], cx: &[char], cy: &[char]) -> (r: Result<(), WmDocError>)
    ensures
        edit_done(r, final(pkg).view_of(), stamp_header(old(pkg).view_of(), part@, cx@, cy@)),
{
    let ps = string_of(part);
    let xml = match pkg.text(ps.as_str()) {
        None => {
            return Ok(());
        },
        Some(x) => x,
    };
    let rels = rels_of(ps.as_str());
    let rid = add_relationship(pkg, rels.as_str(), "http://schemas.openxmlformats.org/officeDocument/2006/relationships/image", "media/ucwm.png");
    let x1 = ensure_ns(chars_of(xml.as_str()).as_slice(), "<w:hdr", "r", "http://schemas.openxmlformats.org/officeDocument/2006/relationships");
    let x = ensure_ns(x1.as_slice(), "<w:hdr", "wp", "http://schemas.openxmlformats.org/drawingml/2006/wordprocessingDrawing");
    let end = match rfind_exec(x.as_slice(), chars_of("</w:hdr>").as_slice()) {
        None => {
            return Err(WmDocError::InvalidHeader(ps));
        },
        Some(e) => e,
    };
    let mut out = slice_copy(x.as_slice(), 0, end);
    push_docx_drawing(&mut out, rid.as_str(), cx, cy);
    push_all(&mut out, slice_copy(x.as_slice(), end, x.len()).as_slice());
    let os = string_of(out.as_slice());
    pkg.put(ps.as_str(), text_bytes(os.as_str()));
    Ok(())
}

pub open spec fn missing_types(sect: Seq<char>, even_on: bool) -> Seq<Seq<char>> {
    let a = if !contains(sect, "w:type=\"default\""@) {
        seq!["default"@]
    } else {
        Seq::<Seq<char>>::empty()
    };
    let b = if contains(sect, "<w:titlePg"@) && !contains(sect, "w:type=\"first\""@) {
        a.push("first"@)
    } else {
        a
    };
    if even_on && !contains(sect, "w:type=\"even\""@) {
        b.push("even"@)
    } else {
        b
    }
}

pub open spec fn header_refs_xml(missing: Seq<Seq<char>>, rid: Seq<char>) -> Seq<char>
    decreases missing.len(),
{
    if missing.len() == 0 {
        seq![]
    } else {
        header_refs_xml(missing.drop_last(), rid) + "<w:headerReference w:type=\""@ + missing.last()
            + "\" r:id=\""@ + rid + "\"/>"@
    }
}

pub open spec fn new_header(rid: Seq<char>, cx: Seq<char>, cy: Seq<char>) -> Seq<char> {
    "<?xml version=\"1.0\" encoding=\"UTF-8\" standalone=\"yes\"?>\n<w:hdr xmlns:w=\"http://schemas.openxmlformats.org/wordprocessingml/2006/main\" xmlns:r=\""@
        + ns_r() + "\" xmlns:wp=\""@ + ns_wp() + "\">"@ + docx_drawing(rid, cx, cy) + "</w:hdr>"@
}

pub open spec fn header_override() -> Seq<char> {
    "<Override PartName=\"/word/headerUCWM.xml\" ContentType=\"application/vnd.openxmlformats-officedocument.wordprocessingml.header+xml\"/>"@
}

pub open spec fn with_header_override(p: PkgSpec) -> PkgSpec {
    match text_spec(p, "[Content_Types].xml"@) {
        Some(ct) => if !contains(ct, "/word/headerUCWM.xml"@) {
            put_spec(p, "[Content_Types].xml"@, utf8_of(replace_first(ct, "</Types>"@, header_override() + "</Types>"@)))
        } else {
            p
        },
        None => p,
    }
}

/// The opening tag of the first section (or a plain one).
pub open spec fn sect_tag(doc: Seq<char>, start: int) -> Seq<char> {
    match open_tag_spec(doc.skip(start), "<w:sectPr"@) {
        Some(t) => t,
        None => "<w:sectPr>"@,
    }
}

/// Header references opening the first section.
pub open spec fn doc_with_refs(doc: Seq<char>, start: int, refs: Seq<char>) -> Seq<char> {
    let tag = sect_tag(doc, start);
    let insert_at = start + tag.len();
    if crate::text::ends_with(tag, "/>"@) {
        doc.take(start) + "<w:sectPr>"@ + refs + "</w:sectPr>"@ + doc.skip(insert_at)
    } else {
        doc.take(insert_at) + refs + doc.skip(insert_at)
    }
}

/// A Word document can be edited: the first section's tag fits the text.
pub open spec fn docx_safe(p: PkgSpec) -> bool {
    match text_spec(p, "word/document.xml"@) {
        Some(doc) => match find(doc, "<w:sectPr"@) {
            Some(start) => start + sect_tag(doc, start).len() <= doc.len(),
            None => true,
        },
        None => true,
    }
}

/// Whether a Word document can be edited (see [`docx_safe`]).
pub fn docx_safe_exec(pkg: &Package) -> (b: bool)
    ensures
        b == docx_safe(pkg.view_of()),
{
    let doc = match pkg.text("word/document.xml") {
        None => {
            return true;
        },
        Some(t) => chars_of(t.as_str()),
    };
    let key = chars_of("<w:sectPr");
    let start = match find_exec(doc.as_slice(), key.as_slice()) {
        None => {
            return true;
        },
        Some(s) => s,
    };
    assert(doc@.len() == doc.len());
    let rest = slice_copy(doc.as_slice(), start, doc.len());
    assert(rest@ =~= doc@.skip(start as int));
    let tag_len: usize = match open_tag_chars(rest.as_slice(), "<w:sectPr") {
        Some(t) => t.len(),
        None => 10,
    };
    proof {
        reveal_strlit("<w:sectPr>");
    }
    tag_len <= doc.len() - start
}

/// A Word document with the layer anchored, behind the text, in the header
/// of every section: the headers the sections reference get the image, and
/// a new header is made for the kinds (default, first page, even pages) the
/// first section lacks.
pub open spec fn docx_spec(p0: PkgSpec, png: Seq<u8>) -> Result<PkgSpec, WmErr> {
    match text_spec(p0, "word/document.xml"@) {
        None => Err(WmErr::Missing("word/document.xml"@)),
        Some(doc) => {
            let (w, h) = docx_twips(doc);
            let cx = int_str(emu(w));
            let cy = int_str(emu(h));
            let p1 = png_ct_spec(put_spec(p0, "word/media/ucwm.png"@, png));
            let rels = match text_spec(p1, "word/_rels/document.xml.rels"@) {
                Some(t) => t,
                None => seq![],
            };
            match stamp_headers(p1, header_refs(doc, rels, 0, seq![]), cx, cy) {
                Err(e) => Err(e),
                Ok(p2) => match find(doc, "<w:sectPr"@) {
                    None => Err(WmErr::NoSection),
                    Some(start) => {
                        let end = match find_from(doc, "</w:sectPr>"@, start) {
                            Some(i) => i,
                            None => start,
                        };
                        let even_on = match text_spec(p2, "word/settings.xml"@) {
                            Some(st) => contains(st, "<w:evenAndOddHeaders"@),
                            None => false,
                        };
                        let missing = missing_types(doc.subrange(start, end), even_on);
                        if missing.len() == 0 {
                            Ok(p2)
                        } else {
                            let part = "word/headerUCWM.xml"@;
                            let (p3, img_rid) = add_rel_spec(p2, rels_of_spec(part), rel_image(), "media/ucwm.png"@);
                            let p4 = put_spec(p3, part, utf8_of(new_header(img_rid, cx, cy)));
                            let (p5, hdr_rid) = add_rel_spec(
                                p4,
                                "word/_rels/document.xml.rels"@,
                                rel_header(),
                                "headerUCWM.xml"@,
                            );
                            let p6 = with_header_override(p5);
                            let doc2 = doc_with_refs(doc, start, header_refs_xml(missing, hdr_rid));
                            Ok(put_spec(p6, "word/document.xml"@, utf8_of(ensure_ns_spec(doc2, "<w:document"@, "r"@, ns_r()))))
                        }
                    },
                },
            }
        },
    }
}

proof fn lemma_stamp_err(p: PkgSpec, parts: Seq<Seq<char>>, cx: Seq<char>, cy: Seq<char>, k: int)
    requires
        0 <= k <= parts.len(),
        stamp_headers(p, parts.take(k), cx, cy) is Err,
    ensures
        stamp_headers(p, parts, cx, cy) == stamp_headers(p, parts.take(k), cx, cy),
    decreases parts.len() - k,
{
    if k < parts.len() {
        assert(parts.take(k + 1).drop_last() =~= parts.take(k));
        lemma_stamp_err(p, parts, cx, cy, k + 1);
    } else {
        assert(parts.take(k) =~= parts);
    }
}

fn bytes_copy(b: &[u8]) -> (r: Vec<u8>)
    ensures
        r@ == b@,
{
    let mut r: Vec<u8> = Vec::new();
    let mut i: usize = 0;
    while i < b.len()
        invariant
            i <= b.len(),
            r@ == b@.take(i as int),
        decreases b.len() - i,
    {
        r.push(b[i]);
        i += 1;
        assert(r@ =~= b@.take(i as int));
    }
    assert(b@.take(i as int) =~= b@);
    r
}

fn docx_twips_exec(doc: &[char]) -> (r: (i64, i64))
    ensures
        (r.0 as int, r.1 as int) == docx_twips(doc@),
{
    match open_tag_chars(doc, "<w:pgSz") {
        Some(t) => match (attr(t.as_slice(), "w:w"), attr(t.as_slice(), "w:h")) {
            (Some(a), Some(b)) => match (parse_i64_exec(a.as_slice()), parse_i64_exec(b.as_slice())) {
                (Some(x), Some(y)) => (x, y),
                _ => (11906, 16838),
            },
            _ => (11906, 16838),
        },
        None => (11906, 16838),
    }
}

fn put_text(pkg: &mut Package, name: &str, text: &[char])
    ensures
        final(pkg).view_of() == put_spec(old(pkg).view_of(), name@, utf8_of(text@)),
{
    let t = string_of(text);
    pkg.put(name, text_bytes(t.as_str()));
}

/// Puts the layer in a Word document (`docx`).
#[verifier::rlimit(60)]
pub fn docx(pkg: &mut Package, png: &[u8]) -> (r: Result<(), WmDocError>)
    requires
        docx_safe(old(pkg).view_of()),
    ensures
        edit_done(r, final(pkg).view_of(), docx_spec(old(pkg).view_of(), png@)),
{
    let ghost p0 = pkg.view_of();
    let doc = match pkg.text("word/document.xml") {
        None => {
            return Err(WmDocError::MissingPart(String::from_str("word/document.xml")));
        },
        Some(d) => chars_of(d.as_str()),
    };
    let (w, h) = docx_twips_exec(doc.as_slice());
    let cx = int_string(w.wrapping_mul(635));
    let cy = int_string(h.wrapping_mul(635));
    pkg.put("word/media/ucwm.png", bytes_copy(png));
    ensure_png_content_type(pkg);
    let ghost p1 = pkg.view_of();
    let rels = match pkg.text("word/_rels/document.xml.rels") {
        Some(t) => chars_of(t.as_str()),
        None => Vec::new(),
    };
    let parts = header_refs_exec(doc.as_slice(), rels.as_slice());
    let ghost pv = crate::text::views(parts@);
    let mut k: usize = 0;
    assert(pv.take(0) =~= Seq::<Seq<char>>::empty());
    proof {
        assert(rels@ == match text_spec(p1, "word/_rels/document.xml.rels"@) {
            Some(t) => t,
            None => Seq::<char>::empty(),
        });
    }
    assert(stamp_headers(p1, pv, cx@, cy@) is Err ==> docx_spec(p0, png@) == stamp_headers(p1, pv, cx@, cy@));
    while k < parts.len()
        invariant
            k <= parts.len(),
            pv == crate::text::views(parts@),
            stamp_headers(p1, pv, cx@, cy@) is Err ==> docx_spec(p0, png@) == stamp_headers(p1, pv, cx@, cy@),
            p0 == old(pkg).view_of(),
            stamp_headers(p1, pv.take(k as int), cx@, cy@) == Ok::<PkgSpec, WmErr>(pkg.view_of()),
        decreases parts.len() - k,
    {
        assert(pv.take(k + 1).drop_last() =~= pv.take(k as int));
        let ghost before = pkg.view_of();
        assert(pv[k as int] == parts@[k as int]@);
        assert(pv.take(k + 1).last() == pv[k as int]);
        match stamp_header_exec(pkg, parts[k].as_slice(), cx.as_slice(), cy.as_slice()) {
            Ok(()) => {},
            Err(e) => {
                proof {
                    assert(stamp_headers(p1, pv.take(k + 1), cx@, cy@) == stamp_header(before, pv[k as int], cx@, cy@));
                    lemma_stamp_err(p1, pv, cx@, cy@, k + 1);
                }
                return Err(e);
            },
        }
        k += 1;
    }
    assert(pv.take(k as int) =~= pv);
    let ghost p2 = pkg.view_of();
    let start = match find_exec(doc.as_slice(), chars_of("<w:sectPr").as_slice()) {
        None => {
            return Err(WmDocError::NoSection);
        },
        Some(s) => s,
    };
    proof {
        lemma_find_from(doc@, "</w:sectPr>"@, start as int);
    }
    let end = match find_from_exec(doc.as_slice(), chars_of("</w:sectPr>").as_slice(), start) {
        Some(i) => i,
        None => start,
    };
    let sect = slice_copy(doc.as_slice(), start, end);
    let even_on = match pkg.text("word/settings.xml") {
        Some(st) => crate::text::contains_exec(chars_of(st.as_str()).as_slice(), chars_of("<w:evenAndOddHeaders").as_slice()),
        None => false,
    };
    let mut missing: Vec<Vec<char>> = Vec::new();
    if !crate::text::contains_exec(sect.as_slice(), chars_of("w:type=\"default\"").as_slice()) {
        missing.push(chars_of("default"));
    }
    if crate::text::contains_exec(sect.as_slice(), chars_of("<w:titlePg").as_slice())
        && !crate::text::contains_exec(sect.as_slice(), chars_of("w:type=\"first\"").as_slice()) {
        missing.push(chars_of("first"));
    }
    if even_on && !crate::text::contains_exec(sect.as_slice(), chars_of("w:type=\"even\"").as_slice()) {
        missing.push(chars_of("even"));
    }
    assert(crate::text::views(missing@) =~= missing_types(doc@.subrange(start as int, end as int), even_on));
    if missing.len() == 0 {
        return Ok(());
    }
    let part = "word/headerUCWM.xml";
    let rp = rels_of(part);
    let img_rid = add_relationship(pkg, rp.as_str(), "http://schemas.openxmlformats.org/officeDocument/2006/relationships/image", "media/ucwm.png");
    let mut hdr = chars_of(
        "<?xml version=\"1.0\" encoding=\"UTF-8\" standalone=\"yes\"?>\n<w:hdr xmlns:w=\"http://schemas.openxmlformats.org/wordprocessingml/2006/main\" xmlns:r=\"",
    );
    push_str(&mut hdr, "http://schemas.openxmlformats.org/officeDocument/2006/relationships");
    push_str(&mut hdr, "\" xmlns:wp=\"");
    push_str(&mut hdr, "http://schemas.openxmlformats.org/drawingml/2006/wordprocessingDrawing");
    push_str(&mut hdr, "\">");
    push_docx_drawing(&mut hdr, img_rid.as_str(), cx.as_slice(), cy.as_slice());
    push_str(&mut hdr, "</w:hdr>");
    put_text(pkg, part, hdr.as_slice());
    let hdr_rid = add_relationship(pkg, "word/_rels/document.xml.rels", "http://schemas.openxmlformats.org/officeDocument/2006/relationships/header", "headerUCWM.xml");
    match pkg.text("[Content_Types].xml") {
        Some(ct) => {
            let c = chars_of(ct.as_str());
            if !crate::text::contains_exec(c.as_slice(), chars_of("/word/headerUCWM.xml").as_slice()) {
                let mut with = chars_of(
                    "<Override PartName=\"/word/headerUCWM.xml\" ContentType=\"application/vnd.openxmlformats-officedocument.wordprocessingml.header+xml\"/>",
                );
                push_str(&mut with, "</Types>");
                let u = replace_first_exec(c.as_slice(), chars_of("</Types>").as_slice(), with.as_slice());
                put_text(pkg, "[Content_Types].xml", u.as_slice());
            }
        },
        None => {},
    }
    let mut refs: Vec<char> = Vec::new();
    let mut m: usize = 0;
    while m < missing.len()
        invariant
            m <= missing.len(),
            refs@ == header_refs_xml(crate::text::views(missing@).take(m as int), hdr_rid@),
        decreases missing.len() - m,
    {
        assert(crate::text::views(missing@).take(m + 1).drop_last() =~= crate::text::views(missing@).take(m as int));
        push_str(&mut refs, "<w:headerReference w:type=\"");
        push_all(&mut refs, missing[m].as_slice());
        push_str(&mut refs, "\" r:id=\"");
        push_str(&mut refs, hdr_rid.as_str());
        push_str(&mut refs, "\"/>");
        m += 1;
    }
    assert(crate::text::views(missing@).take(m as int) =~= crate::text::views(missing@));
    let rest = slice_copy(doc.as_slice(), start, doc.len());
    assert(rest@ =~= doc@.skip(start as int));
    let tag = match open_tag_chars(rest.as_slice(), "<w:sectPr") {
        Some(t) => t,
        None => chars_of("<w:sectPr>"),
    };
    proof {
        assert(tag@ == sect_tag(doc@, start as int));
        assert(start + tag@.len() <= doc@.len());
    }
    let insert_at = start + tag.len();
    let mut doc2: Vec<char>;
    if crate::text::ends_with_exec(tag.as_slice(), chars_of("/>").as_slice()) {
        doc2 = slice_copy(doc.as_slice(), 0, start);
        push_str(&mut doc2, "<w:sectPr>");
        push_all(&mut doc2, refs.as_slice());
        push_str(&mut doc2, "</w:sectPr>");
        push_all(&mut doc2, slice_copy(doc.as_slice(), insert_at, doc.len()).as_slice());
    } else {
        doc2 = slice_copy(doc.as_slice(), 0, insert_at);
        push_all(&mut doc2, refs.as_slice());
        push_all(&mut doc2, slice_copy(doc.as_slice(), insert_at, doc.len()).as_slice());
    }
    let d3 = ensure_ns(doc2.as_slice(), "<w:document", "r", "http://schemas.openxmlformats.org/officeDocument/2006/relationships");
    put_text(pkg, "word/document.xml", d3.as_slice());
    Ok(())
}

// ── PowerPoint and Excel ─────────────────────────────────────────────────────

/// An edit applied to each part in turn, stopping at the first failure.
pub open spec fn fold_edits(p: PkgSpec, parts: Seq<Seq<char>>, f: spec_fn(PkgSpec, Seq<char>) -> Result<PkgSpec, WmErr>) -> Result<PkgSpec, WmErr>
    decreases parts.len(),
{
    if parts.len() == 0 {
        Ok(p)
    } else {
        match fold_edits(p, parts.drop_last(), f) {
            Err(e) => Err(e),
            Ok(q) => f(q, parts.last()),
        }
    }
}

proof fn lemma_fold_err(p: PkgSpec, parts: Seq<Seq<char>>, f: spec_fn(PkgSpec, Seq<char>) -> Result<PkgSpec, WmErr>, k: int)
    requires
        0 <= k <= parts.len(),
        fold_edits(p, parts.take(k), f) is Err,
    ensures
        fold_edits(p, parts, f) == fold_edits(p, parts.take(k), f),
    decreases parts.len() - k,
{
    if k < parts.len() {
        assert(parts.take(k + 1).drop_last() =~= parts.take(k));
        lemma_fold_err(p, parts, f, k + 1);
    } else {
        assert(parts.take(k) =~= parts);
    }
}

/// Names of the stored files between a prefix and a suffix, in name order.
pub open spec fn parts_like(files: crate::package::Files, pre: Seq<char>, suf: Seq<char>) -> Seq<Seq<char>> {
    files.map_values(|e: (Seq<char>, Seq<u8>)| e.0).filter(
        |n: Seq<char>| crate::text::starts_with(n, pre) && crate::text::ends_with(n, suf),
    )
}

fn parts_like_exec(pkg: &Package, pre: &str, suf: &str) -> (r: Vec<Vec<char>>)
    ensures
        crate::text::views(r@) == parts_like(pkg.view_of().files, pre@, suf@),
{
    let ghost names = pkg.view_of().files.map_values(|e: (Seq<char>, Seq<u8>)| e.0);
    let ghost pred = |n: Seq<char>| crate::text::starts_with(n, pre@) && crate::text::ends_with(n, suf@);
    let pc = chars_of(pre);
    let sc = chars_of(suf);
    let mut r: Vec<Vec<char>> = Vec::new();
    let mut i: usize = 0;
    assert(names.take(0).filter(pred) =~= Seq::<Seq<char>>::empty()) by {
        reveal(Seq::filter);
    }
    while i < pkg.files.len()
        invariant
            i <= pkg.files.len(),
            names == pkg.view_of().files.map_values(|e: (Seq<char>, Seq<u8>)| e.0),
            names.len() == pkg.files@.len(),
            pc@ == pre@,
            sc@ == suf@,
            pred == (|n: Seq<char>| crate::text::starts_with(n, pre@) && crate::text::ends_with(n, suf@)),
            crate::text::views(r@) == names.take(i as int).filter(pred),
        decreases pkg.files.len() - i,
    {
        let n = chars_of(pkg.files[i].0.as_str());
        proof {
            assert(names[i as int] == n@);
            assert(names.take(i + 1) =~= names.take(i as int).push(n@));
            names.take(i as int).lemma_filter_push(n@, pred);
        }
        if crate::text::starts_with_at0(n.as_slice(), pc.as_slice()) && crate::text::ends_with_exec(n.as_slice(), sc.as_slice()) {
            let ghost before = crate::text::views(r@);
            let ghost nv = n@;
            r.push(n);
            assert(crate::text::views(r@) =~= before.push(nv));
        }
        i += 1;
    }
    assert(names.take(i as int) =~= names);
    r
}

pub open spec fn ns_a() -> Seq<char> {
    "http://schemas.openxmlformats.org/drawingml/2006/main"@
}

/// The full-slide picture, on top of the slide.
pub open spec fn pptx_pic(rid: Seq<char>, cx: Seq<char>, cy: Seq<char>) -> Seq<char> {
    "<p:pic><p:nvPicPr><p:cNvPr id=\"99001\" name=\"UC Filigrane\"/><p:cNvPicPr><a:picLocks noGrp=\"1\" noChangeAspect=\"1\"/></p:cNvPicPr><p:nvPr userDrawn=\"1\"/></p:nvPicPr><p:blipFill><a:blip r:embed=\""@
        + rid + "\"/><a:stretch><a:fillRect/></a:stretch></p:blipFill><p:spPr><a:xfrm><a:off x=\"0\" y=\"0\"/><a:ext cx=\""@
        + cx + "\" cy=\""@ + cy + "\"/></a:xfrm><a:prstGeom prst=\"rect\"><a:avLst/></a:prstGeom></p:spPr></p:pic>"@
}

pub open spec fn stamp_slide(p: PkgSpec, part: Seq<char>, cx: Seq<char>, cy: Seq<char>) -> Result<PkgSpec, WmErr> {
    let xml = match text_spec(p, part) {
        Some(t) => t,
        None => seq![],
    };
    let (p2, rid) = add_rel_spec(p, rels_of_spec(part), rel_image(), "../media/ucwm.png"@);
    match rfind(xml, "</p:spTree>"@) {
        None => Err(WmErr::InvalidSlide(part)),
        Some(end) => {
            let x = xml.take(end) + pptx_pic(rid, cx, cy) + xml.skip(end);
            Ok(put_spec(p2, part, utf8_of(ensure_ns_spec(ensure_ns_spec(x, "<p:sld"@, "r"@, ns_r()), "<p:sld"@, "a"@, ns_a()))))
        },
    }
}

/// The slide size from `<p:sldSz cx=… cy=…>`, else 16:9.
pub open spec fn pptx_size(pres: Seq<char>) -> (Seq<char>, Seq<char>) {
    match open_tag_spec(pres, "<p:sldSz"@) {
        Some(t) => match (attr_spec(t, "cx"@), attr_spec(t, "cy"@)) {
            (Some(a), Some(b)) => (a, b),
            _ => ("12192000"@, "6858000"@),
        },
        None => ("12192000"@, "6858000"@),
    }
}

/// A presentation with the layer over every slide.
pub open spec fn pptx_spec(p0: PkgSpec, png: Seq<u8>) -> Result<PkgSpec, WmErr> {
    match text_spec(p0, "ppt/presentation.xml"@) {
        None => Err(WmErr::Missing("ppt/presentation.xml"@)),
        Some(pres) => {
            let (cx, cy) = pptx_size(pres);
            let p1 = png_ct_spec(put_spec(p0, "ppt/media/ucwm.png"@, png));
            let slides = parts_like(p1.files, "ppt/slides/slide"@, ".xml"@);
            if slides.len() == 0 {
                Err(WmErr::NoSlide)
            } else {
                fold_edits(p1, slides, |q: PkgSpec, part: Seq<char>| stamp_slide(q, part, cx, cy))
            }
        },
    }
}

fn push_pptx_pic(x: &mut Vec<char>, rid: &str, cx: &[char], cy: &[char])
    ensures
        final(x)@ == old(x)@ + pptx_pic(rid@, cx@, cy@),
{
    push_str(
        x,
        "<p:pic><p:nvPicPr><p:cNvPr id=\"99001\" name=\"UC Filigrane\"/><p:cNvPicPr><a:picLocks noGrp=\"1\" noChangeAspect=\"1\"/></p:cNvPicPr><p:nvPr userDrawn=\"1\"/></p:nvPicPr><p:blipFill><a:blip r:embed=\"",
    );
    push_str(x, rid);
    push_str(
        x,
        "\"/><a:stretch><a:fillRect/></a:stretch></p:blipFill><p:spPr><a:xfrm><a:off x=\"0\" y=\"0\"/><a:ext cx=\"",
    );
    push_all(x, cx);
    push_str(x, "\" cy=\"");
    push_all(x, cy);
    push_str(x, "\"/></a:xfrm><a:prstGeom prst=\"rect\"><a:avLst/></a:prstGeom></p:spPr></p:pic>");
}

#[verifier::rlimit(30)]
fn stamp_slide_exec(pkg: &mut Package, part: &[char], cx: &[char], cy: &[char]) -> (r: Result<(), WmDocError>)
    ensures
        edit_done(r, final(pkg).view_of(), stamp_slide(old(pkg).view_of(), part@, cx@, cy@)),
{
    let ps = string_of(part);
    let xml = match pkg.text(ps.as_str()) {
        Some(t) => chars_of(t.as_str()),
        None => Vec::new(),
    };
    let rels = rels_of(ps.as_str());
    let rid = add_relationship(pkg, rels.as_str(), "http://schemas.openxmlformats.org/officeDocument/2006/relationships/image", "../media/ucwm.png");
    let end = match rfind_exec(xml.as_slice(), chars_of("</p:spTree>").as_slice()) {
        None => {
            return Err(WmDocError::InvalidSlide(ps));
        },
        Some(e) => e,
    };
    let mut x = slice_copy(xml.as_slice(), 0, end);
    push_pptx_pic(&mut x, rid.as_str(), cx, cy);
    push_all(&mut x, slice_copy(xml.as_slice(), end, xml.len()).as_slice());
    let x1 = ensure_ns(x.as_slice(), "<p:sld", "r", "http://schemas.openxmlformats.org/officeDocument/2006/relationships");
    let x2 = ensure_ns(x1.as_slice(), "<p:sld", "a", "http://schemas.openxmlformats.org/drawingml/2006/main");
    put_text(pkg, ps.as_str(), x2.as_slice());
    Ok(())
}

/// Puts the layer over every slide of a presentation (`pptx`).
#[verifier::rlimit(60)]
pub fn pptx(pkg: &mut Package, png: &[u8]) -> (r: Result<(), WmDocError>)
    ensures
        edit_done(r, final(pkg).view_of(), pptx_spec(old(pkg).view_of(), png@)),
{
    let ghost p0 = pkg.view_of();
    let pres = match pkg.text("ppt/presentation.xml") {
        None => {
            return Err(WmDocError::MissingPart(String::from_str("ppt/presentation.xml")));
        },
        Some(d) => chars_of(d.as_str()),
    };
    let (cx, cy) = match open_tag_chars(pres.as_slice(), "<p:sldSz") {
        Some(t) => match (attr(t.as_slice(), "cx"), attr(t.as_slice(), "cy")) {
            (Some(a), Some(b)) => (a, b),
            _ => (chars_of("12192000"), chars_of("6858000")),
        },
        None => (chars_of("12192000"), chars_of("6858000")),
    };
    pkg.put("ppt/media/ucwm.png", bytes_copy(png));
    ensure_png_content_type(pkg);
    let ghost p1 = pkg.view_of();
    let slides = parts_like_exec(pkg, "ppt/slides/slide", ".xml");
    let ghost sv = crate::text::views(slides@);
    let ghost f = |q: PkgSpec, part: Seq<char>| stamp_slide(q, part, cx@, cy@);
    if slides.len() == 0 {
        return Err(WmDocError::NoSlide);
    }
    assert(pptx_spec(p0, png@) == fold_edits(p1, sv, f));
    let mut k: usize = 0;
    assert(sv.take(0) =~= Seq::<Seq<char>>::empty());
    while k < slides.len()
        invariant
            k <= slides.len(),
            sv == crate::text::views(slides@),
            f == (|q: PkgSpec, part: Seq<char>| stamp_slide(q, part, cx@, cy@)),
            pptx_spec(p0, png@) == fold_edits(p1, sv, f),
            fold_edits(p1, sv.take(k as int), f) == Ok::<PkgSpec, WmErr>(pkg.view_of()),
            p0 == old(pkg).view_of(),
        decreases slides.len() - k,
    {
        assert(sv.take(k + 1).drop_last() =~= sv.take(k as int));
        let ghost before = pkg.view_of();
        assert(sv[k as int] == slides@[k as int]@);
        assert(sv.take(k + 1).last() == sv[k as int]);
        match stamp_slide_exec(pkg, slides[k].as_slice(), cx.as_slice(), cy.as_slice()) {
            Ok(()) => {},
            Err(e) => {
                proof {
                    assert(fold_edits(p1, sv.take(k + 1), f) == f(before, sv[k as int]));
                    lemma_fold_err(p1, sv, f, k + 1);
                }
                return Err(e);
            },
        }
        k += 1;
    }
    assert(sv.take(k as int) =~= sv);
    Ok(())
}

/// The first position among the finds of the given markers.
pub open spec fn first_of(xml: Seq<char>, marks: Seq<Seq<char>>) -> Option<int>
    decreases marks.len(),
{
    if marks.len() == 0 {
        None
    } else {
        match (first_of(xml, marks.drop_last()), find(xml, marks.last())) {
            (Some(a), Some(b)) => Some(if b < a {
                b
            } else {
                a
            }),
            (Some(a), None) => Some(a),
            (None, b) => b,
        }
    }
}

/// Elements a sheet's background picture must come before.
pub open spec fn sheet_marks() -> Seq<Seq<char>> {
    seq!["<oleObjects"@, "<controls"@, "<webPublishItems"@, "<tableParts"@, "<extLst"@, "</worksheet>"@]
}

pub open spec fn stamp_sheet(p: PkgSpec, part: Seq<char>) -> Result<PkgSpec, WmErr> {
    let xml = match text_spec(p, part) {
        Some(t) => t,
        None => seq![],
    };
    if contains(xml, "<picture "@) {
        Ok(p)
    } else {
        let (p2, rid) = add_rel_spec(p, rels_of_spec(part), rel_image(), "../media/ucwm.png"@);
        match first_of(xml, sheet_marks()) {
            None => Err(WmErr::InvalidSheet(part)),
            Some(at) => Ok(put_spec(
                p2,
                part,
                utf8_of(ensure_ns_spec(xml.take(at) + "<picture r:id=\""@ + rid + "\"/>"@ + xml.skip(at), "<worksheet"@, "r"@, ns_r())),
            )),
        }
    }
}

/// A workbook with the layer as the background of every sheet (a sheet
/// that has one keeps it).
pub open spec fn xlsx_spec(p0: PkgSpec, png: Seq<u8>) -> Result<PkgSpec, WmErr> {
    let p1 = png_ct_spec(put_spec(p0, "xl/media/ucwm.png"@, png));
    let sheets = parts_like(p1.files, "xl/worksheets/sheet"@, ".xml"@);
    if sheets.len() == 0 {
        Err(WmErr::NoSheet)
    } else {
        fold_edits(p1, sheets, |q: PkgSpec, part: Seq<char>| stamp_sheet(q, part))
    }
}

fn first_of_exec(xml: &[char]) -> (r: Option<usize>)
    ensures
        match r {
            Some(a) => first_of(xml@, sheet_marks()) == Some(a as int),
            None => first_of(xml@, sheet_marks()) is None,
        },
{
    let marks: [&str; 6] = ["<oleObjects", "<controls", "<webPublishItems", "<tableParts", "<extLst", "</worksheet>"];
    let ghost mv = seq!["<oleObjects"@, "<controls"@, "<webPublishItems"@, "<tableParts"@, "<extLst"@, "</worksheet>"@];
    assert(mv =~= sheet_marks());
    let mut best: Option<usize> = None;
    let mut i: usize = 0;
    assert(mv.take(0) =~= Seq::<Seq<char>>::empty());
    while i < 6
        invariant
            i <= 6,
            mv == sheet_marks(),
            forall|j: int| 0 <= j < 6 ==> #[trigger] marks@[j]@ == mv[j],
            match best {
                Some(a) => first_of(xml@, mv.take(i as int)) == Some(a as int),
                None => first_of(xml@, mv.take(i as int)) is None,
            },
        decreases 6 - i,
    {
        assert(mv.take(i + 1).drop_last() =~= mv.take(i as int));
        let f = find_exec(xml, chars_of(marks[i]).as_slice());
        best = match (best, f) {
            (Some(a), Some(b)) => Some(if b < a { b } else { a }),
            (Some(a), None) => Some(a),
            (None, b) => b,
        };
        i += 1;
    }
    assert(mv.take(6) =~= mv);
    best
}

#[verifier::rlimit(30)]
fn stamp_sheet_exec(pkg: &mut Package, part: &[char]) -> (r: Result<(), WmDocError>)
    ensures
        edit_done(r, final(pkg).view_of(), stamp_sheet(old(pkg).view_of(), part@)),
{
    let ps = string_of(part);
    let xml = match pkg.text(ps.as_str()) {
        Some(t) => chars_of(t.as_str()),
        None => Vec::new(),
    };
    if crate::text::contains_exec(xml.as_slice(), chars_of("<picture ").as_slice()) {
        return Ok(());
    }
    let rels = rels_of(ps.as_str());
    let rid = add_relationship(pkg, rels.as_str(), "http://schemas.openxmlformats.org/officeDocument/2006/relationships/image", "../media/ucwm.png");
    let at = match first_of_exec(xml.as_slice()) {
        None => {
            return Err(WmDocError::InvalidSheet(ps));
        },
        Some(a) => a,
    };
    proof {
        assert(at <= xml@.len()) by {
            lemma_first_of_bound(xml@, sheet_marks());
        }
    }
    let mut x = slice_copy(xml.as_slice(), 0, at);
    push_str(&mut x, "<picture r:id=\"");
    push_str(&mut x, rid.as_str());
    push_str(&mut x, "\"/>");
    push_all(&mut x, slice_copy(xml.as_slice(), at, xml.len()).as_slice());
    let x2 = ensure_ns(x.as_slice(), "<worksheet", "r", "http://schemas.openxmlformats.org/officeDocument/2006/relationships");
    put_text(pkg, ps.as_str(), x2.as_slice());
    Ok(())
}

proof fn lemma_first_of_bound(xml: Seq<char>, marks: Seq<Seq<char>>)
    ensures
        match first_of(xml, marks) {
            Some(a) => 0 <= a <= xml.len(),
            None => true,
        },
    decreases marks.len(),
{
    if marks.len() > 0 {
        lemma_first_of_bound(xml, marks.drop_last());
        lemma_find(xml, marks.last());
    }
}

/// Puts the layer behind every sheet of a workbook (`xlsx`).
pub fn xlsx(pkg: &mut Package, png: &[u8]) -> (r: Result<(), WmDocError>)
    ensures
        edit_done(r, final(pkg).view_of(), xlsx_spec(old(pkg).view_of(), png@)),
{
    let ghost p0 = pkg.view_of();
    pkg.put("xl/media/ucwm.png", bytes_copy(png));
    ensure_png_content_type(pkg);
    let ghost p1 = pkg.view_of();
    let sheets = parts_like_exec(pkg, "xl/worksheets/sheet", ".xml");
    let ghost sv = crate::text::views(sheets@);
    let ghost f = |q: PkgSpec, part: Seq<char>| stamp_sheet(q, part);
    if sheets.len() == 0 {
        return Err(WmDocError::NoSheet);
    }
    assert(xlsx_spec(p0, png@) == fold_edits(p1, sv, f));
    let mut k: usize = 0;
    assert(sv.take(0) =~= Seq::<Seq<char>>::empty());
    while k < sheets.len()
        invariant
            k <= sheets.len(),
            sv == crate::text::views(sheets@),
            f == (|q: PkgSpec, part: Seq<char>| stamp_sheet(q, part)),
            xlsx_spec(p0, png@) == fold_edits(p1, sv, f),
            fold_edits(p1, sv.take(k as int), f) == Ok::<PkgSpec, WmErr>(pkg.view_of()),
            p0 == old(pkg).view_of(),
        decreases sheets.len() - k,
    {
        assert(sv.take(k + 1).drop_last() =~= sv.take(k as int));
        let ghost before = pkg.view_of();
        assert(sv[k as int] == sheets@[k as int]@);
        assert(sv.take(k + 1).last() == sv[k as int]);
        match stamp_sheet_exec(pkg, sheets[k].as_slice()) {
            Ok(()) => {},
            Err(e) => {
                proof {
                    assert(fold_edits(p1, sv.take(k + 1), f) == f(before, sv[k as int]));
                    lemma_fold_err(p1, sv, f, k + 1);
                }
                return Err(e);
            },
        }
        k += 1;
    }
    assert(sv.take(k as int) =~= sv);
    Ok(())
}

// ── OpenDocument ─────────────────────────────────────────────────────────────

pub open spec fn manifest_entry() -> Seq<char> {
    "<manifest:file-entry manifest:full-path=\"Pictures/ucwm.png\" manifest:media-type=\"image/png\"/>"@
}

/// The layer stored under `Pictures/` and declared in the manifest.
pub open spec fn manifest_spec(p: PkgSpec, png: Seq<u8>) -> PkgSpec {
    let p1 = put_spec(p, "Pictures/ucwm.png"@, png);
    match text_spec(p1, "META-INF/manifest.xml"@) {
        Some(m) => if !contains(m, "Pictures/ucwm.png"@) {
            put_spec(
                p1,
                "META-INF/manifest.xml"@,
                utf8_of(replace_first(m, "</manifest:manifest>"@, manifest_entry() + "</manifest:manifest>"@)),
            )
        } else {
            p1
        },
        None => p1,
    }
}

pub fn odf_manifest_png(pkg: &mut Package, png: &[u8])
    ensures
        final(pkg).view_of() == manifest_spec(old(pkg).view_of(), png@),
{
    pkg.put("Pictures/ucwm.png", bytes_copy(png));
    match pkg.text("META-INF/manifest.xml") {
        Some(m) => {
            let c = chars_of(m.as_str());
            if !crate::text::contains_exec(c.as_slice(), chars_of("Pictures/ucwm.png").as_slice()) {
                let mut with = chars_of(
                    "<manifest:file-entry manifest:full-path=\"Pictures/ucwm.png\" manifest:media-type=\"image/png\"/>",
                );
                push_str(&mut with, "</manifest:manifest>");
                let u = replace_first_exec(c.as_slice(), chars_of("</manifest:manifest>").as_slice(), with.as_slice());
                put_text(pkg, "META-INF/manifest.xml", u.as_slice());
            }
        },
        None => {},
    }
}

pub open spec fn page_layout() -> Seq<char> {
    "<style:page-layout style:name=\"UCWMLayout\"><style:page-layout-properties fo:page-width=\"21cm\" fo:page-height=\"29.7cm\" fo:margin-top=\"2cm\" fo:margin-bottom=\"2cm\" fo:margin-left=\"2cm\" fo:margin-right=\"2cm\"/></style:page-layout>"@
}

pub open spec fn master_page() -> Seq<char> {
    "<style:master-page style:name=\"Standard\" style:page-layout-name=\"UCWMLayout\"/>"@
}

pub open spec fn styles_root() -> Seq<char> {
    "<office:document-styles"@
}

/// Namespaces the added page layout needs on the root.
pub open spec fn with_style_ns(x: Seq<char>) -> Seq<char> {
    let r = styles_root();
    ensure_ns_spec(
        ensure_ns_spec(
            ensure_ns_spec(
                ensure_ns_spec(
                    ensure_ns_spec(x, r, "office"@, "urn:oasis:names:tc:opendocument:xmlns:office:1.0"@),
                    r,
                    "style"@,
                    "urn:oasis:names:tc:opendocument:xmlns:style:1.0"@,
                ),
                r,
                "fo"@,
                "urn:oasis:names:tc:opendocument:xmlns:xsl-fo-compatible:1.0"@,
            ),
            r,
            "xlink"@,
            "http://www.w3.org/1999/xlink"@,
        ),
        r,
        "draw"@,
        "urn:oasis:names:tc:opendocument:xmlns:drawing:1.0"@,
    )
}

/// The styles' root element, opened if empty (or a minimal document).
pub open spec fn styles_opened(styles: Seq<char>) -> Seq<char> {
    match open_tag_spec(styles, styles_root()) {
        Some(tag) => if crate::text::ends_with(tag, "/>"@) {
            replace_first(styles, tag, tag.take(tag.len() - 2) + "></office:document-styles>"@)
        } else {
            styles
        },
        None => "<?xml version=\"1.0\" encoding=\"UTF-8\"?>\n<office:document-styles office:version=\"1.2\"></office:document-styles>"@,
    }
}

/// The page layout added to the automatic styles (created if missing).
pub open spec fn with_layout(xml: Seq<char>) -> Option<Seq<char>> {
    match find(xml, "</office:automatic-styles>"@) {
        Some(i) => Some(xml.take(i) + page_layout() + xml.skip(i)),
        None => {
            let at = match find(xml, "<office:master-styles"@) {
                Some(a) => Some(a),
                None => rfind(xml, "</office:document-styles>"@),
            };
            match at {
                Some(a) => Some(xml.take(a) + "<office:automatic-styles>"@ + page_layout() + "</office:automatic-styles>"@
                    + xml.skip(a)),
                None => None,
            }
        },
    }
}

/// The `Standard` master page added to the master styles (created if
/// missing).
pub open spec fn with_master(au: Seq<char>) -> Option<Seq<char>> {
    match find(au, "</office:master-styles>"@) {
        Some(i) => Some(au.take(i) + master_page() + au.skip(i)),
        None => match rfind(au, "</office:document-styles>"@) {
            Some(a) => Some(au.take(a) + "<office:master-styles>"@ + master_page() + "</office:master-styles>"@ + au.skip(a)),
            None => None,
        },
    }
}

/// Styles that declare no page layout get the default A4 one, used by a
/// `Standard` master page; styles with master pages but no layout are
/// refused.
pub open spec fn page_layout_spec(styles: Seq<char>) -> Result<Seq<char>, WmErr> {
    if contains(styles, "<style:page-layout-properties"@) {
        Ok(styles)
    } else if contains(styles, "<style:master-page"@) {
        Err(WmErr::MastersWithoutLayout)
    } else {
        match with_layout(with_style_ns(styles_opened(styles))) {
            None => Err(WmErr::InvalidStyles),
            Some(au) => match with_master(au) {
                Some(r) => Ok(r),
                None => Err(WmErr::InvalidStyles),
            },
        }
    }
}

fn insert_at(x: &[char], at: usize, piece: &[char]) -> (r: Vec<char>)
    requires
        at <= x@.len(),
    ensures
        r@ == x@.take(at as int) + piece@ + x@.skip(at as int),
{
    let mut r = slice_copy(x, 0, at);
    push_all(&mut r, piece);
    push_all(&mut r, slice_copy(x, at, x.len()).as_slice());
    r
}

fn styles_opened_exec(styles: &[char]) -> (r: Vec<char>)
    ensures
        r@ == styles_opened(styles@),
{
    match open_tag_chars(styles, "<office:document-styles") {
        Some(tag) => {
            if crate::text::ends_with_exec(tag.as_slice(), chars_of("/>").as_slice()) {
                proof {
                    reveal_strlit("/>");
                }
                let mut with = slice_copy(tag.as_slice(), 0, tag.len() - 2);
                push_str(&mut with, "></office:document-styles>");
                replace_first_exec(styles, tag.as_slice(), with.as_slice())
            } else {
                slice_copy(styles, 0, styles.len())
            }
        },
        None => chars_of(
            "<?xml version=\"1.0\" encoding=\"UTF-8\"?>\n<office:document-styles office:version=\"1.2\"></office:document-styles>",
        ),
    }
}

fn with_style_ns_exec(x: &[char]) -> (r: Vec<char>)
    ensures
        r@ == with_style_ns(x@),
{
    let x1 = ensure_ns(x, "<office:document-styles", "office", "urn:oasis:names:tc:opendocument:xmlns:office:1.0");
    let x2 = ensure_ns(x1.as_slice(), "<office:document-styles", "style", "urn:oasis:names:tc:opendocument:xmlns:style:1.0");
    let x3 = ensure_ns(x2.as_slice(), "<office:document-styles", "fo", "urn:oasis:names:tc:opendocument:xmlns:xsl-fo-compatible:1.0");
    let x4 = ensure_ns(x3.as_slice(), "<office:document-styles", "xlink", "http://www.w3.org/1999/xlink");
    ensure_ns(x4.as_slice(), "<office:document-styles", "draw", "urn:oasis:names:tc:opendocument:xmlns:drawing:1.0")
}

fn with_layout_exec(xml: &[char]) -> (r: Option<Vec<char>>)
    ensures
        match r {
            Some(v) => with_layout(xml@) == Some(v@),
            None => with_layout(xml@) is None,
        },
{
    let layout = chars_of(
        "<style:page-layout style:name=\"UCWMLayout\"><style:page-layout-properties fo:page-width=\"21cm\" fo:page-height=\"29.7cm\" fo:margin-top=\"2cm\" fo:margin-bottom=\"2cm\" fo:margin-left=\"2cm\" fo:margin-right=\"2cm\"/></style:page-layout>",
    );
    match find_exec(xml, chars_of("</office:automatic-styles>").as_slice()) {
        Some(i) => Some(insert_at(xml, i, layout.as_slice())),
        None => {
            let at = match find_exec(xml, chars_of("<office:master-styles").as_slice()) {
                Some(a) => Some(a),
                None => rfind_exec(xml, chars_of("</office:document-styles>").as_slice()),
            };
            match at {
                Some(a) => {
                    let mut piece = chars_of("<office:automatic-styles>");
                    push_all(&mut piece, layout.as_slice());
                    push_str(&mut piece, "</office:automatic-styles>");
                    Some(insert_at(xml, a, piece.as_slice()))
                },
                None => None,
            }
        },
    }
}

fn with_master_exec(au: &[char]) -> (r: Option<Vec<char>>)
    ensures
        match r {
            Some(v) => with_master(au@) == Some(v@),
            None => with_master(au@) is None,
        },
{
    let master = chars_of("<style:master-page style:name=\"Standard\" style:page-layout-name=\"UCWMLayout\"/>");
    match find_exec(au, chars_of("</office:master-styles>").as_slice()) {
        Some(i) => Some(insert_at(au, i, master.as_slice())),
        None => match rfind_exec(au, chars_of("</office:document-styles>").as_slice()) {
            Some(a) => {
                let mut piece = chars_of("<office:master-styles>");
                push_all(&mut piece, master.as_slice());
                push_str(&mut piece, "</office:master-styles>");
                Some(insert_at(au, a, piece.as_slice()))
            },
            None => None,
        },
    }
}

#[verifier::rlimit(60)]
pub fn ensure_page_layout(styles: &[char]) -> (r: Result<Vec<char>, WmDocError>)
    ensures
        match page_layout_spec(styles@) {
            Ok(s) => r matches Ok(v) && v@ == s,
            Err(e) => r matches Err(x) && err_of(x) == e,
        },
{
    if crate::text::contains_exec(styles, chars_of("<style:page-layout-properties").as_slice()) {
        return Ok(slice_copy(styles, 0, styles.len()));
    }
    if crate::text::contains_exec(styles, chars_of("<style:master-page").as_slice()) {
        return Err(WmDocError::MasterPagesWithoutLayout);
    }
    let xml0 = styles_opened_exec(styles);
    let xml = with_style_ns_exec(xml0.as_slice());
    match with_layout_exec(xml.as_slice()) {
        None => Err(WmDocError::InvalidStyles),
        Some(au) => match with_master_exec(au.as_slice()) {
            Some(r) => Ok(r),
            None => Err(WmDocError::InvalidStyles),
        },
    }
}

pub open spec fn plp() -> Seq<char> {
    "<style:page-layout-properties"@
}

pub open spec fn plp_close() -> Seq<char> {
    "</style:page-layout-properties>"@
}

/// The background image element of a page layout.
pub open spec fn bg_image() -> Seq<char> {
    "<style:background-image xlink:href=\"Pictures/ucwm.png\" xlink:type=\"simple\" xlink:actuate=\"onLoad\" style:repeat=\"stretch\"/>"@
}

/// A layout's content without its former background image.
pub open spec fn clean_bg(body: Seq<char>) -> Seq<char> {
    match (find(body, "<style:background-image"@), find(body, "</style:background-image>"@)) {
        (Some(a), Some(b)) => body.take(a) + body.skip(b + 25),
        (Some(a), None) => {
            let e = match find_from(body, "/>"@, a) {
                Some(i) => i + 2,
                None => a,
            };
            body.take(a) + body.skip(e)
        },
        _ => body,
    }
}

/// Every page layout of the styles gets the background image: the text
/// and how many layouts there were.
pub open spec fn bg_pass(rest: Seq<char>) -> Result<(Seq<char>, nat), WmErr>
    decreases rest.len(),
{
    match open_tag_from(rest, plp(), 0) {
        None => Ok((rest, 0)),
        Some((s, e)) => {
            proof {
                lemma_open_tag_from(rest, plp(), 0);
            }
            let tag = rest.subrange(s, e + 1);
            if crate::text::ends_with(tag, "/>"@) {
                let head = rest.take(s) + tag.take(tag.len() - 2) + ">"@ + bg_image() + plp_close();
                match bg_pass(rest.skip(e + 1)) {
                    Ok((o, c)) => Ok((head + o, c + 1)),
                    Err(x) => Err(x),
                }
            } else {
                match find_from(rest, plp_close(), e + 1) {
                    None => Err(WmErr::InvalidStyles),
                    Some(close) => {
                        proof {
                            lemma_find_from(rest, plp_close(), e + 1);
                        }
                        let head = rest.take(s) + tag + bg_image() + clean_bg(rest.subrange(e + 1, close));
                        match bg_pass(rest.skip(close)) {
                            Ok((o, c)) => Ok((head + o, c + 1)),
                            Err(x) => Err(x),
                        }
                    },
                }
            }
        },
    }
}

/// A text document or spreadsheet with the layer stretched as the
/// background of every page layout.
pub open spec fn odf_bg_spec(p0: PkgSpec, png: Seq<u8>) -> Result<PkgSpec, WmErr> {
    let p1 = manifest_spec(p0, png);
    let styles0 = match text_spec(p1, "styles.xml"@) {
        Some(t) => t,
        None => seq![],
    };
    match page_layout_spec(styles0) {
        Err(e) => Err(e),
        Ok(styles) => match bg_pass(styles) {
            Err(e) => Err(e),
            Ok((out, count)) => if count == 0 {
                Err(WmErr::NoPageLayout)
            } else {
                Ok(put_spec(
                    p1,
                    "styles.xml"@,
                    utf8_of(ensure_ns_spec(out, styles_root(), "xlink"@, "http://www.w3.org/1999/xlink"@)),
                ))
            },
        },
    }
}

fn clean_bg_exec(body: &[char]) -> (r: Vec<char>)
    ensures
        r@ == clean_bg(body@),
{
    let a = find_exec(body, chars_of("<style:background-image").as_slice());
    let b = find_exec(body, chars_of("</style:background-image>").as_slice());
    proof {
        reveal_strlit("</style:background-image>");
        reveal_strlit("/>");
    }
    assert("</style:background-image>"@.len() == 25 && "/>"@.len() == 2);
    assert(body@.len() == body.len());
    match (a, b) {
        (Some(a), Some(b)) => {
            assert(b + 25 <= body@.len());
            let mut r = slice_copy(body, 0, a);
            push_all(&mut r, slice_copy(body, b + 25, body.len()).as_slice());
            r
        },
        (Some(a), None) => {
            proof {
                lemma_find_from(body@, "/>"@, a as int);
            }
            let e = match find_from_exec(body, chars_of("/>").as_slice(), a) {
                Some(i) => {
                    assert(i + 2 <= body@.len());
                    i + 2
                },
                None => a,
            };
            let mut r = slice_copy(body, 0, a);
            push_all(&mut r, slice_copy(body, e, body.len()).as_slice());
            r
        },
        _ => slice_copy(body, 0, body.len()),
    }
}

fn bg_pass_exec(rest: &[char]) -> (r: Result<(Vec<char>, usize), WmDocError>)
    ensures
        match bg_pass(rest@) {
            Ok((o, c)) => r matches Ok((v, n)) && v@ == o && n == c,
            Err(e) => r matches Err(x) && err_of(x) == e,
        },
        r matches Ok((_, n)) ==> n <= rest@.len(),
    decreases rest@.len(),
{
    let pre = chars_of("<style:page-layout-properties");
    proof {
        lemma_open_tag_from(rest@, pre@, 0);
        reveal_strlit("/>");
    }
    let (s, e) = match open_tag_pos(rest, pre.as_slice()) {
        None => {
            return Ok((slice_copy(rest, 0, rest.len()), 0));
        },
        Some(p) => p,
    };
    assert(rest@.len() == rest.len());
    let tag = slice_copy(rest, s, e + 1);
    let mut out = slice_copy(rest, 0, s);
    if crate::text::ends_with_exec(tag.as_slice(), chars_of("/>").as_slice()) {
        assert(tag@.len() >= 2);
        push_all(&mut out, slice_copy(tag.as_slice(), 0, tag.len() - 2).as_slice());
        push_str(&mut out, ">");
        push_str(&mut out, "<style:background-image xlink:href=\"Pictures/ucwm.png\" xlink:type=\"simple\" xlink:actuate=\"onLoad\" style:repeat=\"stretch\"/>");
        push_str(&mut out, "</style:page-layout-properties>");
        let tail = slice_copy(rest, e + 1, rest.len());
        assert(tail@ =~= rest@.skip(e + 1));
        match bg_pass_exec(tail.as_slice()) {
            Ok((o, c)) => {
                push_all(&mut out, o.as_slice());
                Ok((out, c + 1))
            },
            Err(x) => Err(x),
        }
    } else {
        let close_tag = chars_of("</style:page-layout-properties>");
        proof {
            lemma_find_from(rest@, close_tag@, e + 1);
        }
        let close = match find_from_exec(rest, close_tag.as_slice(), e + 1) {
            None => {
                return Err(WmDocError::InvalidStyles);
            },
            Some(c) => c,
        };
        push_all(&mut out, tag.as_slice());
        push_str(&mut out, "<style:background-image xlink:href=\"Pictures/ucwm.png\" xlink:type=\"simple\" xlink:actuate=\"onLoad\" style:repeat=\"stretch\"/>");
        let body = slice_copy(rest, e + 1, close);
        push_all(&mut out, clean_bg_exec(body.as_slice()).as_slice());
        let tail = slice_copy(rest, close, rest.len());
        assert(tail@ =~= rest@.skip(close as int));
        match bg_pass_exec(tail.as_slice()) {
            Ok((o, c)) => {
                push_all(&mut out, o.as_slice());
                Ok((out, c + 1))
            },
            Err(x) => Err(x),
        }
    }
}

/// Puts the layer behind every page of a text document or spreadsheet
/// (`odf_page_background`).
#[verifier::rlimit(40)]
pub fn odf_page_background(pkg: &mut Package, png: &[u8]) -> (r: Result<(), WmDocError>)
    ensures
        edit_done(r, final(pkg).view_of(), odf_bg_spec(old(pkg).view_of(), png@)),
{
    odf_manifest_png(pkg, png);
    let styles0 = match pkg.text("styles.xml") {
        Some(t) => chars_of(t.as_str()),
        None => Vec::new(),
    };
    let styles = match ensure_page_layout(styles0.as_slice()) {
        Ok(v) => v,
        Err(e) => {
            return Err(e);
        },
    };
    let (out, count) = match bg_pass_exec(styles.as_slice()) {
        Ok(x) => x,
        Err(e) => {
            return Err(e);
        },
    };
    if count == 0 {
        return Err(WmDocError::NoPageLayout);
    }
    let x = ensure_ns(out.as_slice(), "<office:document-styles", "xlink", "http://www.w3.org/1999/xlink");
    put_text(pkg, "styles.xml", x.as_slice());
    Ok(())
}

/// Empty slides opened (`<draw:page …/>` becomes `<draw:page …></draw:page>`)
/// so that a frame can go in, tags taken in turn.
pub open spec fn open_pages(c: Seq<char>) -> Seq<char>
    decreases c.len(),
{
    match open_tag_from(c, "<draw:page"@, 0) {
        None => c,
        Some((s, e)) => {
            proof {
                lemma_open_tag_from(c, "<draw:page"@, 0);
            }
            let tag = c.subrange(s, e + 1);
            let piece = if crate::text::ends_with(tag, "/>"@) {
                tag.take(tag.len() - 2) + "></draw:page>"@
            } else {
                tag
            };
            c.take(s) + piece + open_pages(c.skip(e + 1))
        },
    }
}

/// The frame goes at the end of each slide, before its notes: the text and
/// the number of slides.
pub open spec fn frame_pass(rest: Seq<char>, frame: Seq<char>) -> (Seq<char>, nat)
    decreases rest.len(),
{
    match find(rest, "</draw:page>"@) {
        None => (rest, 0),
        Some(end) => {
            proof {
                lemma_find(rest, "</draw:page>"@);
                reveal_strlit("</draw:page>");
            }
            let at = match rfind(rest.take(end), "<presentation:notes"@) {
                Some(a) => a,
                None => end,
            };
            let (o, c) = frame_pass(rest.skip(end + 12), frame);
            (rest.take(at) + frame + rest.subrange(at, end + 12) + o, c + 1)
        },
    }
}

pub open spec fn odp_frame(w: Seq<char>, h: Seq<char>) -> Seq<char> {
    "<draw:frame draw:name=\"UC Filigrane\" svg:width=\""@ + w + "\" svg:height=\""@ + h
        + "\" svg:x=\"0cm\" svg:y=\"0cm\"><draw:image xlink:href=\"Pictures/ucwm.png\" xlink:type=\"simple\" xlink:show=\"embed\" xlink:actuate=\"onLoad\"/></draw:frame>"@
}

/// The slide size from the first page layout, else 28×21 cm.
pub open spec fn odp_size(styles: Seq<char>) -> (Seq<char>, Seq<char>) {
    match open_tag_spec(styles, plp()) {
        Some(t) => match (attr_spec(t, "fo:page-width"@), attr_spec(t, "fo:page-height"@)) {
            (Some(a), Some(b)) => (a, b),
            _ => ("28cm"@, "21cm"@),
        },
        None => ("28cm"@, "21cm"@),
    }
}

/// A presentation with a full-page frame of the layer on every slide.
pub open spec fn odp_spec(p0: PkgSpec, png: Seq<u8>) -> Result<PkgSpec, WmErr> {
    let p1 = manifest_spec(p0, png);
    let styles = match text_spec(p1, "styles.xml"@) {
        Some(t) => t,
        None => seq![],
    };
    let (w, h) = odp_size(styles);
    match text_spec(p1, "content.xml"@) {
        None => Err(WmErr::Missing("content.xml"@)),
        Some(c0) => {
            let c2 = ensure_ns_spec(
                ensure_ns_spec(open_pages(c0), "<office:document-content"@, "xlink"@, "http://www.w3.org/1999/xlink"@),
                "<office:document-content"@,
                "svg"@,
                "urn:oasis:names:tc:opendocument:xmlns:svg-compatible:1.0"@,
            );
            let (out, count) = frame_pass(c2, odp_frame(w, h));
            if count == 0 {
                Err(WmErr::NoSlide)
            } else {
                Ok(put_spec(p1, "content.xml"@, utf8_of(out)))
            }
        },
    }
}

fn open_pages_exec(c: &[char]) -> (r: Vec<char>)
    ensures
        r@ == open_pages(c@),
    decreases c@.len(),
{
    let pre = chars_of("<draw:page");
    proof {
        lemma_open_tag_from(c@, pre@, 0);
        reveal_strlit("/>");
    }
    match open_tag_pos(c, pre.as_slice()) {
        None => slice_copy(c, 0, c.len()),
        Some((s, e)) => {
            assert(c@.len() == c.len());
            let tag = slice_copy(c, s, e + 1);
            let mut out = slice_copy(c, 0, s);
            if crate::text::ends_with_exec(tag.as_slice(), chars_of("/>").as_slice()) {
                assert(tag@.len() >= 2);
                push_all(&mut out, slice_copy(tag.as_slice(), 0, tag.len() - 2).as_slice());
                push_str(&mut out, "></draw:page>");
            } else {
                push_all(&mut out, tag.as_slice());
            }
            let tail = slice_copy(c, e + 1, c.len());
            assert(tail@ =~= c@.skip(e + 1));
            push_all(&mut out, open_pages_exec(tail.as_slice()).as_slice());
            out
        },
    }
}

fn frame_pass_exec(rest: &[char], frame: &[char]) -> (r: (Vec<char>, usize))
    ensures
        (r.0@, r.1 as nat) == frame_pass(rest@, frame@),
    decreases rest@.len(),
{
    let close = chars_of("</draw:page>");
    proof {
        lemma_find(rest@, close@);
        reveal_strlit("</draw:page>");
    }
    match find_exec(rest, close.as_slice()) {
        None => (slice_copy(rest, 0, rest.len()), 0),
        Some(end) => {
            assert(rest@.len() == rest.len() && end + 12 <= rest@.len());
            let head = slice_copy(rest, 0, end);
            assert(head@ =~= rest@.take(end as int));
            let at = match rfind_exec(head.as_slice(), chars_of("<presentation:notes").as_slice()) {
                Some(a) => a,
                None => end,
            };
            let tail = slice_copy(rest, end + 12, rest.len());
            assert(tail@ =~= rest@.skip(end + 12));
            let (o, c) = frame_pass_exec(tail.as_slice(), frame);
            let mut out = slice_copy(rest, 0, at);
            push_all(&mut out, frame);
            push_all(&mut out, slice_copy(rest, at, end + 12).as_slice());
            push_all(&mut out, o.as_slice());
            assert(c <= tail@.len()) by {
                lemma_frame_count(tail@, frame@);
            }
            assert(tail@.len() < rest@.len());
            (out, c + 1)
        },
    }
}

proof fn lemma_frame_count(rest: Seq<char>, frame: Seq<char>)
    ensures
        frame_pass(rest, frame).1 <= rest.len(),
    decreases rest.len(),
{
    lemma_find(rest, "</draw:page>"@);
    reveal_strlit("</draw:page>");
    match find(rest, "</draw:page>"@) {
        None => {},
        Some(end) => {
            lemma_frame_count(rest.skip(end + 12), frame);
        },
    }
}

/// Puts the layer on every slide of a presentation (`odp`).
#[verifier::rlimit(40)]
pub fn odp(pkg: &mut Package, png: &[u8]) -> (r: Result<(), WmDocError>)
    ensures
        edit_done(r, final(pkg).view_of(), odp_spec(old(pkg).view_of(), png@)),
{
    odf_manifest_png(pkg, png);
    let styles = match pkg.text("styles.xml") {
        Some(t) => chars_of(t.as_str()),
        None => Vec::new(),
    };
    let (w, h) = match open_tag_chars(styles.as_slice(), "<style:page-layout-properties") {
        Some(t) => match (attr(t.as_slice(), "fo:page-width"), attr(t.as_slice(), "fo:page-height")) {
            (Some(a), Some(b)) => (a, b),
            _ => (chars_of("28cm"), chars_of("21cm")),
        },
        None => (chars_of("28cm"), chars_of("21cm")),
    };
    let c0 = match pkg.text("content.xml") {
        None => {
            return Err(WmDocError::MissingPart(String::from_str("content.xml")));
        },
        Some(t) => chars_of(t.as_str()),
    };
    let c1 = open_pages_exec(c0.as_slice());
    let c2a = ensure_ns(c1.as_slice(), "<office:document-content", "xlink", "http://www.w3.org/1999/xlink");
    let c2 = ensure_ns(c2a.as_slice(), "<office:document-content", "svg", "urn:oasis:names:tc:opendocument:xmlns:svg-compatible:1.0");
    let mut frame = chars_of("<draw:frame draw:name=\"UC Filigrane\" svg:width=\"");
    push_all(&mut frame, w.as_slice());
    push_str(&mut frame, "\" svg:height=\"");
    push_all(&mut frame, h.as_slice());
    push_str(
        &mut frame,
        "\" svg:x=\"0cm\" svg:y=\"0cm\"><draw:image xlink:href=\"Pictures/ucwm.png\" xlink:type=\"simple\" xlink:show=\"embed\" xlink:actuate=\"onLoad\"/></draw:frame>",
    );
    let (out, count) = frame_pass_exec(c2.as_slice(), frame.as_slice());
    if count == 0 {
        return Err(WmDocError::NoSlide);
    }
    put_text(pkg, "content.xml", out.as_slice());
    Ok(())
}

// ── EPUB ─────────────────────────────────────────────────────────────────────

/// The folder of the package document (with its `/`), or nothing.
pub open spec fn opf_dir(path: Seq<char>) -> Seq<char> {
    match rfind(path, "/"@) {
        Some(k) => path.take(k) + "/"@,
        None => seq![],
    }
}

pub open spec fn epub_item() -> Seq<char> {
    "<item id=\"uc-filigrane\" href=\"ucwm.png\" media-type=\"image/png\"/>"@
}

pub open spec fn epub_style(url: Seq<char>) -> Seq<char> {
    "<style data-uc-filigrane=\"1\">html,body{background-image:url(\""@ + url
        + "\") !important;background-repeat:no-repeat !important;background-position:center !important;background-size:contain !important;background-attachment:fixed !important}</style>"@
}

/// `../` repeated `n` times.
pub open spec fn ups(n: nat) -> Seq<char>
    decreases n,
{
    if n == 0 {
        seq![]
    } else {
        ups((n - 1) as nat) + "../"@
    }
}

/// A manifest item that is an XHTML chapter with a `<head>` gets the
/// background style; the package after, if it did.
pub open spec fn chapter_edit(p: PkgSpec, dir: Seq<char>, tag: Seq<char>) -> Option<PkgSpec> {
    if attr_spec(tag, "media-type"@) != Some("application/xhtml+xml"@) {
        None
    } else {
        match attr_spec(tag, "href"@) {
            None => None,
            Some(href) => {
                let part = dir + href;
                match text_spec(p, part) {
                    None => None,
                    Some(x) => match find(x, "</head>"@) {
                        None => None,
                        Some(hd) => Some(put_spec(
                            p,
                            part,
                            utf8_of(x.take(hd) + epub_style(ups(crate::text::count_char(href, '/')) + "ucwm.png"@) + x.skip(hd)),
                        )),
                    },
                }
            },
        }
    }
}

/// Every manifest item from position `from` on: the package after, and
/// the number of chapters edited.
pub open spec fn chapters_pass(opf: Seq<char>, dir: Seq<char>, p: PkgSpec, from: int) -> (PkgSpec, nat)
    decreases opf.len() - from,
{
    if from < 0 {
        (p, 0)
    } else {
        match find_from(opf, "<item "@, from) {
            None => (p, 0),
            Some(s) => {
                proof {
                    lemma_find_from(opf, "<item "@, from);
                    reveal_strlit("<item ");
                }
                let tag = match open_tag_spec(opf.skip(s), "<item"@) {
                    Some(t) => t,
                    None => seq![],
                };
                match chapter_edit(p, dir, tag) {
                    Some(p2) => {
                        let (q, c) = chapters_pass(opf, dir, p2, s + 1);
                        (q, c + 1)
                    },
                    None => chapters_pass(opf, dir, p, s + 1),
                }
            },
        }
    }
}

/// An EPUB with the layer as the background of every XHTML chapter.
pub open spec fn epub_spec(p0: PkgSpec, png: Seq<u8>) -> Result<PkgSpec, WmErr> {
    match text_spec(p0, "META-INF/container.xml"@) {
        None => Err(WmErr::Missing("META-INF/container.xml"@)),
        Some(container) => {
            let path = match open_tag_spec(container, "<rootfile"@) {
                Some(t) => attr_spec(t, "full-path"@),
                None => None,
            };
            match path {
                None => Err(WmErr::NoOpf),
                Some(opf_path) => match text_spec(p0, opf_path) {
                    None => Err(WmErr::MissingOpf(opf_path)),
                    Some(opf0) => {
                        let dir = opf_dir(opf_path);
                        let p1 = put_spec(p0, dir + "ucwm.png"@, png);
                        let (opf, p2) = if !contains(opf0, "href=\"ucwm.png\""@) {
                            let o = replace_first(opf0, "</manifest>"@, epub_item() + "</manifest>"@);
                            (o, put_spec(p1, opf_path, utf8_of(o)))
                        } else {
                            (opf0, p1)
                        };
                        let (q, count) = chapters_pass(opf, dir, p2, 0);
                        if count == 0 {
                            Err(WmErr::NoXhtml)
                        } else {
                            Ok(q)
                        }
                    },
                },
            }
        },
    }
}

fn ups_exec(n: usize) -> (r: Vec<char>)
    ensures
        r@ == ups(n as nat),
{
    let mut r: Vec<char> = Vec::new();
    let mut i: usize = 0;
    while i < n
        invariant
            i <= n,
            r@ == ups(i as nat),
        decreases n - i,
    {
        push_str(&mut r, "../");
        i += 1;
    }
    r
}

fn chapter_edit_exec(pkg: &mut Package, dir: &[char], tag: &[char]) -> (edited: bool)
    ensures
        match chapter_edit(old(pkg).view_of(), dir@, tag@) {
            Some(q) => edited && final(pkg).view_of() == q,
            None => !edited && final(pkg).view_of() == old(pkg).view_of(),
        },
{
    match attr(tag, "media-type") {
        Some(mt) => {
            if !crate::text::is_lit(mt.as_slice(), "application/xhtml+xml") {
                return false;
            }
        },
        None => {
            return false;
        },
    }
    let href = match attr(tag, "href") {
        None => {
            return false;
        },
        Some(h) => h,
    };
    let mut part = slice_copy(dir, 0, dir.len());
    push_all(&mut part, href.as_slice());
    assert(part@ =~= dir@ + href@);
    let ps = string_of(part.as_slice());
    let x = match pkg.text(ps.as_str()) {
        None => {
            return false;
        },
        Some(t) => chars_of(t.as_str()),
    };
    let hd = match find_exec(x.as_slice(), chars_of("</head>").as_slice()) {
        None => {
            return false;
        },
        Some(i) => i,
    };
    let depth = crate::text::count_char_exec(href.as_slice(), '/');
    let mut url = ups_exec(depth);
    push_str(&mut url, "ucwm.png");
    let mut style = chars_of("<style data-uc-filigrane=\"1\">html,body{background-image:url(\"");
    push_all(&mut style, url.as_slice());
    push_str(
        &mut style,
        "\") !important;background-repeat:no-repeat !important;background-position:center !important;background-size:contain !important;background-attachment:fixed !important}</style>",
    );
    let updated = insert_at(x.as_slice(), hd, style.as_slice());
    put_text(pkg, ps.as_str(), updated.as_slice());
    true
}

fn chapters_pass_exec(pkg: &mut Package, opf: &[char], dir: &[char], from: usize) -> (count: usize)
    ensures
        chapters_pass(opf@, dir@, old(pkg).view_of(), from as int) == (final(pkg).view_of(), count as nat),
        count <= (if from <= opf@.len() { opf@.len() - from } else { 0 }),
    decreases opf@.len() + 1 - from,
{
    let key = chars_of("<item ");
    proof {
        lemma_find_from(opf@, key@, from as int);
        reveal_strlit("<item ");
    }
    let s = match find_from_exec(opf, key.as_slice(), from) {
        None => {
            return 0;
        },
        Some(s) => s,
    };
    assert(opf@.len() == opf.len() && s + 6 <= opf@.len());
    let rest = slice_copy(opf, s, opf.len());
    assert(rest@ =~= opf@.skip(s as int));
    let tag = match open_tag_chars(rest.as_slice(), "<item") {
        Some(t) => t,
        None => Vec::new(),
    };
    if chapter_edit_exec(pkg, dir, tag.as_slice()) {
        let c = chapters_pass_exec(pkg, opf, dir, s + 1);
        c + 1
    } else {
        chapters_pass_exec(pkg, opf, dir, s + 1)
    }
}

/// Puts the layer behind every chapter of an EPUB (`epub`).
#[verifier::rlimit(40)]
pub fn epub(pkg: &mut Package, png: &[u8]) -> (r: Result<(), WmDocError>)
    ensures
        edit_done(r, final(pkg).view_of(), epub_spec(old(pkg).view_of(), png@)),
{
    let container = match pkg.text("META-INF/container.xml") {
        None => {
            return Err(WmDocError::MissingPart(String::from_str("META-INF/container.xml")));
        },
        Some(t) => chars_of(t.as_str()),
    };
    let path = match open_tag_chars(container.as_slice(), "<rootfile") {
        Some(t) => attr(t.as_slice(), "full-path"),
        None => None,
    };
    let opf_path = match path {
        None => {
            return Err(WmDocError::NoOpf);
        },
        Some(p) => string_of(p.as_slice()),
    };
    let opf0 = match pkg.text(opf_path.as_str()) {
        None => {
            return Err(WmDocError::MissingOpf(opf_path));
        },
        Some(t) => chars_of(t.as_str()),
    };
    let pc = chars_of(opf_path.as_str());
    let slash = chars_of("/");
    proof {
        reveal_strlit("/");
    }
    let dir = match rfind_exec(pc.as_slice(), slash.as_slice()) {
        Some(k) => {
            let mut d = slice_copy(pc.as_slice(), 0, k);
            push_str(&mut d, "/");
            d
        },
        None => Vec::new(),
    };
    assert(dir@ =~= opf_dir(opf_path@));
    let mut img = slice_copy(dir.as_slice(), 0, dir.len());
    push_str(&mut img, "ucwm.png");
    assert(img@ =~= dir@ + "ucwm.png"@);
    let ghost p0 = old(pkg).view_of();
    let ghost p1 = put_spec(p0, dir@ + "ucwm.png"@, png@);
    pkg.put(string_of(img.as_slice()).as_str(), bytes_copy(png));
    assert(pkg.view_of() == p1);
    let opf = if !crate::text::contains_exec(opf0.as_slice(), chars_of("href=\"ucwm.png\"").as_slice()) {
        let mut with = chars_of("<item id=\"uc-filigrane\" href=\"ucwm.png\" media-type=\"image/png\"/>");
        push_str(&mut with, "</manifest>");
        let o = replace_first_exec(opf0.as_slice(), chars_of("</manifest>").as_slice(), with.as_slice());
        put_text(pkg, opf_path.as_str(), o.as_slice());
        o
    } else {
        opf0
    };
    let ghost p2 = pkg.view_of();
    assert(({
        let (o, q) = if !contains(opf0@, "href=\"ucwm.png\""@) {
            let o = replace_first(opf0@, "</manifest>"@, epub_item() + "</manifest>"@);
            (o, put_spec(p1, opf_path@, utf8_of(o)))
        } else {
            (opf0@, p1)
        };
        o == opf@ && q == p2
    }));
    let count = chapters_pass_exec(pkg, opf.as_slice(), dir.as_slice(), 0);
    assert(chapters_pass(opf@, dir@, p2, 0) == (pkg.view_of(), count as nat));
    if count == 0 {
        return Err(WmDocError::NoXhtmlChapter);
    }
    Ok(())
}

// ── Dispatch ─────────────────────────────────────────────────────────────────

/// How a document takes the image layer, by its extension.
#[derive(Clone, Copy, Debug, PartialEq, Eq, Structural)]
pub enum VisualKind {
    /// An HTML page: see [`html_with_overlay`].
    Html,
    /// An SVG drawing: see [`svg_area`] and [`svg_insert`].
    Svg,
    /// A zipped package edited by [`apply_visual`].
    Package,
}

pub open spec fn visual_kind_spec(ext: Seq<char>) -> Option<VisualKind> {
    if ext == "html"@ || ext == "htm"@ {
        Some(VisualKind::Html)
    } else if ext == "svg"@ {
        Some(VisualKind::Svg)
    } else if ext == "docx"@ || ext == "pptx"@ || ext == "xlsx"@ || ext == "odt"@ || ext == "ods"@
        || ext == "odp"@ || ext == "epub"@ {
        Some(VisualKind::Package)
    } else {
        None
    }
}

fn ext_is(ext: &str, lit: &str) -> (b: bool)
    ensures
        b == (ext@ == lit@),
{
    crate::text::is_lit(chars_of(ext).as_slice(), lit)
}

/// The way a document with extension `ext` takes the layer, or the refusal
/// of any other extension.
pub fn visual_kind(ext: &str) -> (r: Result<VisualKind, WmDocError>)
    ensures
        match visual_kind_spec(ext@) {
            Some(k) => r == Ok::<VisualKind, WmDocError>(k),
            None => r matches Err(WmDocError::VisualUnsupported(e)) && e@ == ext@,
        },
{
    if ext_is(ext, "html") || ext_is(ext, "htm") {
        Ok(VisualKind::Html)
    } else if ext_is(ext, "svg") {
        Ok(VisualKind::Svg)
    } else if ext_is(ext, "docx") || ext_is(ext, "pptx") || ext_is(ext, "xlsx") || ext_is(ext, "odt")
        || ext_is(ext, "ods") || ext_is(ext, "odp") || ext_is(ext, "epub") {
        Ok(VisualKind::Package)
    } else {
        Err(WmDocError::VisualUnsupported(ext.to_string()))
    }
}

/// The edit a package format receives.
pub open spec fn package_edit_spec(ext: Seq<char>, p: PkgSpec, png: Seq<u8>) -> Option<Result<PkgSpec, WmErr>> {
    if ext == "docx"@ {
        Some(docx_spec(p, png))
    } else if ext == "pptx"@ {
        Some(pptx_spec(p, png))
    } else if ext == "xlsx"@ {
        Some(xlsx_spec(p, png))
    } else if ext == "odp"@ {
        Some(odp_spec(p, png))
    } else if ext == "epub"@ {
        Some(epub_spec(p, png))
    } else if ext == "odt"@ || ext == "ods"@ {
        Some(odf_bg_spec(p, png))
    } else {
        None
    }
}

/// Puts the layer into a zipped document of the format named by `ext`
/// (`apply_visual`, for the package formats): Word, PowerPoint and Excel
/// documents, ODF presentations, texts and spreadsheets, and EPUB books.
pub fn apply_visual(pkg: &mut Package, ext: &str, png: &[u8]) -> (r: Result<(), WmDocError>)
    requires
        ext@ == "docx"@ ==> docx_safe(old(pkg).view_of()),
    ensures
        match package_edit_spec(ext@, old(pkg).view_of(), png@) {
            Some(expected) => edit_done(r, final(pkg).view_of(), expected),
            None => (r matches Err(WmDocError::VisualUnsupported(e)) && e@ == ext@) && final(pkg).view_of()
                == old(pkg).view_of(),
        },
{
    if ext_is(ext, "docx") {
        docx(pkg, png)
    } else if ext_is(ext, "pptx") {
        pptx(pkg, png)
    } else if ext_is(ext, "xlsx") {
        xlsx(pkg, png)
    } else if ext_is(ext, "odp") {
        odp(pkg, png)
    } else if ext_is(ext, "epub") {
        epub(pkg, png)
    } else if ext_is(ext, "odt") || ext_is(ext, "ods") {
        odf_page_background(pkg, png)
    } else {
        Err(WmDocError::VisualUnsupported(ext.to_string()))
    }
}

} // verus!
