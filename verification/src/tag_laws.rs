//! Laws of the tag search in document parts: how declaring a namespace on
//! a root element shows in that element's opening tag, and how a
//! relationship just added is found again.
use vstd::prelude::*;
use crate::text::{
    contains, dec_str, digit_char, find, find_from, lemma_find, lemma_find_from, lemma_rfind, occurs_at,
    replace_all, rfind,
};
use crate::wmdocs::{
    attr_spec, ends_name, ensure_ns_spec, existing_rel, lemma_open_tag_first, lemma_open_tag_from,
    named_at, open_tag_from, open_tag_spec, rel_element, rel_id, rels_with, tag_prefix,
};

verus! {

/// Some tag named `prefix` is found from `from` when one stands at `j`
/// with a `>` after it.
proof fn lemma_open_tag_found(xml: Seq<char>, prefix: Seq<char>, from: int, j: int)
    requires
        tag_prefix(prefix),
        0 <= from <= j,
        named_at(xml, prefix, j),
        find_from(xml, ">"@, j) is Some,
    ensures
        open_tag_from(xml, prefix, from) is Some,
    decreases xml.len() - from,
{
    lemma_find_from(xml, prefix, from);
    let s0 = find_from(xml, prefix, from)->0;
    let a = s0 + prefix.len();
    if a < xml.len() && ends_name(xml[a]) {
        lemma_find_from(xml, ">"@, j);
        lemma_find_from(xml, ">"@, s0);
    } else {
        if j < a {
            assert(s0 != j);
            assert(xml.subrange(j, j + prefix.len())[0] == xml[j]);
            assert(xml.subrange(s0, a)[j - s0] == xml[j]);
            assert(prefix[j - s0] == '<');
        }
        lemma_open_tag_found(xml, prefix, a, j);
    }
}

/// The declaration `xmlns:prefix="uri"` inserted after the root's name.
pub open spec fn ns_decl(prefix: Seq<char>, uri: Seq<char>) -> Seq<char> {
    " xmlns:"@ + prefix + "=\""@ + uri + "\""@
}

/// The text of the first tag named `root` first occurs where that tag stands.
proof fn lemma_tag_text_first(xml: Seq<char>, root: Seq<char>, s: int, e: int)
    requires
        tag_prefix(root),
        open_tag_from(xml, root, 0) == Some((s, e)),
    ensures
        find(xml, xml.subrange(s, e + 1)) == Some(s),
{
    let rl = root.len() as int;
    lemma_open_tag_first(xml, root, 0);
    lemma_open_tag_from(xml, root, 0);
    let t = xml.subrange(s, e + 1);
    lemma_find(xml, t);
    assert(occurs_at(xml, t, s)) by {
        assert(xml.subrange(s, s + t.len()) =~= t);
    }
    assert forall|j: int| 0 <= j < s implies !occurs_at(xml, t, j) by {
        if occurs_at(xml, t, j) {
            assert(xml.subrange(j, j + t.len()) =~= t);
            assert(xml.subrange(j, j + rl) =~= xml.subrange(s, s + rl));
            assert(xml[j + rl] == t[rl]);
            assert(t[rl] == xml[s + rl]);
            assert(named_at(xml, root, j));
        }
    }
}

/// Inserting text that starts with a space and holds no `>` just after the
/// root's name keeps that tag first, its end pushed by the insertion.
proof fn lemma_insert_keeps_tag(xml: Seq<char>, root: Seq<char>, s: int, e: int, d: Seq<char>)
    requires
        tag_prefix(root),
        open_tag_from(xml, root, 0) == Some((s, e)),
        d.len() > 0,
        d[0] == ' ',
        forall|i: int| 0 <= i < d.len() ==> d[i] != '>',
    ensures
        open_tag_from(xml.take(s + root.len()) + d + xml.skip(s + root.len()), root, 0) == Some(
            (s, e + d.len()),
        ),
{
    reveal_strlit(">");
    let rl = root.len() as int;
    lemma_open_tag_first(xml, root, 0);
    lemma_open_tag_from(xml, root, 0);
    let at = s + rl;
    let dl = d.len() as int;
    let y = xml.take(at) + d + xml.skip(at);
    assert(named_at(y, root, s)) by {
        assert(y.subrange(s, s + rl) =~= xml.subrange(s, s + rl));
        assert(y[s + rl] == d[0]);
    }
    assert forall|j: int| 0 <= j < s implies !named_at(y, root, j) by {
        if named_at(y, root, j) {
            assert(y.subrange(j, j + rl) =~= xml.subrange(j, j + rl));
            assert(y[j + rl] == xml[j + rl]);
            assert(named_at(xml, root, j));
        }
    }
    lemma_find_from(xml, ">"@, s);
    let e2 = e + dl;
    assert(occurs_at(y, ">"@, e2)) by {
        assert(y[e2] == xml[e]);
        assert(y.subrange(e2, e2 + 1) =~= ">"@);
    }
    assert forall|j: int| s <= j < e2 implies !occurs_at(y, ">"@, j) by {
        if occurs_at(y, ">"@, j) {
            assert(y.subrange(j, j + 1)[0] == y[j]);
            if j < at {
                assert(y[j] == xml[j]);
                assert(xml.subrange(s, at)[j - s] == xml[j]);
            } else if j < at + dl {
                assert(y[j] == d[j - at]);
            } else {
                assert(y[j] == xml[j - dl]);
                assert(xml.subrange(j - dl, j - dl + 1) =~= ">"@);
                assert(occurs_at(xml, ">"@, j - dl));
            }
        }
    }
    lemma_find_from(y, ">"@, s);
    assert(find_from(y, ">"@, s) == Some(e2));
    lemma_open_tag_found(y, root, 0, s);
    lemma_open_tag_first(y, root, 0);
    lemma_open_tag_from(y, root, 0);
}

proof fn lemma_decl_shape(prefix: Seq<char>, uri: Seq<char>)
    requires
        forall|i: int| 0 <= i < prefix.len() ==> prefix[i] != '>',
        forall|i: int| 0 <= i < uri.len() ==> uri[i] != '>',
    ensures
        ns_decl(prefix, uri).len() > 0,
        ns_decl(prefix, uri)[0] == ' ',
        forall|i: int| 0 <= i < ns_decl(prefix, uri).len() ==> ns_decl(prefix, uri)[i] != '>',
        ns_decl(prefix, uri).len() >= 1 + ("xmlns:"@ + prefix + "="@).len(),
        ns_decl(prefix, uri).subrange(1, 1int + ("xmlns:"@ + prefix + "="@).len()) == "xmlns:"@ + prefix
            + "="@,
{
    reveal_strlit(" xmlns:");
    reveal_strlit("xmlns:");
    reveal_strlit("=");
    reveal_strlit("=\"");
    reveal_strlit("\"");
    let d = ns_decl(prefix, uri);
    let decl = "xmlns:"@ + prefix + "="@;
    assert forall|i: int| 0 <= i < d.len() implies d[i] != '>' by {
        if 7 <= i < 7 + prefix.len() {
            assert(d[i] == prefix[i - 7]);
        } else if 7 + prefix.len() + 2 <= i < 7 + prefix.len() + 2 + uri.len() {
            assert(d[i] == uri[i - 7 - prefix.len() - 2]);
        }
    }
    assert forall|k: int| 0 <= k < decl.len() implies d.subrange(1, 1int + decl.len())[k] == decl[k] by {
        if k < 6 {
            assert(d[1 + k] == " xmlns:"@[1 + k]);
        } else if k < 6 + prefix.len() {
            assert(d[1 + k] == prefix[k - 6]);
        } else {
            assert(d[1 + k] == '=');
        }
    }
    assert(d.subrange(1, 1int + decl.len()) =~= decl);
}

/// The inserted text lies inside the tag, so the tag holds what it holds.
proof fn lemma_inserted_in_tag(xml: Seq<char>, at: int, s: int, e: int, d: Seq<char>, p: Seq<char>)
    requires
        0 <= s <= at <= e + 1 <= xml.len(),
        d.len() >= 1 + p.len(),
        d.subrange(1, 1int + p.len()) == p,
    ensures
        contains((xml.take(at) + d + xml.skip(at)).subrange(s, e + d.len() + 1), p),
{
    let y = xml.take(at) + d + xml.skip(at);
    let t2 = y.subrange(s, e + d.len() + 1);
    let o = at - s + 1;
    assert(t2.subrange(o, o + p.len()) =~= d.subrange(1, 1int + p.len()));
    assert(occurs_at(t2, p, o));
}

/// Declaring a namespace on a root element: afterwards the root element's
/// opening tag declares it, so declaring it again changes nothing. (The
/// root is a tag name prefix, and neither the namespace prefix nor its URI
/// holds a `>`.)
pub proof fn lemma_ensure_ns_declares(xml: Seq<char>, root: Seq<char>, prefix: Seq<char>, uri: Seq<char>)
    requires
        tag_prefix(root),
        open_tag_spec(xml, root) is Some,
        forall|i: int| 0 <= i < prefix.len() ==> prefix[i] != '>',
        forall|i: int| 0 <= i < uri.len() ==> uri[i] != '>',
    ensures
        open_tag_spec(ensure_ns_spec(xml, root, prefix, uri), root) matches Some(t) && contains(
            t,
            "xmlns:"@ + prefix + "="@,
        ),
        ensure_ns_spec(ensure_ns_spec(xml, root, prefix, uri), root, prefix, uri) == ensure_ns_spec(
            xml,
            root,
            prefix,
            uri,
        ),
{
    let decl = "xmlns:"@ + prefix + "="@;
    let t = open_tag_spec(xml, root)->0;
    if !contains(t, decl) {
        lemma_open_tag_from(xml, root, 0);
        lemma_open_tag_first(xml, root, 0);
        let (s, e) = open_tag_from(xml, root, 0)->0;
        lemma_tag_text_first(xml, root, s, e);
        let at = s + root.len();
        let d = ns_decl(prefix, uri);
        let y = xml.take(at) + d + xml.skip(at);
        assert(ensure_ns_spec(xml, root, prefix, uri) == y);
        lemma_decl_shape(prefix, uri);
        lemma_insert_keeps_tag(xml, root, s, e, d);
        lemma_inserted_in_tag(xml, at, s, e, d, decl);
    }
}

// ── Relationships ────────────────────────────────────────────────────────────

/// The search key for a relationship's target.
pub open spec fn target_key(t: Seq<char>) -> Seq<char> {
    "Target=\""@ + t + "\""@
}

proof fn lemma_dec_str_digits(n: nat)
    ensures
        forall|k: int| 0 <= k < dec_str(n).len() ==> '0' <= #[trigger] dec_str(n)[k] <= '9',
    decreases n,
{
    if n >= 10 {
        lemma_dec_str_digits(n / 10);
        let d = dec_str(n);
        assert forall|k: int| 0 <= k < d.len() implies '0' <= #[trigger] d[k] <= '9' by {
            if k < d.len() - 1 {
                assert(d[k] == dec_str(n / 10)[k]);
            } else {
                assert(d[k] == digit_char(n % 10));
            }
        }
    } else {
        assert(dec_str(n)[0] == digit_char(n));
    }
}

/// The characters of a relationship id: `rIdUCWM` and digits.
proof fn lemma_rel_id_chars(n: nat)
    ensures
        rel_id(n).len() >= 7,
        forall|k: int| 0 <= k < rel_id(n).len() ==> {
            let c = #[trigger] rel_id(n)[k];
            c != '"' && c != 'T' && c != '<' && c != 'I'
        } || (k == 1 && rel_id(n)[k] == 'I'),
{
    reveal_strlit("rIdUCWM");
    lemma_dec_str_digits(n);
    let id = rel_id(n);
    assert forall|k: int| 0 <= k < id.len() implies {
        let c = #[trigger] id[k];
        c != '"' && c != 'T' && c != '<' && c != 'I'
    } || (k == 1 && id[k] == 'I') by {
        if k >= 7 {
            assert(id[k] == dec_str(n)[k - 7]);
        }
    }
}

/// Where each piece of a new relationship element stands.
proof fn lemma_rel_layout(id: Seq<char>, ty: Seq<char>, t: Seq<char>)
    ensures
        ({
            let r = rel_element(id, ty, t);
            let e: int = 26int + id.len() + ty.len();
            &&& r.len() == e + 13 + t.len()
            &&& forall|k: int| 0 <= k < 18 ==> #[trigger] r[k] == "<Relationship Id=\""@[k]
            &&& forall|k: int| 18 <= k < 18 + id.len() ==> #[trigger] r[k] == id[k - 18]
            &&& forall|k: int| 18 + id.len() <= k < 26 + id.len() ==> #[trigger] r[k] == "\" Type=\""@[k - 18 - id.len()]
            &&& forall|k: int| 26 + id.len() <= k < e ==> #[trigger] r[k] == ty[k - 26 - id.len()]
            &&& forall|k: int| e <= k < e + 10 ==> #[trigger] r[k] == "\" Target=\""@[k - e]
            &&& forall|k: int| e + 10 <= k < e + 10 + t.len() ==> #[trigger] r[k] == t[k - e - 10]
            &&& r[e + 10 + t.len()] == '"'
        }),
{
    reveal_strlit("<Relationship Id=\"");
    reveal_strlit("\" Type=\"");
    reveal_strlit("\" Target=\"");
    reveal_strlit("\"/>");
    let r = rel_element(id, ty, t);
    let e: int = 26int + id.len() + ty.len();
    assert(r.len() == e + 13 + t.len());
    assert forall|k: int| 0 <= k < 18 implies #[trigger] r[k] == "<Relationship Id=\""@[k] by {}
    assert forall|k: int| 18 <= k < 18 + id.len() implies #[trigger] r[k] == id[k - 18] by {}
    assert forall|k: int| 18 + id.len() <= k < 26 + id.len() implies #[trigger] r[k] == "\" Type=\""@[k - 18 - id.len()] by {}
    assert forall|k: int| 26 + id.len() <= k < e implies #[trigger] r[k] == ty[k - 26 - id.len()] by {}
    assert forall|k: int| e <= k < e + 10 implies #[trigger] r[k] == "\" Target=\""@[k - e] by {}
    assert forall|k: int| e + 10 <= k < e + 10 + t.len() implies #[trigger] r[k] == t[k - e - 10] by {}
    assert(r[e + 10 + t.len()] == "\"/>"@[0]);
}

/// After a text with no `Target="t"` and a new element for `t`, the first
/// `Target="t"` lies in that element, from its type on and no later than its
/// own target.
#[verifier::spinoff_prover]
#[verifier::rlimit(80)]
proof fn lemma_rel_first_target(a: Seq<char>, b: Seq<char>, n: nat, ty: Seq<char>, t: Seq<char>)
    requires
        forall|j: int| !occurs_at(a, target_key(t), j),
        !t.contains('<'),
    ensures
        find(a + rel_element(rel_id(n), ty, t) + b, target_key(t)) matches Some(j) && a.len() + 26
            + rel_id(n).len() <= j <= a.len() + 28 + rel_id(n).len() + ty.len(),
{
    reveal_strlit("Target=\"");
    reveal_strlit("\"");
    reveal_strlit("<Relationship Id=\"");
    reveal_strlit("\" Type=\"");
    reveal_strlit("\" Target=\"");
    let id = rel_id(n);
    let r = rel_element(id, ty, t);
    let x2 = a + r + b;
    let i = a.len() as int;
    let p = target_key(t);
    let pl = p.len() as int;
    assert(pl == 9 + t.len());
    assert forall|k: int| 0 <= k < 8 implies #[trigger] p[k] == "Target=\""@[k] by {}
    assert forall|k: int| 8 <= k < 8 + t.len() implies #[trigger] p[k] == t[k - 8] by {}
    assert(p[pl - 1] == '"');
    lemma_rel_layout(id, ty, t);
    lemma_rel_id_chars(n);
    let e: int = 26int + id.len() + ty.len();
    let pos = i + e + 2;
    assert forall|k: int| 0 <= k < i implies #[trigger] x2[k] == a[k] by {}
    assert forall|k: int| i <= k < i + r.len() implies #[trigger] x2[k] == r[k - i] by {}
    // The new element's own target is there.
    assert(occurs_at(x2, p, pos)) by {
        assert forall|k: int| 0 <= k < pl implies #[trigger] x2.subrange(pos, pos + pl)[k] == p[k] by {
            assert(x2.subrange(pos, pos + pl)[k] == x2[pos + k]);
            assert(x2[pos + k] == r[e + 2 + k]);
            if k < 8 {
                assert(r[e + 2 + k] == "\" Target=\""@[2 + k]);
            } else if k < 8 + t.len() {
                assert(r[e + 2 + k] == t[k - 8]);
            }
        }
        assert(x2.subrange(pos, pos + pl) =~= p);
    }
    // None starts before the element's type.
    let lo: int = i + 26 + id.len();
    assert forall|j: int| 0 <= j < lo implies !occurs_at(x2, p, j) by {
        if occurs_at(x2, p, j) {
            assert forall|k: int| 0 <= k < pl implies #[trigger] x2[j + k] == p[k] by {
                assert(x2.subrange(j, j + pl)[k] == x2[j + k]);
            }
            if j + pl <= i {
                assert(a.subrange(j, j + pl) =~= x2.subrange(j, j + pl));
                assert(occurs_at(a, p, j));
            } else if j < i {
                let k = i - j;
                assert(x2[j + k] == r[0]);
                assert(r[0] == '<');
                if 8 <= k < 8 + t.len() {
                    assert(t[k - 8] == '<');
                    assert(t.contains('<'));
                }
            } else {
                let q = j - i;
                assert(x2[j + 0] == p[0]);
                assert(x2[j] == 'T');
                assert(x2[j] == r[q]);
                if q < 18 {
                    assert(r[q] == "<Relationship Id=\""@[q]);
                } else if q < 18 + id.len() {
                    assert(r[q] == id[q - 18]);
                } else {
                    assert(x2[j + 1] == r[q + 1]);
                    assert(r[q] == "\" Type=\""@[q - 18 - id.len()]);
                    if q == 20 + id.len() {
                        assert(r[q + 1] == "\" Type=\""@[3]);
                    }
                }
            }
        }
    }
    lemma_find(x2, p);
}

/// A relationship element that follows `a` opens the last tag before any
/// point from its type up to its own target, and its `Id` is read back from
/// the tag that runs from it to a `Target="t"` found there.
#[verifier::spinoff_prover]
#[verifier::rlimit(80)]
proof fn lemma_rel_tag_read(a: Seq<char>, b: Seq<char>, n: nat, ty: Seq<char>, t: Seq<char>, pos: int)
    requires
        !ty.contains('<'),
        a.len() + 26 + rel_id(n).len() <= pos <= a.len() + 28 + rel_id(n).len() + ty.len(),
    ensures
        ({
            let x2 = a + rel_element(rel_id(n), ty, t) + b;
            &&& rfind(x2.take(pos), "<"@) == Some(a.len() as int)
            &&& attr_spec(x2.subrange(a.len() as int, pos + t.len() + 9), "Id"@) == Some(rel_id(n))
        }),
{
    reveal_strlit("<");
    reveal_strlit("\"");
    reveal_strlit("Id");
    reveal_strlit("=\"");
    reveal_strlit("<Relationship Id=\"");
    reveal_strlit("\" Type=\"");
    reveal_strlit("\" Target=\"");
    let id = rel_id(n);
    let r = rel_element(id, ty, t);
    let x2 = a + r + b;
    let i = a.len() as int;
    lemma_rel_layout(id, ty, t);
    lemma_rel_id_chars(n);
    let e: int = 26int + id.len() + ty.len();
    assert forall|k: int| i <= k < i + r.len() implies #[trigger] x2[k] == r[k - i] by {}
    // The last `<` before `pos` opens the new element.
    let h = x2.take(pos);
    assert(occurs_at(h, "<"@, i)) by {
        assert(h.subrange(i, i + 1) =~= "<"@);
    }
    assert forall|j: int| i < j implies !occurs_at(h, "<"@, j) by {
        if occurs_at(h, "<"@, j) {
            assert(h.subrange(j, j + 1)[0] == h[j]);
            assert(h[j] == x2[j]);
            let q = j - i;
            assert(x2[j] == r[q]);
            if q < 18 {
                assert(r[q] == "<Relationship Id=\""@[q]);
            } else if q < 18 + id.len() {
                assert(r[q] == id[q - 18]);
            } else if q < 26 + id.len() {
                assert(r[q] == "\" Type=\""@[q - 18 - id.len()]);
            } else if q < e {
                assert(r[q] == ty[q - 26 - id.len()]);
                assert(ty.contains('<'));
            } else {
                assert(r[q] == "\" Target=\""@[q - e]);
            }
        }
    }
    lemma_rfind(h, "<"@);
    // The tag's first `Id="` is the new id's, which ends at the next quote.
    let tag = x2.subrange(i, pos + t.len() + 9);
    let key = "Id"@ + "=\""@;
    assert(key =~= seq!['I', 'd', '=', '"']);
    assert forall|k: int| 0 <= k < tag.len() implies #[trigger] tag[k] == r[k] by {}
    assert(occurs_at(tag, key, 14)) by {
        assert(tag.subrange(14, 18) =~= key);
    }
    assert forall|j: int| 0 <= j < 14 implies !occurs_at(tag, key, j) by {
        if occurs_at(tag, key, j) {
            assert(tag.subrange(j, j + 4)[0] == tag[j]);
            assert(tag[j] == r[j]);
        }
    }
    lemma_find(tag, key);
    assert(find(tag, key) == Some(14int));
    let q = "\""@;
    let qe: int = 18int + id.len();
    assert(occurs_at(tag, q, qe)) by {
        assert(tag[qe] == r[qe]);
        assert(tag.subrange(qe, qe + 1) =~= q);
    }
    assert forall|j: int| 18 <= j < 18 + id.len() implies !occurs_at(tag, q, j) by {
        if occurs_at(tag, q, j) {
            assert(tag.subrange(j, j + 1)[0] == tag[j]);
            assert(tag[j] == id[j - 18]);
        }
    }
    lemma_find_from(tag, q, 18);
    assert(tag.subrange(18, qe) =~= id);
}

/// A new element for `t` placed after `a`, where `a` holds no `Target="t"`,
/// is the relationship found for `t`.
proof fn lemma_rel_read_after(a: Seq<char>, b: Seq<char>, n: nat, ty: Seq<char>, t: Seq<char>)
    requires
        forall|j: int| !occurs_at(a, target_key(t), j),
        !ty.contains('<'),
        !t.contains('<'),
    ensures
        existing_rel(a + rel_element(rel_id(n), ty, t) + b, t) == Some(rel_id(n)),
{
    lemma_rel_first_target(a, b, n, ty, t);
    let x2 = a + rel_element(rel_id(n), ty, t) + b;
    let pos = find(x2, target_key(t))->0;
    lemma_rel_tag_read(a, b, n, ty, t, pos);
}

/// `replace_all` copies the text up to the first occurrence of what it
/// replaces, puts the replacement, and goes on after that occurrence.
proof fn lemma_replace_all_first(s: Seq<char>, f: Seq<char>, w: Seq<char>, k: int)
    requires
        f.len() > 0,
        occurs_at(s, f, k),
        forall|j: int| 0 <= j < k ==> !occurs_at(s, f, j),
    ensures
        replace_all(s, f, w) == s.take(k) + w + replace_all(s.skip(k + f.len()), f, w),
    decreases k,
{
    if k == 0 {
        assert(s.take(0) =~= Seq::<char>::empty());
        assert(Seq::<char>::empty() + w =~= w);
    } else {
        assert(!occurs_at(s, f, 0));
        let d = s.drop_first();
        assert forall|j: int| 0 <= j < k - 1 implies !occurs_at(d, f, j) by {
            if occurs_at(d, f, j) {
                assert(s.subrange(j + 1, j + 1 + f.len()) =~= d.subrange(j, j + f.len()));
                assert(occurs_at(s, f, j + 1));
            }
        }
        assert(d.subrange(k - 1, k - 1 + f.len()) =~= s.subrange(k, k + f.len()));
        lemma_replace_all_first(d, f, w, k - 1);
        assert(s.take(k) =~= seq![s[0]] + d.take(k - 1));
        assert(d.skip(k - 1 + f.len()) =~= s.skip(k + f.len()));
        assert(replace_all(s, f, w) == seq![s[0]] + replace_all(d, f, w));
        assert(seq![s[0]] + (d.take(k - 1) + w + replace_all(d.skip(k - 1 + f.len()), f, w)) =~= s.take(k)
            + w + replace_all(s.skip(k + f.len()), f, w));
    }
}

/// A relationship added to relationships that had none to `t` is the one
/// found for `t` afterwards, whether it went before their closing tag or
/// into a root element that closed itself. (Its type and `t` hold no `<`.)
pub proof fn lemma_rel_found_again(xml: Seq<char>, n: nat, ty: Seq<char>, t: Seq<char>)
    requires
        find(xml, target_key(t)) is None,
        rfind(xml, "</Relationships>"@) is Some || contains(xml, "/>"@),
        !ty.contains('<'),
        !t.contains('<'),
    ensures
        existing_rel(rels_with(xml, rel_element(rel_id(n), ty, t)), t) == Some(rel_id(n)),
{
    let p = target_key(t);
    let r = rel_element(rel_id(n), ty, t);
    lemma_rfind(xml, "</Relationships>"@);
    lemma_find(xml, p);
    match rfind(xml, "</Relationships>"@) {
        Some(i) => {
            let a = xml.take(i);
            assert forall|j: int| !occurs_at(a, p, j) by {
                if occurs_at(a, p, j) {
                    assert(xml.subrange(j, j + p.len()) =~= a.subrange(j, j + p.len()));
                    assert(occurs_at(xml, p, j));
                }
            }
            lemma_rel_read_after(a, xml.skip(i), n, ty, t);
        },
        None => {
            reveal_strlit("/>");
            reveal_strlit(">");
            reveal_strlit("Target=\"");
            reveal_strlit("\"");
            let f = "/>"@;
            lemma_find(xml, f);
            let k = find(xml, f)->0;
            let w = ">"@ + r + "</Relationships>"@;
            lemma_replace_all_first(xml, f, w, k);
            let a = xml.take(k) + ">"@;
            let b = "</Relationships>"@ + replace_all(xml.skip(k + 2), f, w);
            assert(rels_with(xml, r) =~= a + r + b);
            assert(p[p.len() - 1] == '"');
            assert forall|j: int| !occurs_at(a, p, j) by {
                if occurs_at(a, p, j) {
                    if j + p.len() <= k {
                        assert(xml.subrange(j, j + p.len()) =~= a.subrange(j, j + p.len()));
                        assert(occurs_at(xml, p, j));
                    } else {
                        assert(a.subrange(j, j + p.len())[p.len() - 1] == a[k]);
                        assert(a[k] == '>');
                    }
                }
            }
            lemma_rel_read_after(a, b, n, ty, t);
        },
    }
}

} // verus!
