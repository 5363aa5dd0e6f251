//! Structured data as the converters see it: a JSON-like value whose objects
//! are key-sorted maps, as produced by the JSON, YAML, TOML, XML and CSV readers.
use vstd::prelude::*;
use crate::text::{chars_of, push_all, push_str, starts_with, string_of};

verus! {

/// Mathematical form of a [`JsonValue`].
pub enum JsonSpec {
    Null,
    Bool(bool),
    Number(Seq<char>),
    Str(Seq<char>),
    Array(Seq<JsonSpec>),
    Object(Seq<(Seq<char>, JsonSpec)>),
}

/// A structured value. `Number` keeps the number's textual form; the
/// entries of an `Object` are sorted by key, each key once.
#[derive(Debug)]
pub enum JsonValue {
    Null,
    Bool(bool),
    Number(String),
    Str(String),
    Array(Vec<JsonValue>),
    Object(Vec<(String, JsonValue)>),
}

impl JsonValue {
    pub open spec fn spec_of(&self) -> JsonSpec
        decreases self, 0int,
    {
        match self {
            JsonValue::Null => JsonSpec::Null,
            JsonValue::Bool(b) => JsonSpec::Bool(*b),
            JsonValue::Number(n) => JsonSpec::Number(n@),
            JsonValue::Str(s) => JsonSpec::Str(s@),
            JsonValue::Array(a) => JsonSpec::Array(items_spec(a@, a@.len() as int)),
            JsonValue::Object(o) => JsonSpec::Object(entries_spec(o@, o@.len() as int)),
        }
    }
}

pub open spec fn items_spec(s: Seq<JsonValue>, n: int) -> Seq<JsonSpec>
    decreases s, n,
{
    if n <= 0 || n > s.len() {
        seq![]
    } else {
        items_spec(s, n - 1).push(s[n - 1].spec_of())
    }
}

pub open spec fn entries_spec(s: Seq<(String, JsonValue)>, n: int) -> Seq<(Seq<char>, JsonSpec)>
    decreases s, n,
{
    if n <= 0 || n > s.len() {
        seq![]
    } else {
        entries_spec(s, n - 1).push((s[n - 1].0@, s[n - 1].1.spec_of()))
    }
}


// ── Sorted maps ──────────────────────────────────────────────────────────────

/// Code-point lexicographic order on keys (the order of `String`).
pub open spec fn key_lt(a: Seq<char>, b: Seq<char>) -> bool
    decreases a.len(),
{
    if a.len() == 0 {
        b.len() > 0
    } else if b.len() == 0 {
        false
    } else if a[0] != b[0] {
        a[0] < b[0]
    } else {
        key_lt(a.drop_first(), b.drop_first())
    }
}

/// Inserting `k ↦ v` into sorted entries: replaces the value of `k`, or
/// places `k` before the first larger key.
pub open spec fn map_insert<V>(e: Seq<(Seq<char>, V)>, k: Seq<char>, v: V) -> Seq<(Seq<char>, V)>
    decreases e.len(),
{
    if e.len() == 0 {
        seq![(k, v)]
    } else if e[0].0 == k {
        seq![(k, v)] + e.skip(1)
    } else if key_lt(k, e[0].0) {
        seq![(k, v)] + e
    } else {
        seq![e[0]] + map_insert(e.drop_first(), k, v)
    }
}

/// Value of the first entry with key `k`.
pub open spec fn map_get<V>(e: Seq<(Seq<char>, V)>, k: Seq<char>) -> Option<V>
    decreases e.len(),
{
    if e.len() == 0 {
        None
    } else if e[0].0 == k {
        Some(e[0].1)
    } else {
        map_get(e.drop_first(), k)
    }
}

/// Entries sorted by strictly increasing key.
pub open spec fn sorted_keys<V>(e: Seq<(Seq<char>, V)>) -> bool {
    forall|i: int, j: int| 0 <= i < j < e.len() ==> key_lt(e[i].0, e[j].0)
}

pub proof fn lemma_key_lt_irrefl(a: Seq<char>)
    ensures
        !key_lt(a, a),
    decreases a.len(),
{
    if a.len() > 0 {
        lemma_key_lt_irrefl(a.drop_first());
    }
}

pub proof fn lemma_key_lt_trans(a: Seq<char>, b: Seq<char>, c: Seq<char>)
    requires
        key_lt(a, b),
        key_lt(b, c),
    ensures
        key_lt(a, c),
    decreases a.len(),
{
    if a.len() > 0 && b.len() > 0 && c.len() > 0 && a[0] == b[0] && b[0] == c[0] {
        lemma_key_lt_trans(a.drop_first(), b.drop_first(), c.drop_first());
    }
}

pub proof fn lemma_key_lt_total(a: Seq<char>, b: Seq<char>)
    ensures
        a == b || key_lt(a, b) || key_lt(b, a),
    decreases a.len(),
{
    if a.len() > 0 && b.len() > 0 && a[0] == b[0] {
        lemma_key_lt_total(a.drop_first(), b.drop_first());
        if a.drop_first() == b.drop_first() {
            assert(a =~= seq![a[0]] + a.drop_first());
            assert(b =~= seq![b[0]] + b.drop_first());
        }
    } else if a.len() == 0 && b.len() == 0 {
        assert(a =~= b);
    } else if a.len() > 0 && b.len() > 0 {
        assert(a[0] != b[0]);
    }
}

pub(crate) proof fn lemma_insert_get<V>(e: Seq<(Seq<char>, V)>, k: Seq<char>, v: V)
    ensures
        map_get(map_insert(e, k, v), k) == Some(v),
    decreases e.len(),
{
    if e.len() > 0 && e[0].0 != k && !key_lt(k, e[0].0) {
        lemma_insert_get(e.drop_first(), k, v);
        assert((seq![e[0]] + map_insert(e.drop_first(), k, v)).drop_first() =~= map_insert(
            e.drop_first(),
            k,
            v,
        ));
    }
}

proof fn lemma_insert_get_other<V>(e: Seq<(Seq<char>, V)>, k: Seq<char>, v: V, k2: Seq<char>)
    requires
        k2 != k,
    ensures
        map_get(map_insert(e, k, v), k2) == map_get(e, k2),
    decreases e.len(),
{
    let r = map_insert(e, k, v);
    if e.len() == 0 {
        assert(r[0] == (k, v));
        assert(r.drop_first() =~= Seq::<(Seq<char>, V)>::empty());
        assert(map_get(r, k2) == map_get(r.drop_first(), k2));
    } else if e[0].0 == k {
        assert(r[0] == (k, v));
        assert(r.drop_first() =~= e.drop_first());
        assert(map_get(r, k2) == map_get(r.drop_first(), k2));
        assert(map_get(e, k2) == map_get(e.drop_first(), k2));
    } else if key_lt(k, e[0].0) {
        assert(r[0] == (k, v));
        assert(r.drop_first() =~= e);
        assert(map_get(r, k2) == map_get(r.drop_first(), k2));
    } else {
        lemma_insert_get_other(e.drop_first(), k, v, k2);
        assert(r[0] == e[0]);
        assert(r.drop_first() =~= map_insert(e.drop_first(), k, v));
    }
}

proof fn lemma_insert_keys<V>(e: Seq<(Seq<char>, V)>, k: Seq<char>, v: V)
    ensures
        forall|i: int|
            0 <= i < map_insert(e, k, v).len() ==> (#[trigger] map_insert(e, k, v)[i]).0 == k
                || exists|j: int| 0 <= j < e.len() && e[j].0 == map_insert(e, k, v)[i].0,
    decreases e.len(),
{
    let r = map_insert(e, k, v);
    if e.len() > 0 && e[0].0 != k && !key_lt(k, e[0].0) {
        lemma_insert_keys(e.drop_first(), k, v);
        assert forall|i: int| 0 <= i < r.len() implies (#[trigger] r[i]).0 == k || exists|j: int|
            0 <= j < e.len() && e[j].0 == r[i].0 by {
            if i == 0 {
                assert(e[0].0 == r[0].0);
            } else {
                let t = map_insert(e.drop_first(), k, v);
                assert(r[i] == t[i - 1]);
                if t[i - 1].0 != k {
                    let j = choose|j: int| 0 <= j < e.drop_first().len() && e.drop_first()[j].0 == t[i - 1].0;
                    assert(e[j + 1].0 == r[i].0);
                }
            }
        }
    } else if e.len() > 0 && e[0].0 == k {
        assert forall|i: int| 0 <= i < r.len() implies (#[trigger] r[i]).0 == k || exists|j: int|
            0 <= j < e.len() && e[j].0 == r[i].0 by {
            if i > 0 {
                assert(r[i] == e[i]);
            }
        }
    } else if e.len() > 0 {
        assert forall|i: int| 0 <= i < r.len() implies (#[trigger] r[i]).0 == k || exists|j: int|
            0 <= j < e.len() && e[j].0 == r[i].0 by {
            if i > 0 {
                assert(r[i] == e[i - 1]);
            }
        }
    }
}

proof fn lemma_insert_sorted<V>(e: Seq<(Seq<char>, V)>, k: Seq<char>, v: V)
    requires
        sorted_keys(e),
    ensures
        sorted_keys(map_insert(e, k, v)),
    decreases e.len(),
{
    let r = map_insert(e, k, v);
    if e.len() == 0 {
    } else if e[0].0 == k {
        assert forall|i: int, j: int| 0 <= i < j < r.len() implies key_lt(r[i].0, r[j].0) by {
            assert(r[j] == e[j]);
            if i > 0 {
                assert(r[i] == e[i]);
            }
        }
    } else if key_lt(k, e[0].0) {
        assert forall|i: int, j: int| 0 <= i < j < r.len() implies key_lt(r[i].0, r[j].0) by {
            assert(r[j] == e[j - 1]);
            if i > 0 {
                assert(r[i] == e[i - 1]);
            } else if j - 1 > 0 {
                lemma_key_lt_trans(k, e[0].0, e[j - 1].0);
            }
        }
    } else {
        let t = e.drop_first();
        assert(sorted_keys(t));
        lemma_insert_sorted(t, k, v);
        lemma_insert_keys(t, k, v);
        lemma_key_lt_total(k, e[0].0);
        let ti = map_insert(t, k, v);
        assert forall|i: int, j: int| 0 <= i < j < r.len() implies key_lt(r[i].0, r[j].0) by {
            assert(r[j] == ti[j - 1]);
            if i > 0 {
                assert(r[i] == ti[i - 1]);
            } else {
                if ti[j - 1].0 != k {
                    let m = choose|m: int| 0 <= m < t.len() && t[m].0 == ti[j - 1].0;
                    assert(e[m + 1].0 == ti[j - 1].0);
                }
            }
        }
    }
}

/// Storing `v` under `k` in key-sorted entries keeps them sorted, gives
/// back `v` when `k` is read, and leaves what every other key reads as it
/// was. (The entries of an object and the files of a package are such
/// maps.)
pub proof fn lemma_insert_then_get<V>(e: Seq<(Seq<char>, V)>, k: Seq<char>, v: V)
    requires
        sorted_keys(e),
    ensures
        sorted_keys(map_insert(e, k, v)),
        map_get(map_insert(e, k, v), k) == Some(v),
        forall|k2: Seq<char>| k2 != k ==> #[trigger] map_get(map_insert(e, k, v), k2) == map_get(e, k2),
{
    lemma_insert_sorted(e, k, v);
    lemma_insert_get(e, k, v);
    assert forall|k2: Seq<char>| k2 != k implies #[trigger] map_get(map_insert(e, k, v), k2)
        == map_get(e, k2) by {
        lemma_insert_get_other(e, k, v, k2);
    }
}

fn key_lt_exec(a: &[char], b: &[char]) -> (r: bool)
    ensures
        r == key_lt(a@, b@),
{
    let mut i: usize = 0;
    assert(a@.skip(0) =~= a@);
    assert(b@.skip(0) =~= b@);
    loop
        invariant
            i <= a.len(),
            i <= b.len(),
            key_lt(a@, b@) == key_lt(a@.skip(i as int), b@.skip(i as int)),
        decreases a.len() - i,
    {
        if i == a.len() {
            return i < b.len();
        }
        if i == b.len() {
            return false;
        }
        if a[i] != b[i] {
            return a[i] < b[i];
        }
        assert(a@.skip(i as int).drop_first() =~= a@.skip(i + 1));
        assert(b@.skip(i as int).drop_first() =~= b@.skip(i + 1));
        i += 1;
    }
}

pub open spec fn entries_view(e: Seq<(String, JsonValue)>) -> Seq<(Seq<char>, JsonSpec)> {
    entries_spec(e, e.len() as int)
}

pub open spec fn items_view(a: Seq<JsonValue>) -> Seq<JsonSpec> {
    items_spec(a, a.len() as int)
}

pub proof fn lemma_entries_spec(s: Seq<(String, JsonValue)>, n: int)
    requires
        0 <= n <= s.len(),
    ensures
        entries_spec(s, n).len() == n,
        forall|i: int| 0 <= i < n ==> #[trigger] entries_spec(s, n)[i] == (s[i].0@, s[i].1.spec_of()),
    decreases n,
{
    if n > 0 {
        lemma_entries_spec(s, n - 1);
    }
}

pub proof fn lemma_items_spec(s: Seq<JsonValue>, n: int)
    requires
        0 <= n <= s.len(),
    ensures
        items_spec(s, n).len() == n,
        forall|i: int| 0 <= i < n ==> #[trigger] items_spec(s, n)[i] == s[i].spec_of(),
    decreases n,
{
    if n > 0 {
        lemma_items_spec(s, n - 1);
    }
}

pub(crate) proof fn lemma_map_insert_skip<V>(e: Seq<(Seq<char>, V)>, k: Seq<char>, v: V, i: int)
    requires
        0 <= i <= e.len(),
        forall|j: int| 0 <= j < i ==> e[j].0 != k && !key_lt(k, e[j].0),
    ensures
        map_insert(e, k, v) == e.take(i) + map_insert(e.skip(i), k, v),
    decreases i,
{
    if i == 0 {
        assert(e.skip(0) =~= e);
        assert(e.take(0) + map_insert(e, k, v) =~= map_insert(e, k, v));
    } else {
        lemma_map_insert_skip(e.drop_first(), k, v, i - 1);
        assert(e.drop_first().skip(i - 1) =~= e.skip(i));
        assert(seq![e[0]] + e.drop_first().take(i - 1) =~= e.take(i));
    }
}

/// Inserts `k ↦ v` into key-sorted entries (like `serde_json::Map::insert`).
pub fn obj_insert(e: &mut Vec<(String, JsonValue)>, k: String, v: JsonValue)
    ensures
        entries_view(final(e)@) == map_insert(entries_view(old(e)@), k@, v.spec_of()),
{
    let ghost ev = entries_view(e@);
    proof {
        lemma_entries_spec(e@, e@.len() as int);
    }
    let kc = chars_of(k.as_str());
    let mut i: usize = 0;
    while i < e.len() && !stops_before(kc.as_slice(), &e[i].0)
        invariant
            i <= e.len(),
            ev == entries_view(e@),
            ev.len() == e@.len(),
            kc@ == k@,
            forall|j: int| 0 <= j < e@.len() ==> #[trigger] ev[j] == (e@[j].0@, e@[j].1.spec_of()),
            forall|j: int| 0 <= j < i ==> ev[j].0 != k@ && !key_lt(k@, ev[j].0),
        decreases e.len() - i,
    {
        i += 1;
    }
    proof {
        lemma_map_insert_skip(ev, k@, v.spec_of(), i as int);
    }
    let ghost vs = v.spec_of();
    if i < e.len() && string_eq(&e[i].0, &k) {
        let ghost old_e = e@;
        e.set(i, (k, v));
        proof {
            let rest = ev.skip(i as int);
            assert(rest[0].0 == kc@);
            lemma_entries_spec(e@, e@.len() as int);
            assert(entries_view(e@) =~= ev.take(i as int) + (seq![(kc@, vs)] + rest.skip(1)));
        }
    } else {
        let ghost old_e = e@;
        e.insert(i, (k, v));
        proof {
            lemma_entries_spec(e@, e@.len() as int);
            let rest = ev.skip(i as int);
            if i < old_e.len() {
                assert(rest[0].0 != kc@);
                assert(key_lt(kc@, rest[0].0));
            } else {
                assert(rest =~= Seq::<(Seq<char>, JsonSpec)>::empty());
            }
            assert(entries_view(e@) =~= ev.take(i as int) + (seq![(kc@, vs)] + rest));
        }
    }
}

pub(crate) fn string_eq(a: &String, b: &String) -> (r: bool)
    ensures
        r == (a@ == b@),
{
    let ac = chars_of(a.as_str());
    let bc = chars_of(b.as_str());
    crate::text::eq_chars(ac.as_slice(), bc.as_slice())
}

/// Key `k` goes at or before `key`: equal, or smaller.
pub(crate) fn stops_before(k: &[char], key: &String) -> (r: bool)
    ensures
        r == (key@ == k@ || key_lt(k@, key@)),
{
    let ec = chars_of(key.as_str());
    crate::text::eq_chars(ec.as_slice(), k) || key_lt_exec(k, ec.as_slice())
}

/// The value stored under `k`, if any.
pub fn obj_get<'a>(e: &'a Vec<(String, JsonValue)>, k: &str) -> (r: Option<&'a JsonValue>)
    ensures
        match r {
            Some(v) => map_get(entries_view(e@), k@) == Some(v.spec_of()),
            None => map_get(entries_view(e@), k@) is None,
        },
{
    let ghost ev = entries_view(e@);
    proof {
        lemma_entries_spec(e@, e@.len() as int);
    }
    let kc = chars_of(k);
    let mut i: usize = 0;
    assert(ev.skip(0) =~= ev);
    while i < e.len()
        invariant
            i <= e.len(),
            ev == entries_view(e@),
            ev.len() == e@.len(),
            kc@ == k@,
            forall|j: int| 0 <= j < e@.len() ==> #[trigger] ev[j] == (e@[j].0@, e@[j].1.spec_of()),
            map_get(ev, k@) == map_get(ev.skip(i as int), k@),
        decreases e.len() - i,
    {
        let ec = chars_of(e[i].0.as_str());
        assert(ev.skip(i as int)[0] == ev[i as int]);
        if crate::text::eq_chars(ec.as_slice(), kc.as_slice()) {
            return Some(&e[i].1);
        }
        assert(ev.skip(i as int).drop_first() =~= ev.skip(i + 1));
        i += 1;
    }
    None
}


// ── Compact JSON text ────────────────────────────────────────────────────────

pub open spec fn hex_lower(d: nat) -> char {
    if d < 10 {
        ((d + 48) as u32) as char
    } else {
        ((d + 87) as u32) as char
    }
}

/// How `serde_json` writes one character inside a string literal.
pub open spec fn json_char(c: char) -> Seq<char> {
    let u = c as u32;
    if c == '"' {
        "\\\""@
    } else if c == '\\' {
        "\\\\"@
    } else if u == 8 {
        "\\b"@
    } else if u == 12 {
        "\\f"@
    } else if c == '\n' {
        "\\n"@
    } else if c == '\r' {
        "\\r"@
    } else if c == '\t' {
        "\\t"@
    } else if u < 32 {
        "\\u00"@ + seq![hex_lower((u / 16) as nat), hex_lower((u % 16) as nat)]
    } else {
        seq![c]
    }
}

pub open spec fn json_str_body(s: Seq<char>) -> Seq<char>
    decreases s.len(),
{
    if s.len() == 0 {
        seq![]
    } else {
        json_str_body(s.drop_last()) + json_char(s.last())
    }
}

pub open spec fn json_string(s: Seq<char>) -> Seq<char> {
    "\""@ + json_str_body(s) + "\""@
}

/// Compact JSON text of a value (`serde_json::Value::to_string`).
pub open spec fn json_compact(v: JsonSpec) -> Seq<char>
    decreases v, 0int,
{
    match v {
        JsonSpec::Null => "null"@,
        JsonSpec::Bool(b) => if b {
            "true"@
        } else {
            "false"@
        },
        JsonSpec::Number(n) => n,
        JsonSpec::Str(s) => json_string(s),
        JsonSpec::Array(a) => "["@ + json_items(a, a.len() as int) + "]"@,
        JsonSpec::Object(o) => "{"@ + json_members(o, o.len() as int) + "}"@,
    }
}

pub open spec fn json_items(a: Seq<JsonSpec>, n: int) -> Seq<char>
    decreases a, n,
{
    if n <= 0 || n > a.len() {
        seq![]
    } else if n == 1 {
        json_compact(a[0])
    } else {
        json_items(a, n - 1) + ","@ + json_compact(a[n - 1])
    }
}

pub open spec fn json_members(o: Seq<(Seq<char>, JsonSpec)>, n: int) -> Seq<char>
    decreases o, n,
{
    if n <= 0 || n > o.len() {
        seq![]
    } else if n == 1 {
        json_string(o[0].0) + ":"@ + json_compact(o[0].1)
    } else {
        json_members(o, n - 1) + ","@ + json_string(o[n - 1].0) + ":"@ + json_compact(o[n - 1].1)
    }
}

fn hex_lower_exec(d: u32) -> (c: char)
    requires
        d < 16,
    ensures
        c == hex_lower(d as nat),
{
    if d < 10 {
        ((d as u8) + 48) as char
    } else {
        ((d as u8) + 87) as char
    }
}

fn push_json_string(out: &mut Vec<char>, s: &str)
    ensures
        final(out)@ == old(out)@ + json_string(s@),
{
    let c = chars_of(s);
    let ghost start = out@;
    push_str(out, "\"");
    let mut i: usize = 0;
    while i < c.len()
        invariant
            i <= c.len(),
            out@ == start + "\""@ + json_str_body(c@.take(i as int)),
        decreases c.len() - i,
    {
        assert(c@.take(i + 1).drop_last() =~= c@.take(i as int));
        let ch = c[i];
        let u = ch as u32;
        if ch == '"' {
            push_str(out, "\\\"");
        } else if ch == '\\' {
            push_str(out, "\\\\");
        } else if u == 8 {
            push_str(out, "\\b");
        } else if u == 12 {
            push_str(out, "\\f");
        } else if ch == '\n' {
            push_str(out, "\\n");
        } else if ch == '\r' {
            push_str(out, "\\r");
        } else if ch == '\t' {
            push_str(out, "\\t");
        } else if u < 32 {
            push_str(out, "\\u00");
            out.push(hex_lower_exec(u / 16));
            out.push(hex_lower_exec(u % 16));
        } else {
            out.push(ch);
        }
        assert(out@ =~= start + "\""@ + json_str_body(c@.take(i + 1)));
        i += 1;
    }
    assert(c@.take(i as int) =~= c@);
    push_str(out, "\"");
}

/// Appends the compact JSON text of `v`.
pub fn push_json(out: &mut Vec<char>, v: &JsonValue)
    ensures
        final(out)@ == old(out)@ + json_compact(v.spec_of()),
    decreases v,
{
    let ghost start = out@;
    match v {
        JsonValue::Null => push_str(out, "null"),
        JsonValue::Bool(b) => if *b {
            push_str(out, "true")
        } else {
            push_str(out, "false")
        },
        JsonValue::Number(n) => push_str(out, n.as_str()),
        JsonValue::Str(s) => push_json_string(out, s.as_str()),
        JsonValue::Array(a) => {
            proof {
                lemma_items_spec(a@, a@.len() as int);
            }
            push_str(out, "[");
            let mut i: usize = 0;
            while i < a.len()
                invariant
                    i <= a.len(),
                    out@ == start + "["@ + json_items(items_view(a@), i as int),
                    items_view(a@).len() == a@.len(),
                    forall|j: int| 0 <= j < a@.len() ==> #[trigger] items_view(a@)[j] == a@[j].spec_of(),
                    *v == JsonValue::Array(*a),
                decreases a.len() - i,
            {
                if i > 0 {
                    push_str(out, ",");
                }
                proof {
                    let ghost arr = *a;
                    assert(decreases_to!(*v => (*v)->Array_0));
                    assert(decreases_to!(arr => arr@));
                    assert(decreases_to!(arr@ => arr@[i as int]));
                    assert(decreases_to!(*v => a@[i as int]));
                }
                push_json(out, &a[i]);
                i += 1;
            }
            push_str(out, "]");
        },
        JsonValue::Object(o) => {
            proof {
                lemma_entries_spec(o@, o@.len() as int);
            }
            push_str(out, "{");
            let mut i: usize = 0;
            while i < o.len()
                invariant
                    i <= o.len(),
                    out@ == start + "{"@ + json_members(entries_view(o@), i as int),
                    entries_view(o@).len() == o@.len(),
                    forall|j: int| 0 <= j < o@.len() ==> #[trigger] entries_view(o@)[j] == (o@[j].0@, o@[j].1.spec_of()),
                    *v == JsonValue::Object(*o),
                decreases o.len() - i,
            {
                if i > 0 {
                    push_str(out, ",");
                }
                push_json_string(out, o[i].0.as_str());
                push_str(out, ":");
                proof {
                    let ghost obj = *o;
                    let ghost entry = obj@[i as int];
                    assert(decreases_to!(*v => (*v)->Object_0));
                    assert(decreases_to!(obj => obj@));
                    assert(decreases_to!(obj@ => entry));
                    assert(decreases_to!(entry => entry.1));
                    assert(decreases_to!(*v => o@[i as int].1));
                }
                push_json(out, &o[i].1);
                i += 1;
            }
            push_str(out, "}");
        },
    }
}


// ── Copies ───────────────────────────────────────────────────────────────────

fn string_copy(s: &String) -> (r: String)
    ensures
        r@ == s@,
{
    s.clone()
}

/// A deep copy of `v`.
pub fn json_clone(v: &JsonValue) -> (r: JsonValue)
    ensures
        r.spec_of() == v.spec_of(),
    decreases v,
{
    match v {
        JsonValue::Null => JsonValue::Null,
        JsonValue::Bool(b) => JsonValue::Bool(*b),
        JsonValue::Number(n) => JsonValue::Number(string_copy(n)),
        JsonValue::Str(s) => JsonValue::Str(string_copy(s)),
        JsonValue::Array(a) => {
            let mut out: Vec<JsonValue> = Vec::new();
            let mut i: usize = 0;
            while i < a.len()
                invariant
                    i <= a.len(),
                    out@.len() == i,
                    forall|j: int| 0 <= j < i ==> #[trigger] out@[j].spec_of() == a@[j].spec_of(),
                    *v == JsonValue::Array(*a),
                decreases a.len() - i,
            {
                proof {
                    let ghost arr = *a;
                    assert(decreases_to!(*v => (*v)->Array_0));
                    assert(decreases_to!(arr => arr@));
                    assert(decreases_to!(arr@ => arr@[i as int]));
                }
                let c = json_clone(&a[i]);
                out.push(c);
                i += 1;
            }
            proof {
                lemma_items_spec(a@, a@.len() as int);
                lemma_items_spec(out@, out@.len() as int);
                assert(items_view(out@) =~= items_view(a@));
            }
            JsonValue::Array(out)
        },
        JsonValue::Object(o) => {
            let mut out: Vec<(String, JsonValue)> = Vec::new();
            let mut i: usize = 0;
            while i < o.len()
                invariant
                    i <= o.len(),
                    out@.len() == i,
                    forall|j: int| 0 <= j < i ==> #[trigger] out@[j].0@ == o@[j].0@,
                    forall|j: int| 0 <= j < i ==> #[trigger] out@[j].1.spec_of() == o@[j].1.spec_of(),
                    *v == JsonValue::Object(*o),
                decreases o.len() - i,
            {
                proof {
                    let ghost obj = *o;
                    let ghost entry = obj@[i as int];
                    assert(decreases_to!(*v => (*v)->Object_0));
                    assert(decreases_to!(obj => obj@));
                    assert(decreases_to!(obj@ => entry));
                    assert(decreases_to!(entry => entry.1));
                }
                let k = string_copy(&o[i].0);
                let c = json_clone(&o[i].1);
                out.push((k, c));
                i += 1;
            }
            proof {
                lemma_entries_spec(o@, o@.len() as int);
                lemma_entries_spec(out@, out@.len() as int);
                assert(entries_view(out@) =~= entries_view(o@));
            }
            JsonValue::Object(out)
        },
    }
}

} // verus!
