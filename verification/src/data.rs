//! Conversions between structured-data formats. Every format is read into,
//! and written from, a [`JsonValue`]; XML and CSV are handled here, JSON,
//! YAML and TOML by their serde codecs around the library.
use vstd::prelude::*;
use crate::json::{
    entries_view, items_view, json_compact, lemma_entries_spec, lemma_items_spec, map_get,
    map_insert, obj_get, obj_insert, push_json, JsonSpec, JsonValue,
};
use crate::text::{chars_of, eq_chars, is_lit, join, push_all, push_str, string_of};
use crate::xml::{value_to_xml, xml_escape, xml_escape_exec, xml_to_value, XmlError};

verus! {

// ── CSV through the `csv` crate ──────────────────────────────────────────────

pub open spec fn rows_view(r: Seq<Vec<String>>) -> Seq<Seq<Seq<char>>> {
    r.map_values(|row: Vec<String>| row@.map_values(|f: String| f@))
}

/// The records `csv::Reader` reads from a text (flexible record lengths,
/// no header row set apart), or the text of its error.
pub uninterp spec fn csv_parse(raw: Seq<char>) -> Result<Seq<Seq<Seq<char>>>, Seq<char>>;

/// The text `csv::Writer` produces for these records, or its error.
pub uninterp spec fn csv_encode(rows: Seq<Seq<Seq<char>>>) -> Result<Seq<char>, Seq<char>>;

/// Reads every record of `raw` with a flexible `csv::Reader` that sets no
/// header row apart. What it returns is a function of the text alone.
#[verifier::external_body]
fn read_csv_records(raw: &str) -> (r: Result<Vec<Vec<String>>, String>)
    ensures
        match r {
            Ok(v) => csv_parse(raw@) == Ok::<Seq<Seq<Seq<char>>>, Seq<char>>(rows_view(v@)),
            Err(e) => csv_parse(raw@) == Err::<Seq<Seq<Seq<char>>>, Seq<char>>(e@),
        },
{
    let mut reader = csv::ReaderBuilder::new().flexible(true).has_headers(false).from_reader(raw.as_bytes());
    let mut rows = Vec::new();
    for record in reader.records() {
        rows.push(record.map_err(|e| e.to_string())?.iter().map(|f| f.to_string()).collect());
    }
    Ok(rows)
}

/// Writes the records with a default `csv::Writer` into memory and returns
/// the text. What it returns is a function of the records alone.
#[verifier::external_body]
fn write_csv_records(rows: &Vec<Vec<String>>) -> (r: Result<String, String>)
    ensures
        match r {
            Ok(s) => csv_encode(rows_view(rows@)) == Ok::<Seq<char>, Seq<char>>(s@),
            Err(e) => csv_encode(rows_view(rows@)) == Err::<Seq<char>, Seq<char>>(e@),
        },
{
    let mut writer = csv::Writer::from_writer(Vec::new());
    for row in rows {
        writer.write_record(row).map_err(|e| e.to_string())?;
    }
    let bytes = writer.into_inner().map_err(|e| e.to_string())?;
    String::from_utf8(bytes).map_err(|e| e.to_string())
}

/// Why a data conversion failed.
#[derive(Debug)]
pub enum DataError {
    UnsupportedInput(String),
    UnsupportedOutput(String),
    Xml(XmlError),
    /// The CSV reader's message.
    Csv(String),
    /// CSV output needs an array at the top.
    CsvNotArray,
    /// The CSV writer's message.
    CsvEncode(String),
    /// The JSON → CSV route needs an array at the top.
    JsonNotArray,
}

fn prefixed(head: &str, m: &String) -> (r: String)
    ensures
        r@ == head@ + m@,
{
    let mut out = chars_of(head);
    push_str(&mut out, m.as_str());
    string_of(out.as_slice())
}

impl DataError {
    /// The message shown for the error.
    pub fn message(&self) -> (r: String)
        ensures
            r@ == match *self {
                DataError::UnsupportedInput(x) => "Format d'entrée data non supporté: "@ + x@,
                DataError::UnsupportedOutput(x) => "Format de sortie data non supporté: "@ + x@,
                DataError::Xml(XmlError::Malformed(m)) => "XML invalide: "@ + m@,
                DataError::Xml(XmlError::NoRoot) => "XML vide ou sans élément racine"@,
                DataError::Csv(m) => "CSV invalide: "@ + m@,
                DataError::CsvNotArray => "CSV attend un tableau d'objets au sommet"@,
                DataError::CsvEncode(m) => "CSV encode: "@ + m@,
                DataError::JsonNotArray => "JSON doit être un tableau d'objets"@,
            },
    {
        match self {
            DataError::UnsupportedInput(x) => prefixed("Format d'entrée data non supporté: ", x),
            DataError::UnsupportedOutput(x) => prefixed("Format de sortie data non supporté: ", x),
            DataError::Xml(XmlError::Malformed(m)) => prefixed("XML invalide: ", m),
            DataError::Xml(XmlError::NoRoot) => String::from_str("XML vide ou sans élément racine"),
            DataError::Csv(m) => prefixed("CSV invalide: ", m),
            DataError::CsvNotArray => String::from_str("CSV attend un tableau d'objets au sommet"),
            DataError::CsvEncode(m) => prefixed("CSV encode: ", m),
            DataError::JsonNotArray => String::from_str("JSON doit être un tableau d'objets"),
        }
    }
}

// ── CSV → value ──────────────────────────────────────────────────────────────

/// `col1`, `col2`, …: the key of a field past the header row's end.
pub open spec fn col_key(i: nat) -> Seq<char> {
    "col"@ + crate::text::dec_str(i + 1)
}

/// Keys of the fields of `rec`: the header, or `col{i+1}` past its end.
pub open spec fn record_entries(headers: Seq<Seq<char>>, rec: Seq<Seq<char>>, n: int) -> Seq<
    (Seq<char>, JsonSpec),
>
    decreases n,
{
    if n <= 0 || n > rec.len() {
        seq![]
    } else {
        let i = n - 1;
        let key = if i < headers.len() {
            headers[i]
        } else {
            col_key(i as nat)
        };
        map_insert(record_entries(headers, rec, n - 1), key, JsonSpec::Str(rec[i]))
    }
}

/// A CSV text as an array of objects keyed by the first record.
pub open spec fn csv_value(rows: Seq<Seq<Seq<char>>>) -> JsonSpec {
    let headers = if rows.len() > 0 {
        rows[0]
    } else {
        seq![]
    };
    let recs = if rows.len() > 0 {
        rows.skip(1)
    } else {
        seq![]
    };
    JsonSpec::Array(
        recs.map_values(|r: Seq<Seq<char>>| JsonSpec::Object(record_entries(headers, r, r.len() as int))),
    )
}

fn col_key_exec(i: usize) -> (r: String)
    requires
        i < u64::MAX,
    ensures
        r@ == col_key(i as nat),
{
    let mut k = chars_of("col");
    let d = crate::text::dec_string(i as u64 + 1);
    push_all(&mut k, d.as_slice());
    string_of(k.as_slice())
}

fn record_object(headers: &Vec<String>, rec: &Vec<String>) -> (m: Vec<(String, JsonValue)>)
    ensures
        entries_view(m@) == record_entries(
            headers@.map_values(|f: String| f@),
            rec@.map_values(|f: String| f@),
            rec@.len() as int,
        ),
{
    let ghost hv = headers@.map_values(|f: String| f@);
    let ghost rv = rec@.map_values(|f: String| f@);
    let mut m: Vec<(String, JsonValue)> = Vec::new();
    let mut i: usize = 0;
    while i < rec.len()
        invariant
            i <= rec.len(),
            hv == headers@.map_values(|f: String| f@),
            rv == rec@.map_values(|f: String| f@),
            entries_view(m@) == record_entries(hv, rv, i as int),
        decreases rec.len() - i,
    {
        let key = if i < headers.len() {
            headers[i].clone()
        } else {
            col_key_exec(i)
        };
        obj_insert(&mut m, key, JsonValue::Str(rec[i].clone()));
        i += 1;
    }
    m
}

/// CSV text as values: one object per record after the first, keyed by the
/// first record's fields.
pub fn csv_to_value(raw: &str) -> (r: Result<JsonValue, DataError>)
    ensures
        match csv_parse(raw@) {
            Ok(rows) => r matches Ok(v) && v.spec_of() == csv_value(rows),
            Err(e) => r matches Err(DataError::Csv(m)) && m@ == e,
        },
{
    let rows = match read_csv_records(raw) {
        Ok(rows) => rows,
        Err(e) => {
            return Err(DataError::Csv(e));
        },
    };
    let ghost rsv = rows_view(rows@);
    let empty: Vec<String> = Vec::new();
    let headers = if rows.len() > 0 {
        &rows[0]
    } else {
        &empty
    };
    let mut out: Vec<JsonValue> = Vec::new();
    let mut i: usize = 1;
    while i < rows.len()
        invariant
            1 <= i <= rows.len() || (rows.len() == 0 && i == 1),
            out@.len() == i - 1,
            rsv == rows_view(rows@),
            headers@.map_values(|f: String| f@) == (if rows.len() > 0 { rsv[0] } else { seq![] }),
            forall|j: int|
                0 <= j < out@.len() ==> #[trigger] out@[j].spec_of() == JsonSpec::Object(
                    record_entries(
                        headers@.map_values(|f: String| f@),
                        rsv[j + 1],
                        rsv[j + 1].len() as int,
                    ),
                ),
        decreases rows.len() - i,
    {
        let m = record_object(headers, &rows[i]);
        proof {
            assert(rsv[i as int] =~= rows@[i as int]@.map_values(|f: String| f@));
        }
        out.push(JsonValue::Object(m));
        i += 1;
    }
    proof {
        lemma_items_spec(out@, out@.len() as int);
        if rows.len() > 0 {
            assert(headers@.map_values(|f: String| f@) =~= rsv[0]);
        } else {
            assert(headers@.map_values(|f: String| f@) =~= Seq::<Seq<char>>::empty());
        }
        let hv = if rsv.len() > 0 { rsv[0] } else { seq![] };
        let recs = if rsv.len() > 0 { rsv.skip(1) } else { seq![] };
        assert(items_view(out@) =~= recs.map_values(
            |r: Seq<Seq<char>>| JsonSpec::Object(record_entries(hv, r, r.len() as int)),
        ));
    }
    Ok(JsonValue::Array(out))
}

// ── value → CSV ──────────────────────────────────────────────────────────────

/// Keys of `m`'s first `n` entries added, in order, to those not yet in `acc`.
pub open spec fn add_keys(acc: Seq<Seq<char>>, m: Seq<(Seq<char>, JsonSpec)>, n: int) -> Seq<Seq<char>>
    decreases n,
{
    if n <= 0 || n > m.len() {
        acc
    } else {
        let a = add_keys(acc, m, n - 1);
        if a.contains(m[n - 1].0) {
            a
        } else {
            a.push(m[n - 1].0)
        }
    }
}

/// Keys of all object records, each once, in order of first appearance.
pub open spec fn key_union(recs: Seq<JsonSpec>) -> Seq<Seq<char>>
    decreases recs.len(),
{
    if recs.len() == 0 {
        seq![]
    } else {
        let a = key_union(recs.drop_last());
        match recs.last() {
            JsonSpec::Object(m) => add_keys(a, m, m.len() as int),
            _ => a,
        }
    }
}

/// `v` is an object with an entry under key `k`.
pub open spec fn has_key(v: JsonSpec, k: Seq<char>) -> bool {
    match v {
        JsonSpec::Object(m) => exists|j: int| 0 <= j < m.len() && m[j].0 == k,
        _ => false,
    }
}

/// `k` is the key of some entry of some object record.
pub open spec fn record_key(recs: Seq<JsonSpec>, k: Seq<char>) -> bool {
    exists|i: int| 0 <= i < recs.len() && has_key(#[trigger] recs[i], k)
}

proof fn lemma_add_keys(acc: Seq<Seq<char>>, m: Seq<(Seq<char>, JsonSpec)>, n: int)
    requires
        0 <= n <= m.len(),
        acc.no_duplicates(),
    ensures
        add_keys(acc, m, n).no_duplicates(),
        add_keys(acc, m, n).take(acc.len() as int) == acc,
        acc.len() <= add_keys(acc, m, n).len(),
        forall|k: Seq<char>| #[trigger] add_keys(acc, m, n).contains(k) <==> (acc.contains(k) || exists|j: int|
            0 <= j < n && m[j].0 == k),
    decreases n,
{
    if n > 0 {
        lemma_add_keys(acc, m, n - 1);
        let a = add_keys(acc, m, n - 1);
        if !a.contains(m[n - 1].0) {
            let b = a.push(m[n - 1].0);
            assert forall|x: int, y: int| 0 <= x < b.len() && 0 <= y < b.len() && x != y implies b[x] != b[y] by {
                if x == a.len() as int {
                    assert(a.contains(b[y]));
                } else if y == a.len() as int {
                    assert(a.contains(b[x]));
                }
            }
            assert(b.take(acc.len() as int) =~= a.take(acc.len() as int));
        }
        let x = m[n - 1].0;
        let r = add_keys(acc, m, n);
        assert forall|k: Seq<char>| #[trigger] r.contains(k) <==> (acc.contains(k) || exists|j: int|
            0 <= j < n && m[j].0 == k) by {
            let old_has = exists|j: int| 0 <= j < n - 1 && m[j].0 == k;
            if r.contains(k) {
                if a.contains(k) {
                    if !acc.contains(k) {
                        assert(old_has);
                        let j = choose|j: int| 0 <= j < n - 1 && m[j].0 == k;
                        assert(0 <= j < n && m[j].0 == k);
                    }
                } else {
                    assert(!a.contains(x));
                    let p = choose|p: int| 0 <= p < r.len() && r[p] == k;
                    assert(r == a.push(x));
                    if p < a.len() {
                        assert(a[p] == k);
                        assert(a.contains(k));
                    }
                    assert(k == x);
                    assert(0 <= n - 1 < n && m[n - 1].0 == k);
                }
            }
            if acc.contains(k) || exists|j: int| 0 <= j < n && m[j].0 == k {
                if acc.contains(k) || old_has {
                    assert(a.contains(k));
                    let p = choose|p: int| 0 <= p < a.len() && a[p] == k;
                    if !a.contains(x) {
                        assert(a.push(x)[p] == k);
                    }
                    assert(r.contains(k));
                } else {
                    let j = choose|j: int| 0 <= j < n && m[j].0 == k;
                    if j < n - 1 {
                        assert(old_has);
                    }
                    assert(k == x);
                    if !a.contains(x) {
                        assert(a.push(x)[a.len() as int] == k);
                    }
                    assert(r.contains(k));
                }
            }
        }
    } else {
        assert(acc.take(acc.len() as int) =~= acc);
    }
}

/// The CSV header of a set of records: each key of the object records
/// appears in it exactly once, it holds no other key, and the keys of the
/// earlier records come first, in the same order.
pub proof fn lemma_key_union(recs: Seq<JsonSpec>)
    ensures
        key_union(recs).no_duplicates(),
        forall|k: Seq<char>| #[trigger] key_union(recs).contains(k) <==> record_key(recs, k),
        recs.len() > 0 ==> key_union(recs).take(key_union(recs.drop_last()).len() as int) == key_union(
            recs.drop_last(),
        ),
    decreases recs.len(),
{
    if recs.len() > 0 {
        let d = recs.drop_last();
        lemma_key_union(d);
        let a = key_union(d);
        match recs.last() {
            JsonSpec::Object(m) => {
                lemma_add_keys(a, m, m.len() as int);
            },
            _ => {
                assert(a.take(a.len() as int) =~= a);
            },
        }
        assert forall|k: Seq<char>| #[trigger] key_union(recs).contains(k) <==> record_key(recs, k) by {
            if record_key(d, k) {
                let i = choose|i: int| 0 <= i < d.len() && has_key(#[trigger] d[i], k);
                assert(recs[i] == d[i]);
            }
            if record_key(recs, k) {
                let i = choose|i: int| 0 <= i < recs.len() && has_key(#[trigger] recs[i], k);
                if i < d.len() {
                    assert(d[i] == recs[i]);
                } else {
                    assert(recs[i] == recs.last());
                }
            }
            assert(recs[recs.len() - 1] == recs.last());
        }
    }
}

/// A field's text: strings as they are, `null` empty, the rest as JSON.
pub open spec fn scalar_string(v: JsonSpec) -> Seq<char> {
    match v {
        JsonSpec::Str(s) => s,
        JsonSpec::Null => seq![],
        _ => json_compact(v),
    }
}

pub open spec fn csv_row(m: Seq<(Seq<char>, JsonSpec)>, headers: Seq<Seq<char>>) -> Seq<Seq<char>> {
    headers.map_values(|h: Seq<char>| match map_get(m, h) {
        Some(v) => scalar_string(v),
        None => seq![],
    })
}

/// Rows of the object records, in order (other records are left out).
pub open spec fn csv_body(recs: Seq<JsonSpec>, headers: Seq<Seq<char>>) -> Seq<Seq<Seq<char>>>
    decreases recs.len(),
{
    if recs.len() == 0 {
        seq![]
    } else {
        let b = csv_body(recs.drop_last(), headers);
        match recs.last() {
            JsonSpec::Object(m) => b.push(csv_row(m, headers)),
            _ => b,
        }
    }
}

/// The records written for an array: the key union, then one row per object.
pub open spec fn csv_table(recs: Seq<JsonSpec>) -> Seq<Seq<Seq<char>>> {
    seq![key_union(recs)] + csv_body(recs, key_union(recs))
}

pub open spec fn strings_view(v: Seq<String>) -> Seq<Seq<char>> {
    v.map_values(|f: String| f@)
}

fn contains_key(v: &Vec<String>, k: &String) -> (b: bool)
    ensures
        b == strings_view(v@).contains(k@),
{
    let kc = chars_of(k.as_str());
    let mut i: usize = 0;
    while i < v.len()
        invariant
            i <= v.len(),
            kc@ == k@,
            forall|j: int| 0 <= j < i ==> v@[j]@ != k@,
        decreases v.len() - i,
    {
        if eq_chars(chars_of(v[i].as_str()).as_slice(), kc.as_slice()) {
            assert(strings_view(v@)[i as int] == k@);
            return true;
        }
        i += 1;
    }
    false
}

fn copy_strings(v: &Vec<String>) -> (r: Vec<String>)
    ensures
        strings_view(r@) == strings_view(v@),
{
    let mut r: Vec<String> = Vec::new();
    let mut i: usize = 0;
    while i < v.len()
        invariant
            i <= v.len(),
            r@.len() == i,
            forall|j: int| 0 <= j < i ==> #[trigger] r@[j]@ == v@[j]@,
        decreases v.len() - i,
    {
        r.push(v[i].clone());
        i += 1;
    }
    assert(strings_view(r@) =~= strings_view(v@));
    r
}

fn scalar_string_exec(v: &JsonValue) -> (r: String)
    ensures
        r@ == scalar_string(v.spec_of()),
{
    match v {
        JsonValue::Str(s) => s.clone(),
        JsonValue::Null => String::new(),
        _ => {
            let mut t: Vec<char> = Vec::new();
            push_json(&mut t, v);
            assert(t@ =~= json_compact(v.spec_of()));
            string_of(t.as_slice())
        },
    }
}

fn csv_headers(recs: &Vec<JsonValue>) -> (h: Vec<String>)
    ensures
        strings_view(h@) == key_union(items_view(recs@)),
{
    proof {
        lemma_items_spec(recs@, recs@.len() as int);
    }
    let ghost iv = items_view(recs@);
    let mut h: Vec<String> = Vec::new();
    let mut i: usize = 0;
    while i < recs.len()
        invariant
            i <= recs.len(),
            iv == items_view(recs@),
            iv.len() == recs@.len(),
            forall|j: int| 0 <= j < recs@.len() ==> #[trigger] iv[j] == recs@[j].spec_of(),
            strings_view(h@) == key_union(iv.take(i as int)),
        decreases recs.len() - i,
    {
        assert(iv.take(i + 1).drop_last() =~= iv.take(i as int));
        match &recs[i] {
            JsonValue::Object(m) => {
                let ghost ev = entries_view(m@);
                let ghost base = strings_view(h@);
                proof {
                    lemma_entries_spec(m@, m@.len() as int);
                }
                let mut k: usize = 0;
                while k < m.len()
                    invariant
                        k <= m.len(),
                        ev == entries_view(m@),
                        ev.len() == m@.len(),
                        forall|j: int| 0 <= j < m@.len() ==> #[trigger] ev[j] == (m@[j].0@, m@[j].1.spec_of()),
                        strings_view(h@) == add_keys(base, ev, k as int),
                    decreases m.len() - k,
                {
                    if !contains_key(&h, &m[k].0) {
                        let ghost before = h@;
                        h.push(m[k].0.clone());
                        assert(strings_view(h@) =~= strings_view(before).push(m@[k as int].0@));
                    }
                    k += 1;
                }
            },
            _ => {},
        }
        i += 1;
    }
    assert(iv.take(i as int) =~= iv);
    h
}

fn csv_row_exec(m: &Vec<(String, JsonValue)>, headers: &Vec<String>) -> (r: Vec<String>)
    ensures
        strings_view(r@) == csv_row(entries_view(m@), strings_view(headers@)),
{
    let mut r: Vec<String> = Vec::new();
    let mut i: usize = 0;
    while i < headers.len()
        invariant
            i <= headers.len(),
            r@.len() == i,
            forall|j: int| 0 <= j < i ==> #[trigger] r@[j]@ == csv_row(entries_view(m@), strings_view(headers@))[j],
        decreases headers.len() - i,
    {
        let f = match obj_get(m, headers[i].as_str()) {
            Some(v) => scalar_string_exec(v),
            None => String::new(),
        };
        r.push(f);
        i += 1;
    }
    assert(strings_view(r@) =~= csv_row(entries_view(m@), strings_view(headers@)));
    r
}

/// CSV text of an array of objects: a header row of all keys (in order of
/// first appearance), then one row per object, missing fields empty; no
/// text at all when there is no key.
pub fn value_to_csv(v: &JsonValue) -> (r: Result<String, DataError>)
    ensures
        match v.spec_of() {
            JsonSpec::Array(recs) => if key_union(recs).len() == 0 {
                r matches Ok(s) && s@ == Seq::<char>::empty()
            } else {
                match csv_encode(csv_table(recs)) {
                    Ok(t) => r matches Ok(s) && s@ == t,
                    Err(e) => r matches Err(DataError::CsvEncode(m)) && m@ == e,
                }
            },
            _ => r matches Err(DataError::CsvNotArray),
        },
{
    let recs = match v {
        JsonValue::Array(a) => a,
        _ => {
            return Err(DataError::CsvNotArray);
        },
    };
    proof {
        lemma_items_spec(recs@, recs@.len() as int);
    }
    let ghost iv = items_view(recs@);
    let headers = csv_headers(recs);
    if headers.len() == 0 {
        return Ok(String::new());
    }
    let ghost hv = strings_view(headers@);
    let mut rows: Vec<Vec<String>> = Vec::new();
    rows.push(copy_strings(&headers));
    let mut i: usize = 0;
    assert(rows_view(rows@) =~= seq![hv] + csv_body(iv.take(0), hv));
    while i < recs.len()
        invariant
            i <= recs.len(),
            iv == items_view(recs@),
            iv.len() == recs@.len(),
            forall|j: int| 0 <= j < recs@.len() ==> #[trigger] iv[j] == recs@[j].spec_of(),
            hv == strings_view(headers@),
            rows_view(rows@) == seq![hv] + csv_body(iv.take(i as int), hv),
        decreases recs.len() - i,
    {
        assert(iv.take(i + 1).drop_last() =~= iv.take(i as int));
        match &recs[i] {
            JsonValue::Object(m) => {
                let row = csv_row_exec(m, &headers);
                let ghost before = rows@;
                rows.push(row);
                assert(rows_view(rows@) =~= rows_view(before).push(csv_row(entries_view(m@), hv)));
            },
            _ => {},
        }
        i += 1;
    }
    assert(iv.take(i as int) =~= iv);
    match write_csv_records(&rows) {
        Ok(s) => Ok(s),
        Err(e) => Err(DataError::CsvEncode(e)),
    }
}

// ── JSON → CSV ───────────────────────────────────────────────────────────────

/// A cell of the JSON → CSV route: a string as it is, another value as its
/// compact JSON text, a missing field empty.
pub open spec fn json_cell(v: Option<JsonSpec>) -> Seq<char> {
    match v {
        Some(JsonSpec::Str(s)) => s,
        Some(o) => json_compact(o),
        None => seq![],
    }
}

pub open spec fn json_row(m: Seq<(Seq<char>, JsonSpec)>, headers: Seq<Seq<char>>) -> Seq<Seq<char>> {
    headers.map_values(|h: Seq<char>| json_cell(map_get(m, h)))
}

/// Rows of the object records, in order (other records are left out).
pub open spec fn json_body(recs: Seq<JsonSpec>, headers: Seq<Seq<char>>) -> Seq<Seq<Seq<char>>>
    decreases recs.len(),
{
    if recs.len() == 0 {
        seq![]
    } else {
        let b = json_body(recs.drop_last(), headers);
        match recs.last() {
            JsonSpec::Object(m) => b.push(json_row(m, headers)),
            _ => b,
        }
    }
}

/// The keys of the first record when it is an object, in its order.
pub open spec fn first_keys(recs: Seq<JsonSpec>) -> Seq<Seq<char>> {
    match recs[0] {
        JsonSpec::Object(m) => m.map_values(|e: (Seq<char>, JsonSpec)| e.0),
        _ => seq![],
    }
}

/// How many records are objects.
pub open spec fn object_count(recs: Seq<JsonSpec>) -> nat
    decreases recs.len(),
{
    if recs.len() == 0 {
        0
    } else {
        object_count(recs.drop_last()) + if recs.last() is Object {
            1nat
        } else {
            0nat
        }
    }
}

/// `n` line breaks.
pub open spec fn newlines(n: nat) -> Seq<char> {
    Seq::new(n, |i: int| '\n')
}

/// CSV text of a JSON array of records for the JSON → CSV route: nothing
/// for no record; else a header row of the first record's keys, then one
/// row per object record (strings as they are, other values as JSON, a
/// missing field empty); with no key at all, one empty line per row.
pub fn json_to_csv(v: &JsonValue) -> (r: Result<String, DataError>)
    ensures
        match v.spec_of() {
            JsonSpec::Array(recs) => if recs.len() == 0 {
                r matches Ok(s) && s@ == Seq::<char>::empty()
            } else if first_keys(recs).len() == 0 {
                r matches Ok(s) && s@ == newlines(1 + object_count(recs))
            } else {
                match csv_encode(seq![first_keys(recs)] + json_body(recs, first_keys(recs))) {
                    Ok(t) => r matches Ok(s) && s@ == t,
                    Err(e) => r matches Err(DataError::CsvEncode(m)) && m@ == e,
                }
            },
            _ => r matches Err(DataError::JsonNotArray),
        },
{
    let recs = match v {
        JsonValue::Array(a) => a,
        _ => {
            return Err(DataError::JsonNotArray);
        },
    };
    proof {
        lemma_items_spec(recs@, recs@.len() as int);
    }
    let ghost iv = items_view(recs@);
    if recs.len() == 0 {
        return Ok(String::new());
    }
    let mut headers: Vec<String> = Vec::new();
    match &recs[0] {
        JsonValue::Object(m) => {
            proof {
                lemma_entries_spec(m@, m@.len() as int);
            }
            let mut k: usize = 0;
            while k < m.len()
                invariant
                    k <= m.len(),
                    entries_view(m@).len() == m@.len(),
                    forall|j: int| 0 <= j < m@.len() ==> #[trigger] entries_view(m@)[j] == (m@[j].0@, m@[j].1.spec_of()),
                    headers@.len() == k,
                    forall|j: int| 0 <= j < k ==> #[trigger] headers@[j]@ == m@[j].0@,
                decreases m.len() - k,
            {
                headers.push(m[k].0.clone());
                k += 1;
            }
            assert(strings_view(headers@) =~= first_keys(iv));
        },
        _ => {
            assert(strings_view(headers@) =~= first_keys(iv));
        },
    }
    let ghost hv = strings_view(headers@);
    if headers.len() == 0 {
        let mut out: Vec<char> = Vec::new();
        out.push('\n');
        let mut i: usize = 0;
        assert(iv.take(0) =~= Seq::<JsonSpec>::empty());
        while i < recs.len()
            invariant
                i <= recs.len(),
                iv == items_view(recs@),
                iv.len() == recs@.len(),
                forall|j: int| 0 <= j < recs@.len() ==> #[trigger] iv[j] == recs@[j].spec_of(),
                out@ == newlines(1 + object_count(iv.take(i as int))),
            decreases recs.len() - i,
        {
            assert(iv.take(i + 1).drop_last() =~= iv.take(i as int));
            match &recs[i] {
                JsonValue::Object(_) => {
                    out.push('\n');
                    assert(out@ =~= newlines(1 + object_count(iv.take(i + 1))));
                },
                _ => {},
            }
            i += 1;
        }
        assert(iv.take(i as int) =~= iv);
        return Ok(string_of(out.as_slice()));
    }
    let mut rows: Vec<Vec<String>> = Vec::new();
    rows.push(copy_strings(&headers));
    let mut i: usize = 0;
    assert(rows_view(rows@) =~= seq![hv] + json_body(iv.take(0), hv));
    while i < recs.len()
        invariant
            i <= recs.len(),
            iv == items_view(recs@),
            iv.len() == recs@.len(),
            forall|j: int| 0 <= j < recs@.len() ==> #[trigger] iv[j] == recs@[j].spec_of(),
            hv == strings_view(headers@),
            rows_view(rows@) == seq![hv] + json_body(iv.take(i as int), hv),
        decreases recs.len() - i,
    {
        assert(iv.take(i + 1).drop_last() =~= iv.take(i as int));
        match &recs[i] {
            JsonValue::Object(m) => {
                let row = json_row_exec(m, &headers);
                let ghost before = rows@;
                rows.push(row);
                assert(rows_view(rows@) =~= rows_view(before).push(json_row(entries_view(m@), hv)));
            },
            _ => {},
        }
        i += 1;
    }
    assert(iv.take(i as int) =~= iv);
    match write_csv_records(&rows) {
        Ok(s) => Ok(s),
        Err(e) => Err(DataError::CsvEncode(e)),
    }
}

fn json_row_exec(m: &Vec<(String, JsonValue)>, headers: &Vec<String>) -> (r: Vec<String>)
    ensures
        strings_view(r@) == json_row(entries_view(m@), strings_view(headers@)),
{
    let mut r: Vec<String> = Vec::new();
    let mut i: usize = 0;
    while i < headers.len()
        invariant
            i <= headers.len(),
            r@.len() == i,
            forall|j: int| 0 <= j < i ==> #[trigger] r@[j]@ == json_row(entries_view(m@), strings_view(headers@))[j],
        decreases headers.len() - i,
    {
        let f = match obj_get(m, headers[i].as_str()) {
            Some(JsonValue::Str(s)) => s.clone(),
            Some(v) => {
                let mut t: Vec<char> = Vec::new();
                push_json(&mut t, v);
                string_of(t.as_slice())
            },
            None => String::new(),
        };
        r.push(f);
        i += 1;
    }
    assert(strings_view(r@) =~= json_row(entries_view(m@), strings_view(headers@)));
    r
}

// ── CSV → tables ─────────────────────────────────────────────────────────────

/// A Markdown cell: `|` escaped, line breaks as spaces.
pub open spec fn md_cell(s: Seq<char>) -> Seq<char>
    decreases s.len(),
{
    if s.len() == 0 {
        seq![]
    } else {
        md_cell(s.drop_last()) + if s.last() == '|' {
            "\\|"@
        } else if s.last() == '\n' {
            " "@
        } else {
            seq![s.last()]
        }
    }
}

pub open spec fn md_line(row: Seq<Seq<char>>) -> Seq<char> {
    "| "@ + join(row.map_values(|c: Seq<char>| md_cell(c)), " | "@) + " |\n"@
}

pub open spec fn md_rule(n: nat) -> Seq<char>
    decreases n,
{
    if n == 0 {
        seq![]
    } else {
        md_rule((n - 1) as nat) + " --- |"@
    }
}

pub open spec fn md_lines(rows: Seq<Seq<Seq<char>>>, n: int) -> Seq<char>
    decreases n,
{
    if n <= 1 || n > rows.len() {
        seq![]
    } else {
        md_lines(rows, n - 1) + md_line(rows[n - 1])
    }
}

/// A Markdown table: the first record as header, a rule, the other records.
pub open spec fn md_table(rows: Seq<Seq<Seq<char>>>) -> Seq<char> {
    if rows.len() == 0 {
        seq![]
    } else {
        md_line(rows[0]) + "|"@ + md_rule(rows[0].len()) + "\n"@ + md_lines(rows, rows.len() as int)
    }
}

pub open spec fn html_row(row: Seq<Seq<char>>, tag: Seq<char>, n: int) -> Seq<char>
    decreases n,
{
    if n <= 0 || n > row.len() {
        seq![]
    } else {
        html_row(row, tag, n - 1) + "<"@ + tag + ">"@ + xml_escape(row[n - 1]) + "</"@ + tag + ">"@
    }
}

pub open spec fn html_rows(rows: Seq<Seq<Seq<char>>>, n: int) -> Seq<char>
    decreases n,
{
    if n <= 0 || n > rows.len() {
        seq![]
    } else {
        let tag = if n == 1 {
            "th"@
        } else {
            "td"@
        };
        html_rows(rows, n - 1) + "<tr>"@ + html_row(rows[n - 1], tag, rows[n - 1].len() as int)
            + "</tr>\n"@
    }
}

pub open spec fn html_table_head() -> Seq<char> {
    "<!DOCTYPE html>\n<html><head><meta charset=\"utf-8\"><style>table{border-collapse:collapse}td,th{border:1px solid #999;padding:4px 8px}</style></head><body>\n<table>\n"@
}

/// An HTML page with one table: header cells for the first record.
pub open spec fn html_table(rows: Seq<Seq<Seq<char>>>) -> Seq<char> {
    html_table_head() + html_rows(rows, rows.len() as int) + "</table>\n</body></html>\n"@
}

fn md_cell_exec(s: &String) -> (r: Vec<char>)
    ensures
        r@ == md_cell(s@),
{
    let c = chars_of(s.as_str());
    let mut r: Vec<char> = Vec::new();
    let mut i: usize = 0;
    while i < c.len()
        invariant
            i <= c.len(),
            r@ == md_cell(c@.take(i as int)),
        decreases c.len() - i,
    {
        assert(c@.take(i + 1).drop_last() =~= c@.take(i as int));
        if c[i] == '|' {
            push_str(&mut r, "\\|");
        } else if c[i] == '\n' {
            push_str(&mut r, " ");
        } else {
            r.push(c[i]);
        }
        i += 1;
    }
    assert(c@.take(i as int) =~= c@);
    r
}

fn push_md_line(out: &mut Vec<char>, row: &Vec<String>)
    ensures
        final(out)@ == old(out)@ + md_line(strings_view(row@)),
{
    let mut cells: Vec<Vec<char>> = Vec::new();
    let mut i: usize = 0;
    while i < row.len()
        invariant
            i <= row.len(),
            cells@.len() == i,
            forall|j: int| 0 <= j < i ==> #[trigger] cells@[j]@ == md_cell(row@[j]@),
        decreases row.len() - i,
    {
        cells.push(md_cell_exec(&row[i]));
        i += 1;
    }
    let sep = chars_of(" | ");
    let joined = crate::text::join_exec(cells.as_slice(), sep.as_slice());
    assert(crate::text::views(cells@) =~= strings_view(row@).map_values(|c: Seq<char>| md_cell(c)));
    push_str(out, "| ");
    push_all(out, joined.as_slice());
    push_str(out, " |\n");
}

/// CSV text as a Markdown table (empty text for no record).
pub fn csv_to_markdown(raw: &str) -> (r: Result<String, DataError>)
    ensures
        match csv_parse(raw@) {
            Ok(rows) => r matches Ok(s) && s@ == md_table(rows),
            Err(e) => r matches Err(DataError::Csv(m)) && m@ == e,
        },
{
    let rows = match read_csv_records(raw) {
        Ok(rows) => rows,
        Err(e) => {
            return Err(DataError::Csv(e));
        },
    };
    let ghost rv = rows_view(rows@);
    let mut out: Vec<char> = Vec::new();
    if rows.len() == 0 {
        return Ok(String::new());
    }
    assert(rv[0] == strings_view(rows@[0]@));
    push_md_line(&mut out, &rows[0]);
    push_str(&mut out, "|");
    let mut k: usize = 0;
    let ghost head = out@;
    while k < rows[0].len()
        invariant
            k <= rows@[0]@.len(),
            rows@.len() > 0,
            out@ == head + md_rule(k as nat),
        decreases rows@[0]@.len() - k,
    {
        push_str(&mut out, " --- |");
        k += 1;
    }
    push_str(&mut out, "\n");
    let ghost body = out@;
    let mut i: usize = 1;
    while i < rows.len()
        invariant
            1 <= i <= rows.len(),
            rv == rows_view(rows@),
            out@ == body + md_lines(rv, i as int),
        decreases rows.len() - i,
    {
        assert(rv[i as int] == strings_view(rows@[i as int]@));
        push_md_line(&mut out, &rows[i]);
        i += 1;
    }
    assert(out@ =~= md_table(rv));
    Ok(string_of(out.as_slice()))
}

/// CSV text as an HTML page holding one table.
pub fn csv_to_html_table(raw: &str) -> (r: Result<String, DataError>)
    ensures
        match csv_parse(raw@) {
            Ok(rows) => r matches Ok(s) && s@ == html_table(rows),
            Err(e) => r matches Err(DataError::Csv(m)) && m@ == e,
        },
{
    let rows = match read_csv_records(raw) {
        Ok(rows) => rows,
        Err(e) => {
            return Err(DataError::Csv(e));
        },
    };
    let ghost rv = rows_view(rows@);
    let mut out = chars_of(
        "<!DOCTYPE html>\n<html><head><meta charset=\"utf-8\"><style>table{border-collapse:collapse}td,th{border:1px solid #999;padding:4px 8px}</style></head><body>\n<table>\n",
    );
    let ghost head = out@;
    let mut i: usize = 0;
    while i < rows.len()
        invariant
            i <= rows.len(),
            rv == rows_view(rows@),
            out@ == head + html_rows(rv, i as int),
        decreases rows.len() - i,
    {
        let tag = if i == 0 { "th" } else { "td" };
        push_str(&mut out, "<tr>");
        let ghost row_start = out@;
        let row = &rows[i];
        let ghost sv = strings_view(row@);
        assert(rv[i as int] == sv);
        let mut k: usize = 0;
        while k < row.len()
            invariant
                k <= row.len(),
                sv == strings_view(row@),
                tag@ == (if i == 0 { "th"@ } else { "td"@ }),
                out@ == row_start + html_row(sv, tag@, k as int),
            decreases row.len() - k,
        {
            push_str(&mut out, "<");
            push_str(&mut out, tag);
            push_str(&mut out, ">");
            let esc = xml_escape_exec(row[k].as_str());
            push_str(&mut out, esc.as_str());
            push_str(&mut out, "</");
            push_str(&mut out, tag);
            push_str(&mut out, ">");
            assert(out@ =~= row_start + html_row(sv, tag@, k + 1));
            k += 1;
        }
        push_str(&mut out, "</tr>\n");
        assert(out@ =~= head + html_rows(rv, i + 1));
        i += 1;
    }
    push_str(&mut out, "</table>\n</body></html>\n");
    Ok(string_of(out.as_slice()))
}

// ── Formats ──────────────────────────────────────────────────────────────────

/// A structured-data format.
#[derive(Debug, PartialEq, Eq, Structural, Clone, Copy)]
pub enum DataFormat {
    Json,
    Yaml,
    Toml,
    Xml,
    Csv,
    /// Plain text (pretty JSON).
    Txt,
}

pub open spec fn input_format_of(ext: Seq<char>) -> Option<DataFormat> {
    if ext == "json"@ {
        Some(DataFormat::Json)
    } else if ext == "yaml"@ || ext == "yml"@ {
        Some(DataFormat::Yaml)
    } else if ext == "toml"@ {
        Some(DataFormat::Toml)
    } else if ext == "xml"@ {
        Some(DataFormat::Xml)
    } else if ext == "csv"@ {
        Some(DataFormat::Csv)
    } else {
        None
    }
}

pub open spec fn output_format_of(fmt: Seq<char>) -> Option<DataFormat> {
    if fmt == "txt"@ {
        Some(DataFormat::Txt)
    } else {
        input_format_of(fmt)
    }
}

fn format_exec(e: &str, txt: bool) -> (r: Option<DataFormat>)
    ensures
        r == (if txt { output_format_of(e@) } else { input_format_of(e@) }),
{
    let c = chars_of(e);
    let c = c.as_slice();
    if txt && is_lit(c, "txt") {
        Some(DataFormat::Txt)
    } else if is_lit(c, "json") {
        Some(DataFormat::Json)
    } else if is_lit(c, "yaml") || is_lit(c, "yml") {
        Some(DataFormat::Yaml)
    } else if is_lit(c, "toml") {
        Some(DataFormat::Toml)
    } else if is_lit(c, "xml") {
        Some(DataFormat::Xml)
    } else if is_lit(c, "csv") {
        Some(DataFormat::Csv)
    } else {
        None
    }
}

/// How the text of a data file turns into a value.
#[derive(Debug)]
pub enum ValueRead {
    /// Read here.
    Value(JsonValue),
    /// Read by the serde codec of this format (JSON, YAML or TOML).
    Decode(DataFormat),
}

/// What becomes of a value when it is written.
#[derive(Debug)]
pub enum ValueWrite {
    /// The file's text, made here.
    Text(String),
    /// Written by the serde codec of this format: JSON (pretty) for `Json`
    /// and `Txt`, YAML, or TOML (pretty) of this value.
    Encode(DataFormat, JsonValue),
}

/// Reads data text in the format named by `ext`: XML and CSV are read
/// here, JSON, YAML and TOML are left to their codec; other extensions are
/// refused.
pub fn read_value(raw: &str, ext: &str) -> (r: Result<ValueRead, DataError>)
    ensures
        match input_format_of(ext@) {
            None => r matches Err(DataError::UnsupportedInput(e)) && e@ == ext@,
            Some(DataFormat::Xml) => match crate::xml::xml_tokens(raw@) {
                Err(e) => r matches Err(DataError::Xml(XmlError::Malformed(m))) && m@ == e,
                Ok(t) => match crate::xml::xml_value(t) {
                    Some(v) => r matches Ok(ValueRead::Value(x)) && x.spec_of() == v,
                    None => r matches Err(DataError::Xml(XmlError::NoRoot)),
                },
            },
            Some(DataFormat::Csv) => match csv_parse(raw@) {
                Ok(rows) => r matches Ok(ValueRead::Value(v)) && v.spec_of() == csv_value(rows),
                Err(e) => r matches Err(DataError::Csv(m)) && m@ == e,
            },
            Some(f) => r matches Ok(ValueRead::Decode(g)) && g == f,
        },
{
    match format_exec(ext, false) {
        None => Err(DataError::UnsupportedInput(ext.to_string())),
        Some(DataFormat::Xml) => match xml_to_value(raw) {
            Ok(v) => Ok(ValueRead::Value(v)),
            Err(e) => Err(DataError::Xml(e)),
        },
        Some(DataFormat::Csv) => match csv_to_value(raw) {
            Ok(v) => Ok(ValueRead::Value(v)),
            Err(e) => Err(e),
        },
        Some(f) => Ok(ValueRead::Decode(f)),
    }
}

/// The value TOML output is made from: an object as it is, anything else
/// under the key `items` (TOML needs a table at the top).
pub open spec fn toml_root(v: JsonSpec) -> JsonSpec {
    match v {
        JsonSpec::Object(_) => v,
        _ => JsonSpec::Object(seq![("items"@, v)]),
    }
}

/// What writing a value with this spec as `fmt` gives (see [`write_value`]).
pub open spec fn write_spec(fmt: Seq<char>, vs: JsonSpec, r: Result<ValueWrite, DataError>) -> bool {
    match output_format_of(fmt) {
        None => r matches Err(DataError::UnsupportedOutput(e)) && e@ == fmt,
        Some(DataFormat::Xml) => r matches Ok(ValueWrite::Text(s)) && s@
            == crate::xml::value_xml(vs),
        Some(DataFormat::Csv) => match vs {
            JsonSpec::Array(recs) => if key_union(recs).len() == 0 {
                r matches Ok(ValueWrite::Text(s)) && s@ == Seq::<char>::empty()
            } else {
                match csv_encode(csv_table(recs)) {
                    Ok(t) => r matches Ok(ValueWrite::Text(s)) && s@ == t,
                    Err(e) => r matches Err(DataError::CsvEncode(m)) && m@ == e,
                }
            },
            _ => r matches Err(DataError::CsvNotArray),
        },
        Some(DataFormat::Toml) => r matches Ok(ValueWrite::Encode(f, w)) && f == DataFormat::Toml
            && w.spec_of() == toml_root(vs),
        Some(f) => r matches Ok(ValueWrite::Encode(g, w)) && g == f && w.spec_of() == vs,
    }
}

/// Writes a value in the format named by `fmt`: XML and CSV text is made
/// here; JSON, YAML, TOML and plain text go to their codec, TOML with an
/// object at the top.
pub fn write_value(v: &JsonValue, fmt: &str) -> (r: Result<ValueWrite, DataError>)
    ensures
        write_spec(fmt@, v.spec_of(), r),
{
    match format_exec(fmt, true) {
        None => Err(DataError::UnsupportedOutput(fmt.to_string())),
        Some(DataFormat::Xml) => Ok(ValueWrite::Text(value_to_xml(v))),
        Some(DataFormat::Csv) => match value_to_csv(v) {
            Ok(s) => Ok(ValueWrite::Text(s)),
            Err(e) => Err(e),
        },
        Some(DataFormat::Toml) => {
            let w = match v {
                JsonValue::Object(_) => crate::json::json_clone(v),
                _ => {
                    let ghost vs = v.spec_of();
                    let mut o: Vec<(String, JsonValue)> = Vec::new();
                    o.push((String::from_str("items"), crate::json::json_clone(v)));
                    proof {
                        lemma_entries_spec(o@, 1);
                        assert(entries_view(o@) =~= seq![("items"@, vs)]);
                    }
                    JsonValue::Object(o)
                },
            };
            Ok(ValueWrite::Encode(DataFormat::Toml, w))
        },
        Some(f) => Ok(ValueWrite::Encode(f, crate::json::json_clone(v))),
    }
}

/// Where a data conversion stands after the part made here.
#[derive(Debug)]
pub enum Conversion {
    /// Read here, then written: see [`write_value`].
    Written(ValueWrite),
    /// The input's codec reads it; [`write_value`] then writes the value.
    Decode(DataFormat),
}

/// What a data conversion gives once a value `vs` was read here: the value
/// written as `fmt`, as [`write_spec`] says.
pub open spec fn written_spec(fmt: Seq<char>, vs: JsonSpec, r: Result<Conversion, DataError>) -> bool {
    match r {
        Ok(Conversion::Written(w)) => write_spec(fmt, vs, Ok(w)),
        Ok(Conversion::Decode(_)) => false,
        Err(e) => write_spec(fmt, vs, Err(e)),
    }
}

/// A data → data conversion: reads `raw` as `in_ext` ([`read_value`]) and,
/// when the value was read here, writes it as `fmt` ([`write_value`]); a
/// read error comes back as [`read_value`] gives it.
pub fn convert_data(raw: &str, in_ext: &str, fmt: &str) -> (r: Result<Conversion, DataError>)
    ensures
        match input_format_of(in_ext@) {
            None => r matches Err(DataError::UnsupportedInput(e)) && e@ == in_ext@,
            Some(DataFormat::Xml) => match crate::xml::xml_tokens(raw@) {
                Err(e) => r matches Err(DataError::Xml(XmlError::Malformed(m))) && m@ == e,
                Ok(t) => match crate::xml::xml_value(t) {
                    Some(vs) => written_spec(fmt@, vs, r),
                    None => r matches Err(DataError::Xml(XmlError::NoRoot)),
                },
            },
            Some(DataFormat::Csv) => match csv_parse(raw@) {
                Ok(rows) => written_spec(fmt@, csv_value(rows), r),
                Err(e) => r matches Err(DataError::Csv(m)) && m@ == e,
            },
            Some(f) => r matches Ok(Conversion::Decode(g)) && g == f,
        },
{
    match read_value(raw, in_ext) {
        Err(e) => Err(e),
        Ok(ValueRead::Decode(f)) => Ok(Conversion::Decode(f)),
        Ok(ValueRead::Value(v)) => match write_value(&v, fmt) {
            Ok(w) => Ok(Conversion::Written(w)),
            Err(e) => Err(e),
        },
    }
}

} // verus!
