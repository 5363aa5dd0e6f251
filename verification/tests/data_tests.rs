use universal_converter::data::{
    convert_data, csv_to_html_table, csv_to_markdown, csv_to_value, json_to_csv, read_value, value_to_csv, write_value, Conversion,
    DataError, DataFormat, ValueRead, ValueWrite,
};
use universal_converter::json::{json_clone, obj_get, obj_insert, push_json, JsonValue};
use universal_converter::xml::{value_to_xml, xml_escape_exec, xml_to_value, XmlError};

fn dump(v: &JsonValue) -> String {
    let mut out = Vec::new();
    push_json(&mut out, v);
    out.into_iter().collect()
}

fn s(x: &str) -> JsonValue {
    JsonValue::Str(x.to_string())
}

#[test]
fn lecture_xml_resout_les_entites() {
    let v = match read_value("<r><a>R&amp;D</a><b>caf&#233; &lt;x&gt;</b></r>", "xml").expect("lecture xml") {
        ValueRead::Value(v) => v,
        ValueRead::Decode(_) => panic!("XML lu ici"),
    };
    let d = dump(&v);
    assert!(d.contains("R&D"), "entité nommée perdue: {d}");
    assert!(d.contains("café"), "entité numérique perdue: {d}");
    assert!(d.contains("<x>"), "entités lt/gt perdues: {d}");
}

#[test]
fn xml_structure() {
    let v = xml_to_value("<r id=\"7\"><i>1</i><i>2</i><e/></r>").unwrap();
    assert_eq!(dump(&v), "{\"r\":{\"@id\":\"7\",\"e\":null,\"i\":[\"1\",\"2\"]}}");
    assert!(matches!(xml_to_value("<!-- rien -->"), Err(XmlError::NoRoot)));
    assert!(matches!(xml_to_value("<a></b>"), Err(XmlError::Malformed(_))));
}

#[test]
fn value_back_to_xml() {
    let mut entries = Vec::new();
    obj_insert(&mut entries, "@id".to_string(), s("7"));
    obj_insert(&mut entries, "nom".to_string(), s("a<b"));
    let mut root = Vec::new();
    obj_insert(&mut root, "fiche".to_string(), JsonValue::Object(entries));
    let xml = value_to_xml(&JsonValue::Object(root));
    assert_eq!(xml, "<?xml version=\"1.0\" encoding=\"UTF-8\"?>\n<fiche id=\"7\">\n  <nom>a&lt;b</nom>\n</fiche>\n");
    assert_eq!(value_to_xml(&JsonValue::Null), "<?xml version=\"1.0\" encoding=\"UTF-8\"?>\n<root/>\n");
    assert_eq!(xml_escape_exec("a&\"<>"), "a&amp;&quot;&lt;&gt;");
}

#[test]
fn csv_rows_become_objects() {
    let v = csv_to_value("nom,valeur\nalpha,1\nbeta,2,extra\n").unwrap();
    assert_eq!(
        dump(&v),
        "[{\"nom\":\"alpha\",\"valeur\":\"1\"},{\"col3\":\"extra\",\"nom\":\"beta\",\"valeur\":\"2\"}]"
    );
}

#[test]
fn objects_become_csv() {
    let v = csv_to_value("b,a\n1,2\n").unwrap();
    let out = value_to_csv(&v).unwrap();
    assert_eq!(out, "a,b\n2,1\n");
    assert!(matches!(value_to_csv(&s("x")), Err(DataError::CsvNotArray)));
}

#[test]
fn csv_tables() {
    let md = csv_to_markdown("a,b|c\n1,2\n").unwrap();
    assert_eq!(md, "| a | b\\|c |\n| --- | --- |\n| 1 | 2 |\n");
    assert_eq!(csv_to_markdown("").unwrap(), "");
    let html = csv_to_html_table("a\n<1>\n").unwrap();
    assert!(html.contains("<tr><th>a</th></tr>\n<tr><td>&lt;1&gt;</td></tr>\n"), "{html}");
    assert!(html.ends_with("</table>\n</body></html>\n"));
}

#[test]
fn data_routes() {
    assert!(matches!(read_value("{}", "json"), Ok(ValueRead::Decode(DataFormat::Json))));
    assert!(matches!(read_value("x", "ini"), Err(DataError::UnsupportedInput(e)) if e == "ini"));
    assert!(matches!(convert_data("a: 1", "yaml", "json"), Ok(Conversion::Decode(DataFormat::Yaml))));
    match convert_data("<r>1</r>", "xml", "json") {
        Ok(Conversion::Written(ValueWrite::Encode(DataFormat::Json, v))) => assert_eq!(dump(&v), "{\"r\":\"1\"}"),
        _ => panic!("JSON attendu"),
    }
    assert!(matches!(write_value(&JsonValue::Null, "docx"), Err(DataError::UnsupportedOutput(f)) if f == "docx"));
    match write_value(&JsonValue::Null, "xml") {
        Ok(ValueWrite::Text(t)) => assert!(t.contains("<root/>")),
        _ => panic!("texte XML attendu"),
    }
}

#[test]
fn json_objects_stay_sorted() {
    let mut e = Vec::new();
    obj_insert(&mut e, "b".to_string(), s("1"));
    obj_insert(&mut e, "a".to_string(), s("2"));
    obj_insert(&mut e, "b".to_string(), s("3"));
    assert_eq!(e.len(), 2);
    assert_eq!(e[0].0, "a");
    assert!(matches!(obj_get(&e, "b"), Some(JsonValue::Str(x)) if x == "3"));
    assert!(obj_get(&e, "z").is_none());
    let v = JsonValue::Array(vec![JsonValue::Bool(true), JsonValue::Number("1.5".into()), s("q\"")]);
    assert_eq!(dump(&json_clone(&v)), "[true,1.5,\"q\\\"\"]");
}

#[test]
fn xml_element_names_from_keys() {
    let mut inner = Vec::new();
    obj_insert(&mut inner, "1 er".to_string(), s("a"));
    obj_insert(&mut inner, "__".to_string(), s("b"));
    obj_insert(&mut inner, "é-t.é".to_string(), s("c"));
    let mut root = Vec::new();
    obj_insert(&mut root, "r".to_string(), JsonValue::Object(inner));
    let xml = value_to_xml(&JsonValue::Object(root));
    assert!(xml.contains("<item_1_er>a</item_1_er>"), "{xml}");
    assert!(xml.contains("<item>b</item>"), "{xml}");
    assert!(xml.contains("<é-t.é>c</é-t.é>"), "{xml}");
}

#[test]
fn data_error_messages() {
    assert_eq!(DataError::UnsupportedInput("bin".to_string()).message(), "Format d'entrée data non supporté: bin");
    assert_eq!(DataError::Xml(XmlError::NoRoot).message(), "XML vide ou sans élément racine");
    assert_eq!(DataError::Csv("x".to_string()).message(), "CSV invalide: x");
    assert_eq!(DataError::CsvNotArray.message(), "CSV attend un tableau d'objets au sommet");
}

#[test]
fn xml_unknown_entity_is_kept() {
    let v = xml_to_value("<r>a &nbsp; b &amp; c</r>").unwrap();
    assert_eq!(dump(&v), "{\"r\":\"a &nbsp; b & c\"}");
}

#[test]
fn json_records_to_csv() {
    let mut a = Vec::new();
    obj_insert(&mut a, "nom".to_string(), s("alpha"));
    obj_insert(&mut a, "n".to_string(), JsonValue::Number("1".to_string()));
    let mut b = Vec::new();
    obj_insert(&mut b, "nom".to_string(), s("b,c"));
    obj_insert(&mut b, "x".to_string(), JsonValue::Null);
    let v = JsonValue::Array(vec![JsonValue::Object(a), JsonValue::Null, JsonValue::Object(b)]);
    assert_eq!(json_to_csv(&v).unwrap(), "n,nom\n1,alpha\n,\"b,c\"\n");
    assert_eq!(json_to_csv(&JsonValue::Array(vec![])).unwrap(), "");
    assert_eq!(json_to_csv(&JsonValue::Array(vec![s("x"), JsonValue::Object(vec![])])).unwrap(), "\n\n");
    let err = json_to_csv(&s("x")).unwrap_err();
    assert!(matches!(err, DataError::JsonNotArray));
    assert_eq!(err.message(), "JSON doit être un tableau d'objets");
}
