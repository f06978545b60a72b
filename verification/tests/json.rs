use ragamuffin::chunk::chunk_json;
use ragamuffin::json::{
    flatten_value, join_key, parse_json_records, Field, Json,
    MAX_FLATTEN_DEPTH,
};

fn num(s: &str) -> Json {
    Json::Number(s.to_string())
}

fn s(v: &str) -> Json {
    Json::Str(v.to_string())
}

fn obj(fields: Vec<(&str, Json)>) -> Json {
    Json::Object(
        fields
            .into_iter()
            .map(|(k, v)| Field { key: k.to_string(), value: v })
            .collect(),
    )
}

/// The one JSON document in `text`, read through a one-field wrapper object
/// so that arrays stay whole.
fn parse_json(text: &str) -> Option<Json> {
    let mut records = parse_json_records(&format!("{{\"v\":{text}}}"));
    if records.len() != 1 {
        return None;
    }
    match records.remove(0) {
        Json::Object(mut fields) if fields.len() == 1 => Some(fields.remove(0).value),
        _ => None,
    }
}

fn meta_get<'a>(meta: &'a [Field], key: &str) -> Option<&'a Json> {
    meta.iter().find(|f| f.key == key).map(|f| &f.value)
}

#[test]
fn parse_json_records_array_yields_one_per_element() {
    let records = parse_json_records(r#"[{"a":1},{"a":2},{"a":3}]"#);
    assert_eq!(records.len(), 3);
    assert_eq!(records[0], obj(vec![("a", num("1"))]));
    assert_eq!(records[2], obj(vec![("a", num("3"))]));
}

#[test]
fn parse_json_records_single_object_is_one_record() {
    let records = parse_json_records(r#"{"a":1,"b":2}"#);
    assert_eq!(records, vec![obj(vec![("a", num("1")), ("b", num("2"))])]);
}

#[test]
fn parse_json_records_scalar_is_one_record() {
    assert_eq!(parse_json_records("42"), vec![num("42")]);
    assert_eq!(parse_json_records(r#""hello""#), vec![s("hello")]);
}

#[test]
fn parse_json_records_jsonl_parses_each_line() {
    let text = "{\"a\":1}\n\n{\"a\":2}\n";
    let records = parse_json_records(text);
    assert_eq!(records, vec![obj(vec![("a", num("1"))]), obj(vec![("a", num("2"))])]);
}

#[test]
fn parse_json_records_malformed_is_empty() {
    assert!(parse_json_records("not json at all {").is_empty());
    assert!(parse_json_records("").is_empty());
}

#[test]
fn parse_json_records_jsonl_skips_bad_lines() {
    let records = parse_json_records("{\"a\":1}\r\nnope\n  \n[1,2]");
    assert_eq!(
        records,
        vec![obj(vec![("a", num("1"))]), Json::Array(vec![num("1"), num("2")])]
    );
}

fn report() -> Json {
    parse_json(
        r#"{
            "title": "Quarterly Report",
            "year": 2024,
            "published": true,
            "author": {"name": "Jane Doe", "team_size": 5},
            "tags": ["finance", "q3"]
        }"#,
    )
    .unwrap()
}

#[test]
fn flatten_value_routes_strings_to_text_and_scalars_to_meta() {
    let value = report();
    let mut lines = Vec::new();
    let mut meta = Vec::new();
    flatten_value("", &value, 0, &mut lines, &mut meta);

    // String leaves and string arrays become text lines.
    assert!(lines.contains(&"title: Quarterly Report".to_string()));
    assert!(lines.contains(&"author.name: Jane Doe".to_string()));
    assert!(lines.contains(&"tags: finance, q3".to_string()));
    // Scalar leaves (including nested) go to metadata under dotted keys.
    assert_eq!(meta_get(&meta, "year"), Some(&num("2024")));
    assert_eq!(meta_get(&meta, "published"), Some(&Json::Bool(true)));
    assert_eq!(meta_get(&meta, "author.team_size"), Some(&num("5")));
    // Strings are not duplicated into metadata.
    assert!(meta_get(&meta, "title").is_none());
}

#[test]
fn flatten_value_top_level_string_has_no_key_prefix() {
    let mut lines = Vec::new();
    let mut meta = Vec::new();
    flatten_value("", &s("hello world"), 0, &mut lines, &mut meta);
    assert_eq!(lines, vec!["hello world".to_string()]);
    assert!(meta.is_empty());
}

#[test]
fn flatten_value_array_of_objects_uses_indexed_keys() {
    let value = obj(vec![(
        "items",
        Json::Array(vec![obj(vec![("title", s("A"))]), obj(vec![("title", s("B"))])]),
    )]);
    let mut lines = Vec::new();
    let mut meta = Vec::new();
    flatten_value("", &value, 0, &mut lines, &mut meta);
    assert!(lines.contains(&"items.0.title: A".to_string()));
    assert!(lines.contains(&"items.1.title: B".to_string()));
}

#[test]
fn flatten_value_caps_recursion_depth() {
    // Build a structure deeper than the cap; it must not overflow the stack
    // and the deepest content collapses into a single line.
    let mut value = s("leaf");
    for _ in 0..100 {
        value = obj(vec![("n", value)]);
    }
    let mut lines = Vec::new();
    let mut meta = Vec::new();
    flatten_value("", &value, 0, &mut lines, &mut meta);
    assert!(!lines.is_empty());
    // The cut happens at depth 64: the line is keyed by 64 "n"s and holds the rest as JSON.
    let key = vec!["n"; MAX_FLATTEN_DEPTH].join(".");
    let mut rest = "\"leaf\"".to_string();
    for _ in 0..(100 - MAX_FLATTEN_DEPTH) {
        rest = format!("{{\"n\":{rest}}}");
    }
    assert_eq!(lines, vec![format!("{key}: {rest}")]);
}

#[test]
fn flatten_value_scalars_in_mixed_arrays_and_overwrites() {
    let value = parse_json(r#"{"a":[1,"x",null],"b":{"c":false},"b.c":7}"#).unwrap();
    let mut lines = Vec::new();
    let mut meta = vec![Field { key: "b.c".to_string(), value: num("0") }];
    flatten_value("", &value, 0, &mut lines, &mut meta);
    assert_eq!(lines, vec!["a.1: x".to_string()]);
    assert_eq!(meta_get(&meta, "a.0"), Some(&num("1")));
    assert_eq!(meta_get(&meta, "a.2"), Some(&Json::Null));
    // "b.c" is written twice: the later field wins, and the keys stay
    // sorted, as in a JSON object.
    let keys: Vec<&str> = meta.iter().map(|f| f.key.as_str()).collect();
    assert_eq!(keys, vec!["a.0", "a.2", "b.c"]);
    assert_eq!(meta[2].value, num("7"));
    // A bare top-level scalar has no key and is not stored.
    let mut meta2 = Vec::new();
    flatten_value("", &num("5"), 0, &mut lines, &mut meta2);
    assert!(meta2.is_empty());
}

#[test]
fn join_key_dots_only_below_top_level() {
    assert_eq!(join_key("", "k"), "k");
    assert_eq!(join_key("a.b", "k"), "a.b.k");
}

#[test]
fn record_without_strings_embeds_its_serde_json_text() {
    let samples = [
        r#"{"z":[1,2.5,-3e10,true,null],"a":{"b":[[]]}}"#,
        r#"[[[{"k":[]}]]]"#,
        r#"{"q\"u\\o\nte \u0001 é 😀":[1,{}]}"#,
    ];
    for text in samples {
        let v: serde_json::Value = serde_json::from_str(text).unwrap();
        let expected = serde_json::to_string(&v).unwrap();
        let chunks = chunk_json(&format!("[{text}]"), 180, 40);
        assert_eq!(chunks.len(), 1);
        assert_eq!(chunks[0].text, expected);
    }
}

#[test]
fn parse_json_records_garbage_and_empty_array() {
    assert!(parse_json_records("{").is_empty());
    assert!(parse_json_records("").is_empty());
    assert!(parse_json_records(" [ ] ").is_empty());
    assert_eq!(parse_json(" [ ] "), Some(Json::Array(vec![])));
}

#[test]
fn flatten_value_depth_cap_always_writes_the_separator() {
    let mut lines = Vec::new();
    let mut meta = Vec::new();
    flatten_value("", &Json::Null, MAX_FLATTEN_DEPTH, &mut lines, &mut meta);
    assert_eq!(lines, vec![": null".to_string()]);
    // Reached through empty keys: 64 nested objects keyed by "".
    let mut v = Json::Bool(true);
    for _ in 0..MAX_FLATTEN_DEPTH {
        v = Json::Object(vec![Field { key: String::new(), value: v }]);
    }
    let mut lines = Vec::new();
    flatten_value("", &v, 0, &mut lines, &mut meta);
    assert_eq!(lines, vec![": true".to_string()]);
    assert!(meta.is_empty());
}

#[test]
fn record_metadata_keys_are_sorted() {
    let chunks = chunk_json(r#"{"zeta":1,"alpha":{"b":true,"a":null},"title":"t"}"#, 180, 40);
    assert_eq!(chunks.len(), 1);
    let keys: Vec<String> = match &chunks[0].metadata {
        Json::Object(fields) => fields.iter().map(|f| f.key.clone()).collect(),
        _ => panic!("metadata is an object"),
    };
    assert_eq!(keys, vec!["alpha.a", "alpha.b", "raw", "record", "source_kind", "zeta"]);
    let long = "w ".repeat(10);
    let chunks = chunk_json(&format!(r#"{{"text":"{long}","n":2}}"#), 4, 0);
    assert!(chunks.len() > 1);
    let keys: Vec<String> = match &chunks[1].metadata {
        Json::Object(fields) => fields.iter().map(|f| f.key.clone()).collect(),
        _ => panic!("metadata is an object"),
    };
    assert_eq!(keys, vec!["n", "part", "raw", "record", "source_kind"]);
}
