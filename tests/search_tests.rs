use jgrep::engine::process_json;
use jgrep::indent::adjust_indent;
use jgrep::json::Json;
use jgrep::search::Match;
use serde_json::Value;

const EXAMPLE_JSON_CONTENT: &str = r#"
{
    "name": "Jane Smith",
    "age": 25,
    "address": {
        "street": "123 Main St",
        "city": "New York",
        "postalCode": "10001"
    },
    "phoneNumbers": [
        {
            "type": "home",
            "number": "212-555-1234"
        },
        {
            "type": "work",
            "number": "646-555-5678"
        }
    ]
}
"#;

fn to_json(v: &Value) -> Json {
    match v {
        Value::Null => Json::Null,
        Value::Bool(b) => Json::Bool(*b),
        Value::Number(n) => Json::Number(n.to_string()),
        Value::String(s) => Json::Str(s.clone()),
        Value::Array(a) => Json::Array(a.iter().map(to_json).collect()),
        Value::Object(m) => Json::Object(m.iter().map(|(k, v)| (k.clone(), to_json(v))).collect()),
    }
}

fn to_value(j: &Json) -> Value {
    match j {
        Json::Null => Value::Null,
        Json::Bool(b) => Value::Bool(*b),
        Json::Number(t) => serde_json::from_str(t).unwrap(),
        Json::Str(s) => Value::String(s.clone()),
        Json::Array(a) => Value::Array(a.iter().map(to_value).collect()),
        Json::Object(m) => {
            let mut map = serde_json::Map::new();
            for (k, v) in m {
                map.insert(k.clone(), to_value(v));
            }
            Value::Object(map)
        }
    }
}

fn example() -> Value {
    serde_json::from_str(EXAMPLE_JSON_CONTENT).unwrap()
}

fn strings(v: &[&str]) -> Vec<String> {
    v.iter().map(|s| s.to_string()).collect()
}

struct Run<'a> {
    keys: &'a [&'a str],
    values: &'a [&'a str],
    extended_keys: &'a [&'a str],
    extended_values: &'a [&'a str],
    relative: &'a [&'a str],
    ignore_case: bool,
}

const NONE: Run<'static> = Run {
    keys: &[],
    values: &[],
    extended_keys: &[],
    extended_values: &[],
    relative: &[],
    ignore_case: false,
};

fn run_on(doc: &Value, r: Run) -> Vec<Match> {
    let data = to_json(doc);
    match process_json(
        &data,
        &strings(r.keys),
        &strings(r.values),
        &strings(r.extended_keys),
        &strings(r.extended_values),
        "::",
        &strings(r.relative),
        "..",
        r.ignore_case,
    ) {
        Ok((ms, missed)) => {
            assert!(missed.is_empty());
            ms
        }
        Err(e) => panic!("pattern refused: {}", e.pattern),
    }
}

fn pairs(ms: &[Match]) -> Vec<(String, Value)> {
    ms.iter().map(|m| (m.key.clone(), to_value(&m.value))).collect()
}

// The printed form of the matches, lines sorted by key.
fn printed(ms: &[Match], indent: Option<usize>) -> String {
    let p = pairs(ms);
    let v: Vec<(&str, Value)> = p.iter().map(|(k, v)| (k.as_str(), v.clone())).collect();
    if v.is_empty() {
        return String::new();
    }
    format_output(&v, indent)
}

fn format_output(pairs: &[(&str, Value)], indent: Option<usize>) -> String {
    let mut lines = Vec::new();
    for (key, value) in pairs {
        let json_str = if let Some(indent_level) = indent {
            let pretty = serde_json::to_string_pretty(value).unwrap();
            let mut result = Vec::new();
            for line in pretty.lines() {
                let trimmed = line.trim_start();
                let leading_spaces = line.len() - trimmed.len();
                let level = leading_spaces / 2;
                let new_indent = " ".repeat(level * indent_level);
                result.push(format!("{}{}", new_indent, trimmed));
            }
            result.join("\n")
        } else {
            serde_json::to_string(value).unwrap()
        };
        lines.push((key.to_string(), json_str));
    }
    lines.sort_by(|a, b| a.0.cmp(&b.0));
    lines
        .into_iter()
        .map(|(key, json_str)| format!("{}: {}", key, json_str))
        .collect::<Vec<_>>()
        .join("\n")
        + "\n"
}

// The printed form through the library's own re-indentation.
fn printed_indented(ms: &[Match], indent: usize) -> String {
    let mut lines: Vec<(String, String)> = ms
        .iter()
        .map(|m| {
            let pretty = serde_json::to_string_pretty(&to_value(&m.value)).unwrap();
            (m.key.clone(), adjust_indent(&pretty, indent))
        })
        .collect();
    lines.sort_by(|a, b| a.0.cmp(&b.0));
    lines.into_iter().map(|(k, j)| format!("{}: {}", k, j)).collect::<Vec<_>>().join("\n") + "\n"
}

fn phone_paths() -> Vec<(&'static str, Value)> {
    let j = example();
    vec![
        ("phoneNumbers", j["phoneNumbers"].clone()),
        ("phoneNumbers::0", j["phoneNumbers"][0].clone()),
        ("phoneNumbers::0::type", j["phoneNumbers"][0]["type"].clone()),
        ("phoneNumbers::0::number", j["phoneNumbers"][0]["number"].clone()),
        ("phoneNumbers::1", j["phoneNumbers"][1].clone()),
        ("phoneNumbers::1::type", j["phoneNumbers"][1]["type"].clone()),
        ("phoneNumbers::1::number", j["phoneNumbers"][1]["number"].clone()),
    ]
}

#[test]
fn test_single_key_file() {
    let j = example();
    let expected = format_output(&[("phoneNumbers", j["phoneNumbers"].clone())], None);
    assert_eq!(printed(&run_on(&j, Run { keys: &["phoneNumbers"], ..NONE }), None), expected, "Single key match failed");

    let expected = format_output(&[("address::street", j["address"]["street"].clone())], None);
    assert_eq!(printed(&run_on(&j, Run { keys: &["street"], ..NONE }), None), expected, "Nested key match failed");

    assert_eq!(printed(&run_on(&j, Run { keys: &["stre.*"], ..NONE }), None), "", "Partial regex without -e failed");

    let expected = format_output(&[("address::street", j["address"]["street"].clone())], None);
    assert_eq!(
        printed(&run_on(&j, Run { extended_keys: &["stre.*"], ..NONE }), None),
        expected,
        "Extended regex match failed"
    );
}

#[test]
fn test_single_key_regex_file() {
    let j = example();
    let expected = format_output(&phone_paths(), None);
    assert_eq!(printed(&run_on(&j, Run { keys: &["phone.*"], ..NONE }), None), expected, "Regex match from start failed");

    let expected = format_output(&[("phoneNumbers", j["phoneNumbers"].clone())], None);
    assert_eq!(printed(&run_on(&j, Run { keys: &["phone.*s"], ..NONE }), None), expected, "Regex match with end failed");

    assert_eq!(printed(&run_on(&j, Run { keys: &["stre.*"], ..NONE }), None), "", "Non-starting regex failed");

    let expected = format_output(&[("address::street", j["address"]["street"].clone())], None);
    assert_eq!(printed(&run_on(&j, Run { keys: &[".*stre.*"], ..NONE }), None), expected, "Any part regex match failed");
}

#[test]
fn test_single_key_extended_regex_file() {
    let j = example();
    let expected = format_output(&phone_paths(), None);
    assert_eq!(
        printed(&run_on(&j, Run { extended_keys: &["phone.*"], ..NONE }), None),
        expected,
        "Extended regex start failed"
    );
    assert_eq!(
        printed(&run_on(&j, Run { extended_keys: &["phone.*s"], ..NONE }), None),
        expected,
        "Extended regex with end failed"
    );

    let expected = format_output(&[("address::street", j["address"]["street"].clone())], None);
    assert_eq!(
        printed(&run_on(&j, Run { extended_keys: &["stre.*"], ..NONE }), None),
        expected,
        "Extended non-starting regex failed"
    );
    assert_eq!(
        printed(&run_on(&j, Run { extended_keys: &[".*stre.*"], ..NONE }), None),
        expected,
        "Extended any part regex failed"
    );
}

#[test]
fn test_single_key_piped() {
    let j: Value = serde_json::from_str(EXAMPLE_JSON_CONTENT).unwrap();
    let expected = format_output(&[("phoneNumbers", j["phoneNumbers"].clone())], None);
    assert_eq!(printed(&run_on(&j, Run { keys: &["phoneNumbers"], ..NONE }), None), expected, "Piped input match failed");
}

#[test]
fn test_multiple_keys_file() {
    let j = example();
    let expected = format_output(
        &[
            ("name", j["name"].clone()),
            ("age", j["age"].clone()),
            ("phoneNumbers", j["phoneNumbers"].clone()),
        ],
        None,
    );
    assert_eq!(
        printed(&run_on(&j, Run { keys: &["name", "age", "phoneNumbers"], ..NONE }), None),
        expected,
        "Multiple keys match failed"
    );
}

#[test]
fn test_value_search_file() {
    let j = example();
    let expected =
        format_output(&[("phoneNumbers::0::number", j["phoneNumbers"][0]["number"].clone())], None);
    assert_eq!(printed(&run_on(&j, Run { values: &["212-.*"], ..NONE }), None), expected, "Value search failed");
}

#[test]
fn test_case_insensitive_key() {
    let j = example();
    let expected = format_output(&[("phoneNumbers", j["phoneNumbers"].clone())], None);
    assert_eq!(
        printed(&run_on(&j, Run { keys: &["PHONENUMBERS"], ignore_case: true, ..NONE }), None),
        expected,
        "Case-insensitive key match failed"
    );
}

#[test]
fn test_indent_option() {
    let j = example();
    let expected = format_output(&[("phoneNumbers", j["phoneNumbers"].clone())], Some(2));
    let ms = run_on(&j, Run { keys: &["phoneNumbers"], ..NONE });
    assert_eq!(printed_indented(&ms, 2), expected, "Indent option failed");
}

#[test]
fn test_delimiter_nested_key() {
    let j = example();
    let expected = format_output(&[("address::street", j["address"]["street"].clone())], None);
    assert_eq!(
        printed(&run_on(&j, Run { keys: &["address::street"], ..NONE }), None),
        expected,
        "Delimiter nested key failed"
    );
}

#[test]
fn full_pattern_needs_the_whole_name() {
    let doc: Value = serde_json::from_str(r#"{"street":"x"}"#).unwrap();
    assert!(run_on(&doc, Run { keys: &["stre"], ..NONE }).is_empty());
    let ms = run_on(&doc, Run { extended_keys: &["stre.*"], ..NONE });
    assert_eq!(pairs(&ms), vec![("street".to_string(), Value::from("x"))]);
}

#[test]
fn street_by_key_and_by_value() {
    let doc: Value = serde_json::from_str(r#"{"address":{"street":"123 Main St"}}"#).unwrap();
    let ms = run_on(&doc, Run { keys: &["street"], ..NONE });
    assert_eq!(pairs(&ms), vec![("address::street".to_string(), Value::from("123 Main St"))]);
    let ms = run_on(&doc, Run { values: &["123.*"], ..NONE });
    assert_eq!(pairs(&ms), vec![("address::street".to_string(), Value::from("123 Main St"))]);
}

#[test]
fn array_elements_in_index_order() {
    let doc: Value =
        serde_json::from_str(r#"{"phoneNumbers":[{"type":"home"},{"type":"work"}]}"#).unwrap();
    let ms = run_on(&doc, Run { keys: &["type"], ..NONE });
    assert_eq!(
        pairs(&ms),
        vec![
            ("phoneNumbers::0::type".to_string(), Value::from("home")),
            ("phoneNumbers::1::type".to_string(), Value::from("work")),
        ]
    );
}

#[test]
fn case_flag_applies_to_key_patterns() {
    let doc: Value = serde_json::from_str(r#"{"street":"x"}"#).unwrap();
    assert_eq!(run_on(&doc, Run { keys: &["STREET"], ignore_case: true, ..NONE }).len(), 1);
    assert!(run_on(&doc, Run { keys: &["STREET"], ..NONE }).is_empty());
}

#[test]
fn case_flag_applies_to_value_patterns() {
    let doc: Value = serde_json::from_str(r#"{"a":"Home"}"#).unwrap();
    assert_eq!(run_on(&doc, Run { values: &["home"], ignore_case: true, ..NONE }).len(), 1);
    assert!(run_on(&doc, Run { values: &["home"], ..NONE }).is_empty());
    assert_eq!(run_on(&doc, Run { extended_values: &["OM"], ignore_case: true, ..NONE }).len(), 1);
}

#[test]
fn literal_name_found_at_every_depth() {
    let doc: Value =
        serde_json::from_str(r#"{"id":1,"a":{"id":2,"b":[{"id":3}]},"ids":4,"xid":5}"#).unwrap();
    let ms = run_on(&doc, Run { keys: &["id"], ..NONE });
    assert_eq!(
        pairs(&ms),
        vec![
            ("id".to_string(), Value::from(1)),
            ("a::id".to_string(), Value::from(2)),
            ("a::b::0::id".to_string(), Value::from(3)),
        ]
    );
}

#[test]
fn number_and_boolean_values_use_their_text() {
    let doc: Value = serde_json::from_str(r#"{"n":25,"t":true,"f":false,"z":null,"s":"25"}"#).unwrap();
    let ms = run_on(&doc, Run { values: &["25"], ..NONE });
    assert_eq!(pairs(&ms), vec![("n".to_string(), Value::from(25)), ("s".to_string(), Value::from("25"))]);
    let ms = run_on(&doc, Run { values: &["true"], ..NONE });
    assert_eq!(pairs(&ms), vec![("t".to_string(), Value::from(true))]);
    let ms = run_on(&doc, Run { extended_values: &["al"], ..NONE });
    assert_eq!(pairs(&ms), vec![("f".to_string(), Value::from(false))]);
    assert!(run_on(&doc, Run { values: &["null"], ..NONE }).is_empty());
}

#[test]
fn key_matches_come_before_value_matches() {
    let doc: Value = serde_json::from_str(r#"{"a":"b","b":"a"}"#).unwrap();
    let ms = run_on(&doc, Run { keys: &["b"], values: &["b"], ..NONE });
    assert_eq!(pairs(&ms), vec![("b".to_string(), Value::from("a")), ("a".to_string(), Value::from("b"))]);
}

#[test]
fn each_satisfied_pattern_gives_a_match() {
    let doc: Value = serde_json::from_str(r#"{"name":1}"#).unwrap();
    let ms = run_on(&doc, Run { keys: &["name"], extended_keys: &["am"], ..NONE });
    assert_eq!(pairs(&ms), vec![("name".to_string(), Value::from(1)), ("name".to_string(), Value::from(1))]);
}

#[test]
fn invalid_pattern_is_refused() {
    let data = to_json(&example());
    let e = process_json(
        &data,
        &strings(&["name"]),
        &strings(&["ok", "("]),
        &strings(&[]),
        &strings(&["[z"]),
        "::",
        &strings(&[]),
        "..",
        false,
    );
    match e {
        Err(err) => assert_eq!(err.pattern, "("),
        Ok(_) => panic!("expected a refused pattern"),
    }
    let e = process_json(&data, &strings(&["a)"]), &strings(&[]), &strings(&[]), &strings(&[]), "::", &strings(&[]), "..", false);
    assert!(matches!(e, Err(ref err) if err.pattern == "a)"));
}

#[test]
fn scalar_root_has_empty_path() {
    let doc: Value = serde_json::from_str(r#""hello""#).unwrap();
    let ms = run_on(&doc, Run { values: &["hel.*"], ..NONE });
    assert_eq!(pairs(&ms), vec![("".to_string(), Value::from("hello"))]);
    assert!(run_on(&doc, Run { keys: &[".*"], ..NONE }).is_empty());
}

#[test]
fn full_pattern_with_alternation_is_anchored_as_a_whole() {
    let doc: Value = serde_json::from_str(r#"{"nameplate":1,"age":2}"#).unwrap();
    let ms = run_on(&doc, Run { keys: &["name|age"], ..NONE });
    assert_eq!(pairs(&ms), vec![("age".to_string(), Value::from(2))]);
    let ms = run_on(&doc, Run { values: &["1|22"], ..NONE });
    assert_eq!(pairs(&ms), vec![("nameplate".to_string(), Value::from(1))]);
}

#[test]
fn case_flag_reaches_nested_field_names() {
    let doc: Value = serde_json::from_str(r#"{"address":{"street":"123 Main St"}}"#).unwrap();
    let ms = run_on(&doc, Run { keys: &["STREET"], ignore_case: true, ..NONE });
    assert_eq!(pairs(&ms), vec![("address::street".to_string(), Value::from("123 Main St"))]);
    assert!(run_on(&doc, Run { keys: &["STREET"], ..NONE }).is_empty());
    assert!(run_on(&doc, Run { keys: &["STRE"], ignore_case: true, ..NONE }).is_empty());
}

#[test]
fn full_pattern_matches_an_array_index_by_its_segment() {
    let j = example();
    let ms = run_on(&j, Run { keys: &["0"], ..NONE });
    assert_eq!(pairs(&ms), vec![("phoneNumbers::0".to_string(), j["phoneNumbers"][0].clone())]);
    let doc: Value = serde_json::from_str(r#"{"a":[null]}"#).unwrap();
    let ms = run_on(&doc, Run { keys: &["0"], ..NONE });
    assert_eq!(pairs(&ms), vec![("a::0".to_string(), Value::Null)]);
    assert!(run_on(&doc, Run { extended_keys: &["^0$"], ..NONE }).is_empty());
}

#[test]
fn invalid_text_is_refused_even_when_wrapped_text_would_compile() {
    let data = to_json(&example());
    let none: Vec<String> = Vec::new();
    let r = process_json(&data, &strings(&["a)|(b"]), &none, &none, &none, "::", &none, "..", false);
    assert!(matches!(r, Err(ref e) if e.pattern == "a)|(b"));
    let r = process_json(&data, &none, &strings(&["a)|(b"]), &none, &none, "::", &none, "..", true);
    assert!(matches!(r, Err(ref e) if e.pattern == "a)|(b"));
}
