use jgrep::engine::process_json;
use jgrep::json::Json;
use jgrep::path::{index_text, join_segments, normalize_key, parse_key, split_on};
use jgrep::relative::{apply_relative_keys, apply_relative_path, resolve_path, split_keys};
use jgrep::search::Match;

fn s(v: &str) -> String {
    v.to_string()
}

fn strings(v: &[&str]) -> Vec<String> {
    v.iter().map(|x| x.to_string()).collect()
}

fn text(v: &str) -> Json {
    Json::Str(s(v))
}

// {"phoneNumbers":[{"type":"home","number":"212"},{"type":"work","number":"646"}],
//  "address":{"street":"Main","city":"NY"}}
fn doc() -> Json {
    let phone = |t: &str, n: &str| Json::Object(vec![(s("type"), text(t)), (s("number"), text(n))]);
    Json::Object(vec![
        (s("phoneNumbers"), Json::Array(vec![phone("home", "212"), phone("work", "646")])),
        (s("address"), Json::Object(vec![(s("street"), text("Main")), (s("city"), text("NY"))])),
    ])
}

fn found(ms: &[Match]) -> Vec<(String, String)> {
    ms.iter()
        .map(|m| {
            let v = match &m.value {
                Json::Str(t) => t.clone(),
                Json::Object(_) => s("{object}"),
                Json::Array(_) => s("[array]"),
                _ => s("other"),
            };
            (m.key.clone(), v)
        })
        .collect()
}

fn run_rel(keys: &[&str], rel: &[&str]) -> Vec<(String, String)> {
    run_rel_missed(keys, rel).0
}

fn run_rel_missed(keys: &[&str], rel: &[&str]) -> (Vec<(String, String)>, Vec<String>) {
    let r = process_json(
        &doc(),
        &strings(keys),
        &strings(&[]),
        &strings(&[]),
        &strings(&[]),
        "::",
        &strings(rel),
        "..",
        false,
    );
    match r {
        Ok((ms, missed)) => (found(&ms), missed),
        Err(_) => panic!("pattern refused"),
    }
}

#[test]
fn split_keeps_empty_pieces() {
    assert_eq!(split_on("a::b::::c", "::"), strings(&["a", "b", "", "c"]));
    assert_eq!(split_on("", "::"), strings(&[""]));
    assert_eq!(split_on("a:::b", "::"), strings(&["a", ":b"]));
    assert_eq!(split_on("abc", ""), strings(&["abc"]));
}

#[test]
fn parse_and_normalize_drop_empty_segments() {
    assert_eq!(parse_key("::a::::b::", "::"), strings(&["a", "b"]));
    assert_eq!(normalize_key("::a::::b::", "::"), "a::b");
    assert_eq!(normalize_key("a.b", "."), "a.b");
    assert_eq!(normalize_key("", "::"), "");
    assert_eq!(join_segments(&strings(&["x", "y", "z"]), "/"), "x/y/z");
}

#[test]
fn index_text_is_decimal() {
    assert_eq!(index_text(0), "0");
    assert_eq!(index_text(7), "7");
    assert_eq!(index_text(10), "10");
    assert_eq!(index_text(1234), "1234");
}

#[test]
fn relative_tokens() {
    assert_eq!(split_keys("..::number", "::", ".."), strings(&["..", "number"]));
    assert_eq!(split_keys("....name", "::", ".."), strings(&["..", "..", "name"]));
    assert_eq!(split_keys("a..b::::c..", "::", ".."), strings(&["a", "..", "b", "c", ".."]));
    assert_eq!(split_keys("", "::", ".."), strings(&[]));
    assert_eq!(split_keys("x/y", "/", "^"), strings(&["x", "y"]));
}

#[test]
fn relative_path_pushes_and_pops() {
    assert_eq!(
        apply_relative_path("phoneNumbers::0::type", "..::number", "::", ".."),
        strings(&["phoneNumbers", "0", "number"])
    );
    assert_eq!(apply_relative_path("a::b", "c::..", "::", ".."), strings(&["a", "b"]));
    assert_eq!(apply_relative_path("a::b", "..::..::..::..", "::", ".."), strings(&[]));
    assert_eq!(apply_relative_path("a::b", "..::..::..::x", "::", ".."), strings(&["x"]));
}

#[test]
fn resolve_follows_fields_and_indices() {
    let d = doc();
    let r = resolve_path(&d, &strings(&["phoneNumbers", "1", "type"]));
    match r {
        Some((Json::Str(v), p)) => {
            assert_eq!(v, "work");
            assert_eq!(p, strings(&["phoneNumbers", "1", "type"]));
        }
        _ => panic!("expected a string"),
    }
    assert!(matches!(resolve_path(&d, &strings(&["phoneNumbers", "01"])), Some((Json::Object(_), _))));
    assert!(resolve_path(&d, &strings(&["phoneNumbers", "2"])).is_none());
    assert!(resolve_path(&d, &strings(&["phoneNumbers", "x"])).is_none());
    assert!(resolve_path(&d, &strings(&["phoneNumbers", "-1"])).is_none());
    assert!(resolve_path(&d, &strings(&["address", "zip"])).is_none());
    assert!(resolve_path(&d, &strings(&["address", "city", "more"])).is_none());
    assert!(resolve_path(&d, &strings(&["phoneNumbers", "99999999999999999999999"])).is_none());
    assert!(matches!(resolve_path(&d, &strings(&[])), Some((Json::Object(_), _))));
    match resolve_path(&d, &strings(&["phoneNumbers", "+1", "number"])) {
        Some((Json::Str(v), p)) => {
            assert_eq!(v, "646");
            assert_eq!(p, strings(&["phoneNumbers", "+1", "number"]));
        }
        _ => panic!("expected a string"),
    }
    assert!(resolve_path(&d, &strings(&["phoneNumbers", "+"])).is_none());
    assert!(resolve_path(&d, &strings(&["phoneNumbers", "++1"])).is_none());
    assert!(resolve_path(&d, &strings(&["phoneNumbers", "1+"])).is_none());
}

#[test]
fn sibling_by_pop_then_push() {
    assert_eq!(
        run_rel(&["type"], &["..::number"]),
        vec![(s("phoneNumbers::0::number"), s("212")), (s("phoneNumbers::1::number"), s("646"))]
    );
    assert_eq!(
        run_rel(&["type"], &["..::number"]),
        vec![
            run_rel(&["phoneNumbers::0::number"], &[])[0].clone(),
            run_rel(&["phoneNumbers::1::number"], &[])[0].clone()
        ]
    );
}

#[test]
fn push_then_pop_round_trip() {
    assert_eq!(run_rel(&["street"], &["zzz::.."]), run_rel(&["street"], &[]));
    assert_eq!(run_rel(&["street"], &["zzz::.."]), vec![(s("address::street"), s("Main"))]);
}

#[test]
fn popping_past_root_is_no_failure() {
    assert_eq!(run_rel(&["street"], &["..::..::..::.."]), vec![(s(""), s("{object}"))]);
    assert_eq!(run_rel(&["street"], &["..::..::..::address::city"]), vec![(s("address::city"), s("NY"))]);
}

#[test]
fn unresolved_pairs_are_dropped() {
    assert_eq!(
        run_rel(&["type", "street"], &["..::missing", "..::city", "..::number"]),
        vec![
            (s("phoneNumbers::0::number"), s("212")),
            (s("phoneNumbers::1::number"), s("646")),
            (s("address::city"), s("NY")),
        ]
    );
    assert!(run_rel(&["nothing"], &["..::city"]).is_empty());
    let (_, missed) = run_rel_missed(&["type", "street"], &["..::missing", "..::city"]);
    assert_eq!(
        missed,
        strings(&[
            "phoneNumbers::0::missing",
            "phoneNumbers::0::city",
            "phoneNumbers::1::missing",
            "phoneNumbers::1::city",
            "address::missing",
        ])
    );
    let (_, missed) = run_rel_missed(&["type"], &[]);
    assert!(missed.is_empty());
}

#[test]
fn apply_relative_keys_in_pair_order() {
    let d = doc();
    let ms = vec![
        Match { key: s("address::street"), value: text("Main") },
        Match { key: s("phoneNumbers::1::type"), value: text("work") },
    ];
    let (out, missed) = apply_relative_keys(&d, &ms, &strings(&["..::city", "..::number"]), "::", "..");
    assert_eq!(
        found(&out),
        vec![(s("address::city"), s("NY")), (s("phoneNumbers::1::number"), s("646"))]
    );
    assert_eq!(missed, strings(&["address::number", "phoneNumbers::1::city"]));
}
