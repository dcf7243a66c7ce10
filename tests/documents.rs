use context_aware_config::describe::{extract_and_format, parse_conditions};
use context_aware_config::digest::content_hash;
use context_aware_config::json::{deep_eq, merged, Json, Member};
use context_aware_config::predicate::{contains_run, evaluate};
use context_aware_config::request::construct_request_payload;
use context_aware_config::text::to_text;
use serde_json::Value;

fn from_value(v: &Value) -> Json {
    match v {
        Value::Null => Json::Null,
        Value::Bool(b) => Json::Bool(*b),
        Value::Number(n) => Json::Int(n.as_i64().expect("integer")),
        Value::String(s) => Json::Str(s.clone()),
        Value::Array(a) => Json::Array(a.iter().map(from_value).collect()),
        Value::Object(m) => Json::Object(
            m.iter()
                .map(|(k, v)| Member { key: k.clone(), value: from_value(v) })
                .collect(),
        ),
    }
}

fn doc(text: &str) -> Json {
    from_value(&serde_json::from_str(text).expect("valid JSON"))
}

fn members(text: &str) -> Vec<Member> {
    match doc(text) {
        Json::Object(ms) => ms,
        _ => panic!("not an object"),
    }
}

fn text(j: &Json) -> String {
    to_text(j).into_iter().collect()
}

fn eval(ctx: &str, cond: &str) -> Option<String> {
    evaluate(&members(ctx), &doc(cond)).map(|v| text(&v))
}

#[test]
fn compact_text_matches_serde() {
    let source = r#"{"k":[1,-20,true,false,null,"a\"b\\c\nd\u0001"],"z":{}}"#;
    let j = doc(source);
    let expected = serde_json::to_string(&serde_json::from_str::<Value>(source).unwrap()).unwrap();
    assert_eq!(text(&j), expected);
}

#[test]
fn text_of_extreme_integers() {
    assert_eq!(text(&Json::Int(i64::MIN)), "-9223372036854775808");
    assert_eq!(text(&Json::Int(i64::MAX)), "9223372036854775807");
    assert_eq!(text(&Json::Int(0)), "0");
}

#[test]
fn text_keeps_member_order() {
    let j = Json::Object(vec![
        Member { key: "b".to_string(), value: Json::Int(1) },
        Member { key: "a".to_string(), value: Json::Int(2) },
    ]);
    assert_eq!(text(&j), r#"{"b":1,"a":2}"#);
}

#[test]
fn content_hash_is_blake3_hex_of_text() {
    let j = doc(r#"{"a":[1,2]}"#);
    assert_eq!(content_hash(&j), blake3::hash(br#"{"a":[1,2]}"#).to_string());
    assert_ne!(content_hash(&j), text(&j));
}

#[test]
fn merge_patch_rfc_examples() {
    let cases = [
        (r#"{"a":"b"}"#, r#"{"a":"c"}"#, r#"{"a":"c"}"#),
        (r#"{"a":"b"}"#, r#"{"b":"c"}"#, r#"{"a":"b","b":"c"}"#),
        (r#"{"a":"b"}"#, r#"{"a":null}"#, r#"{}"#),
        (r#"{"a":"b","b":"c"}"#, r#"{"a":null}"#, r#"{"b":"c"}"#),
        (r#"{"a":["b"]}"#, r#"{"a":"c"}"#, r#"{"a":"c"}"#),
        (r#"{"a":"c"}"#, r#"{"a":["b"]}"#, r#"{"a":["b"]}"#),
        (r#"{"a":{"b":"c"}}"#, r#"{"a":{"b":"d","c":null}}"#, r#"{"a":{"b":"d"}}"#),
        (r#"{"a":[{"b":"c"}]}"#, r#"{"a":[1]}"#, r#"{"a":[1]}"#),
        (r#"["a","b"]"#, r#"["c","d"]"#, r#"["c","d"]"#),
        (r#"{"a":"b"}"#, r#"["c"]"#, r#"["c"]"#),
        (r#"{"a":"foo"}"#, "null", "null"),
        (r#"{"a":"foo"}"#, r#""bar""#, r#""bar""#),
        (r#"{"e":null}"#, r#"{"a":1}"#, r#"{"e":null,"a":1}"#),
        (r#"[1,2]"#, r#"{"a":"b","c":null}"#, r#"{"a":"b"}"#),
        (r#"{}"#, r#"{"a":{"bb":{"ccc":null}}}"#, r#"{"a":{"bb":{}}}"#),
    ];
    for (target, patch, expected) in cases {
        let out = merged(doc(target), &doc(patch));
        let got: Value = serde_json::from_str(&text(&out)).unwrap();
        let want: Value = serde_json::from_str(expected).unwrap();
        assert_eq!(got, want, "{target} + {patch}");
    }
}

#[test]
fn deep_eq_distinguishes_values() {
    assert!(deep_eq(&doc(r#"{"a":[1,"x"]}"#), &doc(r#"{"a":[1,"x"]}"#)));
    assert!(!deep_eq(&doc(r#"{"a":[1,"x"]}"#), &doc(r#"{"a":[1,"y"]}"#)));
    assert!(!deep_eq(&doc("1"), &doc(r#""1""#)));
    assert!(!deep_eq(&doc("[1]"), &doc("[1,1]")));
}

#[test]
fn evaluates_equality_and_var() {
    assert_eq!(eval(r#"{"c":"IN"}"#, r#"{"==":[{"var":"c"},"IN"]}"#).as_deref(), Some("true"));
    assert_eq!(eval(r#"{"c":"US"}"#, r#"{"==":[{"var":"c"},"IN"]}"#).as_deref(), Some("false"));
    assert_eq!(eval(r#"{"c":"US"}"#, r#"{"!=":[{"var":"c"},"IN"]}"#).as_deref(), Some("true"));
    assert_eq!(eval("{}", r#"{"var":"missing"}"#).as_deref(), Some("null"));
    assert_eq!(eval("{}", r#"{"==":[{"var":"missing"},null]}"#).as_deref(), Some("true"));
}

#[test]
fn evaluates_in_for_arrays_and_strings() {
    assert_eq!(eval(r#"{"c":"IN"}"#, r#"{"in":[{"var":"c"},["US","IN"]]}"#).as_deref(), Some("true"));
    assert_eq!(eval(r#"{"c":"UK"}"#, r#"{"in":[{"var":"c"},["US","IN"]]}"#).as_deref(), Some("false"));
    assert_eq!(eval(r#"{"c":"ell"}"#, r#"{"in":[{"var":"c"},"hello"]}"#).as_deref(), Some("true"));
    assert_eq!(eval(r#"{"c":"elo"}"#, r#"{"in":[{"var":"c"},"hello"]}"#).as_deref(), Some("false"));
    assert_eq!(eval(r#"{"c":1}"#, r#"{"in":[{"var":"c"},5]}"#).as_deref(), Some("false"));
}

#[test]
fn evaluates_numeric_comparisons() {
    let ctx = r#"{"n":5}"#;
    assert_eq!(eval(ctx, r#"{"<":[{"var":"n"},6]}"#).as_deref(), Some("true"));
    assert_eq!(eval(ctx, r#"{">":[{"var":"n"},6]}"#).as_deref(), Some("false"));
    assert_eq!(eval(ctx, r#"{"<=":[{"var":"n"},5]}"#).as_deref(), Some("true"));
    assert_eq!(eval(ctx, r#"{">=":[{"var":"n"},6]}"#).as_deref(), Some("false"));
    assert_eq!(eval(ctx, r#"{"<":[{"var":"n"},"6"]}"#).as_deref(), Some("false"));
}

#[test]
fn and_or_short_circuit() {
    assert_eq!(eval("{}", r#"{"and":[]}"#).as_deref(), Some("true"));
    assert_eq!(eval("{}", r#"{"or":[]}"#).as_deref(), Some("false"));
    assert_eq!(eval("{}", r#"{"and":[false,{"bogus":[1]}]}"#).as_deref(), Some("false"));
    assert_eq!(eval("{}", r#"{"or":[true,{"bogus":[1]}]}"#).as_deref(), Some("true"));
    assert_eq!(eval("{}", r#"{"and":[true,{"bogus":[1]}]}"#), None);
}

#[test]
fn malformed_expressions_fail() {
    assert_eq!(eval("{}", r#"{"bogus":[1,2]}"#), None);
    assert_eq!(eval("{}", r#"{"==":[1]}"#), None);
    assert_eq!(eval("{}", r#"{"==":1}"#), None);
    assert_eq!(eval("{}", r#"{"var":1}"#), None);
    assert_eq!(eval("{}", r#"{"a":1,"b":2}"#), None);
    assert_eq!(eval("{}", "7").as_deref(), Some("7"));
}

#[test]
fn substring_search() {
    let v = |s: &str| s.chars().collect::<Vec<char>>();
    assert!(contains_run(&v(""), &v("")));
    assert!(contains_run(&v("lo"), &v("hello")));
    assert!(!contains_run(&v("hello!"), &v("hello")));
    assert!(contains_run(&v("hello"), &v("hello")));
}

fn clause(d: &str, op: &str, v: &str) -> (String, String, String) {
    (d.to_string(), op.to_string(), v.to_string())
}

#[test]
fn request_payload_with_one_clause() {
    let body = construct_request_payload(members(r#"{"fee":1}"#), vec![clause("country", "==", "IN")]);
    let got: Value = serde_json::from_str(&text(&body)).unwrap();
    let want: Value = serde_json::from_str(
        r#"{"override":{"fee":1},"context":{"==":[{"var":"country"},"IN"]}}"#,
    )
    .unwrap();
    assert_eq!(got, want);
}

#[test]
fn request_payload_with_several_clauses() {
    let body = construct_request_payload(
        members("{}"),
        vec![clause("country", "==", "IN"), clause("tier", "!=", "gold")],
    );
    let got: Value = serde_json::from_str(&text(&body)).unwrap();
    let want: Value = serde_json::from_str(
        r#"{"override":{},"context":{"and":[{"==":[{"var":"country"},"IN"]},{"!=":[{"var":"tier"},"gold"]}]}}"#,
    )
    .unwrap();
    assert_eq!(got, want);
    let empty = construct_request_payload(members("{}"), vec![]);
    assert_eq!(text(&empty), r#"{"override":{},"context":{"and":[]}}"#);
}

#[test]
fn formats_and_conditions() {
    let c = doc(r#"{"and":[{"==":[{"var":"country"},"IN"]},{"in":["gold",{"var":"tier"}]}]}"#);
    assert_eq!(extract_and_format(&c), r#"country == "IN" and "gold" in tier"#);
}

#[test]
fn formats_single_conditions() {
    assert_eq!(extract_and_format(&doc(r#"{"==":[{"var":"n"},5]}"#)), "n == 5");
    assert_eq!(extract_and_format(&doc(r#"{"in":[3,{"var":"n"}]}"#)), "3 in n");
    assert_eq!(extract_and_format(&doc(r#"{"in":[{"var":"n"},[1,2]]}"#)), "n in [1,2]");
    assert_eq!(extract_and_format(&doc(r#"{"==":[1,2]}"#)), "Invalid Condition");
    assert_eq!(extract_and_format(&doc("5")), "Invalid Condition");
    assert_eq!(extract_and_format(&doc(r#"{"and":3}"#)), "");
}

fn triples(input: &str) -> Vec<(String, String, String)> {
    parse_conditions(input.to_string())
}

#[test]
fn parses_clauses_joined_by_and() {
    assert_eq!(
        triples("country == IN and tier != gold"),
        vec![clause("country", "==", "IN"), clause("tier", "!=", "gold")]
    );
    assert_eq!(triples(" city in  Pune "), vec![clause("city", "in", "Pune")]);
}

#[test]
fn skips_pieces_without_one_operator() {
    assert!(triples("country").is_empty());
    assert!(triples("a == b == c").is_empty());
    assert!(triples("").is_empty());
    assert_eq!(triples("brand == x"), vec![clause("", "==", "x")]);
}

#[test]
fn equality_ignores_member_order() {
    let ab = Json::Object(vec![
        Member { key: "a".to_string(), value: Json::Int(1) },
        Member { key: "b".to_string(), value: Json::Array(vec![Json::Int(2)]) },
    ]);
    let ba = Json::Object(vec![
        Member { key: "b".to_string(), value: Json::Array(vec![Json::Int(2)]) },
        Member { key: "a".to_string(), value: Json::Int(1) },
    ]);
    let other = Json::Object(vec![
        Member { key: "b".to_string(), value: Json::Array(vec![Json::Int(3)]) },
        Member { key: "a".to_string(), value: Json::Int(1) },
    ]);
    let ctx = vec![
        Member { key: "x".to_string(), value: ab },
        Member { key: "y".to_string(), value: ba.copy() },
        Member { key: "z".to_string(), value: other },
        Member { key: "list".to_string(), value: Json::Array(vec![Json::Int(0), ba]) },
    ];
    let run = |cond: &str| evaluate(&ctx, &doc(cond)).map(|v| text(&v));
    assert_eq!(run(r#"{"==":[{"var":"x"},{"var":"y"}]}"#).as_deref(), Some("true"));
    assert_eq!(run(r#"{"!=":[{"var":"x"},{"var":"y"}]}"#).as_deref(), Some("false"));
    assert_eq!(run(r#"{"==":[{"var":"x"},{"var":"z"}]}"#).as_deref(), Some("false"));
    assert_eq!(run(r#"{"in":[{"var":"x"},{"var":"list"}]}"#).as_deref(), Some("true"));
    assert_eq!(run(r#"{"in":[{"var":"z"},{"var":"list"}]}"#).as_deref(), Some("false"));
}
