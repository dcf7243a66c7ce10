use context_aware_config::config::{CreateReq, DefaultEntry, Dimension};
use context_aware_config::error::ErrorKind;
use context_aware_config::json::{Json, Member};
use context_aware_config::registry::{BulkResponse, ContextAction, PutReq, Registry};
use serde_json::Value;

fn from_value(v: &Value) -> Json {
    match v {
        Value::Null => Json::Null,
        Value::Bool(b) => Json::Bool(*b),
        Value::Number(n) => Json::Int(n.as_i64().expect("integer")),
        Value::String(s) => Json::Str(s.clone()),
        Value::Array(a) => Json::Array(a.iter().map(from_value).collect()),
        Value::Object(m) => Json::Object(
            m.iter()
                .map(|(k, v)| Member { key: k.clone(), value: from_value(v) })
                .collect(),
        ),
    }
}

fn to_value(j: &Json) -> Value {
    match j {
        Json::Null => Value::Null,
        Json::Bool(b) => Value::Bool(*b),
        Json::Int(n) => Value::from(*n),
        Json::Str(s) => Value::String(s.clone()),
        Json::Array(a) => Value::Array(a.iter().map(to_value).collect()),
        Json::Object(ms) => Value::Object(
            ms.iter().map(|m| (m.key.clone(), to_value(&m.value))).collect(),
        ),
    }
}

fn doc(text: &str) -> Json {
    from_value(&serde_json::from_str(text).expect("valid JSON"))
}

fn value(text: &str) -> Value {
    serde_json::from_str(text).expect("valid JSON")
}

fn members(text: &str) -> Vec<Member> {
    match doc(text) {
        Json::Object(ms) => ms,
        _ => panic!("not an object"),
    }
}

fn req(condition: &str, over: &str) -> PutReq {
    PutReq { context: members(condition), override_: members(over) }
}

fn dim(name: &str, priority: i32) -> Dimension {
    Dimension { name: name.to_string(), priority }
}

fn default(key: &str, value: &str, schema: &str) -> DefaultEntry {
    DefaultEntry { key: key.to_string(), value: doc(value), schema: doc(schema) }
}

fn registry() -> Registry {
    Registry::new(
        vec![dim("country", 2), dim("tier", 5)],
        vec![
            default("fee", "10", r#"{"type":"integer"}"#),
            default("rate", "1", r#"{"type":"integer"}"#),
            default("a", "0", r#"{"type":["integer","null"]}"#),
            default("b", "0", r#"{"type":["integer","null"]}"#),
        ],
    )
    .expect("valid dimensions")
}

fn user() -> String {
    "admin@example.com".to_string()
}

const IN_GOLD: &str = r#"{"and":[{"==":[{"var":"country"},"IN"]},{"==":[{"var":"tier"},"gold"]}]}"#;
const IN_ONLY: &str = r#"{"==":[{"var":"country"},"IN"]}"#;

fn config_of(reg: &Registry, ctx: &str) -> Value {
    to_value(&reg.resolve(&members(ctx), &None).config)
}

#[test]
fn priority_sum_scenario() {
    let mut reg = registry();
    let resp = reg.put(&req(IN_GOLD, r#"{"fee":0}"#), 1, &user()).unwrap();
    assert_eq!(resp.priority, 7);
    let config = config_of(&reg, r#"{"country":"IN","tier":"gold"}"#);
    assert_eq!(config["fee"], Value::from(0));
}

#[test]
fn non_match_scenario() {
    let mut reg = registry();
    reg.put(&req(IN_GOLD, r#"{"fee":0}"#), 1, &user()).unwrap();
    let config = config_of(&reg, r#"{"country":"US","tier":"gold"}"#);
    assert_eq!(config["fee"], Value::from(10));
}

#[test]
fn overlap_ordering_scenario() {
    let mut reg = registry();
    let a = reg.put(&req(IN_ONLY, r#"{"fee":5}"#), 1, &user()).unwrap();
    let b = reg.put(&req(IN_GOLD, r#"{"fee":0}"#), 2, &user()).unwrap();
    assert_eq!(a.priority, 2);
    assert_eq!(b.priority, 7);
    let res = reg.resolve(&members(r#"{"country":"IN","tier":"gold"}"#), &None);
    assert_eq!(to_value(&res.config)["fee"], Value::from(0));
    let order: Vec<String> = res.contexts.iter().map(|c| c.id.clone()).collect();
    assert_eq!(order, vec![a.context_id.clone(), b.context_id.clone()]);
    assert_eq!(res.overrides.len(), 2);
    let only_in = reg.resolve(&members(r#"{"country":"IN","tier":"silver"}"#), &None);
    assert_eq!(to_value(&only_in.config)["fee"], Value::from(5));
}

#[test]
fn upsert_merge_scenario() {
    let mut reg = registry();
    let first = reg.put(&req(IN_ONLY, r#"{"a":1}"#), 1, &user()).unwrap();
    let second = reg.put(&req(IN_ONLY, r#"{"b":2}"#), 2, &user()).unwrap();
    assert_eq!(first.context_id, second.context_id);
    assert_ne!(first.override_id, second.override_id);
    assert_eq!(reg.contexts.len(), 1);
    let row = reg.get_context(&first.context_id).unwrap();
    assert_eq!(to_value(&row.override_), value(r#"{"a":1,"b":2}"#));
    reg.put(&req(IN_ONLY, r#"{"b":null}"#), 3, &user()).unwrap();
    let row = reg.get_context(&first.context_id).unwrap();
    assert_eq!(to_value(&row.override_), value(r#"{"a":1}"#));
}

#[test]
fn bulk_atomicity_scenario() {
    let mut reg = registry();
    let actions = vec![
        ContextAction::Put(req(IN_ONLY, r#"{"fee":5}"#)),
        ContextAction::Put(req(IN_GOLD, r#"{"fee":"free"}"#)),
    ];
    let err = reg.bulk_operations(&actions, 1, &user()).unwrap_err();
    assert_eq!(err.kind, ErrorKind::SchemaValidation);
    assert_eq!(err.subject, "fee");
    assert!(reg.contexts.is_empty());
}

#[test]
fn bulk_applies_all_in_order() {
    let mut reg = registry();
    let first = reg.put(&req(IN_ONLY, r#"{"fee":5}"#), 1, &user()).unwrap();
    let actions = vec![
        ContextAction::Put(req(IN_GOLD, r#"{"fee":0}"#)),
        ContextAction::Delete(first.context_id.clone()),
    ];
    let out = reg.bulk_operations(&actions, 2, &user()).unwrap();
    assert_eq!(out.len(), 2);
    assert!(matches!(&out[0], BulkResponse::Put(r) if r.priority == 7));
    assert!(matches!(&out[1], BulkResponse::Delete(id) if *id == first.context_id));
    assert_eq!(reg.contexts.len(), 1);
}

#[test]
fn bulk_failed_delete_rolls_back() {
    let mut reg = registry();
    let first = reg.put(&req(IN_ONLY, r#"{"fee":5}"#), 1, &user()).unwrap();
    let actions = vec![
        ContextAction::Delete(first.context_id.clone()),
        ContextAction::Delete("missing".to_string()),
    ];
    let err = reg.bulk_operations(&actions, 2, &user()).unwrap_err();
    assert_eq!(err.kind, ErrorKind::NotFound);
    assert_eq!(reg.contexts.len(), 1);
    assert!(reg.get_context(&first.context_id).is_ok());
}

#[test]
fn move_into_occupied_scenario() {
    let mut reg = registry();
    let gold = r#"{"==":[{"var":"tier"},"gold"]}"#;
    let one = reg.put(&req(IN_ONLY, r#"{"fee":5}"#), 1, &user()).unwrap();
    let two = reg.put(&req(gold, r#"{"fee":1,"rate":2}"#), 2, &user()).unwrap();
    let moved = reg.move_context(&one.context_id, &req(gold, r#"{"fee":3}"#), 3, &user()).unwrap();
    assert_eq!(moved.context_id, two.context_id);
    assert_ne!(moved.override_id, two.override_id);
    assert!(reg.get_context(&one.context_id).is_err());
    assert_eq!(reg.contexts.len(), 1);
    let row = reg.get_context(&two.context_id).unwrap();
    assert_eq!(to_value(&row.override_), value(r#"{"fee":3,"rate":2}"#));
    let expected_id = blake3::hash(br#"{"fee":3,"rate":2}"#).to_string();
    assert_eq!(row.override_id, expected_id);
    assert_eq!(moved.override_id, expected_id);
}

#[test]
fn move_to_free_condition_rekeys() {
    let mut reg = registry();
    let one = reg.put(&req(IN_ONLY, r#"{"fee":5}"#), 1, &user()).unwrap();
    let moved = reg.move_context(&one.context_id, &req(IN_GOLD, r#"{"fee":4}"#), 2, &user()).unwrap();
    assert_ne!(moved.context_id, one.context_id);
    assert_eq!(moved.priority, 7);
    assert!(reg.get_context(&one.context_id).is_err());
    let config = config_of(&reg, r#"{"country":"IN","tier":"gold"}"#);
    assert_eq!(config["fee"], Value::from(4));
    let config = config_of(&reg, r#"{"country":"IN","tier":"silver"}"#);
    assert_eq!(config["fee"], Value::from(10));
}

#[test]
fn move_of_unknown_id_is_not_found() {
    let mut reg = registry();
    let err = reg.move_context(&"nope".to_string(), &req(IN_ONLY, r#"{"fee":5}"#), 1, &user()).unwrap_err();
    assert_eq!(err.kind, ErrorKind::NotFound);
    assert_eq!(err.subject, "nope");
}

#[test]
fn context_id_is_blake3_of_compact_condition() {
    let mut reg = registry();
    let resp = reg.put(&req(IN_ONLY, r#"{"fee":5}"#), 1, &user()).unwrap();
    assert_eq!(resp.context_id, blake3::hash(IN_ONLY.as_bytes()).to_string());
    assert_eq!(resp.override_id, blake3::hash(br#"{"fee":5}"#).to_string());
    assert_eq!(resp.context_id.len(), 64);
}

#[test]
fn condition_without_dimension_is_rejected() {
    let mut reg = registry();
    let err = reg.put(&req(r#"{"==":[1,1]}"#, r#"{"fee":5}"#), 1, &user()).unwrap_err();
    assert_eq!(err.kind, ErrorKind::NoDimensionInContext);
}

#[test]
fn unknown_dimension_is_rejected() {
    let mut reg = registry();
    let err = reg.put(&req(r#"{"==":[{"var":"city"},"x"]}"#, r#"{"fee":5}"#), 1, &user()).unwrap_err();
    assert_eq!(err.kind, ErrorKind::UnknownDimension);
    assert_eq!(err.subject, "city");
}

#[test]
fn non_string_var_is_malformed() {
    let mut reg = registry();
    let err = reg.put(&req(r#"{"==":[{"var":5},"x"]}"#, r#"{"fee":5}"#), 1, &user()).unwrap_err();
    assert_eq!(err.kind, ErrorKind::MalformedPredicate);
}

#[test]
fn unknown_override_key_is_rejected() {
    let mut reg = registry();
    let err = reg.put(&req(IN_ONLY, r#"{"colour":"red"}"#), 1, &user()).unwrap_err();
    assert_eq!(err.kind, ErrorKind::UnknownOverrideKey);
    assert_eq!(err.subject, "colour");
}

#[test]
fn override_is_checked_before_condition() {
    let mut reg = registry();
    let err = reg.put(&req(r#"{"==":[1,1]}"#, r#"{"colour":"red"}"#), 1, &user()).unwrap_err();
    assert_eq!(err.kind, ErrorKind::UnknownOverrideKey);
}

#[test]
fn bad_schema_is_reported() {
    let mut reg = Registry::new(
        vec![dim("country", 2)],
        vec![default("fee", "10", r#"{"type":"no-such-type"}"#)],
    )
    .unwrap();
    let err = reg.put(&req(IN_ONLY, r#"{"fee":5}"#), 1, &user()).unwrap_err();
    assert_eq!(err.kind, ErrorKind::BadSchema);
    assert_eq!(err.subject, "fee");
}

#[test]
fn schema_violation_is_reported() {
    let mut reg = registry();
    let err = reg.put(&req(IN_ONLY, r#"{"fee":"free"}"#), 1, &user()).unwrap_err();
    assert_eq!(err.kind, ErrorKind::SchemaValidation);
    assert_eq!(err.subject, "fee");
}

#[test]
fn delete_removes_and_reports_missing() {
    let mut reg = registry();
    let one = reg.put(&req(IN_ONLY, r#"{"fee":5}"#), 1, &user()).unwrap();
    assert!(reg.delete_context(&one.context_id).is_ok());
    let err = reg.delete_context(&one.context_id).unwrap_err();
    assert_eq!(err.kind, ErrorKind::NotFound);
    assert_eq!(err.subject, one.context_id);
}

#[test]
fn round_trip_of_put_and_get() {
    let mut reg = registry();
    let one = reg.put(&req(IN_GOLD, r#"{"fee":0,"rate":3}"#), 42, &user()).unwrap();
    let row = reg.get_context(&one.context_id).unwrap();
    assert_eq!(to_value(&row.condition), value(IN_GOLD));
    assert_eq!(to_value(&row.override_), value(r#"{"fee":0,"rate":3}"#));
    assert_eq!(row.priority, 7);
    assert_eq!(row.created_at, 42);
    assert_eq!(row.created_by, user());
}

#[test]
fn repeated_priority_counts_twice() {
    let mut reg = registry();
    let cond = r#"{"or":[{"==":[{"var":"tier"},"gold"]},{"==":[{"var":"tier"},"silver"]}]}"#;
    let resp = reg.put(&req(cond, r#"{"fee":1}"#), 1, &user()).unwrap();
    assert_eq!(resp.priority, 10);
}

#[test]
fn priority_overflow_is_reported() {
    let mut reg = Registry::new(vec![dim("big", i32::MAX)], vec![default("fee", "1", "{}")]).unwrap();
    let cond = r#"{"and":[{"==":[{"var":"big"},1]},{"==":[{"var":"big"},2]}]}"#;
    let err = reg.put(&req(cond, r#"{"fee":1}"#), 1, &user()).unwrap_err();
    assert_eq!(err.kind, ErrorKind::PriorityOverflow);
}

#[test]
fn registry_rejects_bad_dimensions() {
    assert!(Registry::new(vec![dim("a", 0)], vec![]).is_none());
    assert!(Registry::new(vec![dim("a", 1), dim("a", 2)], vec![]).is_none());
    assert!(Registry::new(vec![dim("a", 1), dim("b", 2)], vec![]).is_some());
}

#[test]
fn list_pages_by_creation_time() {
    let mut reg = registry();
    let late = reg.put(&req(IN_ONLY, r#"{"fee":5}"#), 30, &user()).unwrap();
    let early = reg.put(&req(IN_GOLD, r#"{"fee":0}"#), 10, &user()).unwrap();
    let mid = reg.put(&req(r#"{"==":[{"var":"tier"},"gold"]}"#, r#"{"fee":1}"#), 20, &user()).unwrap();
    let all = reg.list_contexts(None, None).unwrap();
    let ids: Vec<String> = all.iter().map(|r| r.id.clone()).collect();
    assert_eq!(ids, vec![early.context_id.clone(), mid.context_id.clone(), late.context_id.clone()]);
    let second = reg.list_contexts(Some(2), Some(2)).unwrap();
    assert_eq!(second.len(), 1);
    assert_eq!(second[0].id, late.context_id);
    assert!(reg.list_contexts(Some(5), Some(2)).unwrap().is_empty());
}

#[test]
fn list_rejects_bad_pagination() {
    let reg = registry();
    let err = reg.list_contexts(Some(0), None).unwrap_err();
    assert_eq!(err.kind, ErrorKind::BadPagination);
    assert_eq!(err.subject, "page");
    let err = reg.list_contexts(Some(1), Some(0)).unwrap_err();
    assert_eq!(err.kind, ErrorKind::BadPagination);
    assert_eq!(err.subject, "size");
}

#[test]
fn resolve_filter_narrows_contexts() {
    let mut reg = registry();
    reg.put(&req(IN_ONLY, r#"{"fee":5}"#), 1, &user()).unwrap();
    reg.put(&req(r#"{"==":[{"var":"tier"},"gold"]}"#, r#"{"rate":9}"#), 2, &user()).unwrap();
    let ctx = members(r#"{"country":"IN","tier":"gold"}"#);
    let all = reg.resolve(&ctx, &None);
    assert_eq!(all.contexts.len(), 2);
    let only = reg.resolve(&ctx, &Some("country".to_string()));
    assert_eq!(only.contexts.len(), 1);
    assert_eq!(to_value(&only.config), value(r#"{"fee":5,"rate":1,"a":0,"b":0}"#));
}

#[test]
fn resolve_without_contexts_is_default() {
    let reg = registry();
    let res = reg.resolve(&members("{}"), &None);
    assert_eq!(to_value(&res.config), value(r#"{"fee":10,"rate":1,"a":0,"b":0}"#));
    assert!(res.contexts.is_empty());
    assert!(res.overrides.is_empty());
}

fn create(value: &str, schema: &str) -> CreateReq {
    CreateReq { value: doc(value), schema: members(schema) }
}

#[test]
fn upsert_default_adds_entry() {
    let mut reg = registry();
    reg.upsert_default(&"limit".to_string(), create("5", r#"{"type":"integer"}"#)).unwrap();
    assert_eq!(reg.defaults.len(), 5);
    assert_eq!(config_of(&reg, "{}")["limit"], Value::from(5));
    reg.upsert_default(&"limit".to_string(), create("6", r#"{"type":"integer"}"#)).unwrap();
    assert_eq!(reg.defaults.len(), 5);
    assert_eq!(config_of(&reg, "{}")["limit"], Value::from(6));
}

#[test]
fn upsert_default_rejects_bad_input() {
    let mut reg = registry();
    let err = reg.upsert_default(&"limit".to_string(), create("5", r#"{"type":"no-such-type"}"#)).unwrap_err();
    assert_eq!(err.kind, ErrorKind::BadSchema);
    let err = reg.upsert_default(&"limit".to_string(), create(r#""x""#, r#"{"type":"integer"}"#)).unwrap_err();
    assert_eq!(err.kind, ErrorKind::SchemaValidation);
    assert_eq!(err.subject, "limit");
    assert_eq!(reg.defaults.len(), 4);
}

#[test]
fn upsert_default_keeps_stored_overrides_valid() {
    let mut reg = registry();
    reg.put(&req(IN_ONLY, r#"{"fee":5}"#), 1, &user()).unwrap();
    let err = reg.upsert_default(&"fee".to_string(), create(r#""ten""#, r#"{"type":"string"}"#)).unwrap_err();
    assert_eq!(err.kind, ErrorKind::SchemaValidation);
    assert_eq!(config_of(&reg, "{}")["fee"], Value::from(10));
    reg.upsert_default(&"fee".to_string(), create("12", r#"{"type":"integer","minimum":0}"#)).unwrap();
    assert_eq!(config_of(&reg, "{}")["fee"], Value::from(12));
}

#[test]
fn create_dimension_extends_conditions() {
    let mut reg = registry();
    reg.create_dimension("city".to_string(), 3).unwrap();
    let resp = reg.put(&req(r#"{"==":[{"var":"city"},"Pune"]}"#, r#"{"fee":2}"#), 1, &user()).unwrap();
    assert_eq!(resp.priority, 3);
    let err = reg.create_dimension("city".to_string(), 4).unwrap_err();
    assert_eq!(err.kind, ErrorKind::InvalidDimension);
    let err = reg.create_dimension("zone".to_string(), 0).unwrap_err();
    assert_eq!(err.kind, ErrorKind::InvalidDimension);
    assert_eq!(reg.dimensions.len(), 3);
}

#[test]
fn delete_dimension_only_when_unreferenced() {
    let mut reg = registry();
    reg.put(&req(IN_ONLY, r#"{"fee":5}"#), 1, &user()).unwrap();
    let err = reg.delete_dimension(&"country".to_string()).unwrap_err();
    assert_eq!(err.kind, ErrorKind::DimensionInUse);
    assert_eq!(err.subject, "country");
    let err = reg.delete_dimension(&"planet".to_string()).unwrap_err();
    assert_eq!(err.kind, ErrorKind::NotFound);
    reg.delete_dimension(&"tier".to_string()).unwrap();
    assert_eq!(reg.dimensions.len(), 1);
    let err = reg.put(&req(IN_GOLD, r#"{"fee":0}"#), 2, &user()).unwrap_err();
    assert_eq!(err.kind, ErrorKind::UnknownDimension);
    assert_eq!(err.subject, "tier");
}

#[test]
fn delete_default_only_when_unused() {
    let mut reg = registry();
    reg.put(&req(IN_ONLY, r#"{"fee":5}"#), 1, &user()).unwrap();
    let err = reg.delete_default(&"fee".to_string()).unwrap_err();
    assert_eq!(err.kind, ErrorKind::KeyInUse);
    assert_eq!(err.subject, "fee");
    let err = reg.delete_default(&"colour".to_string()).unwrap_err();
    assert_eq!(err.kind, ErrorKind::NotFound);
    reg.delete_default(&"rate".to_string()).unwrap();
    assert_eq!(reg.defaults.len(), 3);
    assert_eq!(config_of(&reg, "{}"), value(r#"{"fee":10,"a":0,"b":0}"#));
    let err = reg.put(&req(IN_ONLY, r#"{"rate":5}"#), 2, &user()).unwrap_err();
    assert_eq!(err.kind, ErrorKind::UnknownOverrideKey);
}

#[test]
fn schema_with_reference_is_refused() {
    let mut reg = registry();
    let err = reg.upsert_default(&"loop".to_string(), create("1", r##"{"$ref":"#"}"##)).unwrap_err();
    assert_eq!(err.kind, ErrorKind::SchemaReference);
    assert_eq!(err.subject, "loop");
    let err = reg
        .upsert_default(&"esc".to_string(), create("1", r#"{"description":"\u0001"}"#))
        .unwrap_err();
    assert_eq!(err.kind, ErrorKind::SchemaReference);
    assert_eq!(reg.defaults.len(), 4);
    let bad = Registry::new(vec![dim("country", 2)], vec![default("fee", "1", r##"{"$ref":"#"}"##)]);
    assert!(bad.is_none());
}
