use serde_json::Value;
use skagedal_tools::logview::{Entry, FieldDef};
use skagedal_tools::webstate::{entry_payload, meta_payload, ServerState};

/// The columns a viewer starts with when nothing else is configured.
fn standard_fields() -> Vec<FieldDef> {
    let field = |name: &str, from: &[&str]| FieldDef {
        name: name.to_string(),
        from: from.iter().map(|k| k.to_string()).collect(),
    };
    vec![
        field("time", &["@timestamp", "timestamp", "time", "ts"]),
        field("level", &["level", "severity", "lvl"]),
        field("message", &["message", "msg"]),
    ]
}

#[test]
fn meta_payload_matches_react_contract() {
    let json = meta_payload(&standard_fields(), "msg", "stdin");
    let value: Value = serde_json::from_str(&json).unwrap();
    assert_eq!(value["sourceLabel"], "stdin");
    assert_eq!(value["config"]["defaultField"], "msg");
    assert_eq!(value["config"]["fields"][0]["name"], "time");
    assert!(value["config"]["fields"][0]["from"].is_array());
}

#[test]
fn entry_payload_has_id_raw_data_wrapped() {
    let entry = Entry::parse(r#"{"a":1}"#, "message");
    let json = entry_payload(&entry, 7);
    let value: Value = serde_json::from_str(&json).unwrap();
    assert_eq!(value["id"], 7);
    assert_eq!(value["raw"], r#"{"a":1}"#);
    assert_eq!(value["data"]["a"], 1);
    assert_eq!(value["wrapped"], false);
}

#[test]
fn entry_payload_marks_non_json_as_wrapped() {
    let entry = Entry::parse("plain text", "message");
    let json = entry_payload(&entry, 0);
    let value: Value = serde_json::from_str(&json).unwrap();
    assert_eq!(value["wrapped"], true);
    assert_eq!(value["data"]["message"], "plain text");
}

#[test]
fn push_entry_assigns_monotonic_ids_and_buffers_replay() {
    let mut state = ServerState::new(&standard_fields(), "message", "test".into());
    state.push_entry(&Entry::parse(r#"{"a":1}"#, "message"));
    state.push_entry(&Entry::parse(r#"{"a":2}"#, "message"));
    let replay = &state.replay;
    assert_eq!(replay.len(), 2);
    let v0: Value = serde_json::from_str(&replay[0]).unwrap();
    let v1: Value = serde_json::from_str(&replay[1]).unwrap();
    assert_eq!(v0["id"], 0);
    assert_eq!(v1["id"], 1);
}

#[test]
fn nested_values_and_numbers_come_back_as_json() {
    let entry = Entry::parse(r#"{"n":1.5,"o":{"k":[1,2]},"z":null,"b":true}"#, "message");
    let value: Value = serde_json::from_str(&entry_payload(&entry, 3)).unwrap();
    assert_eq!(value["data"]["n"], 1.5);
    assert_eq!(value["data"]["o"]["k"][1], 2);
    assert!(value["data"]["z"].is_null());
    assert_eq!(value["data"]["b"], true);
    assert_eq!(value["id"], 3);
}
