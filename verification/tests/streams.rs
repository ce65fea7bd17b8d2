use serde_json::Value;
use skagedal_tools::logs::{extract_exec, jsonify_line, shell_split};

#[test]
fn passes_through_valid_json_object() {
    let line = r#"{"level":"info","msg":"hello"}"#;
    assert_eq!(jsonify_line(line), line);
}

#[test]
fn passes_through_valid_json_array() {
    let line = r#"[1,2,3]"#;
    assert_eq!(jsonify_line(line), line);
}

#[test]
fn wraps_plain_text_in_message_envelope() {
    let out = jsonify_line("just a log line");
    let parsed: Value = serde_json::from_str(&out).unwrap();
    assert_eq!(parsed["message"], "just a log line");
}

#[test]
fn wraps_empty_string() {
    let out = jsonify_line("");
    let parsed: Value = serde_json::from_str(&out).unwrap();
    assert_eq!(parsed["message"], "");
}

#[test]
fn wraps_strings_that_look_like_partial_json() {
    // A bare scalar `42` parses as valid JSON, so it passes through.
    assert_eq!(jsonify_line("42"), "42");
    // But unbalanced braces should be wrapped.
    let out = jsonify_line("{not json");
    let parsed: Value = serde_json::from_str(&out).unwrap();
    assert_eq!(parsed["message"], "{not json");
}

#[test]
fn preserves_quotes_in_wrapped_text() {
    let out = jsonify_line(r#"contains "quotes""#);
    let parsed: Value = serde_json::from_str(&out).unwrap();
    assert_eq!(parsed["message"], r#"contains "quotes""#);
}

fn argv(parts: &[&str]) -> Vec<String> {
    parts.iter().map(|s| s.to_string()).collect()
}

#[test]
fn extract_exec_with_long_flag() {
    let (rest, exec) =
        extract_exec(&argv(&["bin", "--profile", "stern", "--exec", "kubectl", "logs", "-f", "pod"]));
    assert_eq!(rest, vec!["bin", "--profile", "stern"]);
    assert_eq!(exec.unwrap(), vec!["kubectl", "logs", "-f", "pod"]);
}

#[test]
fn extract_exec_with_short_flag() {
    let (rest, exec) = extract_exec(&argv(&["bin", "-e", "stern", "--output", "json", "app"]));
    assert_eq!(rest, vec!["bin"]);
    assert_eq!(exec.unwrap(), vec!["stern", "--output", "json", "app"]);
}

#[test]
fn extract_exec_with_equals_form() {
    let (_, exec) = extract_exec(&argv(&["bin", "--exec=foo", "bar", "baz"]));
    assert_eq!(exec.unwrap(), vec!["foo", "bar", "baz"]);
}

#[test]
fn extract_exec_returns_none_when_absent() {
    let (_, exec) = extract_exec(&argv(&["bin", "--profile", "stern", "file.jsonl"]));
    assert!(exec.is_none());
}

#[test]
fn a_command_line_splits_on_whitespace() {
    assert_eq!(shell_split("  kubectl   logs -f pod "), vec!["kubectl", "logs", "-f", "pod"]);
    assert!(shell_split("   ").is_empty());
}
