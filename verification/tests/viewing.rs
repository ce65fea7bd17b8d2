use skagedal_tools::logview::{App, ColumnState, Entry, FieldDef, SourceSpec, ViewMode};

fn s(v: &[&str]) -> Vec<String> {
    v.iter().map(|x| (*x).to_string()).collect()
}

fn field(name: &str, from: &[&str]) -> FieldDef {
    FieldDef { name: name.to_string(), from: s(from) }
}

/// The columns a viewer starts with when nothing else is configured.
fn default_fields() -> Vec<FieldDef> {
    vec![
        field("time", &["@timestamp", "timestamp", "time", "ts"]),
        field("level", &["level", "severity", "lvl"]),
        field("message", &["message", "msg"]),
    ]
}

fn make(n: usize) -> App {
    let mut app = App::new(default_fields(), None, "test".to_string());
    for i in 0..n {
        let e = Entry::parse(&format!(r#"{{"i":{i}}}"#), "message");
        app.append_entries(vec![e]);
    }
    app
}

// ---- entries ----------------------------------------------------------------

#[test]
fn parses_object() {
    let e = Entry::parse(r#"{"level":"info","msg":"hi"}"#, "message");
    assert_eq!(e.pick(&s(&["level"])), "info");
    assert_eq!(e.pick(&s(&["msg"])), "hi");
}

#[test]
fn wraps_non_json_under_default_field() {
    let e = Entry::parse("plain text", "message");
    assert_eq!(e.pick(&s(&["message"])), "plain text");
}

#[test]
fn wraps_bare_scalars_too() {
    let e = Entry::parse("42", "message");
    assert_eq!(e.pick(&s(&["message"])), "42");
}

#[test]
fn pick_falls_through_candidates() {
    let e = Entry::parse(r#"{"timestamp":"2026-01-01"}"#, "message");
    assert_eq!(e.pick(&s(&["@timestamp", "timestamp", "ts"])), "2026-01-01");
}

#[test]
fn pick_returns_empty_when_no_match() {
    let e = Entry::parse(r#"{"a":1}"#, "message");
    assert_eq!(e.pick(&s(&["b", "c"])), "");
}

#[test]
fn pick_skips_null_and_empty_string() {
    let e = Entry::parse(r#"{"a":null,"b":"","c":"yes"}"#, "message");
    assert_eq!(e.pick(&s(&["a", "b", "c"])), "yes");
}

#[test]
fn keys_preserves_insertion_order() {
    let e = Entry::parse(r#"{"z":1,"a":2,"m":3}"#, "message");
    assert_eq!(e.keys(), vec!["z", "a", "m"]);
}

#[test]
fn get_str_for_complex_values() {
    let e = Entry::parse(r#"{"obj":{"k":1},"n":42}"#, "message");
    assert_eq!(e.get_str("n").unwrap(), "42");
    let obj_str = e.get_str("obj").unwrap();
    assert!(obj_str.contains("\"k\""));
}

#[test]
fn an_object_line_is_not_wrapped_and_a_stderr_line_is_marked() {
    let e = Entry::parse(r#"{"a":true}"#, "message");
    assert!(!e.wrapped);
    assert!(!e.is_stderr);
    assert_eq!(e.get_str("a").unwrap(), "true");
    let w = Entry::parse_stderr("boom", "message");
    assert!(w.wrapped);
    assert!(w.is_stderr);
    assert_eq!(w.raw, "boom");
    assert_eq!(w.keys(), vec!["message"]);
}

// ---- the viewer -------------------------------------------------------------

#[test]
fn navigation_clamps_at_bounds() {
    let mut app = make(3);
    app.move_up();
    assert_eq!(app.selected, 0);
    app.move_down();
    app.move_down();
    app.move_down();
    assert_eq!(app.selected, 2);
}

#[test]
fn follow_pins_to_latest_entry() {
    let mut app = make(0);
    app.toggle_follow();
    app.append_entries(vec![Entry::parse(r#"{"i":0}"#, "message")]);
    app.append_entries(vec![Entry::parse(r#"{"i":1}"#, "message")]);
    assert_eq!(app.selected, 1);
}

#[test]
fn follow_breaks_on_navigation() {
    let mut app = make(3);
    app.toggle_follow();
    assert_eq!(app.selected, 2);
    app.move_up();
    assert!(!app.follow);
    assert_eq!(app.selected, 1);
}

#[test]
fn unknown_keys_become_hidden_columns() {
    let mut app = make(0);
    let initial = app.columns.len();
    app.append_entries(vec![Entry::parse(r#"{"newkey":"v"}"#, "message")]);
    assert_eq!(app.columns.len(), initial + 1);
    let added = app.columns.last().unwrap();
    assert_eq!(added.name, "newkey");
    assert!(!added.visible);
}

#[test]
fn fields_menu_swap_moves_column_and_cursor() {
    let mut app = make(0);
    let names_before: Vec<_> = app.columns.iter().map(|c| c.name.clone()).collect();
    app.open_fields_menu();
    app.fields_menu_move(1);
    app.fields_menu_swap(-1);
    let names_after: Vec<_> = app.columns.iter().map(|c| c.name.clone()).collect();
    assert_eq!(names_after[0], names_before[1]);
    assert_eq!(names_after[1], names_before[0]);
    assert_eq!(app.fields_menu.cursor, 0);
}

#[test]
fn detail_toggle_for_existing_column() {
    let mut app = make(1);
    app.open_detail();
    app.detail_move_down();
    app.detail_toggle_column();
    let i_col = app.columns.iter().find(|c| c.name == "i").unwrap();
    assert!(i_col.visible);
    app.detail_toggle_column();
    let i_col = app.columns.iter().find(|c| c.name == "i").unwrap();
    assert!(!i_col.visible);
}

#[test]
fn detail_field_is_none_on_header_row() {
    let mut app = make(1);
    app.open_detail();
    assert!(app.detail_field().is_none());
    app.detail_move_down();
    assert!(app.detail_field().is_some());
}

#[test]
fn filter_narrows_displayed_count() {
    let mut app = make(0);
    app.append_entries(vec![
        Entry::parse(r#"{"level":"info","message":"hello"}"#, "message"),
        Entry::parse(r#"{"level":"error","message":"oops"}"#, "message"),
        Entry::parse(r#"{"level":"info","message":"yo"}"#, "message"),
    ]);
    assert_eq!(app.displayed_count(), 3);
    app.set_filter("err".into());
    assert_eq!(app.displayed_count(), 1);
    assert_eq!(app.filtered_indices(), vec![1]);
}

#[test]
fn move_down_skips_non_matching_entries() {
    let mut app = make(0);
    app.append_entries(vec![
        Entry::parse(r#"{"message":"alpha"}"#, "message"),
        Entry::parse(r#"{"message":"beta"}"#, "message"),
        Entry::parse(r#"{"message":"alphabet"}"#, "message"),
    ]);
    app.set_filter("alph".into());
    assert_eq!(app.selected, 0);
    app.move_down();
    assert_eq!(app.selected, 2);
    app.move_down();
    assert_eq!(app.selected, 2);
    app.move_up();
    assert_eq!(app.selected, 0);
}

#[test]
fn follow_pins_to_filtered_tail() {
    let mut app = make(0);
    app.set_filter("info".into());
    app.toggle_follow();
    app.append_entries(vec![Entry::parse(r#"{"level":"error"}"#, "message")]);
    app.append_entries(vec![Entry::parse(r#"{"level":"info"}"#, "message")]);
    assert_eq!(app.selected, 1);
}

#[test]
fn filter_clears_with_filter_clear() {
    let mut app = make(0);
    app.append_entries(vec![Entry::parse(r#"{"level":"info"}"#, "message")]);
    app.set_filter("zzz".into());
    assert_eq!(app.displayed_count(), 0);
    app.filter_clear();
    assert_eq!(app.displayed_count(), 1);
}

#[test]
fn filter_kill_word_removes_last_word() {
    let mut app = make(0);
    app.set_filter("foo bar".into());
    app.filter_kill_word();
    assert_eq!(app.filter_text, "foo ");
}

#[test]
fn level_for_uses_level_column_when_present() {
    let fields = vec![field("level", &["severity", "level"])];
    let app = App::new(fields, None, "test".into());
    let e = Entry::parse(r#"{"severity":"WARN"}"#, "message");
    assert_eq!(app.level_for(&e), "WARN");
}

#[test]
fn level_for_falls_back_to_canonical_keys() {
    let app = App::new(Vec::new(), None, "test".into());
    let e = Entry::parse(r#"{"lvl":"ERROR"}"#, "message");
    assert_eq!(app.level_for(&e), "ERROR");
}

#[test]
fn color_key_for_returns_value_when_field_set() {
    let app = App::new(default_fields(), Some("pod".into()), "test".into());
    let e = Entry::parse(r#"{"pod":"p1"}"#, "message");
    assert_eq!(app.color_key_for(&e).as_deref(), Some("p1"));
}

#[test]
fn color_key_for_returns_none_when_unset_or_empty() {
    let app = App::new(default_fields(), None, "test".into());
    let e = Entry::parse(r#"{"pod":"p1"}"#, "message");
    assert!(app.color_key_for(&e).is_none());
    let app = App::new(default_fields(), Some("pod".into()), "test".into());
    let e = Entry::parse(r#"{"other":"v"}"#, "message");
    assert!(app.color_key_for(&e).is_none());
}

#[test]
fn move_page_uses_list_page_size() {
    let mut app = make(50);
    app.list_page_size = 10;
    app.move_page(1);
    assert_eq!(app.selected, 10);
    app.move_page(1);
    assert_eq!(app.selected, 20);
    app.move_page(-1);
    assert_eq!(app.selected, 10);
    app.move_page(99);
    assert_eq!(app.selected, 49);
}

#[test]
fn row_cells_uses_only_visible_columns() {
    let mut app = make(0);
    for c in &mut app.columns {
        c.visible = false;
    }
    let e = Entry::parse(r#"{"a":1}"#, "message");
    assert!(app.row_cells(&e).is_empty());
}

#[test]
fn column_max_widths_grow_with_appended_entries() {
    let mut app = make(0);
    app.columns.push(ColumnState { name: "msg".into(), from: vec!["msg".into()], visible: true });
    app.column_max_widths.push("msg".chars().count());
    let initial = *app.column_max_widths.last().unwrap();
    app.append_entries(vec![Entry::parse(r#"{"msg":"hello world!"}"#, "message")]);
    assert!(*app.column_max_widths.last().unwrap() > initial);
    assert_eq!(*app.column_max_widths.last().unwrap(), "hello world!".len());
}

#[test]
fn column_max_widths_track_column_swaps() {
    let mut app = make(0);
    app.columns.clear();
    app.column_max_widths.clear();
    app.columns.push(ColumnState { name: "a".into(), from: vec!["a".into()], visible: true });
    app.column_max_widths.push(1);
    app.columns.push(ColumnState { name: "b".into(), from: vec!["b".into()], visible: true });
    app.column_max_widths.push(2);
    app.open_fields_menu();
    app.fields_menu_swap(1);
    assert_eq!(app.columns[0].name, "b");
    assert_eq!(app.column_max_widths[0], 2);
    assert_eq!(app.columns[1].name, "a");
    assert_eq!(app.column_max_widths[1], 1);
}

#[test]
fn filter_cache_extends_on_append() {
    let mut app = make(0);
    app.append_entries(vec![Entry::parse(r#"{"message":"alpha"}"#, "message")]);
    app.set_filter("bet".into());
    assert_eq!(app.displayed_count(), 0);
    app.append_entries(vec![Entry::parse(r#"{"message":"beta"}"#, "message")]);
    assert_eq!(app.displayed_count(), 1);
    assert_eq!(app.displayed_at(0), Some(1));
}

#[test]
fn position_in_displayed_uses_binary_search() {
    let mut app = make(0);
    for i in 0..10 {
        app.append_entries(vec![Entry::parse(&format!(r#"{{"message":"x{i}"}}"#), "message")]);
    }
    app.set_filter("x".into());
    assert_eq!(app.position_in_displayed(7), Some(7));
    assert_eq!(app.position_in_displayed(99), None);
}

#[test]
fn a_new_viewer_has_a_column_per_field_and_starts_in_the_list() {
    let app = App::new(vec![field("msg", &[])], None, "src".into());
    assert_eq!(app.columns.len(), 1);
    assert_eq!(app.columns[0].from, vec!["msg"]);
    assert!(app.columns[0].visible);
    assert_eq!(app.column_max_widths, vec![3]);
    assert_eq!(app.view, ViewMode::List);
    assert_eq!(app.source_label, "src");
}

#[test]
fn the_detail_view_walks_the_entries_shown() {
    let mut app = make(3);
    app.open_detail();
    assert_eq!(app.view, ViewMode::Detail);
    assert_eq!(app.detail_rows(), 2);
    app.detail_move_down();
    app.detail_move_down();
    assert_eq!(app.detail.row, 1);
    app.detail_next_entry();
    assert_eq!(app.selected, 1);
    app.detail_prev_entry();
    app.detail_prev_entry();
    assert_eq!(app.selected, 0);
    app.detail_move_up();
    app.detail_move_up();
    assert_eq!(app.detail.row, 0);
    app.close_detail();
    assert_eq!(app.view, ViewMode::List);
}

#[test]
fn the_detail_field_is_the_key_and_its_value() {
    let mut app = make(0);
    app.append_entries(vec![Entry::parse(r#"{"a":"x","b":null}"#, "message")]);
    app.open_detail();
    app.detail_move_down();
    assert_eq!(app.detail_field(), Some(("a".to_string(), "x".to_string())));
    app.detail_move_down();
    assert_eq!(app.detail_field(), Some(("b".to_string(), String::new())));
}

#[test]
fn the_filter_takes_typed_characters_and_backspace() {
    let mut app = make(0);
    app.append_entries(vec![
        Entry::parse(r#"{"message":"alpha"}"#, "message"),
        Entry::parse(r#"{"message":"beta"}"#, "message"),
    ]);
    app.enter_filter();
    assert!(app.filtering);
    app.filter_push('b');
    assert_eq!(app.filter_text, "b");
    assert_eq!(app.filtered_indices(), vec![1]);
    assert_eq!(app.selected, 1);
    app.filter_backspace();
    assert_eq!(app.filter_text, "");
    assert_eq!(app.displayed_count(), 2);
    app.exit_filter();
    assert!(!app.filtering);
}

#[test]
fn the_fields_menu_stays_on_its_columns() {
    let mut app = make(0);
    app.open_fields_menu();
    assert_eq!(app.view, ViewMode::FieldsMenu);
    app.fields_menu_move(-5);
    assert_eq!(app.fields_menu.cursor, 0);
    app.fields_menu_move(99);
    assert_eq!(app.fields_menu.cursor, 2);
    app.fields_menu_toggle();
    assert!(!app.columns[2].visible);
    app.fields_menu_swap(1);
    assert_eq!(app.fields_menu.cursor, 2);
    app.close_fields_menu();
    assert_eq!(app.view, ViewMode::List);
}

#[test]
fn visible_columns_and_widths_skip_hidden_ones() {
    let mut app = make(0);
    app.columns[1].visible = false;
    let names: Vec<_> = app.visible_columns().iter().map(|c| c.name.clone()).collect();
    assert_eq!(names, vec!["time", "message"]);
    assert_eq!(app.visible_widths(), vec![4, 7]);
    let e = Entry::parse(r#"{"ts":"t0","message":"m"}"#, "message");
    assert_eq!(app.row_cells(&e), vec!["t0", "m"]);
}

#[test]
fn jumps_and_quitting() {
    let mut app = make(4);
    app.jump_bottom();
    assert_eq!(app.selected, 3);
    app.jump_top();
    assert_eq!(app.selected, 0);
    assert!(app.selected_entry().is_some());
    app.set_status("saved".to_string());
    assert_eq!(app.status_msg.as_deref(), Some("saved"));
    app.quit();
    assert!(app.should_quit);
}

// ---- sources ----------------------------------------------------------------

#[test]
fn label_for_stdin() {
    assert_eq!(SourceSpec::Stdin.label(), "stdin");
}

#[test]
fn label_for_file() {
    let spec = SourceSpec::File("/tmp/x.jsonl".to_string());
    assert_eq!(spec.label(), "/tmp/x.jsonl");
}

#[test]
fn label_for_command_quotes_args() {
    let spec = SourceSpec::Command(s(&["kubectl", "logs", "-f", "my pod"]));
    assert_eq!(spec.label(), "$ kubectl logs -f \"my pod\"");
}

#[test]
fn a_quoted_argument_escapes_its_double_quotes() {
    let spec = SourceSpec::Command(s(&["echo", "say \"hi\""]));
    assert_eq!(spec.label(), "$ echo \"say \\\"hi\\\"\"");
}
