use skagedal_tools::xmlpatch::EnsureError;
use skagedal_tools::xmltext::{patched_text, EnsureSpec, PatchError};

fn items_spec() -> Vec<EnsureSpec> {
    vec![EnsureSpec {
        parent: "project/component[@name='Foo']/list".to_string(),
        match_by: "@id".to_string(),
        fragments: vec![r#"<Item id="a"/>"#.to_string(), r#"<Item id="b"/>"#.to_string()],
    }]
}

const PROJECT: &str = r#"<?xml version="1.0" encoding="UTF-8"?>
<project version="4">
  <component name="Other" />
</project>"#;

#[test]
fn patched_text_adds_the_fragments() {
    let out = patched_text(Some(PROJECT), None, &items_spec()).unwrap().unwrap();
    assert!(out.starts_with("<?xml"));
    assert!(out.contains(r#"<component name="Foo">"#));
    assert!(out.contains(r#"<Item id="a" />"#));
    assert!(out.contains(r#"<Item id="b" />"#));
    assert!(out.contains(r#"<component name="Other" />"#));
    assert!(out.contains("\n  <component"));
}

#[test]
fn patching_patched_text_changes_nothing() {
    let once = patched_text(Some(PROJECT), None, &items_spec()).unwrap().unwrap();
    let twice = patched_text(Some(&once), None, &items_spec()).unwrap().unwrap();
    assert_eq!(once, twice);
}

#[test]
fn attributes_keep_their_order() {
    let text = r#"<project zeta="1" alpha="2"><component name="Foo" b="x" a="y"/></project>"#;
    let out = patched_text(Some(text), None, &Vec::new()).unwrap().unwrap();
    assert!(out.contains(r#"<project zeta="1" alpha="2">"#));
    assert!(out.contains(r#"<component name="Foo" b="x" a="y" />"#));
}

#[test]
fn a_missing_file_is_made_from_the_template() {
    let out = patched_text(None, Some("<project/>"), &items_spec()).unwrap().unwrap();
    assert!(out.contains(r#"<Item id="a" />"#));
}

#[test]
fn no_file_and_no_template_is_nothing_to_do() {
    assert_eq!(patched_text(None, None, &items_spec()), Ok(None));
}

#[test]
fn the_file_must_read_as_xml() {
    let r = patched_text(Some("<project>"), None, &items_spec());
    assert!(matches!(r, Err(PatchError::BadXml { .. })));
}

#[test]
fn a_fragment_must_read_as_xml() {
    let mut specs = items_spec();
    specs[0].fragments.push("<Item".to_string());
    match patched_text(Some(PROJECT), None, &specs) {
        Err(PatchError::BadFragment { fragment, .. }) => assert_eq!(fragment, "<Item"),
        other => panic!("unexpected {other:?}"),
    }
}

#[test]
fn ensure_errors_come_back() {
    let mut specs = items_spec();
    specs[0].parent = "workspace/list".to_string();
    assert_eq!(
        patched_text(Some(PROJECT), None, &specs),
        Err(PatchError::Ensure(EnsureError::RootMismatch {
            path_root: "workspace".to_string(),
            document_root: "project".to_string(),
        }))
    );
}

#[test]
fn a_bad_path_is_reported_before_a_bad_fragment() {
    let mut specs = items_spec();
    specs[0].parent = "workspace/list".to_string();
    specs[0].fragments.push("<Item".to_string());
    assert!(matches!(
        patched_text(Some(PROJECT), None, &specs),
        Err(PatchError::Ensure(EnsureError::RootMismatch { .. }))
    ));
}

#[test]
fn a_reading_error_carries_the_readers_message() {
    match patched_text(Some("<project>"), None, &items_spec()) {
        Err(PatchError::BadXml { cause }) => assert!(!cause.is_empty()),
        other => panic!("unexpected {other:?}"),
    }
}
