use skagedal_tools::xmlpatch::{
    apply_ensure_children, count_patches, eval_match, missing_reason, not_under_reason,
    patch_action, path_starts_with, starting_text, summary_line, under_any, EnsureError,
    PatchAction, PatchResult, XmlElement, XmlNode,
};
use skagedal_tools::xmlpath::{parse_attr_predicates, parse_match_by, parse_path, parse_step, strip_quotes, PathError};

#[test]
fn parses_path_with_attribute_predicates() {
    let path = parse_path("project/component[@name='Foo']/option[@name='x'][@value='y']/list").unwrap();
    assert_eq!(path.len(), 4);
    assert_eq!(path[0].tag, "project");
    assert!(path[0].attrs.is_empty());
    assert_eq!(path[1].tag, "component");
    assert_eq!(path[1].attrs, vec![("name".to_string(), "Foo".to_string())]);
    assert_eq!(
        path[2].attrs,
        vec![("name".to_string(), "x".to_string()), ("value".to_string(), "y".to_string())]
    );
}

#[test]
fn parses_match_by_own_attribute() {
    let m = parse_match_by("@name").unwrap();
    assert!(m.steps.is_empty());
    assert_eq!(m.attribute, "name");
}

#[test]
fn parses_match_by_descendant_attribute() {
    let m = parse_match_by("option/@value").unwrap();
    assert_eq!(m.steps.len(), 1);
    assert_eq!(m.steps[0].tag, "option");
    assert_eq!(m.attribute, "value");
}

#[test]
fn rejects_unsupported_predicates() {
    assert!(parse_path("foo[1]").is_err());
    assert!(parse_path("foo[@name]").is_err());
    assert!(parse_path("foo[@name=bar]").is_err());
}

#[test]
fn path_errors_say_what_is_wrong() {
    assert_eq!(parse_path(" // ").unwrap_err(), PathError::EmptyPath);
    assert_eq!(
        parse_step("[@a='b']").unwrap_err(),
        PathError::MissingTag { step: "[@a='b']".into() }
    );
    assert_eq!(
        parse_attr_predicates("[@a='b'").unwrap_err(),
        PathError::MissingClose { found: "[@a='b'".into() }
    );
    assert_eq!(
        parse_attr_predicates("x").unwrap_err(),
        PathError::ExpectedBracket { found: "x".into() }
    );
    assert_eq!(
        parse_match_by("option/value").unwrap_err(),
        PathError::NoAttribute { last: "value".into() }
    );
    assert_eq!(parse_match_by("   ").unwrap_err(), PathError::EmptyMatchBy);
}

#[test]
fn quotes_must_match() {
    let chars = |s: &str| s.chars().collect::<Vec<char>>();
    assert_eq!(strip_quotes(&chars("'a'")), Some(chars("a")));
    assert_eq!(strip_quotes(&chars("\"b\"")), Some(chars("b")));
    assert_eq!(strip_quotes(&chars("'c\"")), None);
    assert_eq!(strip_quotes(&chars("'")), None);
}

fn elem(name: &str, attrs: &[(&str, &str)], children: Vec<XmlNode>) -> XmlElement {
    XmlElement {
        prefix: None,
        namespace: None,
        namespaces: None,
        name: name.to_string(),
        attributes: attrs.iter().map(|(k, v)| (k.to_string(), v.to_string())).collect(),
        children,
    }
}

fn project() -> XmlElement {
    elem("project", &[("version", "4")], vec![])
}

fn find_child<'a>(parent: &'a XmlElement, tag: &str) -> Option<&'a XmlElement> {
    parent.children.iter().find_map(|n| match n {
        XmlNode::Element(e) if e.name == tag => Some(e),
        _ => None,
    })
}

fn elements(parent: &XmlElement) -> Vec<&XmlElement> {
    parent
        .children
        .iter()
        .filter_map(|n| match n {
            XmlNode::Element(e) => Some(e),
            _ => None,
        })
        .collect()
}

fn entry(location: &str) -> XmlElement {
    elem(
        "Entry",
        &[],
        vec![XmlNode::Element(elem("option", &[("name", "location"), ("value", location)], vec![]))],
    )
}

fn item(id: &str) -> XmlElement {
    elem("Item", &[("id", id)], vec![])
}

#[test]
fn ensure_children_creates_nested_structure() {
    let mut root = project();
    apply_ensure_children(
        &mut root,
        "project/component[@name='Foo']/option[@name='entries']/list",
        "option/@value",
        vec![entry("A"), entry("B")],
    )
    .unwrap();

    let component = find_child(&root, "component").unwrap();
    assert_eq!(component.attributes, vec![("name".to_string(), "Foo".to_string())]);
    let option = find_child(component, "option").unwrap();
    let list = find_child(option, "list").unwrap();
    assert_eq!(elements(list).len(), 2);
}

#[test]
fn ensure_children_is_idempotent() {
    let mut root = project();
    let fragments = || vec![item("a"), item("b")];
    apply_ensure_children(&mut root, "project/component[@name='Foo']/list", "@id", fragments()).unwrap();
    apply_ensure_children(&mut root, "project/component[@name='Foo']/list", "@id", fragments()).unwrap();
    let list = find_child(find_child(&root, "component").unwrap(), "list").unwrap();
    assert_eq!(elements(list).len(), 2);
    assert_eq!(elements(&root).len(), 1);
}

#[test]
fn ensure_children_appends_to_existing_list() {
    let list = elem(
        "list",
        &[],
        vec![
            XmlNode::Text("\n      ".to_string()),
            XmlNode::Element(item("existing")),
            XmlNode::Text("\n    ".to_string()),
        ],
    );
    let component = elem("component", &[("name", "Foo")], vec![XmlNode::Element(list)]);
    let mut root = elem("project", &[("version", "4")], vec![XmlNode::Element(component)]);
    apply_ensure_children(
        &mut root,
        "project/component[@name='Foo']/list",
        "@id",
        vec![item("existing"), item("new")],
    )
    .unwrap();
    let list = find_child(find_child(&root, "component").unwrap(), "list").unwrap();
    let ids: Vec<String> = elements(list)
        .iter()
        .filter_map(|e| e.attributes.iter().find(|(k, _)| k == "id").map(|(_, v)| v.clone()))
        .collect();
    assert_eq!(ids, vec!["existing", "new"]);
}

#[test]
fn rejects_path_root_mismatch() {
    let mut root = project();
    let error = apply_ensure_children(&mut root, "module/list", "@id", vec![]).unwrap_err();
    assert_eq!(
        error,
        EnsureError::RootMismatch { path_root: "module".to_string(), document_root: "project".to_string() }
    );
    // Nothing was touched.
    assert_eq!(root, project());
}

#[test]
fn the_root_must_satisfy_the_first_step() {
    let mut root = project();
    let error = apply_ensure_children(&mut root, "project[@version='5']/list", "@id", vec![]).unwrap_err();
    assert_eq!(error, EnsureError::RootPredicates { document_root: "project".to_string() });
    let error = apply_ensure_children(&mut root, "project/list", "id", vec![]).unwrap_err();
    assert!(matches!(error, EnsureError::BadMatchBy(PathError::NoAttribute { .. })));
}

#[test]
fn a_fragment_without_a_key_is_always_added() {
    let mut root = project();
    let keyless = || vec![elem("Item", &[], vec![])];
    apply_ensure_children(&mut root, "project/list", "@id", keyless()).unwrap();
    apply_ensure_children(&mut root, "project/list", "@id", keyless()).unwrap();
    assert_eq!(elements(find_child(&root, "list").unwrap()).len(), 2);
}

#[test]
fn keys_are_read_through_the_first_matching_child() {
    let e = entry("A");
    let m = parse_match_by("option/@value").unwrap();
    assert_eq!(eval_match(&e, &m).as_deref(), Some("A"));
    let m = parse_match_by("missing/@value").unwrap();
    assert_eq!(eval_match(&e, &m), None);
}

#[test]
fn a_project_is_under_a_directory_by_whole_components() {
    assert!(path_starts_with("/home/me/work/app", "/home/me/work"));
    assert!(path_starts_with("/home/me/work", "/home/me/work/"));
    assert!(!path_starts_with("/home/me/workshop", "/home/me/work"));
    assert!(!path_starts_with("home/me/work", "/home/me"));
    let prefixes = vec!["/elsewhere".to_string(), "/home/me".to_string()];
    assert!(under_any("/home/me/app", &prefixes));
    assert!(!under_any("/opt/app", &prefixes));
    assert_eq!(not_under_reason(&prefixes), "project is not under any of: /elsewhere, /home/me");
}

#[test]
fn what_a_patch_comes_to() {
    assert_eq!(starting_text(Some("<a/>"), Some("<b/>")).as_deref(), Some("<a/>"));
    assert_eq!(starting_text(None, Some("<b/>")).as_deref(), Some("<b/>"));
    assert_eq!(starting_text(None, None), None);
    assert_eq!(patch_action(Some("x"), "x", false), PatchAction::Clean);
    assert_eq!(patch_action(Some("x"), "y", true), PatchAction::WouldUpdate);
    assert_eq!(patch_action(Some("x"), "y", false), PatchAction::Write { created: false });
    assert_eq!(patch_action(None, "y", false), PatchAction::Write { created: true });
    assert_eq!(
        missing_reason("/p/.idea/x.xml"),
        "/p/.idea/x.xml does not exist and no create-if-missing template was provided"
    );
}

#[test]
fn the_summary_counts_clean_patches_as_applied() {
    let results = vec![PatchResult::Applied, PatchResult::AlreadyClean, PatchResult::Skipped("why".to_string())];
    assert_eq!(count_patches(&results), (2, 1));
    assert_eq!(summary_line(2, 1, true), "==> 2 patch(es) applied, 1 skipped (dry run)");
    assert_eq!(summary_line(0, 0, false), "==> 0 patch(es) applied, 0 skipped");
}
