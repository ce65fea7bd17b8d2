use skagedal_tools::comments::{upsert, Comment, Subject};
use skagedal_tools::config::{
    with_default_tables, BudgetSource, Settings, SourceError, Statements, TableRef, TableSource,
};

fn settings(tables: Vec<TableSource>) -> Settings {
    Settings { tables, statements: Statements::default(), marks: vec![], budgets: None }
}

fn bundled(name: &str) -> TableSource {
    TableSource { bundled: Some(name.to_string()), path: None }
}

#[test]
fn an_empty_config_still_loads_the_bundled_table() {
    let s = with_default_tables(settings(vec![]));
    let tables = s.load_tables().unwrap();
    assert_eq!(tables.len(), 1);
    assert_eq!(tables[0], TableRef::Bundled("se-common".to_string()));
}

#[test]
fn tables_keep_their_configured_order() {
    let s = with_default_tables(settings(vec![
        bundled("se-common"),
        TableSource { bundled: None, path: Some("/tmp/mine.yaml".to_string()) },
    ]));
    assert_eq!(s.tables[0].bundled.as_deref(), Some("se-common"));
    assert_eq!(s.tables[1].path.as_deref(), Some("/tmp/mine.yaml"));
    assert_eq!(
        s.load_tables().unwrap(),
        vec![TableRef::Bundled("se-common".to_string()), TableRef::Path("/tmp/mine.yaml".to_string())]
    );
}

#[test]
fn rejects_a_table_entry_that_says_both() {
    let s = settings(vec![TableSource {
        bundled: Some("se-common".to_string()),
        path: Some("/tmp/x.yaml".to_string()),
    }]);
    assert!(s.load_tables().is_err());
    assert_eq!(s.load_tables().unwrap_err(), SourceError::Both);
}

#[test]
fn a_table_entry_that_says_neither_is_refused() {
    let s = settings(vec![bundled("se-common"), TableSource { bundled: None, path: None }]);
    assert_eq!(s.load_tables().unwrap_err(), SourceError::Neither);
    assert_eq!(settings(vec![]).load_tables().unwrap_err(), SourceError::NoTables);
}

#[test]
fn reads_the_budget_directory() {
    let mut s = settings(vec![]);
    s.budgets = Some(BudgetSource { path: "/tmp/budget".to_string() });
    assert_eq!(s.budget_dir(), Some("/tmp/budget"));
    assert_eq!(settings(vec![]).budget_dir(), None);
}

#[test]
fn a_statement_name_is_looked_up_in_the_configured_directory() {
    let mut s = settings(vec![]);
    s.statements.directory = Some("~/statements".to_string());
    assert_eq!(s.resolve_statement("may.csv", false, Some("/home/me/statements")), "/home/me/statements/may.csv");
    assert_eq!(s.resolve_statement("may.csv", true, Some("/home/me/statements")), "may.csv");
    assert_eq!(s.resolve_statement("/abs/may.csv", false, Some("/home/me/statements")), "/abs/may.csv");
    assert_eq!(s.resolve_statement("sub/may.csv", false, Some("/home/me/statements")), "sub/may.csv");
    assert_eq!(settings(vec![]).resolve_statement("may.csv", false, None), "may.csv");
}

#[test]
fn statement_components_are_counted_as_paths_count_them() {
    let mut s = settings(vec![]);
    s.statements.directory = Some("~/statements".to_string());
    let d = Some("/home/me/statements");
    assert_eq!(s.resolve_statement("a/.", false, d), "/home/me/statements/a/.");
    assert_eq!(s.resolve_statement("a/./", false, d), "/home/me/statements/a/./");
    assert_eq!(s.resolve_statement("a//", false, d), "/home/me/statements/a//");
    assert_eq!(s.resolve_statement("./a", false, d), "./a");
    assert_eq!(s.resolve_statement("../a", false, d), "../a");
    assert_eq!(s.resolve_statement(".", false, d), "/home/me/statements/.");
}

fn subject(key: &str, date: &str) -> Subject {
    Subject {
        key: key.to_string(),
        account: "everyday".to_string(),
        date: date.to_string(),
        amount: "-200.00".to_string(),
        descriptor: "46700000001".to_string(),
        text: "46700000001".to_string(),
        reference: None,
    }
}

#[test]
fn upsert_adds_replaces_and_removes() {
    let all: Vec<Comment> = vec![];
    let all = upsert(all, subject("b", "2026-02-01"), "groceries", "t1");
    let all = upsert(all, subject("a", "2026-01-01"), "a jacket", "t2");
    let all = upsert(all, subject("b", "2026-02-01"), "groceries for the house", "t3");

    assert_eq!(all.len(), 2);
    // Sorted by date, and the second write to `b` replaced the first.
    assert_eq!(all[0].subject.key, "a");
    assert_eq!(all[1].comment, "groceries for the house");
    assert_eq!(all[1].updated, "t3");

    let all = upsert(all, subject("a", "2026-01-01"), "  ", "t4");
    assert_eq!(all.len(), 1);
}
