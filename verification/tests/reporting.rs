use skagedal_tools::amount::Amount;
use skagedal_tools::budget::{tally, Budget, Item, Line};
use skagedal_tools::mapping::{Match, Merchant, Normalize, Table};
use skagedal_tools::marks::{Mark, Marked};
use skagedal_tools::matcher::{Hit, Matcher};
use skagedal_tools::reports::{
    budget_table, chosen_month, count_unmatched, explain_hit, list_table, mark_effect, mark_hits,
    merchants_table, month_of, other_candidates, payee, rank_groups, resolve_window,
    summary_table, tables_summary, unbudgeted_table, unmatched_groups, unmatched_table,
    unmatched_yaml, yaml_string, BudgetCommandError, GroupBy, ListFilter, Resolved,
};
use skagedal_tools::statement::{parse_descriptor, Date, Transaction};

fn a(text: &str) -> Amount {
    text.parse().unwrap()
}

fn day(y: i32, m: u32, d: u32) -> Date {
    Date { year: y, month: m, day: d }
}

fn tx(date: Date, amount: &str, text: &str) -> Transaction {
    Transaction {
        booked: date,
        value_date: date,
        batch: "B1".to_string(),
        text: text.to_string(),
        amount: a(amount),
        balance: None,
        descriptor: parse_descriptor(text),
        reference: None,
    }
}

fn hit(name: &str, category: Option<&str>, tags: &[&str]) -> Hit {
    Hit {
        name: name.to_string(),
        category: category.map(|c| c.to_string()),
        tags: tags.iter().map(|t| t.to_string()).collect(),
        via: None,
        note: None,
        table: "mine".to_string(),
        rule: "prefix \"X\"".to_string(),
    }
}

fn resolved(date: Date, amount: &str, text: &str, h: Option<Hit>) -> Resolved {
    Resolved { transaction: tx(date, amount, text), hit: h }
}

fn matcher() -> Matcher {
    let merchant = |name: &str, category: &str, prefix: &str| Merchant {
        name: name.into(),
        category: Some(category.into()),
        tags: vec![],
        note: None,
        match_: Match { prefix: vec![prefix.to_string()], ..Default::default() },
    };
    let table = Table {
        version: 1,
        name: "mine".into(),
        description: None,
        normalize: Normalize::default(),
        merchants: vec![merchant("ICA", "food/groceries", "ICA"), merchant("ICA Maxi", "food/groceries", "ICA MAXI")],
        origin: String::new(),
    };
    Matcher::build(&vec![table]).unwrap()
}

#[test]
fn the_window_narrows_by_date_and_direction_and_resolves_the_rest() {
    let m = matcher();
    let ts = vec![
        tx(day(2024, 1, 1), "-10.00", "ICA KVANTUM"),
        tx(day(2024, 1, 5), "-20.00", "OKAND BUTIK"),
        tx(day(2024, 1, 9), "30.00", "ICA MAXI"),
        tx(day(2024, 2, 1), "-40.00", "ICA MAXI"),
    ];
    let loaded = resolve_window(ts, Some(day(2024, 1, 2)), Some(day(2024, 1, 31)), false, false, &m);
    assert_eq!(loaded.transactions.len(), 2);
    assert_eq!(loaded.filtered_out, 2);
    assert!(loaded.transactions[0].hit.is_none());
    assert_eq!(loaded.transactions[1].hit.as_ref().unwrap().name, "ICA Maxi");

    let ts = vec![tx(day(2024, 1, 1), "-10.00", "ICA"), tx(day(2024, 1, 2), "5.00", "ICA")];
    assert_eq!(resolve_window(ts, None, None, true, false, &m).transactions.len(), 1);
    let ts = vec![tx(day(2024, 1, 1), "-10.00", "ICA"), tx(day(2024, 1, 2), "5.00", "ICA")];
    let income = resolve_window(ts, None, None, false, true, &m);
    assert_eq!(income.transactions[0].transaction.amount, a("5.00"));
}

#[test]
fn candidates_list_every_matching_rule_most_specific_first() {
    let m = matcher();
    let cs = m.candidates("ICA MAXI HAGGVIK");
    let names: Vec<&str> = cs.iter().map(|h| h.name.as_str()).collect();
    assert_eq!(names, vec!["ICA Maxi", "ICA"]);
    let lines = other_candidates(&cs);
    assert_eq!(lines.len(), 2);
    assert!(lines[1].starts_with("  ICA \u{2014} prefix"));
    assert!(other_candidates(&m.candidates("NOTHING")).is_empty());
}

fn line(name: &str, category: &str, amount: &str) -> Line {
    Line { name: name.into(), category: category.into(), merchant: None, amount: a(amount), basis: None, note: None }
}

#[test]
fn the_budget_report_adds_up_sections_and_totals() {
    let budget = Budget {
        month: "2031-05".into(),
        path: "p".into(),
        income: vec![line("Salary", "income", "30000")],
        rows: vec![line("Food", "food", "5000"), line("Car", "car", "1500")],
    };
    let items = [
        Item { category: "income/salary", merchant: "", amount: a("30000") },
        Item { category: "food", merchant: "", amount: a("-400") },
        Item { category: "leisure", merchant: "", amount: a("-80") },
    ];
    let outcome = tally(&budget, &items);
    let rows = budget_table(&budget, &outcome);
    assert_eq!(rows.headers, vec!["line", "category", "budget", "actual", "remaining"]);
    assert_eq!(rows.rows[0], vec!["Salary", "income", "30000.00", "30000.00", "0.00"]);
    assert_eq!(rows.rows[1], vec!["(income)", "", "30000.00", "30000.00", "0.00"]);
    assert_eq!(rows.rows[2], vec!["Food", "food", "5000.00", "400.00", "4600.00"]);
    assert_eq!(rows.rows[4], vec!["(budgeted)", "", "6500.00", "400.00", "6100.00"]);
    assert_eq!(rows.rows[5], vec!["(unbudgeted)", "", "", "80.00", ""]);
    assert_eq!(rows.rows[6], vec!["(total spent)", "", "6500.00", "480.00", "6020.00"]);
}

#[test]
fn totals_group_and_order_by_the_asked_key() {
    let rs = vec![
        resolved(day(2024, 1, 3), "-100.00", "A", Some(hit("Ica", Some("food"), &["x"]))),
        resolved(day(2024, 2, 3), "-300.00", "B", Some(hit("Sj", Some("travel"), &["x", "y"]))),
        resolved(day(2024, 1, 9), "-50.00", "C", None),
        resolved(day(2024, 1, 10), "-20.00", "D", Some(hit("Ica", Some("food"), &[]))),
    ];
    let by_category = summary_table(&rs, GroupBy::Category, None);
    assert_eq!(by_category.headers, vec!["category", "count", "total"]);
    assert_eq!(by_category.rows[0], vec!["travel", "1", "-300.00"]);
    assert_eq!(by_category.rows[1], vec!["food", "2", "-120.00"]);
    assert_eq!(by_category.rows[2], vec!["(uncategorised)", "1", "-50.00"]);
    assert_eq!(by_category.rows[3], vec!["(total)", "4", "-470.00"]);

    let by_month = summary_table(&rs, GroupBy::Month, None);
    assert_eq!(by_month.rows[0], vec!["2024-01", "3", "-170.00"]);
    assert_eq!(by_month.rows[1], vec!["2024-02", "1", "-300.00"]);

    let by_tag = summary_table(&rs, GroupBy::Tag, None);
    assert_eq!(by_tag.rows.len(), 2);
    assert_eq!(by_tag.rows[0], vec!["x", "2", "-400.00"]);

    let limited = summary_table(&rs, GroupBy::Merchant, Some(1));
    assert_eq!(limited.rows, vec![vec!["Sj".to_string(), "1".to_string(), "-300.00".to_string()]]);
}

#[test]
fn what_no_table_knew_is_grouped_busiest_first() {
    let rs = vec![
        resolved(day(2024, 1, 5), "-10.00", "KIOSK  1", None),
        resolved(day(2024, 1, 2), "-5.00", "kiosk 1", None),
        resolved(day(2024, 1, 3), "-99.00", "46700000001", None),
        resolved(day(2024, 1, 4), "-1.00", "ICA", Some(hit("Ica", None, &[]))),
    ];
    let groups = rank_groups(unmatched_groups(&rs), 1);
    assert_eq!(groups.len(), 2);
    assert_eq!(groups[0].count, 2);
    assert_eq!(groups[0].descriptor, "KIOSK  1");
    assert_eq!(groups[0].first, day(2024, 1, 2));
    assert_eq!(groups[0].last, day(2024, 1, 5));
    assert_eq!(count_unmatched(&groups), 3);
    let rows = unmatched_table(&groups);
    assert_eq!(rows.rows[1], vec!["1", "-99.00", "swish", "2024-01-03", "2024-01-03", "46700000001"]);
    assert_eq!(rank_groups(unmatched_groups(&rs), 2).len(), 1);
    let yaml = unmatched_yaml(&groups);
    assert_eq!(yaml[0], "  # seen 2 times, -15.00 kr");
    assert_eq!(yaml[1], "  - name: KIOSK  1");
    assert_eq!(yaml[9], "      prefix: [\"46700000001\"]");
}

#[test]
fn yaml_quotes_what_would_not_read_back_as_text() {
    assert_eq!(yaml_string("ICA Maxi"), "ICA Maxi");
    assert_eq!(yaml_string("46700000001"), "\"46700000001\"");
    assert_eq!(yaml_string("A*B"), "\"A*B\"");
    assert_eq!(yaml_string("say \"hi\""), "\"say \\\"hi\\\"\"");
    assert_eq!(yaml_string("trailing "), "\"trailing \"");
    assert_eq!(yaml_string(""), "\"\"");
}

#[test]
fn the_listing_filters_and_widens_on_request() {
    let rs = vec![
        resolved(day(2024, 1, 3), "-100.00", "ICA KVANTUM", Some(hit("Ica Kvantum", Some("food"), &[]))),
        resolved(day(2024, 1, 4), "-5.00", "OKAND", None),
    ];
    let all = ListFilter { unresolved: false, merchant: None, category: None };
    let rows = list_table(&rs, &all, false, false);
    assert_eq!(rows.rows[0], vec!["2024-01-03", "-100.00", "Ica Kvantum", "food", "ICA KVANTUM"]);
    assert_eq!(rows.rows[1], vec!["2024-01-04", "-5.00", "", "", "OKAND"]);
    let unresolved = ListFilter { unresolved: true, merchant: None, category: None };
    assert_eq!(list_table(&rs, &unresolved, false, false).rows.len(), 1);
    let by_merchant = ListFilter { unresolved: false, merchant: Some("kvant".into()), category: None };
    assert_eq!(list_table(&rs, &by_merchant, false, false).rows.len(), 1);
    let by_category = ListFilter { unresolved: false, merchant: None, category: Some("FOOD".into()) };
    assert_eq!(list_table(&rs, &by_category, false, false).rows.len(), 1);
    let wide = list_table(&rs, &all, true, true);
    assert_eq!(wide.headers.len(), 11);
    assert_eq!(wide.rows[0][6], "B1");
    assert_eq!(wide.rows[0][10], "mine: prefix \"X\"");
}

#[test]
fn the_unbudgeted_listing_names_the_account_and_payee() {
    let month = vec![
        ("everyday".to_string(), resolved(day(2031, 5, 1), "-120.00", "OKAND", None)),
        ("savings".to_string(), resolved(day(2031, 5, 2), "-80.00", "BOK", Some(hit("A Bookshop", Some("leisure"), &[])))),
    ];
    let rows = unbudgeted_table(&month, &vec![1, 0]);
    assert_eq!(rows.rows[0], vec!["2031-05-02", "savings", "-80.00", "A Bookshop", "leisure"]);
    assert_eq!(rows.rows[1], vec!["2031-05-01", "everyday", "-120.00", "OKAND", ""]);
    assert_eq!(payee(&month[0].1), "OKAND");
    assert_eq!(month_of(&month[0].1.transaction), "2031-05");
}

#[test]
fn the_budget_command_explains_what_it_cannot_do() {
    assert_eq!(chosen_month(Some("2031-05"), "2030-01").unwrap(), "2031-05");
    assert_eq!(chosen_month(None, "2030-01").unwrap(), "2030-01");
    let error = chosen_month(Some("May"), "2030-01").unwrap_err();
    assert_eq!(error.message("/cfg"), "--month: \"May\" is not a month of the form YYYY-MM");
    let none = BudgetCommandError::NoBudget { month: "2031-05".into(), have: vec![] };
    assert_eq!(none.message("/cfg"), "no budget for 2031-05; there are budgets for: none");
    let some = BudgetCommandError::NoBudget { month: "2031-05".into(), have: vec!["2031-04".into(), "2031-06".into()] };
    assert_eq!(some.message("/cfg"), "no budget for 2031-05; there are budgets for: 2031-04, 2031-06");
    assert!(BudgetCommandError::NoDirectory.message("/cfg").ends_with("a path to /cfg"));
}

#[test]
fn explaining_a_hit_lists_what_it_has() {
    let mut h = hit("Ica", Some("food"), &["a", "b"]);
    h.via = Some("KLARNA".into());
    let lines = explain_hit(&h);
    assert_eq!(
        lines,
        vec![
            "merchant    Ica",
            "category    food",
            "tags        a, b",
            "via         KLARNA",
            "matched by  prefix \"X\" in table mine",
        ]
    );
    assert_eq!(explain_hit(&hit("X", None, &[])).len(), 3);
}

#[test]
fn marks_are_listed_with_what_they_do_and_how_often() {
    let mark = Mark {
        note: None,
        date: None,
        from: None,
        to: None,
        amount: None,
        descriptor: vec![],
        descriptor_prefix: vec![],
        category: Some("housing".into()),
        tags: vec!["a".into(), "b".into()],
        merchant: Some("Landlord".into()),
        parsed_amount: None,
    };
    assert_eq!(mark_effect(&mark), "housing = Landlord #a #b");
    let marked = |applied: Vec<usize>| Marked { category: None, merchant: None, tags: vec![], applied };
    let hits = mark_hits(3, &vec![marked(vec![0, 2]), marked(vec![2]), marked(vec![])]);
    assert_eq!(hits, vec![1, 0, 2]);
}

#[test]
fn the_tables_command_counts_what_was_loaded() {
    let m = matcher();
    let lines = tables_summary(&m);
    assert_eq!(lines[0], "1 tables loaded: mine");
    assert_eq!(lines[1], "2 merchants, 2 match rules");
    let rows = merchants_table(&m);
    assert_eq!(rows.rows[0], vec!["ICA", "food/groceries", "mine", ""]);
}
