use skagedal_tools::amount::Amount;
use skagedal_tools::budget::{
    assign, check_budget, month_of_file_name, tally, Budget, BudgetFile, BudgetWarning, Item, Line,
    LineKind, Slot,
};

fn a(text: &str) -> Amount {
    text.parse().unwrap()
}

fn line(name: &str, category: &str, merchant: Option<&str>, amount: &str, basis: Option<&str>) -> Line {
    Line {
        name: name.to_string(),
        category: category.to_string(),
        merchant: merchant.map(|m| m.to_string()),
        amount: a(amount),
        basis: basis.map(|b| b.to_string()),
        note: None,
    }
}

fn item<'x>(category: &'x str, merchant: &'x str, amount: &str) -> Item<'x> {
    Item { category, merchant, amount: a(amount) }
}

fn budget_of(income: Vec<Line>, rows: Vec<Line>) -> Budget {
    let file = BudgetFile { version: 1, month: "2031-05".to_string(), income, rows };
    check_budget(file, "2031-05", "2031-05.yaml").unwrap().0
}

/// A monthly budget: a salary, food with groceries under it, a car, a gym
/// and health.
fn budget() -> Budget {
    budget_of(
        vec![line("Salary", "income", None, "30000", Some("fixed"))],
        vec![
            line("Food", "food", None, "5000", None),
            line("Groceries", "food/groceries", None, "4000", Some("average")),
            line("Car", "car", None, "1500.50", None),
            line("Gym", "health/fitness", Some("Some Gym"), "400", None),
            line("Health", "health", None, "300", None),
            line("Saving", "transfer/saving", None, "2000", None),
        ],
    )
}

#[test]
fn reads_a_budget_file() {
    let b = budget();
    assert_eq!(b.income.len(), 1);
    assert_eq!(b.rows.len(), 6);
    assert_eq!(b.rows[2].amount, a("1500.50"));
    assert_eq!(b.rows[3].merchant.as_deref(), Some("Some Gym"));
    assert_eq!(b.rows[1].basis.as_deref(), Some("average"));
}

#[test]
fn a_deeper_category_beats_a_shallower_one() {
    let b = budget();
    assert_eq!(assign(&b, &item("food/groceries", "ICA", "-100")), Slot::Row(1));
    assert_eq!(assign(&b, &item("food/cafe", "", "-50")), Slot::Row(0));
    assert_eq!(assign(&b, &item("food", "", "-50")), Slot::Row(0));
    assert_eq!(assign(&b, &item("car/fuel", "", "-600")), Slot::Row(2));
}

#[test]
fn ancestry_is_by_segment_not_by_prefix() {
    let b = budget();
    assert_eq!(assign(&b, &item("carpets", "", "-900")), Slot::Unbudgeted);
}

#[test]
fn a_matching_merchant_beats_category_alone() {
    let b = budget_of(
        vec![],
        vec![
            line("Fitness", "health/fitness", None, "100", None),
            line("Gym", "health", Some("Some Gym"), "400", None),
        ],
    );
    assert_eq!(assign(&b, &item("health/fitness", "Some Gym", "-400")), Slot::Row(1));
    assert_eq!(assign(&b, &item("health/fitness", "Other Gym", "-100")), Slot::Row(0));
}

#[test]
fn a_merchant_row_takes_nothing_from_other_merchants() {
    let b = budget();
    assert_eq!(assign(&b, &item("health/fitness", "Some Gym", "-400")), Slot::Row(3));
    assert_eq!(assign(&b, &item("health/fitness", "Another", "-100")), Slot::Row(4));
}

#[test]
fn ties_go_to_the_first_in_the_file() {
    let b = budget_of(
        vec![],
        vec![line("One", "food", None, "1", None), line("Two", "food", None, "2", None)],
    );
    assert_eq!(assign(&b, &item("food", "", "-5")), Slot::Row(0));
}

#[test]
fn income_goes_to_income_lines() {
    let b = budget();
    assert_eq!(assign(&b, &item("income/salary", "Employer", "30000")), Slot::Income(0));
}

#[test]
fn money_that_only_moves_is_ignored_unless_a_row_asks_for_it() {
    let b = budget();
    assert_eq!(assign(&b, &item("transfer", "", "-500")), Slot::Ignored);
    assert_eq!(assign(&b, &item("refunds", "", "200")), Slot::Ignored);
    assert_eq!(assign(&b, &item("transfer/saving", "", "-2000")), Slot::Row(5));
    let none = budget_of(vec![], vec![]);
    assert_eq!(assign(&none, &item("income", "", "100")), Slot::Ignored);
}

#[test]
fn a_refund_reduces_what_was_spent() {
    let b = budget();
    let items = [
        item("food/groceries", "ICA", "-400"),
        item("food/groceries", "ICA", "-250.50"),
        item("food/groceries", "ICA", "50"),
    ];
    let out = tally(&b, &items);
    assert_eq!(out.rows[1].actual, a("600.50"));
    assert_eq!(out.rows[1].members, vec![0, 1, 2]);
}

#[test]
fn what_no_row_takes_is_unbudgeted() {
    let b = budget();
    let items = [
        item("", "", "-120"),
        item("leisure/books", "A Bookshop", "-80"),
        item("transfer", "", "-5000"),
        item("income", "Employer", "30000"),
    ];
    let out = tally(&b, &items);
    assert_eq!(out.unbudgeted.actual, a("200"));
    assert_eq!(out.unbudgeted.members, vec![0, 1]);
    assert_eq!(out.income[0].actual, a("30000"));
}

#[test]
fn warns_about_a_month_that_disagrees_with_the_name() {
    let file = BudgetFile { version: 1, month: "2031-06".to_string(), income: vec![], rows: vec![] };
    let (b, warnings) = check_budget(file, "2031-05", "2031-05.yaml").unwrap();
    assert_eq!(b.month, "2031-05");
    assert_eq!(warnings.len(), 1);
    assert_eq!(
        warnings[0],
        BudgetWarning::MonthMismatch { says: "2031-06".to_string(), named: "2031-05".to_string() }
    );
}

#[test]
fn odd_lines_are_warned_about_in_order() {
    let file = BudgetFile {
        version: 1,
        month: "2031-05".to_string(),
        income: vec![line("Gift", "gifts", None, "100", None)],
        rows: vec![line("Blank", " ", None, "-5", None)],
    };
    let (_, warnings) = check_budget(file, "2031-05", "p").unwrap();
    assert_eq!(
        warnings,
        vec![
            BudgetWarning::NoCategory { kind: LineKind::Row, name: "Blank".to_string() },
            BudgetWarning::NegativeAmount { kind: LineKind::Row, name: "Blank".to_string() },
            BudgetWarning::NotIncome { name: "Gift".to_string(), category: "gifts".to_string() },
        ]
    );
}

#[test]
fn an_unknown_budget_version_is_refused() {
    let file = BudgetFile { version: 3, month: "2031-05".to_string(), income: vec![], rows: vec![] };
    assert_eq!(check_budget(file, "2031-05", "p").unwrap_err().version, 3);
}

#[test]
fn only_month_names_are_budget_files() {
    assert_eq!(month_of_file_name("2031-05.yaml").as_deref(), Some("2031-05"));
    assert_eq!(month_of_file_name("2031-13.yaml"), None);
    assert_eq!(month_of_file_name("notes.yaml"), None);
    assert_eq!(month_of_file_name("2031-06.yaml.bak"), None);
    assert_eq!(month_of_file_name("README.md"), None);
}
