use skagedal_tools::amount::Amount;
use skagedal_tools::marks::{check_marks, Mark, MarkError, MarkFile, Marks};
use skagedal_tools::statement::{parse_descriptor, Date, Descriptor, Transaction};

fn day(text: &str) -> Date {
    let parts: Vec<&str> = text.split('-').collect();
    Date {
        year: parts[0].parse().unwrap(),
        month: parts[1].parse().unwrap(),
        day: parts[2].parse().unwrap(),
    }
}

fn transaction(date: &str, amount: &str, text: &str) -> Transaction {
    Transaction {
        booked: day(date),
        value_date: day(date),
        batch: String::new(),
        descriptor: parse_descriptor(text),
        text: text.to_string(),
        amount: amount.parse::<Amount>().unwrap(),
        balance: None,
        reference: None,
    }
}

fn blank_mark() -> Mark {
    Mark {
        note: None,
        date: None,
        from: None,
        to: None,
        amount: None,
        descriptor: Vec::new(),
        descriptor_prefix: Vec::new(),
        category: None,
        tags: Vec::new(),
        merchant: None,
        parsed_amount: None,
    }
}

fn strings(items: &[&str]) -> Vec<String> {
    items.iter().map(|s| s.to_string()).collect()
}

fn file(marks: Vec<Mark>) -> MarkFile {
    MarkFile { version: 1, name: String::new(), description: None, marks, origin: String::new() }
}

/// A marks file with a week away and one transfer.
fn sample() -> MarkFile {
    let week = Mark {
        note: Some("A week away".to_string()),
        from: Some(day("2023-06-10")),
        to: Some(day("2023-06-17")),
        tags: strings(&["resa-2023"]),
        ..blank_mark()
    };
    let transfer = Mark {
        note: Some("One transfer".to_string()),
        date: Some(day("2024-03-15")),
        amount: Some("-25000.000".to_string()),
        descriptor: strings(&["10000000002"]),
        category: Some("housing".to_string()),
        merchant: Some("Sparkontot".to_string()),
        ..blank_mark()
    };
    let mut f = file(vec![week, transfer]);
    f.name = "test".to_string();
    check_marks(f, "test").unwrap()
}

#[test]
fn a_range_mark_tags_everything_inside_it() {
    let marks = Marks::build(&vec![sample()]);
    let inside = marks.apply(&transaction("2023-06-12", "-260.00", "CAFE"));
    assert_eq!(inside.tags, ["resa-2023"]);
    // Tags do not replace the category.
    assert_eq!(inside.category, None);

    let outside = marks.apply(&transaction("2023-06-18", "-260.00", "CAFE"));
    assert!(outside.tags.is_empty());
}

#[test]
fn a_precise_mark_needs_every_selector_to_agree() {
    let marks = Marks::build(&vec![sample()]);
    let hit = marks.apply(&transaction("2024-03-15", "-25000.000", "10000000002"));
    assert_eq!(hit.category.as_deref(), Some("housing"));
    assert_eq!(hit.merchant.as_deref(), Some("Sparkontot"));

    // Right day and descriptor, wrong amount.
    let miss = marks.apply(&transaction("2024-03-15", "-1000.000", "10000000002"));
    assert!(miss.category.is_none());
}

#[test]
fn descriptor_matching_ignores_case() {
    let mark = Mark {
        descriptor_prefix: strings(&["example"]),
        category: Some("charity".to_string()),
        ..blank_mark()
    };
    let marks = Marks::build(&vec![check_marks(file(vec![mark]), "test").unwrap()]);
    let hit = marks.apply(&transaction("2025-01-15", "-150.00", "EXAMPLE CHARITY"));
    assert_eq!(hit.category.as_deref(), Some("charity"));
}

/// A trip is one mark naming the places it was spent in, so that a
/// subscription that happens to fall inside the dates is not swept up.
#[test]
fn several_descriptors_are_one_condition() {
    let mark = Mark {
        from: Some(day("2025-05-02")),
        to: Some(day("2025-05-06")),
        descriptor_prefix: strings(&["HOTELLET", "MUSEET", "RESTAURANG"]),
        tags: strings(&["resa-2025"]),
        ..blank_mark()
    };
    let marks = Marks::build(&vec![check_marks(file(vec![mark]), "test").unwrap()]);
    for text in ["HOTELLET", "MUSEET", "RESTAURANG X"] {
        assert_eq!(
            marks.apply(&transaction("2025-05-04", "-100.00", text)).tags,
            ["resa-2025"],
            "{text} should have been tagged"
        );
    }
    // Inside the dates, but not one of the places.
    assert!(marks
        .apply(&transaction("2025-05-04", "-120.00", "STREAMINGTJANSTEN"))
        .tags
        .is_empty());
}

#[test]
fn refuses_a_mark_that_would_select_everything() {
    let mark = Mark { category: Some("housing".to_string()), ..blank_mark() };
    let error = check_marks(file(vec![mark]), "test").unwrap_err();
    assert!(error.message().contains("select everything"));
}

#[test]
fn refuses_a_mark_that_would_do_nothing() {
    let mark = Mark { date: Some(day("2024-01-01")), ..blank_mark() };
    let error = check_marks(file(vec![mark]), "test").unwrap_err();
    assert!(error.message().contains("do nothing"));
}

#[test]
fn refuses_a_backwards_range() {
    let mark = Mark {
        from: Some(day("2024-02-01")),
        to: Some(day("2024-01-01")),
        category: Some("x".to_string()),
        ..blank_mark()
    };
    let error = check_marks(file(vec![mark]), "test").unwrap_err();
    assert!(error.message().contains("after to"));
    assert_eq!(error.message(), "test: mark 1 has from 2024-02-01 after to 2024-01-01");
}

#[test]
fn a_later_mark_wins_on_category_but_tags_accumulate() {
    let first = Mark {
        date: Some(day("2024-01-01")),
        category: Some("first".to_string()),
        tags: strings(&["a"]),
        ..blank_mark()
    };
    let second = Mark {
        date: Some(day("2024-01-01")),
        category: Some("second".to_string()),
        tags: strings(&["b"]),
        ..blank_mark()
    };
    let checked = check_marks(file(vec![first, second]), "test").unwrap();
    let marked = Marks::build(&vec![checked]).apply(&transaction("2024-01-01", "-1.00", "X"));
    assert_eq!(marked.category.as_deref(), Some("second"));
    assert_eq!(marked.tags, ["a", "b"]);
    assert_eq!(marked.applied, [0, 1]);
}

#[test]
fn keeps_the_descriptor_kinds_straight() {
    assert!(matches!(parse_descriptor("10000000002"), Descriptor::Swish { .. }));
}

#[test]
fn a_mark_with_both_a_date_and_a_range_is_refused() {
    let mark = Mark {
        date: Some(day("2024-01-01")),
        to: Some(day("2024-01-02")),
        category: Some("x".to_string()),
        ..blank_mark()
    };
    let error = check_marks(file(vec![blank_mark(), mark]), "here").unwrap_err();
    // The first mark is wrong before the second is looked at.
    assert!(matches!(error, MarkError::SelectsEverything { mark: 1, .. }));
}

#[test]
fn a_bad_amount_is_named_in_the_error() {
    let mark = Mark { amount: Some("12kr".to_string()), category: Some("x".to_string()), ..blank_mark() };
    let error = check_marks(file(vec![mark]), "m.yaml").unwrap_err();
    assert_eq!(error.message(), "m.yaml: mark 1: bad amount \"12kr\"");
}

#[test]
fn an_unknown_version_is_refused() {
    let mut f = file(vec![]);
    f.version = 2;
    let error = check_marks(f, "m.yaml").unwrap_err();
    assert_eq!(
        error.message(),
        "m.yaml: marks file version 2 is not supported (this build reads version 1)"
    );
}

#[test]
fn a_mark_describes_itself_by_its_days_names_and_amount() {
    let marks = sample();
    assert_eq!(marks.marks[0].describe(), "A week away");
    let mark = Mark {
        from: Some(day("2023-06-10")),
        to: Some(day("2023-06-17")),
        descriptor: strings(&["A", "B"]),
        descriptor_prefix: strings(&["C", "D"]),
        amount: Some("-1.00".to_string()),
        ..blank_mark()
    };
    assert_eq!(mark.describe(), "2023-06-10..2023-06-17 A, B, C* and 1 more -1.00");
    let single = Mark { date: Some(day("2024-03-05")), ..blank_mark() };
    assert_eq!(single.describe(), "2024-03-05");
    let open = Mark { from: Some(day("2024-03-05")), descriptor: strings(&["X"]), ..blank_mark() };
    assert_eq!(open.describe(), "from 2024-03-05 X");
}
