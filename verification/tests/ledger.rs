use skagedal_tools::amount::Amount;
use skagedal_tools::category::{depth, is_spending, is_within, top};
use skagedal_tools::matcher::{normalize, normalize_pattern};
use skagedal_tools::statement::{account_name, parse_descriptor, parse_seb, sniff, Descriptor, Format, Date, StatementError};

#[test]
fn parses_the_three_decimal_form_seb_writes() {
    assert_eq!("-450.980".parse::<Amount>().unwrap(), Amount(-450_980));
    assert_eq!("10000.670".parse::<Amount>().unwrap(), Amount(10_000_670));
    assert_eq!("0.000".parse::<Amount>().unwrap(), Amount(0));
}

#[test]
fn parses_other_plausible_spellings() {
    assert_eq!("12".parse::<Amount>().unwrap(), Amount(12_000));
    assert_eq!("12,50".parse::<Amount>().unwrap(), Amount(12_500));
    assert_eq!("1 234.5".parse::<Amount>().unwrap(), Amount(1_234_500));
    assert_eq!("+7.25".parse::<Amount>().unwrap(), Amount(7_250));
}

#[test]
fn rejects_rather_than_truncates() {
    assert!("1.2345".parse::<Amount>().is_err());
    assert!("".parse::<Amount>().is_err());
    assert!("-".parse::<Amount>().is_err());
    assert!("12kr".parse::<Amount>().is_err());
}

#[test]
fn sums_exactly() {
    let total = ["-30.000", "-50.000", "-450.980"]
        .iter()
        .map(|s| s.parse::<Amount>().unwrap())
        .fold(Amount(0), |a, b| a.add(b));
    assert_eq!(total, Amount(-530_980));
    assert_eq!(total.to_text(), "-530.98");
}

#[test]
fn amount_text_rounds_to_two_decimals() {
    assert_eq!(Amount(-550_000).to_text(), "-550.00");
    assert_eq!(Amount(1_234_500).to_text(), "1234.50");
    assert_eq!(Amount(0).to_text(), "0.00");
    assert_eq!(Amount(-4).to_text(), "-0.00");
    assert_eq!(Amount(12_346).to_text(), "12.35");
}

#[test]
fn amount_parse_error_keeps_the_text() {
    let error = Amount::parse("12kr").unwrap_err();
    assert_eq!(error.0, "12kr");
    assert!(Amount::parse("99999999999999999999").is_err());
}

#[test]
fn ancestry_goes_by_whole_segments() {
    assert!(is_within("car/fuel", "car"));
    assert!(is_within("car", "car"));
    assert!(is_within("car/fuel/diesel", "car/fuel"));
    assert!(!is_within("carpets", "car"));
    assert!(!is_within("car", "car/fuel"));
    assert!(!is_within("", "car"));
    assert!(!is_within("car", ""));
}

#[test]
fn top_and_depth() {
    assert_eq!(top("food/groceries"), "food");
    assert_eq!(top("car"), "car");
    assert_eq!(depth("car"), 1);
    assert_eq!(depth("car/fuel"), 2);
}

#[test]
fn not_spending_matches_the_top_segment() {
    assert!(!is_spending("transfer"));
    assert!(!is_spending("transfer/saving"));
    assert!(!is_spending("income/salary"));
    assert!(is_spending("transfers"));
    assert!(is_spending("food/groceries"));
    assert!(is_spending(""));
}

#[test]
fn normalizes_case_and_whitespace() {
    assert_eq!(normalize("Köpmans Torg"), "KÖPMANS TORG");
    assert_eq!(normalize("  Kvarnby   Livs "), "KVARNBY LIVS");
}

#[test]
fn normalizing_twice_changes_nothing() {
    for text in ["  Kvarnby \t  Livs ", "vt app  12", "", "   ", "a\nb"] {
        let once = normalize(text);
        assert_eq!(normalize(&once), once);
    }
    assert_eq!(normalize("a\nb"), "A B");
}

#[test]
fn a_descriptors_own_trailing_space_is_still_trimmed() {
    assert_eq!(normalize("VT APP  "), "VT APP");
    assert_eq!(normalize_pattern("VT "), "VT ");
    assert_eq!(normalize_pattern("  VT  APP  "), "VT APP ");
}

const SAMPLE: &str = "\u{feff}Bokföringsdatum;Valutadatum;Verifikationsnummer;Text;Belopp;Saldo\n\
    2026-09-11;2026-09-11;1000000001;PRESSHORNAN /26-09-10;-30.000;10000.000\n\
    2026-09-11;2026-09-11;1000000002;46700000001;-200.000;10030.000\n\
    2026-09-10;2026-09-10;1000000003;VTABERGS TANDLAKARE AB;-800.000;10230.000\n";

const EB_SAMPLE: &str = r#"[
  {"booking_date": "2026-09-11", "value_date": "2026-09-11", "transaction_date": null,
   "transaction_amount": {"currency": "SEK", "amount": "150.000"},
   "credit_debit_indicator": "DBIT", "status": "BOOK",
   "remittance_information": ["EXAMPLE CHARITY"],
   "bank_transaction_code": {"description": "Card purchase"},
   "balance_after_transaction": {"currency": "XXX", "amount": "1000.000"}}
]"#;

#[test]
fn sniffs_json_but_leaves_everything_else_alone() {
    assert_eq!(sniff(EB_SAMPLE), Some(Format::EnableBanking));
    assert_eq!(sniff("  \n [ ]"), Some(Format::EnableBanking));
    assert_eq!(sniff(r#"{"transactions": []}"#), Some(Format::EnableBanking));
    assert_eq!(sniff(SAMPLE), None);
    assert_eq!(sniff(""), None);
}

fn day(year: i32, month: u32, day: u32) -> Date {
    Date { year, month, day }
}

#[test]
fn reads_the_seb_export() {
    let transactions = parse_seb(SAMPLE).unwrap();
    assert_eq!(transactions.len(), 3);
    let first = &transactions[0];
    assert_eq!(first.booked, day(2026, 9, 11));
    assert_eq!(first.amount, "-30".parse().unwrap());
    assert_eq!(
        first.descriptor,
        Descriptor::Card { merchant: "PRESSHORNAN".into(), purchased: Some(day(2026, 9, 10)) }
    );
    assert_eq!(transactions[1].descriptor, Descriptor::Swish { number: "46700000001".into() });
    assert_eq!(transactions[2].balance, Some(Amount(10_230_000)));
}

#[test]
fn tells_the_three_descriptor_shapes_apart() {
    assert_eq!(
        parse_descriptor("KVARNBY LIVS/26-09-10"),
        Descriptor::Card { merchant: "KVARNBY LIVS".into(), purchased: Some(day(2026, 9, 10)) }
    );
    assert_eq!(
        parse_descriptor("VTABERGET   /26-09-08"),
        Descriptor::Card { merchant: "VTABERGET".into(), purchased: Some(day(2026, 9, 8)) }
    );
    assert_eq!(parse_descriptor("46700000001"), Descriptor::Swish { number: "46700000001".into() });
    assert_eq!(
        parse_descriptor(" BG 5555-5555 "),
        Descriptor::Plain { text: "BG 5555-5555".into() }
    );
}

#[test]
fn does_not_mistake_short_digit_strings_for_swish() {
    assert_eq!(parse_descriptor("1234567"), Descriptor::Plain { text: "1234567".into() });
}

#[test]
fn rejects_a_file_that_is_not_a_statement() {
    match parse_seb("name,value\nfoo,1\n") {
        Err(StatementError::MissingColumn { column, .. }) => assert_eq!(column, "Bokföringsdatum"),
        other => panic!("unexpected {other:?}"),
    }
    assert_eq!(parse_seb("\n  \n").unwrap_err(), StatementError::Empty);
}

#[test]
fn seb_errors_name_the_line() {
    let short = "Bokföringsdatum;Valutadatum;Verifikationsnummer;Text;Belopp\n2026-01-01;2026-01-01\n";
    assert_eq!(parse_seb(short).unwrap_err(), StatementError::ShortLine { line: 2, columns: 5 });
    let bad_amount = "Bokföringsdatum;Valutadatum;Verifikationsnummer;Text;Belopp\n2026-01-01;2026-01-01;1;X;abc\n";
    assert_eq!(parse_seb(bad_amount).unwrap_err(), StatementError::BadAmount { line: 2 });
    let bad_date = "Bokföringsdatum;Valutadatum;Verifikationsnummer;Text;Belopp\n2026-13-01;2026-01-01;1;X;-1\n";
    assert_eq!(
        parse_seb(bad_date).unwrap_err(),
        StatementError::BadDate { line: 2, raw: "2026-13-01".into() }
    );
}

#[test]
fn format_names_are_read_in_any_case() {
    assert_eq!(Format::from_name("SEB").unwrap(), Format::Seb);
    assert_eq!(Format::from_name("enable_banking").unwrap(), Format::EnableBanking);
    assert_eq!(Format::from_name("EnableBanking").unwrap(), Format::EnableBanking);
    assert!(Format::from_name("csv").is_err());
}

#[test]
fn names_an_account_after_its_file() {
    assert_eq!(account_name("data/transactions-savings.json"), "savings");
    assert_eq!(account_name("statement.csv"), "statement");
}
