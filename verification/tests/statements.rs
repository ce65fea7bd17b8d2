use skagedal_tools::amount::Amount;
use skagedal_tools::statement::{
    enable_banking_descriptor, from_enable_banking, strip_payment_reference, Date, Descriptor,
    EbBankTransactionCode, EbTransaction, StatementError,
};

fn day(y: i32, m: u32, d: u32) -> Date {
    Date { year: y, month: m, day: d }
}

fn row(
    booked: Option<Date>,
    amount: &str,
    indicator: &str,
    status: &str,
    info: &[&str],
    code: Option<&str>,
    balance: Option<&str>,
) -> EbTransaction {
    EbTransaction {
        booking_date: booked,
        value_date: booked,
        transaction_date: None,
        transaction_amount: amount.to_string(),
        credit_debit_indicator: Some(indicator.to_string()),
        status: Some(status.to_string()),
        entry_reference: None,
        remittance_information: info.iter().map(|s| s.to_string()).collect(),
        bank_transaction_code: code.map(|c| EbBankTransactionCode { description: Some(c.to_string()) }),
        balance_after_transaction: balance.map(|b| b.to_string()),
    }
}

/// A small Enable Banking export, row for row.
fn sample() -> Vec<EbTransaction> {
    vec![
        row(Some(day(2026, 9, 11)), "150.000", "DBIT", "BOOK", &["EXAMPLE CHARITY"], Some("Card purchase"), Some("1000.000")),
        row(Some(day(2026, 9, 10)), "500.000", "CRDT", "BOOK", &["46700000001"], Some("Instant payment"), None),
        row(Some(day(2026, 9, 9)), "2000.000", "DBIT", "BOOK", &["12345678901 987654321012"], Some("Credit transfer"), None),
        row(Some(day(2026, 9, 8)), "700.000", "DBIT", "BOOK", &["HYRA        123456789012"], Some("Credit transfer"), None),
        row(None, "50.000", "DBIT", "PDNG", &["123456789", "KORTBOLAGET AB"], None, None),
    ]
}

fn chars(s: &str) -> Vec<char> {
    s.chars().collect()
}

fn text(cs: Vec<char>) -> String {
    cs.into_iter().collect()
}

#[test]
fn reads_the_enable_banking_export() {
    let transactions = from_enable_banking(&sample()).unwrap();
    // The pending row is not one of them.
    assert_eq!(transactions.len(), 4);
    let first = &transactions[0];
    assert_eq!(first.booked, day(2026, 9, 11));
    assert_eq!(first.amount, "-150.00".parse::<Amount>().unwrap());
    assert_eq!(first.balance, Some("1000.000".parse::<Amount>().unwrap()));
    assert_eq!(
        first.descriptor,
        Descriptor::Card { merchant: "EXAMPLE CHARITY".into(), purchased: None }
    );
}

/// The amount is unsigned; only `credit_debit_indicator` says which way
/// the money went.
#[test]
fn takes_the_direction_from_the_indicator() {
    let transactions = from_enable_banking(&sample()).unwrap();
    assert!(transactions[0].amount.is_negative());
    assert_eq!(transactions[1].amount, "500".parse::<Amount>().unwrap());
}

#[test]
fn classifies_by_the_bank_transaction_code() {
    let transactions = from_enable_banking(&sample()).unwrap();
    assert_eq!(transactions[0].descriptor.kind(), "card");
    assert_eq!(transactions[1].descriptor, Descriptor::Swish { number: "46700000001".into() });
}

#[test]
fn drops_the_payment_reference_from_a_transfer() {
    let transactions = from_enable_banking(&sample()).unwrap();
    assert_eq!(transactions[2].descriptor, Descriptor::Swish { number: "12345678901".into() });
}

#[test]
fn drops_the_reference_after_a_typed_message_too() {
    let transactions = from_enable_banking(&sample()).unwrap();
    assert_eq!(transactions[3].descriptor, Descriptor::Plain { text: "HYRA".into() });
}

#[test]
fn leaves_a_number_that_is_part_of_the_name() {
    assert_eq!(
        enable_banking_descriptor("KIOSKEN 1234567", Some("Card purchase"), None),
        Descriptor::Card { merchant: "KIOSKEN 1234567".into(), purchased: None }
    );
    assert_eq!(text(strip_payment_reference(&chars("BUTIKEN 4242"))), "BUTIKEN 4242");
    assert_eq!(text(strip_payment_reference(&chars("HYRA 123456789012"))), "HYRA");
    assert_eq!(text(strip_payment_reference(&chars("123456789012"))), "123456789012");
}

#[test]
fn an_unknown_direction_or_amount_is_an_error_naming_the_row() {
    let mut rows = sample();
    rows[1].credit_debit_indicator = Some("SIDEWAYS".to_string());
    assert_eq!(
        from_enable_banking(&rows).unwrap_err(),
        StatementError::UnknownDirection { transaction: 2, direction: "SIDEWAYS".to_string() }
    );
    let mut rows = sample();
    rows[0].transaction_amount = "many".to_string();
    assert_eq!(
        from_enable_banking(&rows).unwrap_err(),
        StatementError::BadTransactionAmount { transaction: 1 }
    );
}

#[test]
fn a_missing_value_date_is_the_booking_date() {
    let mut rows = sample();
    rows[0].value_date = None;
    let transactions = from_enable_banking(&rows).unwrap();
    assert_eq!(transactions[0].value_date, day(2026, 9, 11));
    assert_eq!(transactions[0].batch, "");
}
