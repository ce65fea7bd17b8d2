use skagedal_tools::amount::Amount;
use skagedal_tools::mapping::{check_table, AmountCondition, Match, Merchant, Normalize, StripPrefix, Table, TableError};
use skagedal_tools::matcher::{amount_bounds, BoundsError, Matcher, MatcherError};

fn merchant(name: &str, m: Match) -> Merchant {
    Merchant { name: name.into(), category: None, tags: vec![], note: None, match_: m }
}

fn prefixes(ps: &[&str]) -> Match {
    Match { prefix: ps.iter().map(|p| p.to_string()).collect(), ..Default::default() }
}

fn table(name: &str, merchants: Vec<Merchant>) -> Table {
    Table {
        version: 1,
        name: name.into(),
        description: None,
        normalize: Normalize::default(),
        merchants,
        origin: String::new(),
    }
}

fn matcher(tables: Vec<Table>) -> Matcher {
    Matcher::build(&tables).unwrap()
}

fn amount(raw: &str) -> Option<Amount> {
    Some(raw.parse().unwrap())
}

#[test]
fn leaves_diacritics_alone() {
    let m = matcher(vec![table("t", vec![merchant("Köpmans", prefixes(&["KÖPMANS", "KOPMANS"]))])]);
    assert_eq!(m.lookup("KÖPMANS TORG", None).unwrap().name, "Köpmans");
    assert_eq!(m.lookup("KOPMANS TORG", None).unwrap().name, "Köpmans");
    let only_folded = matcher(vec![table("t", vec![merchant("Köpmans", prefixes(&["KOPMANS"]))])]);
    assert!(only_folded.lookup("KÖPMANS TORG", None).is_none());
}

#[test]
fn a_longer_prefix_beats_a_shorter_one() {
    let m = matcher(vec![table(
        "t",
        vec![
            merchant("Kvarnby", prefixes(&["KVARNBY"])),
            merchant("Kvarnby Stormarknad", prefixes(&["KVARNBY STOR"])),
        ],
    )]);
    assert_eq!(m.lookup("KVARNBY LIVS", None).unwrap().name, "Kvarnby");
    assert_eq!(m.lookup("KVARNBY STORMARK", None).unwrap().name, "Kvarnby Stormarknad");
}

#[test]
fn an_exact_rule_beats_a_longer_prefix() {
    let exact = Match { exact: vec!["TONLISTA".into()], ..Default::default() };
    let m = matcher(vec![table(
        "t",
        vec![merchant("Long prefix", prefixes(&["TONLIS"])), merchant("Exact", exact)],
    )]);
    assert_eq!(m.lookup("TONLISTA", None).unwrap().name, "Exact");
}

#[test]
fn a_later_table_overrides_an_earlier_one_on_an_identical_rule() {
    let bundled = table("bundled", vec![merchant("Generic", prefixes(&["KVARNBY"]))]);
    let personal = table("personal", vec![merchant("Kvarnby Livs", prefixes(&["KVARNBY"]))]);
    let m = matcher(vec![bundled, personal]);
    let hit = m.lookup("KVARNBY LIVS", None).unwrap();
    assert_eq!(hit.name, "Kvarnby Livs");
    assert_eq!(hit.table, "personal");
}

#[test]
fn strips_a_provider_prefix_only_when_nothing_matches_as_written() {
    let mut t = table(
        "t",
        vec![
            merchant("Badrumsbolaget", prefixes(&["BADRUMSBOLAGET"])),
            merchant("Zebrakiosken", prefixes(&["Z*ZEBRA"])),
        ],
    );
    t.normalize = Normalize {
        strip_prefixes: vec![StripPrefix { prefix: "Z*".into(), provider: Some("Zaldo".into()) }],
    };
    let m = matcher(vec![t]);
    let stripped = m.lookup("Z*BADRUMSBOLAGET.SE", None).unwrap();
    assert_eq!(stripped.name, "Badrumsbolaget");
    assert_eq!(stripped.via.as_deref(), Some("Zaldo"));
    let direct = m.lookup("Z*ZEBRAKIOSKEN", None).unwrap();
    assert_eq!(direct.name, "Zebrakiosken");
    assert_eq!(direct.via, None);
}

#[test]
fn regex_handles_the_store_number_prefixes() {
    let m = matcher(vec![table(
        "t",
        vec![merchant(
            "Presshörnan",
            Match { regex: vec![r"^\d{6,8} PRESSH".into()], ..Default::default() },
        )],
    )]);
    assert_eq!(m.lookup("9900001 PRESSH", None).unwrap().name, "Presshörnan");
    assert!(m.lookup("PRESSHORNAN 4", None).is_none());
}

#[test]
fn a_trailing_space_in_a_pattern_is_a_word_boundary() {
    let rules = Match { prefix: vec!["VT ".into()], exact: vec!["VT".into()], ..Default::default() };
    let m = matcher(vec![table("t", vec![merchant("VT", rules)])]);
    assert_eq!(m.lookup("VT APP", None).unwrap().name, "VT");
    assert_eq!(m.lookup("VT", None).unwrap().name, "VT");
    assert!(m.lookup("VTABERGSKROGEN", None).is_none());
}

#[test]
fn an_unknown_descriptor_is_none_rather_than_a_guess() {
    let m = matcher(vec![table("t", vec![merchant("A", prefixes(&["AAA"]))])]);
    assert!(m.lookup("VTABERGET", None).is_none());
}

fn landlord() -> Matcher {
    let mut fee = merchant("Fee", prefixes(&["LANDLORD"]));
    fee.category = Some("housing".into());
    let mut parking_rules = prefixes(&["LANDLORD"]);
    parking_rules.amount = Some(AmountCondition::Exact("-550".into()));
    let mut parking = merchant("Parking", parking_rules);
    parking.category = Some("parking".into());
    matcher(vec![table("t", vec![fee, parking])])
}

#[test]
fn a_rule_with_an_amount_wins_at_that_amount_only() {
    let m = landlord();
    assert_eq!(m.lookup("LANDLORD AB", amount("-550")).unwrap().name, "Parking");
    assert_eq!(m.lookup("LANDLORD AB", amount("-8000")).unwrap().name, "Fee");
    assert_eq!(m.lookup("LANDLORD AB", None).unwrap().name, "Fee");
}

#[test]
fn a_range_is_inclusive_and_either_way_round() {
    let rules = Match {
        exact: vec!["SHOP".into()],
        amount: Some(AmountCondition::Range(vec!["-100".into(), "-10".into()])),
        ..Default::default()
    };
    let m = matcher(vec![table("t", vec![merchant("Small", rules)])]);
    for inside in ["-100", "-50", "-10"] {
        assert_eq!(m.lookup("SHOP", amount(inside)).unwrap().name, "Small", "{inside}");
    }
    assert!(m.lookup("SHOP", amount("-101")).is_none());
    assert!(m.lookup("SHOP", amount("10")).is_none());
}

#[test]
fn a_range_of_the_wrong_length_is_an_error() {
    let rules = Match {
        exact: vec!["SHOP".into()],
        amount: Some(AmountCondition::Range(vec!["-1".into()])),
        ..Default::default()
    };
    let error = Matcher::build(&vec![table("t", vec![merchant("Bad", rules)])]).err().unwrap();
    assert_eq!(
        error,
        MatcherError::BadAmount { merchant: "Bad".into(), problem: BoundsError::RangeLength(1) }
    );
}

#[test]
fn explain_shows_the_amount_condition() {
    let m = landlord();
    let hit = m.lookup("LANDLORD AB", amount("-550")).unwrap();
    assert_eq!(hit.rule, "prefix \"LANDLORD\" at -550.00");
}

#[test]
fn bounds_come_out_low_first() {
    let range = AmountCondition::Range(vec!["-10".into(), "-100".into()]);
    assert_eq!(amount_bounds(Some(&range)).unwrap(), Some((Amount(-100_000), Amount(-10_000))));
    assert_eq!(amount_bounds(None).unwrap(), None);
    let bad = AmountCondition::Exact("ten".into());
    assert_eq!(amount_bounds(Some(&bad)).unwrap_err(), BoundsError::NotAnAmount("ten".into()));
}

#[test]
fn strip_prefixes_are_tried_longest_first() {
    let mut t = table("t", vec![merchant("Shop", prefixes(&["SHOP"]))]);
    t.normalize = Normalize {
        strip_prefixes: vec![
            StripPrefix { prefix: "K".into(), provider: Some("Short".into()) },
            StripPrefix { prefix: "KLARNA ".into(), provider: Some("Klarna".into()) },
            StripPrefix { prefix: "K".into(), provider: Some("Again".into()) },
        ],
    };
    let m = matcher(vec![t]);
    assert_eq!(m.strip_prefixes.len(), 2);
    assert_eq!(m.strip_prefixes[0].prefix, "KLARNA ");
    assert_eq!(m.lookup("KLARNA SHOP", None).unwrap().via.as_deref(), Some("Klarna"));
}

#[test]
fn rejects_a_merchant_that_can_never_match() {
    let t = table("t", vec![merchant("Ghost", Match::default())]);
    assert_eq!(
        check_table(t, "test").unwrap_err(),
        TableError::NoRules { origin: "test".into(), merchant: "Ghost".into() }
    );
}

#[test]
fn rejects_a_future_schema_version() {
    let mut t = table("t", vec![]);
    t.version = 99;
    assert_eq!(
        check_table(t, "test").unwrap_err(),
        TableError::UnsupportedVersion { origin: "test".into(), version: 99 }
    );
}

#[test]
fn rejects_a_bad_regex() {
    let t = table(
        "t",
        vec![merchant("A", Match { regex: vec!["[unclosed".into()], ..Default::default() })],
    );
    assert_eq!(
        check_table(t, "test").unwrap_err(),
        TableError::BadRegex { origin: "test".into(), merchant: "A".into() }
    );
}

#[test]
fn a_checked_table_remembers_where_it_came_from() {
    let t = check_table(table("t", vec![merchant("A", prefixes(&["A"]))]), "bundled:se").unwrap();
    assert_eq!(t.origin, "bundled:se");
    let blank = table("  ", vec![]);
    assert_eq!(check_table(blank, "x").unwrap_err(), TableError::Unnamed { origin: "x".into() });
}
