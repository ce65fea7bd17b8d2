use skagedal_tools::imessage::{decode_attributed_body, normalize, record_name, Contacts};
use skagedal_tools::logs::{
    fnv32, fuzzy_match, kill_word_left, level_color, level_overrides_pod_color, pod_color_index,
    LevelColor,
};

#[test]
fn fnv32_matches_stern_examples() {
    assert_eq!(fnv32(b""), 0x811c9dc5);
    assert_ne!(fnv32(b"pod-a"), fnv32(b"pod-b"));
}

#[test]
fn hash_color_is_deterministic() {
    let a = pod_color_index("aira-internal-web-5dd6ff88ff-9k7xq");
    let b = pod_color_index("aira-internal-web-5dd6ff88ff-9k7xq");
    assert_eq!(a, b);
    assert!(a < 6);
}

#[test]
fn level_color_classifies_canonical_levels() {
    assert_eq!(level_color("ERROR"), Some(LevelColor::Red));
    assert_eq!(level_color("err"), Some(LevelColor::Red));
    assert_eq!(level_color("FATAL"), Some(LevelColor::Red));
    assert_eq!(level_color("Warning"), Some(LevelColor::Yellow));
    assert_eq!(level_color("INFO"), Some(LevelColor::Cyan));
    assert_eq!(level_color("debug"), Some(LevelColor::Gray));
    assert_eq!(level_color("trace"), Some(LevelColor::Gray));
    assert_eq!(level_color(""), None);
    assert_eq!(level_color("audit"), None);
}

#[test]
fn override_only_for_warn_and_error_levels() {
    assert!(level_overrides_pod_color("ERROR"));
    assert!(level_overrides_pod_color("warn"));
    assert!(level_overrides_pod_color("FATAL"));
    assert!(!level_overrides_pod_color("INFO"));
    assert!(!level_overrides_pod_color("DEBUG"));
    assert!(!level_overrides_pod_color(""));
}

#[test]
fn fuzzy_match_basic() {
    assert!(fuzzy_match("", "anything"));
    assert!(fuzzy_match("abc", "axbxc"));
    assert!(fuzzy_match("ABC", "aXbXcXd"));
    assert!(!fuzzy_match("abc", "acb"));
    assert!(!fuzzy_match("abcd", "abc"));
}

#[test]
fn fuzzy_match_finds_subsequence_in_jsonl() {
    assert!(fuzzy_match("err", "level=error msg=oops"));
    assert!(fuzzy_match("nginx", "podname=nginx-abc-1"));
}

#[test]
fn kill_word_left_basics() {
    let (t, c) = kill_word_left("hello world", 11);
    assert_eq!(t, "hello ");
    assert_eq!(c, 6);
    let (t, c) = kill_word_left("hello world", 6);
    assert_eq!(t, "world");
    assert_eq!(c, 0);
    let (t, c) = kill_word_left("", 0);
    assert_eq!(t, "");
    assert_eq!(c, 0);
}

#[test]
fn kill_word_left_keeps_text_after_cursor() {
    let (t, c) = kill_word_left("foo bar baz", 7);
    assert_eq!(t, "foo  baz");
    assert_eq!(c, 4);
}

#[test]
fn kill_word_left_counts_bytes_across_wider_characters() {
    let (t, c) = kill_word_left("åsa öl", 8);
    assert_eq!(t, "åsa ");
    assert_eq!(c, 5);
    let (t, c) = kill_word_left("abc", 99);
    assert_eq!(t, "");
    assert_eq!(c, 0);
}

#[test]
fn one_number_however_it_is_written() {
    for written in ["+46 70 000 00 01", "070-000 00 01", "0046700000001", "+46700000001"] {
        assert_eq!(normalize(written), "46700000001", "{written}");
    }
    assert_eq!(normalize(" Someone@Example.com"), "someone@example.com");
}

fn body(text: &str) -> Vec<u8> {
    let mut b = b"\x04\x0bstreamtyped\x81\xe8\x03\x84\x01@\x84\x84\x84\x12NSAttributedString\x00\x84\x84\x08NSObject\x00\x85\x92\x84\x84\x84\x08NSString\x01\x94\x84\x01+".to_vec();
    let bytes = text.as_bytes();
    if bytes.len() < 0x80 {
        b.push(bytes.len() as u8);
    } else {
        b.push(0x81);
        b.extend_from_slice(&(bytes.len() as u16).to_le_bytes());
    }
    b.extend_from_slice(bytes);
    b.extend_from_slice(b"\x86\x84\x02iI\x01");
    b
}

#[test]
fn decodes_a_short_attributed_body() {
    assert_eq!(decode_attributed_body(&body("hej!")).as_deref(), Some("hej!"));
}

#[test]
fn decodes_a_long_one_with_a_two_byte_length() {
    let long = "å".repeat(200);
    assert_eq!(decode_attributed_body(&body(&long)), Some(long));
}

#[test]
fn gives_up_on_something_else() {
    assert_eq!(decode_attributed_body(b"not a typedstream"), None);
}

#[test]
fn a_contact_is_found_by_number_however_written() {
    let mut contacts = Contacts::new();
    assert!(contacts.is_empty());
    let ada = record_name(Some("Ada"), Some("Lovelace"), None, None).unwrap();
    contacts.add_phone("070-000 00 01", ada);
    let bakery = record_name(None, None, Some("The Bakery"), None).unwrap();
    contacts.add_email("Orders@Example.com", bakery);
    contacts.add_phone("+46700000001", "Someone Else".to_string());
    assert_eq!(contacts.name("+46700000001"), "Ada Lovelace");
    assert_eq!(contacts.name("orders@example.com"), "The Bakery");
    assert_eq!(contacts.name("+46799999999"), "+46799999999");
}

#[test]
fn a_record_without_a_usable_name_has_none() {
    assert_eq!(record_name(Some("  "), None, None, None), None);
    assert_eq!(record_name(None, Some("Solo"), None, None).as_deref(), Some("Solo"));
    assert_eq!(record_name(None, None, None, Some("Nick")).as_deref(), Some("Nick"));
}

#[test]
fn fuzzy_match_ignores_ascii_case() {
    assert!(fuzzy_match("ABC", "aXbXcXd"));
    assert!(fuzzy_match("abc", "A-B-C"));
    assert!(!fuzzy_match("ABD", "aXbXcXc"));
}
