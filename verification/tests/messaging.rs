use skagedal_tools::imessage::{
    check_span, from_apple, involves, message_from_row, message_text, render_log, shown_messages,
    normalize, to_apple, Contacts, Message, MessageRow, Participants, Stamp,
};
use skagedal_tools::statement::Date;

fn body(text: &str) -> Vec<u8> {
    let mut b = b"\x04\x0bstreamtyped\x81\xe8\x03\x84\x01@\x84\x84\x84\x12NSAttributedString\x00\x84\x84\x08NSObject\x00\x85\x92\x84\x84\x84\x08NSString\x01\x94\x84\x01+".to_vec();
    let bytes = text.as_bytes();
    if bytes.len() < 0x80 {
        b.push(bytes.len() as u8);
    } else {
        b.push(0x81);
        b.extend_from_slice(&(bytes.len() as u16).to_le_bytes());
    }
    b.extend_from_slice(bytes);
    b.extend_from_slice(b"\x86\x84\x02iI\x01");
    b
}

fn at(hour: u32, minute: u32) -> Stamp {
    Stamp { date: Date { year: 2026, month: 4, day: 10 }, weekday: 4, hour, minute }
}

fn row(from_me: bool, text: Option<&str>, body: Option<Vec<u8>>, attachments: bool, handle: Option<&str>, chat: i64) -> MessageRow {
    let (name, style) = if chat == 2 { (Some("Book club".to_string()), Some(43)) } else { (Some(String::new()), Some(45)) };
    MessageRow {
        date: 0,
        from_me,
        text: text.map(|t| t.to_string()),
        body,
        attachments,
        handle: handle.map(|h| h.to_string()),
        chat: Some(chat),
        chat_name: name,
        style,
    }
}

/// A day with two messages with one person, one
/// reaction (left out by the query), and two in a group chat.
fn day() -> Vec<Message> {
    let mut people = Participants::new();
    people.add(1, "+46700000001".to_string());
    people.add(2, "+46700000001".to_string());
    people.add(2, "someone@example.com".to_string());
    people.add(2, "someone@example.com".to_string());
    let rows = vec![
        (row(false, Some("Where shall we eat?"), None, false, Some("+46700000001"), 1), at(19, 0)),
        (row(true, None, Some(body("The usual place")), false, None, 1), at(19, 5)),
        (row(false, Some("\u{fffc}"), None, true, Some("someone@example.com"), 2), at(20, 0)),
        (row(false, Some("Next day almost"), None, false, Some("someone@example.com"), 2), at(23, 0)),
    ];
    rows.into_iter().filter_map(|(r, s)| message_from_row(r, s, &people)).collect()
}

#[test]
fn prints_a_day_of_conversations() {
    let all = day();
    let shown: Vec<usize> = (0..all.len()).collect();
    assert_eq!(
        render_log(&all, &shown, &Contacts::new()),
        "── 2026-04-10, Friday\n\
         19:00  +46700000001: Where shall we eat?\n\
         19:05  me → +46700000001: The usual place\n\
         20:00  [Book club] someone@example.com: [attachment]\n\
         23:00  [Book club] someone@example.com: Next day almost\n"
    );
}

#[test]
fn finds_conversations_by_number_however_written() {
    let all = day();
    let contacts = Contacts::new();
    let direct = all.iter().filter(|m| !m.group && involves(m, "070-000 00 01", &contacts)).count();
    assert_eq!(direct, 2);
    let with_groups = all.iter().filter(|m| involves(m, "070 000 00 01", &contacts)).count();
    assert_eq!(with_groups, 4);
    assert!(!all.iter().any(|m| involves(m, "nobody", &contacts)));
    assert_eq!(shown_messages(&all, Some("someone"), true, None, &contacts), Vec::<usize>::new());
    assert_eq!(shown_messages(&all, None, false, Some("usual"), &contacts), vec![1]);
}

#[test]
fn a_new_day_gets_its_own_heading() {
    let mut all = day();
    all[3].sent = Stamp { date: Date { year: 2026, month: 4, day: 11 }, weekday: 5, hour: 0, minute: 5 };
    all[3].text = "two\nlines".to_string();
    let text = render_log(&all, &vec![2, 3], &Contacts::new());
    assert_eq!(
        text,
        "── 2026-04-10, Friday\n\
         20:00  [Book club] someone@example.com: [attachment]\n\
         \n\
         ── 2026-04-11, Saturday\n\
         00:05  [Book club] someone@example.com: two\n       lines\n"
    );
}

#[test]
fn message_text_falls_back_to_the_attributed_body() {
    assert_eq!(message_text(&Some("  ".to_string()), &Some(body("hej"))), "hej");
    assert_eq!(message_text(&Some(" hi \u{fffc}".to_string()), &None), "hi");
    assert_eq!(message_text(&None, &None), "");
    let empty = row(false, None, None, false, Some("x"), 1);
    assert!(message_from_row(empty, at(1, 1), &Participants::new()).is_none());
}

#[test]
fn apple_dates_are_nanoseconds_since_2001_or_old_seconds() {
    let unix = 1_775_842_320i64;
    let apple = to_apple(unix, 0);
    assert_eq!(apple, (unix - 978_307_200) * 1_000_000_000);
    assert_eq!(from_apple(apple), (unix, 0));
    assert_eq!(from_apple(unix - 978_307_200), (unix, 0));
    assert_eq!(from_apple(to_apple(unix, 250)), (unix, 250));
}

#[test]
fn the_first_day_may_not_follow_the_last() {
    let a = Date { year: 2026, month: 4, day: 10 };
    let b = Date { year: 2026, month: 4, day: 3 };
    assert!(check_span(b, a).is_ok());
    assert_eq!(check_span(a, b).unwrap_err(), "--from 2026-04-10 is after --to 2026-04-03");
}

#[test]
fn an_email_handle_is_trimmed_and_lower_cased() {
    assert_eq!(normalize("  Me@Example.COM "), "me@example.com");
    assert_eq!(normalize("+46 70-000 00 01"), "46700000001");
}
