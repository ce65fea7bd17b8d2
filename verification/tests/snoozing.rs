use skagedal_tools::dirty::{
    format_snooze_remaining, repo_snooze_key, snooze_expiry, DirtyAction, DirtyApp, DirtyKey,
    DirtyMode,
};

fn paths(v: &[&str]) -> Vec<String> {
    v.iter().map(|s| s.to_string()).collect()
}

#[test]
fn a_snooze_key_replaces_every_slash() {
    assert_eq!(repo_snooze_key("/home/me/code/x"), "__home__me__code__x");
    assert_eq!(repo_snooze_key("plain"), "plain");
}

#[test]
fn a_snooze_lasts_an_hour_from_now_or_from_the_current_end() {
    assert_eq!(snooze_expiry(None, 1_000), 4_600);
    assert_eq!(snooze_expiry(Some(5_000), 1_000), 8_600);
}

#[test]
fn what_is_left_of_a_snooze() {
    assert_eq!(format_snooze_remaining(None), "expired");
    assert_eq!(format_snooze_remaining(Some(0)), "0m");
    assert_eq!(format_snooze_remaining(Some(59 * 60 + 59)), "59m");
    assert_eq!(format_snooze_remaining(Some(3600 + 5 * 60)), "1h5m");
    assert_eq!(format_snooze_remaining(Some(2 * 3600)), "2h0m");
}

#[test]
fn snoozed_repositories_go_last_in_their_order() {
    let app = DirtyApp::new(paths(&["/a", "/b", "/c", "/d"]), vec![None, Some(10), None, Some(20)]);
    assert_eq!(app.all_repos, paths(&["/a", "/c", "/b", "/d"]));
    assert_eq!(app.filtered_repos, app.all_repos);
    assert_eq!(app.selected, 0);
    assert_eq!(app.mode, DirtyMode::Normal);
    assert_eq!(app.snooze_end("/b"), Some(10));
    assert_eq!(app.snooze_end("/a"), None);
}

#[test]
fn searching_narrows_ignoring_case_and_holds_the_cursor() {
    let mut app = DirtyApp::new(paths(&["/src/Alpha", "/src/beta", "/src/alphabet"]), vec![None, None, None]);
    app.handle_key(DirtyKey::Down);
    app.handle_key(DirtyKey::Down);
    assert_eq!(app.selected, 2);
    assert_eq!(app.handle_key(DirtyKey::Char('/')), DirtyAction::Continue);
    assert_eq!(app.mode, DirtyMode::Search);
    for c in "ALPHA".chars() {
        app.handle_key(DirtyKey::Char(c));
    }
    assert_eq!(app.filtered_repos, paths(&["/src/Alpha", "/src/alphabet"]));
    assert_eq!(app.selected, 1);
    app.handle_key(DirtyKey::Char('b'));
    assert_eq!(app.filtered_repos, paths(&["/src/alphabet"]));
    assert_eq!(app.selected, 0);
    app.handle_key(DirtyKey::Backspace);
    assert_eq!(app.query, "ALPHA");
    assert_eq!(app.filtered_repos.len(), 2);
    assert_eq!(
        app.handle_key(DirtyKey::Enter),
        DirtyAction::Choose(Some("/src/Alpha".to_string()))
    );
    assert_eq!(app.mode, DirtyMode::Normal);
}

#[test]
fn keys_in_the_list() {
    let mut app = DirtyApp::new(paths(&["/a", "/b"]), vec![None, Some(100)]);
    assert_eq!(app.handle_key(DirtyKey::Char('k')), DirtyAction::Continue);
    assert_eq!(app.selected, 0);
    app.handle_key(DirtyKey::Char('j'));
    app.handle_key(DirtyKey::Char('j'));
    assert_eq!(app.selected, 1);
    assert_eq!(app.handle_key(DirtyKey::Char('s')), DirtyAction::Snooze("/b".to_string()));
    assert_eq!(app.handle_key(DirtyKey::Char('u')), DirtyAction::Unsnooze("/b".to_string()));
    assert_eq!(app.snooze_end("/b"), None);
    app.record_snooze("/a", 7);
    assert_eq!(app.snooze_end("/a"), Some(7));
    app.record_snooze("/a", 9);
    assert_eq!(app.snooze_end("/a"), Some(9));
    assert_eq!(app.handle_key(DirtyKey::Char('q')), DirtyAction::Quit);
    assert_eq!(app.handle_key(DirtyKey::Esc), DirtyAction::Quit);
    assert_eq!(app.handle_key(DirtyKey::Enter), DirtyAction::Choose(Some("/b".to_string())));
}

#[test]
fn the_footer_counts_the_snoozed_ones() {
    let mut app = DirtyApp::new(paths(&["/a", "/b", "/c"]), vec![None, Some(100), None]);
    assert_eq!(app.footer_text(), "3 dirty repos (1 snoozed)");
    app.handle_key(DirtyKey::Char('/'));
    app.handle_key(DirtyKey::Char('c'));
    assert_eq!(app.footer_text(), "/c");
    let plain = DirtyApp::new(paths(&["/a"]), vec![None]);
    assert_eq!(plain.footer_text(), "1 dirty repos");
}

#[test]
fn a_snoozed_line_says_what_is_left() {
    let app = DirtyApp::new(paths(&["/a", "/b"]), vec![None, Some(10_000)]);
    assert_eq!(app.item_text("/a", 0), "/a");
    assert_eq!(app.item_text("/b", 10_000 - 3700), "/b (snoozed 1h1m)");
    assert_eq!(app.item_text("/b", 10_001), "/b (snoozed expired)");
}

#[test]
fn removing_a_repository_takes_it_out_of_the_list() {
    let mut app = DirtyApp::new(paths(&["/a", "/b"]), vec![None, None]);
    app.handle_key(DirtyKey::Down);
    app.remove_repo("/b");
    assert_eq!(app.all_repos, paths(&["/a"]));
    assert_eq!(app.filtered_repos, paths(&["/a"]));
    assert_eq!(app.selected, 0);
}
