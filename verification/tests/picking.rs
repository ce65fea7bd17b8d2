use skagedal_tools::git::{Branch, BranchCommitInfo, KeyResult, TaskResult, Upstream, UpstreamStatus};
use skagedal_tools::pickers::{
    applying_message, group_by_state, remaining, BulkBranch, GroupKey,
    branch_status, format_entry_lines, repo_entries, rows_for_line, select_entry, selection_result,
    sort_entries, ActionSpec, BranchListEntry, BranchStatus, BulkKey, BulkOutcome, BulkState,
    EventResult, PickerEvent, PickerKey, PickerState, Selection,
};

fn state(entries: usize, actions: usize) -> BulkState {
    state_with_bulk(entries, vec![true; actions])
}

fn state_with_bulk(entries: usize, bulk_flags: Vec<bool>) -> BulkState {
    BulkState::start(
        "test",
        (0..entries).map(|i| format!("entry-{i}")).collect(),
        bulk_flags
            .into_iter()
            .enumerate()
            .map(|(i, bulk_safe)| ActionSpec { label: format!("action-{i}"), bulk_safe })
            .collect(),
    )
    .unwrap()
}

#[test]
fn space_toggles_current_entry() {
    let mut s = state(3, 2);
    assert!(s.checked[0]);
    let _ = s.handle_key(BulkKey::Toggle);
    assert!(!s.checked[0]);
    let _ = s.handle_key(BulkKey::Toggle);
    assert!(s.checked[0]);
}

#[test]
fn arrow_keys_move_cursor_within_bounds() {
    let mut s = state(3, 2);
    let _ = s.handle_key(BulkKey::Down);
    assert_eq!(s.cursor, 1);
    let _ = s.handle_key(BulkKey::Down);
    assert_eq!(s.cursor, 2);
    let _ = s.handle_key(BulkKey::Down);
    assert_eq!(s.cursor, 2);
    let _ = s.handle_key(BulkKey::Up);
    assert_eq!(s.cursor, 1);
}

#[test]
fn horizontal_keys_move_action_within_bounds() {
    let mut s = state(2, 3);
    let _ = s.handle_key(BulkKey::Right);
    assert_eq!(s.action_index, 1);
    let _ = s.handle_key(BulkKey::Right);
    assert_eq!(s.action_index, 2);
    let _ = s.handle_key(BulkKey::Right);
    assert_eq!(s.action_index, 2);
    let _ = s.handle_key(BulkKey::Left);
    assert_eq!(s.action_index, 1);
}

#[test]
fn jk_navigates() {
    let mut s = state(3, 2);
    let _ = s.handle_key(BulkKey::Down);
    assert_eq!(s.cursor, 1);
    let _ = s.handle_key(BulkKey::Up);
    assert_eq!(s.cursor, 0);
}

#[test]
fn toggle_all_inverts_when_all_selected() {
    let mut s = state(3, 2);
    let _ = s.handle_key(BulkKey::ToggleAll);
    assert!(s.checked.iter().all(|c| !c));
    let _ = s.handle_key(BulkKey::ToggleAll);
    assert!(s.checked.iter().all(|c| *c));
}

#[test]
fn enter_yields_confirm() {
    let mut s = state(2, 2);
    assert_eq!(s.handle_key(BulkKey::Confirm), KeyResult::Confirm);
}

#[test]
fn escape_yields_cancel() {
    let mut s = state(2, 2);
    assert_eq!(s.handle_key(BulkKey::Cancel), KeyResult::Cancel);
}

#[test]
fn space_is_ignored_when_action_is_single_branch() {
    let mut s = state_with_bulk(3, vec![true, false]);
    s.action_index = 1;
    assert!(s.checked[0]);
    let _ = s.handle_key(BulkKey::Toggle);
    assert!(s.checked[0]);
}

#[test]
fn toggle_all_is_ignored_when_action_is_single_branch() {
    let mut s = state_with_bulk(3, vec![true, false]);
    s.action_index = 1;
    let _ = s.handle_key(BulkKey::ToggleAll);
    assert!(s.checked.iter().all(|c| *c));
}

#[test]
fn switching_to_bulk_action_preserves_selections() {
    let mut s = state_with_bulk(3, vec![true, false, true]);
    let _ = s.handle_key(BulkKey::Toggle);
    assert!(!s.checked[0]);
    let _ = s.handle_key(BulkKey::Right);
    assert!(!s.current_is_bulk());
    let _ = s.handle_key(BulkKey::Toggle);
    assert!(!s.checked[0]);
    let _ = s.handle_key(BulkKey::ToggleAll);
    assert!(!s.checked[0]);
    let _ = s.handle_key(BulkKey::Right);
    assert!(s.current_is_bulk());
    assert!(!s.checked[0]);
    assert!(s.checked[1]);
    assert!(s.checked[2]);
}

#[test]
fn confirming_runs_on_the_checked_or_the_current_branch() {
    let mut s = state_with_bulk(3, vec![true, false]);
    let _ = s.handle_key(BulkKey::Down);
    let _ = s.handle_key(BulkKey::Toggle);
    assert_eq!(s.confirmed(), BulkOutcome::Confirmed { target_indices: vec![0, 2], action_index: 0 });
    let _ = s.handle_key(BulkKey::Right);
    assert_eq!(s.confirmed(), BulkOutcome::Confirmed { target_indices: vec![1], action_index: 1 });
    assert!(BulkState::start("t", vec![], vec![]).is_none());
}

#[test]
fn rows_for_line_counts_wraps() {
    assert_eq!(rows_for_line("", 80), 1);
    assert_eq!(rows_for_line("hello", 80), 1);
    assert_eq!(rows_for_line(&"a".repeat(80), 80), 1);
    assert_eq!(rows_for_line(&"a".repeat(81), 80), 2);
    assert_eq!(rows_for_line(&"a".repeat(160), 80), 2);
    assert_eq!(rows_for_line(&"a".repeat(161), 80), 3);
    assert_eq!(rows_for_line("anything", 0), 1);
}

#[test]
fn rows_for_line_ignores_ansi_escapes() {
    let plain = "Push to create origin";
    let styled = format!("{}", console::style(plain).reverse().bold().force_styling(true));
    assert!(styled.len() > plain.len());
    assert_eq!(rows_for_line(&styled, 80), 1);
}

fn entry(timestamp: i64, repo: &str, refname: &str) -> BranchListEntry {
    BranchListEntry {
        repo_name: repo.to_string(),
        repo_path: format!("/tmp/{repo}"),
        refname: refname.to_string(),
        status: BranchStatus::Identical,
        commit_timestamp: timestamp,
        commit_date: "2024-01-01".to_string(),
        committer: "alice".to_string(),
        worktree_path: None,
    }
}

#[test]
fn entries_sort_oldest_first() {
    let entries = sort_entries(vec![
        entry(2000, "repo-a", "main"),
        entry(1000, "repo-b", "main"),
        entry(3000, "repo-a", "feature"),
    ]);
    assert_eq!(entries[0].repo_name, "repo-b");
    assert_eq!(entries[1].repo_name, "repo-a");
    assert_eq!(entries[1].refname, "main");
    assert_eq!(entries[2].refname, "feature");
}

#[test]
fn ties_sort_by_repository_then_branch() {
    let entries = sort_entries(vec![entry(1, "b", "x"), entry(1, "a", "y"), entry(1, "a", "x")]);
    let order: Vec<(String, String)> =
        entries.iter().map(|e| (e.repo_name.clone(), e.refname.clone())).collect();
    assert_eq!(
        order,
        vec![("a".into(), "x".into()), ("a".into(), "y".into()), ("b".into(), "x".into())]
    );
}

#[test]
fn select_entry_redirects_to_worktree_path() {
    let mut e = entry(1000, "repo", "feature");
    e.worktree_path = Some("/tmp/worktree".to_string());
    let selection = select_entry(&e, false);
    assert_eq!(selection, Selection::Worktree("/tmp/worktree".to_string()));
    match selection_result(&selection) {
        TaskResult::ShellActionRequired(path) => assert_eq!(path, "/tmp/worktree"),
        TaskResult::Proceed => panic!("expected shell action"),
    }
    assert_eq!(
        select_entry(&e, true),
        Selection::Checkout { repo_path: "/tmp/repo".to_string(), refname: "feature".to_string() }
    );
}

#[test]
fn the_listing_pads_each_column_to_its_widest_cell() {
    let mut a = entry(1, "repo", "main");
    a.status = BranchStatus::NoUpstream;
    let mut b = entry(2, "r", "feature/x");
    b.committer = "bo".to_string();
    let lines = format_entry_lines(&vec![a, b]);
    assert_eq!(
        lines,
        vec![
            "2024-01-01  no upstream  alice  repo/main  ",
            "2024-01-01  ok           bo     r/feature/x",
        ]
    );
    assert!(format_entry_lines(&vec![]).is_empty());
}

#[test]
fn a_repository_lists_the_branches_it_has_commits_for() {
    let branches = vec![
        Branch { refname: "main".to_string(), upstream: None, worktree_path: None },
        Branch {
            refname: "gone".to_string(),
            upstream: Some(Upstream { name: "origin/gone".to_string(), status: UpstreamStatus::UpstreamIsGone }),
            worktree_path: Some("/wt".to_string()),
        },
        Branch { refname: "unlisted".to_string(), upstream: None, worktree_path: None },
    ];
    let info = |ts: i64| BranchCommitInfo {
        commit_timestamp: ts,
        commit_date: "2024-02-02".to_string(),
        committer: "carol".to_string(),
    };
    let infos = vec![("main".to_string(), info(5)), ("gone".to_string(), info(7))];
    let entries = repo_entries("app", "/src/app", &branches, &infos);
    assert_eq!(entries.len(), 2);
    assert_eq!(entries[0].status, BranchStatus::NoUpstream);
    assert_eq!(entries[1].status, BranchStatus::UpstreamGone);
    assert_eq!(entries[1].commit_timestamp, 7);
    assert_eq!(entries[1].worktree_path.as_deref(), Some("/wt"));
    assert_eq!(entries[1].repo_path, "/src/app");
    assert_eq!(branch_status(&branches[1]).label(), "gone");
}

fn make_entry(repo: &str, refname: &str) -> BranchListEntry {
    entry(1000, repo, refname)
}

fn picker(entries: Vec<BranchListEntry>, selected: usize) -> PickerState {
    let mut s = PickerState::new(entries, true);
    s.selected = selected;
    s
}

#[test]
fn refresh_keeps_selection_on_same_branch() {
    let mut s = picker(vec![make_entry("a", "main"), make_entry("b", "main"), make_entry("c", "feature")], 1);
    s.apply_refresh(vec![make_entry("c", "feature"), make_entry("b", "main"), make_entry("a", "main")]);
    assert_eq!(s.selected, 1);
    assert_eq!(s.entries[s.selected].repo_name, "b");
    assert!(!s.refreshing);
}

#[test]
fn refresh_falls_back_to_first_when_branch_missing() {
    let mut s = picker(vec![make_entry("a", "old"), make_entry("b", "main")], 0);
    s.apply_refresh(vec![make_entry("b", "main"), make_entry("c", "x")]);
    assert_eq!(s.selected, 0);
    assert_eq!(s.entries[s.selected].repo_name, "b");
}

#[test]
fn refresh_to_empty_clamps_selection() {
    let mut s = picker(vec![make_entry("a", "main")], 0);
    s.apply_refresh(vec![]);
    assert_eq!(s.entries.len(), 0);
    assert_eq!(s.selected, 0);
}

#[test]
fn picker_keys_move_pick_and_cancel() {
    let mut s = picker(vec![make_entry("a", "main"), make_entry("b", "main")], 0);
    assert_eq!(s.handle_event(PickerEvent::Key(PickerKey::End)), EventResult::Continue);
    assert_eq!(s.selected, 1);
    let _ = s.handle_event(PickerEvent::Key(PickerKey::Down));
    assert_eq!(s.selected, 1);
    let _ = s.handle_event(PickerEvent::Key(PickerKey::Home));
    assert_eq!(s.selected, 0);
    assert_eq!(s.handle_event(PickerEvent::Key(PickerKey::Pick)), EventResult::Pick);
    assert_eq!(s.picked().unwrap().repo_name, "a");
    assert_eq!(s.handle_event(PickerEvent::RefreshEnded), EventResult::Continue);
    assert!(!s.refreshing);
    assert_eq!(s.handle_event(PickerEvent::KeyEnded), EventResult::Cancel);
}

fn bb(repo: &str, refname: &str, upstream: Option<UpstreamStatus>) -> BulkBranch {
    BulkBranch {
        repo_name: repo.to_string(),
        repo_path: format!("/tmp/{repo}"),
        branch: Branch {
            refname: refname.to_string(),
            upstream: upstream.map(|status| Upstream { name: format!("origin/{refname}"), status }),
            worktree_path: None,
        },
    }
}

#[test]
fn group_by_state_groups_and_sorts() {
    let branches = vec![
        bb("a", "feature-1", Some(UpstreamStatus::UpstreamIsGone)),
        bb("b", "main", Some(UpstreamStatus::Identical)),
        bb("c", "new", None),
        bb("a", "feature-2", Some(UpstreamStatus::UpstreamIsGone)),
    ];
    let groups = group_by_state(&branches);
    let keys: Vec<GroupKey> = groups.iter().map(|(k, _)| *k).collect();
    assert_eq!(keys, vec![GroupKey::NoUpstream, GroupKey::UpstreamIsGone]);
    let gone_group = groups.iter().find(|(k, _)| *k == GroupKey::UpstreamIsGone).unwrap();
    assert_eq!(gone_group.1.len(), 2);
    assert_eq!(gone_group.1[1].display(), "a/feature-2");
}

#[test]
fn handled_branches_leave_the_group() {
    let group = vec![bb("a", "x", None), bb("b", "y", None), bb("c", "z", None)];
    let left = remaining(group, &vec![0, 2]);
    assert_eq!(left.len(), 1);
    assert_eq!(left[0].display(), "b/y");
}

#[test]
fn a_bulk_action_says_what_it_is_about_to_do() {
    assert_eq!(applying_message("Delete", 1, true, "a/x"), "Applying \"Delete\" to 1 branch...");
    assert_eq!(applying_message("Delete", 3, true, "a/x"), "Applying \"Delete\" to 3 branches...");
    assert_eq!(applying_message("Rebase", 1, false, "a/x"), "Rebase on a/x...");
}
