use skagedal_tools::git::{
    default_branch_candidates, expand_tilde, fnv1a, format_command, is_dirty_output,
    is_globally_ignored, parse_branches, parse_commit_infos, commit_info_for, parse_upstream_track, pick_default_branch,
    pr_create_args, pr_options_start, visible_window, Branch, BranchCache, GitRepo, KeyResult,
    PrKey, PrOptions, PrOptionsOutcome, PrOptionsState, RunMode, Upstream, UpstreamStatus,
};

#[test]
fn visible_window_centers_on_cursor() {
    assert_eq!(visible_window(0, 10, 5), (0, 5));
    assert_eq!(visible_window(5, 10, 5), (3, 8));
    assert_eq!(visible_window(9, 10, 5), (5, 10));
}

#[test]
fn visible_window_centers_on_selection() {
    assert_eq!(visible_window(0, 10, 5), (0, 5));
    assert_eq!(visible_window(5, 10, 5), (3, 8));
    assert_eq!(visible_window(9, 10, 5), (5, 10));
    assert_eq!(visible_window(0, 3, 5), (0, 3));
}

#[test]
fn branch_needs_action_when_no_upstream() {
    let branch = Branch { refname: "feature".to_string(), upstream: None, worktree_path: None };
    assert!(branch.needs_action());
}

#[test]
fn branch_needs_action_when_upstream_status_not_identical() {
    let branch = Branch {
        refname: "feature".to_string(),
        upstream: Some(Upstream {
            name: "origin/feature".to_string(),
            status: UpstreamStatus::MergeNeeded,
        }),
        worktree_path: None,
    };
    assert!(branch.needs_action());
}

#[test]
fn branch_no_action_when_identical() {
    let branch = Branch {
        refname: "feature".to_string(),
        upstream: Some(Upstream {
            name: "origin/feature".to_string(),
            status: UpstreamStatus::Identical,
        }),
        worktree_path: None,
    };
    assert!(!branch.needs_action());
}

#[test]
fn git_repo_dir_returns_path() {
    let repo = GitRepo::new("/tmp/example".to_string());
    assert_eq!(repo.dir(), "/tmp/example");
}

#[test]
fn parse_branches_handles_all_upstream_states() {
    let output = "\
main|origin/main||/repo
behind|origin/behind|[behind 2]|
ahead|origin/ahead|[ahead 1]|
diverged|origin/diverged|[ahead 1, behind 2]|
gone|origin/gone|[gone]|
local-only||||
";
    let branches = parse_branches(output).unwrap();
    assert_eq!(branches.len(), 6);
    let status = |i: usize| branches[i].upstream.as_ref().map(|u| u.status);
    assert_eq!(branches[0].refname, "main");
    assert_eq!(status(0), Some(UpstreamStatus::Identical));
    assert_eq!(branches[0].worktree_path.as_deref(), Some("/repo"));
    assert_eq!(status(1), Some(UpstreamStatus::UpstreamIsAheadOfLocal));
    assert_eq!(status(2), Some(UpstreamStatus::LocalIsAheadOfUpstream));
    assert_eq!(status(3), Some(UpstreamStatus::MergeNeeded));
    assert_eq!(status(4), Some(UpstreamStatus::UpstreamIsGone));
    assert!(branches[5].upstream.is_none());
    assert!(parse_branches("only|three|fields").is_err());
}

#[test]
fn upstream_track_reads_every_shape() {
    assert_eq!(parse_upstream_track(""), UpstreamStatus::Identical);
    assert_eq!(parse_upstream_track("[gone]"), UpstreamStatus::UpstreamIsGone);
    assert_eq!(parse_upstream_track("[behind 3]"), UpstreamStatus::UpstreamIsAheadOfLocal);
    assert_eq!(parse_upstream_track("[ahead 1, behind 2]"), UpstreamStatus::MergeNeeded);
}

#[test]
fn commit_infos_are_read_per_branch() {
    let output = "main|1700000000|2023-11-14|Alice\nfeature|1700000100|2023-11-14|Bob|with bar\n";
    let infos = parse_commit_infos(output).unwrap();
    let main = commit_info_for(&infos, "main").unwrap();
    assert_eq!(main.commit_timestamp, 1_700_000_000);
    assert_eq!(main.committer, "Alice");
    assert_eq!(commit_info_for(&infos, "feature").unwrap().committer, "Bob|with bar");
    assert!(commit_info_for(&infos, "other").is_none());
    assert!(parse_commit_infos("main|soon|2023-11-14|Alice\n").is_err());
}

#[test]
fn pr_create_args_default_omits_optional_flags() {
    let args = pr_create_args("feature", "main", PrOptions::default());
    assert_eq!(args, vec!["pr", "create", "--head", "feature", "--base", "main"]);
}

#[test]
fn pr_create_args_with_draft_appends_draft_and_fill() {
    let args = pr_create_args("feature", "main", PrOptions { draft: true, web: false });
    assert_eq!(
        args,
        vec!["pr", "create", "--head", "feature", "--base", "main", "--draft", "--fill"]
    );
}

#[test]
fn pr_create_args_with_web_appends_only_web() {
    let args = pr_create_args("feature", "main", PrOptions { draft: false, web: true });
    assert_eq!(args, vec!["pr", "create", "--head", "feature", "--base", "main", "--web"]);
}

#[test]
fn pr_create_args_prefers_draft_when_both_are_set() {
    let args = pr_create_args("feature", "main", PrOptions { draft: true, web: true });
    assert!(args.iter().any(|a| a == "--draft"));
    assert!(args.iter().any(|a| a == "--fill"));
    assert!(!args.iter().any(|a| a == "--web"));
}

#[test]
fn empty_pending_confirms_immediately() {
    match pr_options_start(&[]).unwrap() {
        PrOptionsOutcome::Confirmed(opts) => {
            assert!(!opts.draft);
            assert!(!opts.web);
        }
        PrOptionsOutcome::Cancelled => panic!("expected confirmed"),
    }
}

#[test]
fn enabling_web_clears_draft_and_vice_versa() {
    let mut s = PrOptionsState::initial();
    let _ = s.handle_key(PrKey::Down);
    let _ = s.handle_key(PrKey::Toggle);
    assert!(s.options.web);
    assert!(!s.options.draft);
    let _ = s.handle_key(PrKey::Up);
    let _ = s.handle_key(PrKey::Toggle);
    assert!(s.options.draft);
    assert!(!s.options.web);
}

#[test]
fn cursor_clamps_to_options() {
    let mut s = PrOptionsState::initial();
    let _ = s.handle_key(PrKey::Down);
    let _ = s.handle_key(PrKey::Down);
    assert_eq!(s.cursor, 1);
    let _ = s.handle_key(PrKey::Up);
    let _ = s.handle_key(PrKey::Up);
    assert_eq!(s.cursor, 0);
}

#[test]
fn enter_confirms_and_escape_cancels() {
    let mut s = PrOptionsState::initial();
    assert_eq!(s.handle_key(PrKey::Confirm), KeyResult::Confirm);
    assert_eq!(s.handle_key(PrKey::Cancel), KeyResult::Cancel);
}

#[test]
fn repo_commands_are_the_git_command_lines() {
    let repo = GitRepo::new("/work/repo".to_string());
    let push = repo.push("feature");
    assert_eq!(push.program, "git");
    assert_eq!(push.args, vec!["push", "origin", "feature"]);
    assert_eq!(push.mode, RunMode::Printed);
    assert_eq!(push.dir, "/work/repo");
    assert_eq!(repo.rebase("feature", "origin/feature").args, vec!["rebase", "origin/feature", "feature"]);
    assert_eq!(repo.show_log("feature").program, "tig");
    let pr = repo.create_pull_request("feature", "main", PrOptions::default());
    assert_eq!(pr.program, "gh");
    assert_eq!(format_command(&pr.program, &pr.args), "gh pr create --head feature --base main");
}

#[test]
fn dirty_means_any_status_output() {
    assert!(!is_dirty_output("  \n"));
    assert!(is_dirty_output(" M src/lib.rs\n"));
}

#[test]
fn default_branch_prefers_origin_head() {
    let candidates = default_branch_candidates(Some("refs/remotes/origin/trunk\n"), Some("main"));
    assert_eq!(candidates, vec!["trunk", "main"]);
    let local = vec!["main".to_string(), "trunk".to_string()];
    assert_eq!(pick_default_branch(&candidates, &local).unwrap(), "trunk");
}

#[test]
fn default_branch_handles_slashes_in_origin_head() {
    let candidates = default_branch_candidates(Some("refs/remotes/origin/release/stable"), None);
    assert_eq!(candidates, vec!["release/stable", "main"]);
}

#[test]
fn default_branch_skips_missing_candidates_and_errs_when_none_exist() {
    let candidates =
        default_branch_candidates(Some("refs/remotes/origin/never-fetched"), Some("fallback-branch"));
    let local = vec!["fallback-branch".to_string()];
    assert_eq!(pick_default_branch(&candidates, &local).unwrap(), "fallback-branch");
    let candidates = default_branch_candidates(None, Some("does-not-exist"));
    let error = pick_default_branch(&candidates, &vec!["only-branch".to_string()]).unwrap_err();
    assert_eq!(error.candidates, vec!["does-not-exist", "main"]);
}

#[test]
fn tilde_is_the_home_directory() {
    assert_eq!(expand_tilde("~", Some("/home/me")), "/home/me");
    assert_eq!(expand_tilde("~/src", Some("/home/me")), "/home/me/src");
    assert_eq!(expand_tilde("~/src", None), "~/src");
    assert_eq!(expand_tilde("/abs", Some("/home/me")), "/abs");
}

#[test]
fn ds_store_is_ignored_in_any_case() {
    assert!(is_globally_ignored("/repo/.DS_Store"));
    assert!(is_globally_ignored("repo/.ds_store"));
    assert!(!is_globally_ignored("/repo/src"));
}

#[test]
fn cache_files_are_named_by_hash() {
    assert_eq!(fnv1a(b""), 0xcbf29ce484222325);
    let cache = BranchCache::new("/cache".to_string());
    assert_eq!(cache.root(), "/cache");
    let file = cache.cache_file_for("/tmp/some/projects");
    assert_eq!(file, format!("/cache/branches/{:016x}.json", fnv1a(b"/tmp/some/projects")));
}

fn local(names: &[&str]) -> Vec<String> {
    names.iter().map(|n| n.to_string()).collect()
}

#[test]
fn default_branch_for_checkout_prefers_origin_head() {
    // origin/HEAD names trunk; init.defaultBranch says main; both exist.
    let candidates = default_branch_candidates(Some("refs/remotes/origin/trunk"), Some("main"));
    assert_eq!(pick_default_branch(&candidates, &local(&["main", "trunk"])).unwrap(), "trunk");
}

#[test]
fn default_branch_for_checkout_handles_slashes_in_origin_head() {
    let candidates = default_branch_candidates(Some("refs/remotes/origin/release/stable"), None);
    let picked = pick_default_branch(&candidates, &local(&["main", "release/stable"])).unwrap();
    assert_eq!(picked, "release/stable");
}

#[test]
fn default_branch_for_checkout_falls_back_to_init_default_branch() {
    // No origin/HEAD: a repository made with `git init` never gets one.
    let candidates = default_branch_candidates(None, Some("custom-default"));
    let picked = pick_default_branch(&candidates, &local(&["custom-default", "master"])).unwrap();
    assert_eq!(picked, "custom-default");
}

#[test]
fn default_branch_for_checkout_skips_candidates_missing_locally() {
    // origin/HEAD can name a branch that was never fetched into this clone.
    let candidates =
        default_branch_candidates(Some("refs/remotes/origin/never-fetched"), Some("fallback-branch"));
    let picked = pick_default_branch(&candidates, &local(&["fallback-branch"])).unwrap();
    assert_eq!(picked, "fallback-branch");
}

#[test]
fn default_branch_for_checkout_falls_back_to_main() {
    let candidates = default_branch_candidates(None, Some("does-not-exist"));
    assert_eq!(pick_default_branch(&candidates, &local(&["main"])).unwrap(), "main");
}

#[test]
fn default_branch_for_checkout_errors_when_no_candidate_exists() {
    let candidates = default_branch_candidates(None, Some("does-not-exist"));
    let error = pick_default_branch(&candidates, &local(&["only-branch"])).unwrap_err();
    assert!(error.candidates.iter().any(|c| c.contains("does-not-exist")));
    assert!(error.candidates.iter().any(|c| c.contains("main")));
}

#[test]
fn space_toggles_focused_option() {
    let mut s = PrOptionsState::initial();
    let _ = s.handle_key(PrKey::Toggle);
    assert!(!s.options.draft);
    assert!(!s.options.web);

    let _ = s.handle_key(PrKey::Down);
    let _ = s.handle_key(PrKey::Toggle);
    assert!(s.options.web);
    assert!(!s.options.draft);
}

/// The fixture repository has the branches `existing` and `master`; the
/// library gives the listing command, and reads the listing git prints for
/// it (git itself is not run here).
#[test]
fn test_getting_branches() {
    let repo = GitRepo::new("/tmp/repo-with-some-branches".to_string());
    let command = repo.get_branches();
    assert_eq!(command.program, "git");
    assert_eq!(
        command.args,
        vec![
            "for-each-ref",
            "--format=%(refname:short)|%(upstream:short)|%(upstream:track)|%(worktreepath)",
            "refs/heads/",
        ]
    );
    let output = "existing|||\nmaster|||/tmp/repo-with-some-branches\n";
    let branches = parse_branches(output).unwrap();
    let mut refnames: Vec<String> = branches.iter().map(|b| b.refname.clone()).collect();
    refnames.sort();
    assert_eq!(refnames, vec!["existing", "master"]);
}
