use disk_doctor::git_recovery::{ScanRun, CONFIGS_MESSAGE, GH_MESSAGE, HISTORY_MESSAGE};
use disk_doctor::git_recovery::{
    config_paths, reclone_script, repo_counts, GitRecoveryState, RecoveredRepo, RepoScan, ScanEvent,
    PHOTOREC_INSTRUCTIONS,
};

fn repo(name: &str, remote: &str, source: &str, local: Option<&str>) -> RecoveredRepo {
    RecoveredRepo {
        name: name.to_string(),
        remote: remote.to_string(),
        source: source.to_string(),
        local_path: local.map(|s| s.to_string()),
    }
}

#[test]
fn find_output_gives_trimmed_paths() {
    let paths = config_paths("  /Users/me/Projects/a/.git/config \n\n/Users/me/Projects/b/.git/config\n");
    assert_eq!(paths, vec!["/Users/me/Projects/a/.git/config", "/Users/me/Projects/b/.git/config"]);
}

#[test]
fn git_config_urls_are_found() {
    let mut scan = RepoScan::new();
    let cfg = "[core]\n\tbare = false\n[remote \"origin\"]\n\turl = git@github.com:me/tool.git\n\tfetch = +refs/heads/*\n";
    let found = scan.scan_git_config("/Users/me/Projects/tool/.git/config", cfg);
    assert_eq!(found.len(), 1);
    assert_eq!(found[0].name, "me/tool".rsplit('/').next().unwrap().trim_end_matches(".git"));
    assert_eq!(found[0].name, "tool");
    assert_eq!(found[0].remote, "git@github.com:me/tool.git");
    assert_eq!(found[0].source, "surviving .git");
    assert_eq!(found[0].local_path.as_deref(), Some("/Users/me/Projects/tool"));
    assert_eq!(scan.seen, vec!["git@github.com:me/tool.git"]);
    // the same remote again is not reported twice
    let again = scan.scan_git_config("/Users/me/Projects/copy/.git/config", cfg);
    assert!(again.is_empty());
}

#[test]
fn shell_history_clone_commands_are_found() {
    let mut scan = RepoScan::new();
    let history = ": 1700000000:0;git clone --depth 1 'https://github.com/me/app.git' app2\n\
                   cd app2\n\
                   git clone \"https://gitlab.com/x/lib\"\n\
                   echo git clone -q\n\
                   git clone https://github.com/me/app.git\n";
    let found = scan.scan_history(history);
    let remotes: Vec<&str> = found.iter().map(|r| r.remote.as_str()).collect();
    // the value of `--depth` is skipped; the last line repeats the first remote
    assert_eq!(remotes, vec!["https://github.com/me/app.git", "https://gitlab.com/x/lib"]);
    assert_eq!(found[0].name, "app");
    assert_eq!(found[1].name, "lib");
    assert_eq!(found[0].source, "shell history");
    assert!(found[0].local_path.is_none());
}

#[test]
fn clone_options_and_their_values_are_skipped() {
    let mut scan = RepoScan::new();
    let history = "git clone --depth 1 https://github.com/u/x.git
                   git clone -b main --single-branch git@host:me/y.git
                   git clone --depth=1 -c core.x=1 -o up https://h/z
                   git clone --branch
                   git clone --filter blob:none
";
    let found = scan.scan_history(history);
    let remotes: Vec<&str> = found.iter().map(|r| r.remote.as_str()).collect();
    assert_eq!(remotes, vec!["https://github.com/u/x.git", "git@host:me/y.git", "https://h/z"]);
    assert_eq!(found[0].name, "x");
    assert_eq!(found[1].name, "y");
    assert_eq!(found[2].name, "z");
}

#[test]
fn gh_list_lines_become_github_remotes() {
    let mut scan = RepoScan::new();
    scan.scan_history("git clone https://github.com/me/one.git\n");
    let found = scan.scan_gh_list("me/one\tprivate\t2024-01-01\nme/two  desc\n\n");
    assert_eq!(found.len(), 1);
    assert_eq!(found[0].name, "two");
    assert_eq!(found[0].remote, "https://github.com/me/two.git");
    assert_eq!(found[0].source, "gh CLI");
    assert_eq!(scan.seen.len(), 2);
}

#[test]
fn events_update_the_tab() {
    let mut state = GitRecoveryState::default();
    state.start_scan();
    assert!(state.scanning);
    assert!(!state.done);
    assert_eq!(state.scan_progress, "Starting scan...");
    state.update(vec![
        ScanEvent::Progress("Scanning shell history...".to_string()),
        ScanEvent::FoundRepo(repo("a", "u1", "gh CLI", None)),
        ScanEvent::FoundRepo(repo("b", "u2", "shell history", None)),
    ]);
    assert_eq!(state.scan_progress, "Scanning shell history...");
    assert_eq!(state.repos.len(), 2);
    assert!(state.scanning);
    state.update(vec![ScanEvent::Done]);
    assert!(!state.scanning);
    assert!(state.done);
    assert_eq!(state.scan_progress, "Found 2 repos");
    state.start_scan();
    assert!(state.repos.is_empty());
}

#[test]
fn script_clones_what_is_not_on_disk() {
    let repos = vec![
        repo("tool", "git@x:me/tool.git", "surviving .git", Some("/p/tool")),
        repo("app", "https://github.com/me/app.git", "gh CLI", None),
    ];
    let script = reclone_script(&repos);
    assert_eq!(
        script,
        "#!/bin/zsh\n# Recovery script — run to re-clone projects\n# Generated by Disk Doctor\n\n\
         # git@x:me/tool.git (surviving .git)\n# Already at: /p/tool\n\n\
         # https://github.com/me/app.git (gh CLI)\ngit clone https://github.com/me/app.git app\n\n"
    );
    assert_eq!(repo_counts(&repos), (1, 0, 1));
}

#[test]
fn script_window_shows_guide_or_script() {
    let mut state = GitRecoveryState::default();
    state.repos.push(repo("a", "u", "shell history", None));
    state.show_reclone_script();
    assert!(state.show_script);
    assert!(!state.shows_guide());
    state.show_photorec_guide();
    assert_eq!(state.script.as_deref(), Some(PHOTOREC_INSTRUCTIONS));
    assert!(state.shows_guide());
    state.close_script();
    assert!(!state.show_script);
    assert!(state.script.is_none());
    assert!(!state.shows_guide());
}

#[test]
fn a_script_naming_photorec_is_still_a_script() {
    let mut state = GitRecoveryState::default();
    state.repos.push(repo("photorec", "https://github.com/me/photorec.git", "gh CLI", None));
    state.show_reclone_script();
    assert!(state.script.as_deref().unwrap().contains("photorec"));
    assert!(!state.shows_guide());
}

#[test]
fn a_run_sends_its_stages_in_order_and_each_remote_once() {
    let mut sent: Vec<ScanEvent> = Vec::new();
    let (mut run, first) = ScanRun::start();
    sent.push(first);
    sent.extend(run.config("/h/Projects/x/.git/config", "\turl = https://github.com/u/x.git\n"));
    sent.push(run.begin_history());
    sent.extend(run.history("git clone --depth 1 https://github.com/u/x.git\ngit clone https://h/y\n"));
    sent.push(run.begin_gh());
    sent.extend(run.gh("u/y\nu/z\tdesc\n"));
    sent.push(run.end());
    let text: Vec<String> = sent
        .iter()
        .map(|e| match e {
            ScanEvent::Progress(m) => format!("P:{m}"),
            ScanEvent::FoundRepo(r) => format!("F:{}:{}", r.source, r.remote),
            ScanEvent::Done => "D".to_string(),
        })
        .collect();
    assert_eq!(
        text,
        vec![
            format!("P:{CONFIGS_MESSAGE}"),
            "F:surviving .git:https://github.com/u/x.git".to_string(),
            format!("P:{HISTORY_MESSAGE}"),
            "F:shell history:https://h/y".to_string(),
            format!("P:{GH_MESSAGE}"),
            "F:gh CLI:https://github.com/u/y.git".to_string(),
            "F:gh CLI:https://github.com/u/z.git".to_string(),
            "D".to_string(),
        ]
    );
    assert_eq!(CONFIGS_MESSAGE, "Scanning for surviving .git dirs...");
    assert_eq!(HISTORY_MESSAGE, "Scanning shell history...");
    assert_eq!(GH_MESSAGE, "Checking gh CLI...");
}
