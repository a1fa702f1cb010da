use rm_old::arg::Config;
use rm_old::fs::Dir;
use rm_old::remove::{removal_log_line, removal_plan, RemoveAction};

fn report(parent: &str, names: &[&str]) -> Dir {
    Dir {
        parent_path: parent.to_string(),
        files_path: names.iter().map(|n| n.to_string()).collect(),
    }
}

fn cfg(args: &[&str]) -> Config {
    let mut argv = vec!["rm-old".to_string()];
    for a in args.iter() {
        argv.push(a.to_string());
    }
    Config::parse_config(&argv).unwrap()
}

fn entry_paths(plan: &[RemoveAction]) -> Vec<String> {
    plan.iter()
        .map(|a| match a {
            RemoveAction::Entry(p) => format!("rm {}", p),
            RemoveAction::CleanupIfEmpty(p) => format!("rmdir? {}", p),
        })
        .collect()
}

#[test]
fn plan_runs_in_reverse_discovery_order() {
    // The parent's report was discovered first, the subdirectory's second:
    // the subdirectory's entries must be processed first, so its contents are
    // finalized before the parent is revisited.
    let dirs = vec![
        report("./parent", &["old_in_parent.txt"]),
        report("./parent/sub", &["old_in_sub.txt"]),
    ];
    let config = cfg(&["-d", "60", "-r"]);
    let plan = removal_plan(&dirs, &config);
    assert_eq!(
        entry_paths(&plan),
        vec![
            "rm ./parent/sub/old_in_sub.txt".to_string(),
            "rm ./parent/old_in_parent.txt".to_string(),
        ]
    );
}

#[test]
fn plan_cleanup_follows_each_report() {
    let dirs = vec![
        report("./parent", &["a.txt"]),
        report("./parent/sub", &["b.txt", "c.txt"]),
    ];
    let config = cfg(&["-d", "60", "-r", "--remove-empty"]);
    let plan = removal_plan(&dirs, &config);
    assert_eq!(
        entry_paths(&plan),
        vec![
            "rm ./parent/sub/b.txt".to_string(),
            "rm ./parent/sub/c.txt".to_string(),
            "rmdir? ./parent/sub".to_string(),
            "rm ./parent/a.txt".to_string(),
            "rmdir? ./parent".to_string(),
        ]
    );
}

#[test]
fn dry_run_plans_and_logs_identically() {
    // A dry run differs from a real run only in not calling the deleter: the
    // plan and every log line are byte-for-byte the same.
    let dirs = vec![
        report("./x", &["one.txt"]),
        report("./x/y", &["two.txt"]),
    ];
    let real = cfg(&["-d", "60", "-r", "--remove-empty"]);
    let dry = cfg(&["-d", "60", "-r", "--remove-empty", "-n"]);
    assert!(!real.dry_run());
    assert!(dry.dry_run());

    let plan_real = removal_plan(&dirs, &real);
    let plan_dry = removal_plan(&dirs, &dry);
    assert_eq!(entry_paths(&plan_real), entry_paths(&plan_dry));

    let logs_real: Vec<String> = plan_real.iter().map(|a| removal_log_line(a)).collect();
    let logs_dry: Vec<String> = plan_dry.iter().map(|a| removal_log_line(a)).collect();
    assert_eq!(logs_real, logs_dry);
    assert_eq!(logs_real[0], "Removed: ./x/y/two.txt".to_string());
}

#[test]
fn empty_reports_make_empty_plan() {
    let dirs: Vec<Dir> = vec![];
    let config = cfg(&["-d", "60"]);
    let plan = removal_plan(&dirs, &config);
    assert!(plan.is_empty());
}
