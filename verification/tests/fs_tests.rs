use rm_old::arg::Config;
use rm_old::fs::{classify_age, get_dirs_in_dir, get_files_in_dir, Dir, FsNode, ScanError};

const DAY: u64 = 86400;

fn file(name: &str, accessed: u64) -> FsNode {
    FsNode::File { name: name.to_string(), accessed }
}

fn dir(name: &str, accessed: u64, entries: Vec<FsNode>) -> FsNode {
    FsNode::Dir { name: name.to_string(), accessed, readable: true, entries }
}

fn unreadable_dir(name: &str, accessed: u64) -> FsNode {
    FsNode::Dir { name: name.to_string(), accessed, readable: false, entries: vec![] }
}

fn cfg(args: &[&str]) -> Config {
    let mut argv = vec!["rm-old".to_string()];
    for a in args.iter() {
        argv.push(a.to_string());
    }
    Config::parse_config(&argv).unwrap()
}

/// A fixture tree: one stale file at the root and
/// two subdirectories with one stale file each (access time 0 is older than
/// any threshold at any positive scan instant).
fn test_dir_tree() -> FsNode {
    dir(
        "test_dir",
        0,
        vec![
            file("old_root.txt", 0),
            dir("sub_a", 0, vec![file("old_a.txt", 0)]),
            dir("sub_b", 0, vec![file("old_b.txt", 0)]),
        ],
    )
}

#[test]
fn fs_test_get_files() {
    let now: u64 = 10 * DAY;
    let config = cfg(&["-d", "0"]);
    let roots = vec![test_dir_tree()];

    let test_dir = match Dir::get_target_files(&config, &roots, now) {
        Ok(dir) => dir,
        Err(_) => panic!("scan failed"),
    };
    assert_eq!(1, test_dir.len());

    let config = cfg(&["-d", "0", "-r"]);
    let test_dir = match Dir::get_target_files(&config, &roots, now) {
        Ok(dir) => dir,
        Err(_) => panic!("scan failed"),
    };
    assert_eq!(3, test_dir.len());

    let config = cfg(&["-d", "0", "--remove-dir"]);
    let test_dir = match Dir::get_target_files(&config, &roots, now) {
        Ok(dir) => dir,
        Err(_) => panic!("scan failed"),
    };
    assert_eq!(1, test_dir.len());
}

#[test]
fn main_test_get_files() {
    let now: u64 = 10 * DAY;
    let config = cfg(&["-d", "0"]);
    let roots = vec![test_dir_tree()];

    let test_dir = match Dir::get_target_files(&config, &roots, now) {
        Ok(dir) => dir,
        Err(_) => panic!("scan failed"),
    };
    assert_eq!(1, test_dir.len());

    let config = cfg(&["-d", "0", "-r"]);
    let test_dir = match Dir::get_target_files(&config, &roots, now) {
        Ok(dir) => dir,
        Err(_) => panic!("scan failed"),
    };
    assert_eq!(3, test_dir.len());
}

#[test]
fn classify_strict_at_threshold() {
    let now: u64 = 100 * DAY;
    // Exactly at the threshold: one day old with a one-day threshold is not
    // stale.
    assert_eq!(classify_age(now, now - DAY, 1), Some(false));
    // One second over the threshold is stale.
    assert_eq!(classify_age(now, now - DAY - 1, 1), Some(true));
    // One second under is not.
    assert_eq!(classify_age(now, now - DAY + 1, 1), Some(false));
    // Age zero, threshold zero: not stale.
    assert_eq!(classify_age(now, now, 0), Some(false));
    // Any positive age exceeds a zero threshold.
    assert_eq!(classify_age(now, now - 1, 0), Some(true));
    // An access time in the future is a clock-skew fault, not a verdict.
    assert_eq!(classify_age(now, now + 1, 0), None);
}

#[test]
fn scan_three_files_threshold_60() {
    // Files aged 0, 61 and 90 days; threshold 60 days, no recursion: one
    // report listing exactly the 61-day and the 90-day file.
    let now: u64 = 365 * DAY;
    let tree = dir(
        "cache",
        0,
        vec![
            file("fresh.txt", now),
            file("old61.txt", now - 61 * DAY),
            file("old90.txt", now - 90 * DAY),
        ],
    );
    let config = cfg(&["-d", "60"]);
    let path = "./cache".to_string();
    let reports = get_files_in_dir(&path, &tree, &config, now).unwrap();
    assert_eq!(reports.len(), 1);
    assert_eq!(reports[0].parent_path, "./cache".to_string());
    assert_eq!(
        reports[0].files_path,
        vec!["old61.txt".to_string(), "old90.txt".to_string()]
    );
    assert_eq!(reports[0].get_amount_files(), 2);
}

#[test]
fn scan_three_files_threshold_100() {
    // The same directory with a 100-day threshold: nothing is stale and no
    // report is emitted at all.
    let now: u64 = 365 * DAY;
    let tree = dir(
        "cache",
        0,
        vec![
            file("fresh.txt", now),
            file("old61.txt", now - 61 * DAY),
            file("old90.txt", now - 90 * DAY),
        ],
    );
    let config = cfg(&["-d", "100"]);
    let path = "./cache".to_string();
    let reports = get_files_in_dir(&path, &tree, &config, now).unwrap();
    assert!(reports.is_empty());

    // In directory granularity the same absence is the NoTargets error, not
    // an empty report.
    let fresh_subdirs = dir("cache", 0, vec![dir("sub", now, vec![])]);
    let r = get_dirs_in_dir(&path, &fresh_subdirs, &config, now);
    assert!(matches!(r, Err(ScanError::NoTargets(p)) if p == "./cache"));
}

#[test]
fn dir_granularity_reports_stale_subdirs() {
    let now: u64 = 365 * DAY;
    let tree = dir(
        "cache",
        0,
        vec![
            dir("old_sub", now - 70 * DAY, vec![]),
            dir("fresh_sub", now, vec![]),
            file("old_file_not_counted.txt", 0),
        ],
    );
    let config = cfg(&["-d", "60", "--remove-dir"]);
    let path = "./cache".to_string();
    let report = get_dirs_in_dir(&path, &tree, &config, now).unwrap();
    assert_eq!(report.parent_path, "./cache".to_string());
    assert_eq!(report.files_path, vec!["old_sub".to_string()]);
}

#[test]
fn recursion_off_ignores_deep_files() {
    // Stale files only at depth two: without recursion there are zero
    // reports; with it, exactly one report per directory that directly
    // contains a stale file, whatever the fan-out.
    let now: u64 = 365 * DAY;
    let tree = dir(
        "root",
        0,
        vec![
            file("fresh.txt", now),
            dir("a", now, vec![file("old1.txt", 0)]),
            dir("b", now, vec![file("old2.txt", 0), file("old3.txt", 0)]),
            dir("empty", now, vec![]),
        ],
    );
    let path = "./root".to_string();

    let flat = cfg(&["-d", "60"]);
    let reports = get_files_in_dir(&path, &tree, &flat, now).unwrap();
    assert!(reports.is_empty());

    let deep = cfg(&["-d", "60", "-r"]);
    let reports = get_files_in_dir(&path, &tree, &deep, now).unwrap();
    assert_eq!(reports.len(), 2);
    assert_eq!(reports[0].parent_path, "./root/a".to_string());
    assert_eq!(reports[0].files_path, vec!["old1.txt".to_string()]);
    assert_eq!(reports[1].parent_path, "./root/b".to_string());
    assert_eq!(
        reports[1].files_path,
        vec!["old2.txt".to_string(), "old3.txt".to_string()]
    );
}

#[test]
fn unreadable_sibling_is_isolated() {
    // One unreadable subdirectory must not cost the stale files found in its
    // siblings.
    let now: u64 = 365 * DAY;
    let tree = dir(
        "root",
        0,
        vec![
            unreadable_dir("broken", now),
            dir("ok", now, vec![file("old.txt", 0)]),
        ],
    );
    let config = cfg(&["-d", "60", "-r"]);
    let path = "./root".to_string();
    let reports = get_files_in_dir(&path, &tree, &config, now).unwrap();
    assert_eq!(reports.len(), 1);
    assert_eq!(reports[0].parent_path, "./root/ok".to_string());
    assert_eq!(reports[0].files_path, vec!["old.txt".to_string()]);
}

#[test]
fn clock_skew_aborts_directory() {
    // An entry accessed in the future of the scan start aborts its whole
    // directory rather than being clamped.
    let now: u64 = 365 * DAY;
    let tree = dir(
        "root",
        0,
        vec![file("old.txt", 0), file("from_the_future.txt", now + 5)],
    );
    let config = cfg(&["-d", "60"]);
    let path = "./root".to_string();
    let r = get_files_in_dir(&path, &tree, &config, now);
    assert!(matches!(r, Err(ScanError::ClockSkew(p)) if p == "./root"));

    // The same fault inside a recursed subtree is swallowed; the parent's own
    // findings survive.
    let tree = dir(
        "root",
        0,
        vec![
            file("old.txt", 0),
            dir("skewed", now, vec![file("future.txt", now + 5)]),
        ],
    );
    let config = cfg(&["-d", "60", "-r"]);
    let reports = get_files_in_dir(&path, &tree, &config, now).unwrap();
    assert_eq!(reports.len(), 1);
    assert_eq!(reports[0].parent_path, "./root".to_string());
}

#[test]
fn unreadable_root_is_fatal() {
    let now: u64 = 365 * DAY;
    let tree = unreadable_dir("root", now);
    let config = cfg(&["-d", "60"]);
    let path = "./root".to_string();
    let r = get_files_in_dir(&path, &tree, &config, now);
    assert!(matches!(r, Err(ScanError::Unreadable(p)) if p == "./root"));

    let roots = vec![unreadable_dir("root", now)];
    let r = Dir::get_target_files(&config, &roots, now);
    assert!(matches!(r, Err(ScanError::Unreadable(_))));
}

#[test]
fn no_targets_roots_are_omitted() {
    // Directory granularity over two roots: one with a stale subdirectory,
    // one with none. The empty root is left out; the other is reported.
    let now: u64 = 365 * DAY;
    let config = cfg(&["-d", "60", "--remove-dir"]);
    let with_stale = dir("a", 0, vec![dir("old_sub", 0, vec![])]);
    let without = dir("b", 0, vec![dir("fresh_sub", now, vec![])]);
    let r1 = get_dirs_in_dir(&"./a".to_string(), &with_stale, &config, now);
    let r2 = get_dirs_in_dir(&"./b".to_string(), &without, &config, now);
    assert!(r1.is_ok());
    assert!(matches!(r2, Err(ScanError::NoTargets(_))));

    // Every root empty: the aggregate result is empty, with no report.
    let fresh_roots = vec![dir("b", 0, vec![dir("fresh_sub", now, vec![])])];
    let reports = Dir::get_target_files(&config, &fresh_roots, now).unwrap();
    assert!(reports.is_empty());
}

#[test]
fn dir_report_accessors() {
    let d = Dir::new(&"./x".to_string());
    assert_eq!(d.get_amount_files(), 0);
    assert_eq!(d.get_parent_path(), &"./x".to_string());
    assert!(d.get_files().is_empty());
}

#[test]
fn own_report_precedes_children() {
    // A directory with its own stale file and a stale subdirectory below it:
    // the directory's own report comes first, the subdirectory's after.
    let now: u64 = 365 * DAY;
    let tree = dir(
        "root",
        0,
        vec![file("old_top.txt", 0), dir("sub", now, vec![file("old_deep.txt", 0)])],
    );
    let config = cfg(&["-d", "60", "-r"]);
    let path = "./root".to_string();
    let reports = get_files_in_dir(&path, &tree, &config, now).unwrap();
    assert_eq!(reports.len(), 2);
    assert_eq!(reports[0].parent_path, "./root".to_string());
    assert_eq!(reports[0].files_path, vec!["old_top.txt".to_string()]);
    assert_eq!(reports[1].parent_path, "./root/sub".to_string());
    assert_eq!(reports[1].files_path, vec!["old_deep.txt".to_string()]);
}

#[test]
fn roots_are_concatenated_in_order() {
    // Two configured roots ("." and "./" both name the current directory, so
    // the parser accepts them); their reports come back in root order.
    let now: u64 = 365 * DAY;
    let config = cfg(&[".", "./", "-d", "60"]);
    assert_eq!(config.get_target_path().len(), 2);
    let roots = vec![
        dir("first", 0, vec![file("old_a.txt", 0)]),
        dir("second", 0, vec![file("old_b.txt", 0)]),
    ];
    let reports = Dir::get_target_files(&config, &roots, now).unwrap();
    assert_eq!(reports.len(), 2);
    assert_eq!(reports[0].parent_path, "./.".to_string());
    assert_eq!(reports[0].files_path, vec!["old_a.txt".to_string()]);
    assert_eq!(reports[1].parent_path, "./.".to_string());
    assert_eq!(reports[1].files_path, vec!["old_b.txt".to_string()]);
}
