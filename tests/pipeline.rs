use nam_installer::cleanup::{manifest_lines, CleanupStage};
use nam_installer::copy::plan_copies;
use nam_installer::progress::{InstallError, Phase, ProgressTracker};

const SENTINELS: [&str; 7] = ["^", "+", "=", "#", "!", "~", "*"];

#[test]
fn scenario_cleanup_moves_only_listed_file() {
    let stage = CleanupStage::new("C:/Game/Plugins", "old.dat\n");
    let mut tracker = ProgressTracker::new();
    tracker.begin_install("C:/Game/Plugins").unwrap();
    let old = stage.visit(&mut tracker, "old.dat").unwrap();
    assert_eq!(old.from, "C:/Game/Plugins/old.dat");
    assert_eq!(old.to, "C:/Game/Plugins_bak/old.dat");
    assert_eq!(old.folder, "C:/Game/Plugins_bak");
    assert!(stage.visit(&mut tracker, "keep.dat").is_none());
    let snap = tracker.snapshot();
    assert_eq!(snap.files_cleaned, vec!["old.dat".to_string(), "keep.dat".to_string()]);
    assert_eq!(snap.cleaning_count, 2);
}

#[test]
fn cleanup_keeps_relative_path_under_backup() {
    let stage = CleanupStage::new("/home/u/Plugins", "a.dat\r\nold.dat\r\n");
    assert_eq!(stage.backup_root(), "/home/u/Plugins_bak");
    let mut tracker = ProgressTracker::new();
    let m = stage.visit(&mut tracker, "Roads/Sub/old.dat").unwrap();
    assert_eq!(m.from, "/home/u/Plugins/Roads/Sub/old.dat");
    assert_eq!(m.to, "/home/u/Plugins_bak/Roads/Sub/old.dat");
    assert_eq!(m.folder, "/home/u/Plugins_bak/Roads/Sub");
    assert!(stage.visit(&mut tracker, "old.dat/other").is_none());
    // Not in a pipeline: nothing recorded.
    assert_eq!(tracker.snapshot().cleaning_count, 0);
}

#[test]
fn manifest_lines_split() {
    assert_eq!(manifest_lines("a\r\nb\n\nc"), vec!["a", "b", "", "c"]);
    assert_eq!(manifest_lines("a\n"), vec!["a"]);
    assert!(manifest_lines("").is_empty());
    assert_eq!(manifest_lines("x\r"), vec!["x\r"]);
}

#[test]
fn copy_targets_are_sanitized() {
    let assets = vec![
        "Roads~/Left-/a$1.dat".to_string(),
        "Roads~/Right=/b.dat".to_string(),
        "Other/Roads~/Left-/c!.dat".to_string(),
        "top.dat".to_string(),
    ];
    let plan = plan_copies("installation/Roads~/Left-", &assets, "D:/Plugins");
    assert_eq!(plan.label, "Roads/Left-");
    assert_eq!(plan.copies.len(), 2);
    assert_eq!(plan.copies[0].asset, "Roads~/Left-/a$1.dat");
    assert_eq!(plan.copies[0].target, "D:/Plugins/Roads/Left-/a.dat");
    assert_eq!(plan.copies[0].folder, "D:/Plugins/Roads/Left-");
    assert_eq!(plan.copies[1].target, "D:/Plugins/Other/Roads/Left-/c.dat");
    for c in &plan.copies {
        let rest = &c.target["D:/Plugins/".len()..];
        for s in SENTINELS {
            assert!(!rest.contains(s));
        }
    }
}

#[test]
fn copy_asset_at_bundle_root() {
    let plan = plan_copies("installation/top.dat", &vec!["top.dat!".to_string()], "P");
    assert_eq!(plan.copies[0].folder, "P");
    assert_eq!(plan.copies[0].target, "P/top.dat");
    assert!(plan_copies("installation/none", &vec!["top.dat".to_string()], "P").copies.is_empty());
}

#[test]
fn scenario_invalid_location_is_rejected() {
    let mut tracker = ProgressTracker::new();
    assert_eq!(tracker.begin_install("C:/Game/Data"), Err(InstallError::InvalidLocation));
    assert_eq!(tracker.phase(), Phase::Idle);
}

#[test]
fn scenario_second_install_is_rejected() {
    let mut tracker = ProgressTracker::new();
    let first = tracker.begin_install("C:/Game/Plugins").unwrap();
    assert_eq!(first.cleaning_count + first.cleaning_max + first.installed_count + first.installed_max, 0);
    assert!(first.files_cleaned.is_empty() && first.files_copied.is_empty());
    tracker.set_cleaning_max(3);
    tracker.record_cleaned("a".to_string());
    let before = tracker.snapshot();
    assert_eq!(tracker.begin_install("C:/Game/Plugins"), Err(InstallError::InProgress));
    assert_eq!(tracker.snapshot(), before);
}

#[test]
fn progress_grows_then_resets() {
    let mut tracker = ProgressTracker::new();
    tracker.begin_install("X/Plugins").unwrap();
    tracker.set_cleaning_max(2);
    tracker.record_cleaned("a".to_string());
    tracker.set_cleaning_max(9);
    tracker.record_cleaned("b".to_string());
    let s1 = tracker.snapshot();
    assert_eq!((s1.cleaning_count, s1.cleaning_max), (2, 2));
    tracker.begin_installing(1);
    tracker.record_cleaned("late".to_string());
    tracker.record_installed("Roads".to_string());
    let s2 = tracker.snapshot();
    assert_eq!((s2.cleaning_count, s2.installed_count, s2.installed_max), (2, 1, 1));
    assert_eq!(s2.files_copied, vec!["Roads".to_string()]);
    tracker.finish();
    assert_eq!(tracker.phase(), Phase::Idle);
    assert_eq!(tracker.snapshot(), s2);
    let s3 = tracker.begin_install("X/Plugins").unwrap();
    assert_eq!((s3.cleaning_count, s3.cleaning_max, s3.installed_count, s3.installed_max), (0, 0, 0, 0));
    assert_eq!(tracker.snapshot(), s3);
}

#[test]
fn cleaning_max_is_set_once_per_run() {
    let mut tracker = ProgressTracker::new();
    tracker.begin_install("Plugins").unwrap();
    tracker.set_cleaning_max(5);
    let s1 = tracker.snapshot();
    tracker.set_cleaning_max(2);
    let s2 = tracker.snapshot();
    assert_eq!((s1.cleaning_max, s2.cleaning_max), (5, 5));
    tracker.finish();
    tracker.begin_install("Plugins").unwrap();
    tracker.set_cleaning_max(2);
    assert_eq!(tracker.snapshot().cleaning_max, 2);
}
