use dirinfo::pp_size;
use dirinfo::MainArgs;
use dirinfo::ScanReport;
use dirinfo::Scanner;

/// The walk of the tree used by the end-to-end scenario: the root holds
/// `a.txt` (10 bytes) directly, `d1` holds `b.txt` (2048) and `c.log` (1),
/// and `d2` holds `e.txt` (5).
fn scan_example_tree(n: u8) -> ScanReport {
    let mut sc = Scanner::new(n);
    sc.visit_dir("root".to_string(), 0);
    sc.visit_file("root/a.txt".to_string(), 10);
    sc.visit_dir("root/d1".to_string(), 1);
    sc.visit_file("root/d1/b.txt".to_string(), 2048);
    sc.visit_file("root/d1/c.log".to_string(), 1);
    sc.visit_dir("root/d2".to_string(), 1);
    sc.visit_file("root/d2/e.txt".to_string(), 5);
    sc.finish()
}

#[test]
fn end_to_end_scenario() {
    let report = scan_example_tree(2);

    assert_eq!(report.summary.nb_files, 4);
    assert_eq!(report.summary.total_size, 2064);
    assert_eq!(pp_size(report.summary.total_size), "2KB");

    let dirs: Vec<(&str, u64)> = report
        .top_dirs
        .iter()
        .map(|e| (e.path.as_str(), e.size))
        .collect();
    assert_eq!(dirs, vec![("root/d1", 2049), ("root/d2", 5)]);
    assert_eq!(pp_size(report.top_dirs[0].size), "2KB");
    assert_eq!(pp_size(report.top_dirs[1].size), "5B");

    let files: Vec<(&str, u64)> = report
        .top_files
        .iter()
        .map(|e| (e.path.as_str(), e.size))
        .collect();
    assert_eq!(files, vec![("root/d1/b.txt", 2048), ("root/a.txt", 10)]);

    let exts: Vec<(&str, u64)> = report
        .top_exts
        .iter()
        .map(|e| (e.ext.as_str(), e.size))
        .collect();
    assert_eq!(exts, vec![("txt", 2063), ("log", 1)]);
    assert_eq!(pp_size(report.top_exts[0].size), "2KB");
    assert_eq!(pp_size(report.top_exts[1].size), "1B");
}

#[test]
fn scan_is_idempotent_on_an_unmodified_tree() {
    let first = scan_example_tree(2);
    let second = scan_example_tree(2);
    assert_eq!(first.summary.nb_files, second.summary.nb_files);
    assert_eq!(first.summary.total_size, second.summary.total_size);
    let sizes = |r: &ScanReport| {
        (
            r.top_exts.iter().map(|e| e.size).collect::<Vec<u64>>(),
            r.top_dirs.iter().map(|e| e.size).collect::<Vec<u64>>(),
            r.top_files.iter().map(|e| e.size).collect::<Vec<u64>>(),
        )
    };
    assert_eq!(sizes(&first), sizes(&second));
    let labels = |r: &ScanReport| {
        let mut exts: Vec<String> = r.top_exts.iter().map(|e| e.ext.clone()).collect();
        let mut dirs: Vec<String> = r.top_dirs.iter().map(|e| e.path.clone()).collect();
        let mut files: Vec<String> = r.top_files.iter().map(|e| e.path.clone()).collect();
        exts.sort();
        dirs.sort();
        files.sort();
        (exts, dirs, files)
    };
    assert_eq!(labels(&first), labels(&second));
}

#[test]
fn root_files_are_excluded_from_directory_ranking() {
    let mut sc = Scanner::new(5);
    sc.visit_dir("root".to_string(), 0);
    // files directly under the root: counted, but ranked under no directory
    sc.visit_file("root/big".to_string(), 1_000_000);
    sc.visit_dir("root/d1".to_string(), 1);
    sc.visit_file("root/d1/x".to_string(), 7);
    // a directory nested deeper is no boundary: its bytes stay with d1
    sc.visit_dir("root/d1/inner".to_string(), 2);
    sc.visit_file("root/d1/inner/y".to_string(), 30);
    let report = sc.finish();
    assert_eq!(report.summary.nb_files, 3);
    assert_eq!(report.summary.total_size, 1_000_037);
    let dirs: Vec<(&str, u64)> = report
        .top_dirs
        .iter()
        .map(|e| (e.path.as_str(), e.size))
        .collect();
    assert_eq!(dirs, vec![("root/d1", 37)]);
}

#[test]
fn extension_totals_are_whole_tree_not_incremental() {
    // seen incrementally with a ranking of one, `x` (10 bytes) would beat
    // each single `y` file; the whole-tree totals rank `y` (14 bytes) first
    let mut sc = Scanner::new(1);
    sc.visit_dir("r".to_string(), 0);
    sc.visit_file("r/a.x".to_string(), 10);
    sc.visit_file("r/b.y".to_string(), 9);
    sc.visit_file("r/c.y".to_string(), 5);
    let report = sc.finish();
    let exts: Vec<(&str, u64)> = report
        .top_exts
        .iter()
        .map(|e| (e.ext.as_str(), e.size))
        .collect();
    assert_eq!(exts, vec![("y", 14)]);
}

#[test]
fn extensionless_and_dotfiles_are_not_ranked() {
    let mut sc = Scanner::new(5);
    sc.visit_dir("r".to_string(), 0);
    sc.visit_file("r/README".to_string(), 100);
    sc.visit_file("r/.hidden".to_string(), 50);
    sc.visit_file("r/a.rs".to_string(), 10);
    let report = sc.finish();
    assert_eq!(report.summary.nb_files, 3);
    assert_eq!(report.summary.total_size, 160);
    let exts: Vec<(&str, u64)> = report
        .top_exts
        .iter()
        .map(|e| (e.ext.as_str(), e.size))
        .collect();
    assert_eq!(exts, vec![("rs", 10)]);
}

#[test]
fn last_directory_without_bytes_is_not_ranked() {
    let mut sc = Scanner::new(5);
    sc.visit_dir("r".to_string(), 0);
    sc.visit_dir("r/d1".to_string(), 1);
    sc.visit_file("r/d1/x".to_string(), 3);
    sc.visit_dir("r/d2".to_string(), 1);
    // d2 gathers nothing and the walk ends: it is never flushed
    let report = sc.finish();
    let dirs: Vec<(&str, u64)> = report
        .top_dirs
        .iter()
        .map(|e| (e.path.as_str(), e.size))
        .collect();
    assert_eq!(dirs, vec![("r/d1", 3)]);
}

#[test]
fn empty_directory_at_a_boundary_is_not_ranked() {
    let mut sc = Scanner::new(5);
    sc.visit_dir("r".to_string(), 0);
    sc.visit_dir("r/d1".to_string(), 1);
    // d1 gathers nothing: the next boundary does not rank it, even though
    // the ranking has room to spare
    sc.visit_dir("r/d2".to_string(), 1);
    sc.visit_file("r/d2/x".to_string(), 4);
    let report = sc.finish();
    let dirs: Vec<(&str, u64)> = report
        .top_dirs
        .iter()
        .map(|e| (e.path.as_str(), e.size))
        .collect();
    assert_eq!(dirs, vec![("r/d2", 4)]);
}

#[test]
fn root_file_after_a_boundary_is_not_attributed() {
    // a root-direct file listed after a subdirectory is visited while that
    // directory is open; its bytes still belong to no directory
    let mut sc = Scanner::new(5);
    sc.visit_dir("r".to_string(), 0);
    sc.visit_dir("r/d1".to_string(), 1);
    sc.visit_file("r/d1/x".to_string(), 7);
    sc.visit_file("r/f".to_string(), 100);
    let report = sc.finish();
    assert_eq!(report.summary.nb_files, 2);
    assert_eq!(report.summary.total_size, 107);
    let dirs: Vec<(&str, u64)> = report
        .top_dirs
        .iter()
        .map(|e| (e.path.as_str(), e.size))
        .collect();
    assert_eq!(dirs, vec![("r/d1", 7)]);
}

#[test]
fn empty_directory_followed_only_by_a_root_file_is_not_ranked() {
    let mut sc = Scanner::new(5);
    sc.visit_dir("r".to_string(), 0);
    sc.visit_dir("r/d1".to_string(), 1);
    sc.visit_file("r/f".to_string(), 100);
    let report = sc.finish();
    assert_eq!(report.summary.total_size, 100);
    assert!(report.top_dirs.is_empty());
}

#[test]
fn scan_with_no_subdirectories_has_empty_dir_ranking() {
    let mut sc = Scanner::new(3);
    sc.visit_dir("r".to_string(), 0);
    sc.visit_file("r/a.txt".to_string(), 8);
    let report = sc.finish();
    assert!(report.top_dirs.is_empty());
    assert_eq!(report.summary.nb_files, 1);
}

#[test]
fn main_args_defaults() {
    let args = MainArgs {
        n: None,
        path: None,
    };
    assert_eq!(args.effective_n(), 3);
    assert_eq!(args.effective_path(), ".");
    let args = MainArgs {
        n: Some(7),
        path: Some("/tmp".to_string()),
    };
    assert_eq!(args.effective_n(), 7);
    assert_eq!(args.effective_path(), "/tmp");
}
