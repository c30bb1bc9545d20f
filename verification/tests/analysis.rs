use dutop::events::WalkEvent;
use dutop::paths::{find_immediate_subdir, FsPath};
use dutop::{analyze_events, AnalysisConfig, AnalysisError, AnalysisResult};

fn file(path: &str, ino: u64, usage: u64) -> WalkEvent {
    WalkEvent::File { path: FsPath::parse(path), dev: 1, ino, usage }
}

fn dir(path: &str) -> WalkEvent {
    WalkEvent::Dir { path: FsPath::parse(path) }
}

fn last_component(r: &AnalysisResult, i: usize) -> String {
    r.top_directories[i].path.components.last().unwrap().clone()
}

#[test]
fn test_find_immediate_subdir() {
    let root = FsPath::parse("/home/user");
    let path = FsPath::parse("/home/user/projects/rust/src/main.rs");

    let result = find_immediate_subdir(&path, &root);
    assert_eq!(result.components, FsPath::parse("/home/user/projects").components);
}

#[test]
fn test_analyze_empty_directory() {
    let root = FsPath::parse("/scan/empty");
    let config = AnalysisConfig::default();

    let result = analyze_events(&root, &config, &vec![], 10).unwrap();

    assert_eq!(result.total_size, 0);
    assert_eq!(result.total_files, 0);
    assert_eq!(result.top_directories.len(), 0);
}

#[test]
fn test_analyze_with_files() {
    let root = FsPath::parse("/scan/data");
    let events = vec![file("/scan/data/test.txt", 11, 4096)];

    let config = AnalysisConfig::default();
    let result = analyze_events(&root, &config, &events, 10).unwrap();

    assert_eq!(result.total_files, 1);
    assert!(result.total_size > 0);
}

#[test]
fn test_exclusion_patterns() {
    let root = FsPath::parse("/scan/project");
    let events = vec![
        dir("/scan/project/node_modules"),
        dir("/scan/project/src"),
        file("/scan/project/node_modules/test.js", 21, 4096),
        file("/scan/project/src/main.rs", 22, 4096),
    ];

    let config = AnalysisConfig {
        exclude_patterns: vec!["node_modules".to_string()],
        ..Default::default()
    };

    let result = analyze_events(&root, &config, &events, 10).unwrap();

    // Should only see src directory
    assert_eq!(result.total_files, 1);
    assert_eq!(result.top_directories.len(), 1);
    assert_eq!(last_component(&result, 0), "src");
}

#[test]
fn test_exclusion_glob_pattern() {
    let root = FsPath::parse("/scan/project");
    let events = vec![
        dir("/scan/project/node_modules"),
        dir("/scan/project/src"),
        file("/scan/project/node_modules/big.js", 31, 8192),
        file("/scan/project/src/lib.rs", 32, 1024),
    ];

    let config = AnalysisConfig {
        exclude_patterns: vec!["node_*".to_string()],
        ..Default::default()
    };

    let result = analyze_events(&root, &config, &events, 10).unwrap();

    assert_eq!(result.total_files, 1);
    assert_eq!(result.total_size, 1024);
    assert_eq!(result.total_dirs, 1);
    assert_eq!(result.top_directories.len(), 1);
    assert_eq!(last_component(&result, 0), "src");
}

#[test]
fn test_invalid_exclude_pattern() {
    let root = FsPath::parse("/scan/data");
    let config = AnalysisConfig {
        exclude_patterns: vec!["ok".to_string(), "a**b".to_string()],
        ..Default::default()
    };

    let err = analyze_events(&root, &config, &vec![], 10).unwrap_err();
    let AnalysisError::InvalidPattern(p) = err;
    assert_eq!(p, "a**b");
}

#[test]
fn test_hard_links_counted_once() {
    let root = FsPath::parse("/scan/links");
    // The same physical file (device 1, inode 77) reachable through two
    // directories: its usage counts once, in the first bucket encountered.
    let events = vec![
        dir("/scan/links/a"),
        dir("/scan/links/b"),
        file("/scan/links/a/shared.bin", 77, 2048),
        file("/scan/links/b/shared.bin", 77, 2048),
    ];

    let config = AnalysisConfig::default();
    let result = analyze_events(&root, &config, &events, 10).unwrap();

    assert_eq!(result.total_size, 2048);
    assert_eq!(result.total_files, 1);
    assert_eq!(result.total_dirs, 2);
    assert_eq!(result.top_directories.len(), 2);
    assert_eq!(last_component(&result, 0), "a");
    assert_eq!(result.top_directories[0].size, 2048);
    assert_eq!(result.top_directories[1].size, 0);
}

#[test]
fn test_example_two_buckets() {
    let root = FsPath::parse("/scan/root");
    let events = vec![
        dir("/scan/root/a"),
        dir("/scan/root/b"),
        file("/scan/root/a/one", 41, 2048),
        file("/scan/root/b/two", 42, 1024),
    ];

    let config = AnalysisConfig::default();
    let result = analyze_events(&root, &config, &events, 10).unwrap();

    assert_eq!(result.total_size, 3072);
    assert_eq!(result.total_files, 2);
    assert_eq!(result.total_dirs, 2);
    assert_eq!(result.top_directories.len(), 2);
    assert_eq!(last_component(&result, 0), "a");
    assert_eq!(result.top_directories[0].size, 2048);
    assert_eq!(last_component(&result, 1), "b");
    assert_eq!(result.top_directories[1].size, 1024);
}

#[test]
fn test_depth_zero_counts_only_root_files() {
    let root = FsPath::parse("/scan/shallow");
    let events = vec![
        file("/scan/shallow/direct.txt", 51, 100),
        dir("/scan/shallow/deep"),
        file("/scan/shallow/deep/nested.txt", 52, 200),
    ];

    let config = AnalysisConfig { max_depth: Some(0), ..Default::default() };
    let result = analyze_events(&root, &config, &events, 10).unwrap();

    assert_eq!(result.total_files, 1);
    assert_eq!(result.total_size, 100);
    assert_eq!(result.total_dirs, 0);
    assert_eq!(result.top_directories.len(), 1);
    // the only bucket is the root itself
    assert_eq!(result.top_directories[0].path.components, root.components);
}

#[test]
fn test_depth_limit_prunes_deeper_entries() {
    let root = FsPath::parse("/scan/deep");
    let events = vec![
        dir("/scan/deep/a"),
        file("/scan/deep/a/kept.txt", 61, 300),
        dir("/scan/deep/a/sub"),
        file("/scan/deep/a/sub/dropped.txt", 62, 500),
    ];

    let config = AnalysisConfig { max_depth: Some(1), ..Default::default() };
    let result = analyze_events(&root, &config, &events, 10).unwrap();

    assert_eq!(result.total_files, 1);
    assert_eq!(result.total_size, 300);
    assert_eq!(result.total_dirs, 1);
}

#[test]
fn test_equal_sizes_ordered_by_path() {
    let root = FsPath::parse("/scan/tie");
    let events = vec![
        dir("/scan/tie/beta"),
        dir("/scan/tie/alpha"),
        file("/scan/tie/beta/f", 71, 512),
        file("/scan/tie/alpha/g", 72, 512),
    ];

    let config = AnalysisConfig::default();
    let result = analyze_events(&root, &config, &events, 10).unwrap();

    assert_eq!(result.top_directories.len(), 2);
    assert_eq!(last_component(&result, 0), "alpha");
    assert_eq!(last_component(&result, 1), "beta");
}

#[test]
fn test_top_n_truncates_after_full_sort() {
    let root = FsPath::parse("/scan/many");
    let events = vec![
        dir("/scan/many/small"),
        dir("/scan/many/large"),
        dir("/scan/many/medium"),
        file("/scan/many/small/f", 81, 10),
        file("/scan/many/large/f", 82, 1000),
        file("/scan/many/medium/f", 83, 100),
    ];

    let config = AnalysisConfig::default();
    let result = analyze_events(&root, &config, &events, 2).unwrap();

    // totals cover all buckets; only the ranking list is truncated
    assert_eq!(result.total_size, 1110);
    assert_eq!(result.total_files, 3);
    assert_eq!(result.top_directories.len(), 2);
    assert_eq!(last_component(&result, 0), "large");
    assert_eq!(last_component(&result, 1), "medium");
}

#[test]
fn test_analysis_is_idempotent() {
    let root = FsPath::parse("/scan/again");
    let events = vec![
        dir("/scan/again/x"),
        file("/scan/again/x/f", 91, 700),
        file("/scan/again/top.txt", 92, 50),
    ];

    let config = AnalysisConfig::default();
    let r1 = analyze_events(&root, &config, &events, 10).unwrap();
    let r2 = analyze_events(&root, &config, &events, 10).unwrap();

    assert_eq!(r1.total_size, r2.total_size);
    assert_eq!(r1.total_files, r2.total_files);
    assert_eq!(r1.total_dirs, r2.total_dirs);
    assert_eq!(r1.top_directories.len(), r2.top_directories.len());
    for i in 0..r1.top_directories.len() {
        assert_eq!(
            r1.top_directories[i].path.components,
            r2.top_directories[i].path.components
        );
        assert_eq!(r1.top_directories[i].size, r2.top_directories[i].size);
        assert_eq!(r1.top_directories[i].file_count, r2.top_directories[i].file_count);
        assert_eq!(r1.top_directories[i].dir_count, r2.top_directories[i].dir_count);
    }
}

#[test]
fn test_root_files_bucket_is_root() {
    let root = FsPath::parse("/scan/flat");
    let events = vec![file("/scan/flat/a.txt", 95, 64), file("/scan/flat/b.txt", 96, 32)];

    let config = AnalysisConfig::default();
    let result = analyze_events(&root, &config, &events, 10).unwrap();

    assert_eq!(result.total_files, 2);
    assert_eq!(result.total_size, 96);
    assert_eq!(result.top_directories.len(), 1);
    assert_eq!(result.top_directories[0].path.components, root.components);
    assert_eq!(result.top_directories[0].file_count, 2);
}

#[test]
fn test_parse_path_drops_empty_components() {
    let p = FsPath::parse("//scan//data/");
    assert_eq!(p.components, vec!["scan".to_string(), "data".to_string()]);
}
