//! Tests for the batching relay, the message protocol, the scan statistics,
//! and the smaller records around them.

use codebase_viewer::cli::{report_options_from_cli, CliReportFormat, ReportCliOptions};
use codebase_viewer::config::AppConfig;
use codebase_viewer::model::{Check, FileInfo, FileNode, LocStats};
use codebase_viewer::relay::{apply_scan_message, walker_step, Batcher, ScanMessage, WalkDecision};
use codebase_viewer::report::{
    html_escape, prepend_line_numbers, ReportFormat, ReportOptions,
};
use codebase_viewer::state::{plan_token_work, TokenWorkItem};
use codebase_viewer::stats::ScanStats;
use codebase_viewer::tokens::{count_tokens, count_tokens_local};
use codebase_viewer::tree::Tree;

fn info(path: &str, is_dir: bool) -> FileInfo {
    FileInfo {
        path: path.as_bytes().to_vec(),
        is_dir,
        size: 10,
        human_size: String::from("10 B"),
        is_binary: false,
        modified: None,
        extension: path.rsplit_once('.').map(|(_, e)| e.as_bytes().to_vec()),
        loc_stats: None,
    }
}

fn node(path: &str, is_dir: bool) -> FileNode {
    FileNode::new(info(path, is_dir))
}

#[test]
fn relay_emits_exactly_one_finished_and_it_is_last() {
    let mut relay = Batcher::new(2);
    let mut sent: Vec<ScanMessage> = Vec::new();
    if let Some(m) = relay.on_entry(node("R", true)) {
        sent.push(m);
    }
    if let Some(m) = relay.on_entry(node("R/a", false)) {
        sent.push(m);
    }
    sent.push(relay.on_error(String::from("denied: R/locked")));
    if let Some(m) = relay.on_entry(node("R/b", true)) {
        sent.push(m);
    }
    sent.extend(relay.close());

    let finished_positions: Vec<usize> = sent
        .iter()
        .enumerate()
        .filter(|(_, m)| matches!(m, ScanMessage::Finished))
        .map(|(i, _)| i)
        .collect();
    assert_eq!(finished_positions.len(), 1, "exactly one Finished per scan");
    assert_eq!(finished_positions[0], sent.len() - 1, "Finished is last");

    // no discovery is lost, duplicated or reordered
    let mut forwarded: Vec<Vec<u8>> = Vec::new();
    for m in &sent {
        match m {
            ScanMessage::AddNode(n) => forwarded.push(n.info.path.clone()),
            ScanMessage::AddNodes(v) => {
                forwarded.extend(v.iter().map(|n| n.info.path.clone()))
            }
            _ => {}
        }
    }
    assert_eq!(
        forwarded,
        vec![b"R".to_vec(), b"R/a".to_vec(), b"R/b".to_vec()]
    );
}

#[test]
fn relay_batches_at_the_size_limit() {
    let mut relay = Batcher::new(2);
    assert!(relay.on_entry(node("R", true)).is_none());
    let batch = relay.on_entry(node("R/a", false));
    match batch {
        Some(ScanMessage::AddNodes(v)) => assert_eq!(v.len(), 2),
        _ => panic!("expected a full batch"),
    }
    // a timer flush with nothing pending sends nothing
    assert!(relay.on_timer().is_none());
    assert!(relay.on_entry(node("R/b", true)).is_none());
    match relay.on_timer() {
        Some(ScanMessage::AddNodes(v)) => assert_eq!(v.len(), 1),
        _ => panic!("expected a timer flush"),
    }
}

#[test]
fn cancelled_walker_only_quits() {
    assert!(matches!(walker_step(true, false), WalkDecision::Quit));
    assert!(matches!(walker_step(true, true), WalkDecision::Quit));
    assert!(matches!(walker_step(false, true), WalkDecision::Skip));
    assert!(matches!(walker_step(false, false), WalkDecision::Process));
}

#[test]
fn messages_drive_tree_and_stats() {
    let mut tree = Tree::new(b"R".to_vec());
    let mut stats = ScanStats::new();
    let msgs = vec![
        ScanMessage::AddNode(node("R", true)),
        ScanMessage::AddNodes(vec![node("R/a.rs", false), node("R/b", true)]),
        ScanMessage::Error(String::from("denied: R/locked")),
        ScanMessage::Progress(String::from("scanning")),
        ScanMessage::Finished,
    ];
    let mut finished = 0;
    for m in msgs {
        if apply_scan_message(&mut tree, &mut stats, m, 0).is_some() {
            finished += 1;
        }
    }
    assert_eq!(finished, 1);
    assert_eq!(stats.total_files, 1);
    assert_eq!(stats.total_dirs, 2);
    assert_eq!(stats.errors.len(), 1);
    assert_eq!(tree.nodes.len(), 3);
    assert!(tree.orphans.is_empty());
}

#[test]
fn stats_track_sizes_types_and_largest() {
    let mut stats = ScanStats::new();
    let mut small = info("R/a.rs", false);
    small.size = 10;
    let mut big = info("R/b.rs", false);
    big.size = 999;
    let mut other = info("R/c.txt", false);
    other.size = 500;
    let root = b"R".to_vec();
    stats.add_file(&small, &root);
    stats.add_file(&big, &root);
    stats.add_file(&other, &root);
    stats.add_file(&info("R", true), &root);
    assert_eq!(stats.total_files, 3);
    assert_eq!(stats.total_dirs, 1);
    assert_eq!(stats.total_size_bytes, 1509);
    // largest first
    let sizes: Vec<u64> = stats.largest_files.iter().map(|f| f.size).collect();
    assert_eq!(sizes, vec![999, 500, 10]);
    // paths are stored relative to the scan root
    assert_eq!(stats.largest_files[0].path, b"b.rs".to_vec());
    // extension tally
    let rs = stats
        .file_types
        .iter()
        .find(|e| e.0.as_deref() == Some(b"rs".as_slice()))
        .expect("rs entry");
    assert_eq!(rs.1, 2);
}

#[test]
fn stats_largest_keeps_ten() {
    let mut stats = ScanStats::new();
    for i in 0..15u64 {
        let mut f = info(&format!("R/f{}", i), false);
        f.size = 100 + i;
        stats.add_file(&f, &b"R".to_vec());
    }
    assert_eq!(stats.largest_files.len(), 10);
    assert_eq!(stats.largest_files[0].size, 114);
    assert_eq!(stats.largest_files[9].size, 105);
}

#[test]
fn stats_errors_truncate_after_limit() {
    let mut stats = ScanStats::new();
    for i in 0..105 {
        stats.add_error(format!("error {}", i));
    }
    assert_eq!(stats.errors.len(), 101);
    assert_eq!(stats.errors[100], "... more errors truncated ...");
}

#[test]
fn stats_merge_adds_counters() {
    let mut a = ScanStats::new();
    let root = b"R".to_vec();
    a.add_file(&info("R/a.rs", false), &root);
    let mut b = ScanStats::new();
    b.add_file(&info("R/b.rs", false), &root);
    let mut with_loc = info("R/c.rs", false);
    with_loc.loc_stats = Some(LocStats { code: 7, comments: 2, blanks: 1 });
    b.add_file(&with_loc, &root);
    a.merge(&b);
    assert_eq!(a.total_files, 3);
    assert_eq!(a.loc_totals.code, 7);
    let rs = a
        .file_types
        .iter()
        .find(|e| e.0.as_deref() == Some(b"rs".as_slice()))
        .expect("rs entry");
    assert_eq!(rs.1, 3);
}

#[test]
fn stats_merge_combines_largest_files() {
    let mut a = ScanStats::new();
    let mut fa = info("R/a.rs", false);
    fa.size = 300;
    a.add_file(&fa, &b"R".to_vec());
    let mut b = ScanStats::new();
    let mut fb = info("R/b.rs", false);
    fb.size = 700;
    b.add_file(&fb, &b"R".to_vec());
    let mut fc = info("R/c.rs", false);
    fc.size = 100;
    b.add_file(&fc, &b"R".to_vec());
    a.merge(&b);
    let sizes: Vec<u64> = a.largest_files.iter().map(|f| f.size).collect();
    assert_eq!(sizes, vec![700, 300, 100]);
}

#[test]
fn human_size_renders_decimal_units() {
    let mut stats = ScanStats::new();
    assert_eq!(stats.total_size_human(), "0 B");
    let mut f = info("R/a.rs", false);
    f.size = 1500;
    stats.add_file(&f, &b"R".to_vec());
    assert_eq!(stats.total_size_human(), "1.50 kB");
}

#[test]
fn recent_projects_dedupe_and_truncate() {
    let mut config = AppConfig::default();
    config.add_recent_project(b"/p/one".to_vec());
    config.add_recent_project(b"/p/two".to_vec());
    config.add_recent_project(b"/p/one".to_vec());
    assert_eq!(
        config.recent_projects,
        vec![b"/p/one".to_vec(), b"/p/two".to_vec()]
    );
    for i in 0..12 {
        config.add_recent_project(format!("/p/n{}", i).into_bytes());
    }
    assert_eq!(config.recent_projects.len(), 10);
    assert_eq!(config.recent_projects[0], b"/p/n11".to_vec());
    config.clear_recent_projects();
    assert!(config.recent_projects.is_empty());
}

#[test]
fn config_file_path_has_expected_tail() {
    if let Some(p) = codebase_viewer::config::config_file() {
        assert!(p.ends_with(b"/config.json"));
        let s = String::from_utf8_lossy(&p);
        assert!(s.contains("codebase_viewer"));
    }
}

#[test]
fn report_format_extensions() {
    assert_eq!(ReportFormat::Markdown.extension(), "md");
    assert_eq!(ReportFormat::Html.extension(), "html");
    assert_eq!(ReportFormat::Text.extension(), "txt");
}

#[test]
fn report_options_follow_config() {
    let mut config = AppConfig::default();
    let opts = ReportOptions::from_config(&config);
    assert_eq!(opts.format, ReportFormat::Markdown);
    assert!(opts.include_stats);
    assert!(opts.include_contents);
    config.export_format = String::from("html");
    config.export_include_stats = false;
    let opts = ReportOptions::from_config(&config);
    assert_eq!(opts.format, ReportFormat::Html);
    assert!(!opts.include_stats);
    config.export_format = String::from("text");
    assert_eq!(ReportOptions::from_config(&config).format, ReportFormat::Text);
}

#[test]
fn cli_switches_map_to_report_options() {
    let opts = report_options_from_cli(&ReportCliOptions {
        format: CliReportFormat::Html,
        no_stats: true,
        no_contents: false,
    });
    assert_eq!(opts.format, ReportFormat::Html);
    assert!(!opts.include_stats);
    assert!(opts.include_contents);
}

#[test]
fn html_escape_escapes_the_five_metacharacters() {
    assert_eq!(
        html_escape("<a href=\"x\">&'"),
        "&lt;a href=&quot;x&quot;&gt;&amp;&#39;"
    );
    assert_eq!(html_escape("plain"), "plain");
    assert_eq!(html_escape(""), "");
}

#[test]
fn prepend_line_numbers_aligns_numbers() {
    assert_eq!(prepend_line_numbers(""), "");
    assert_eq!(prepend_line_numbers("a\nb"), "1 | a\n2 | b\n");
    assert_eq!(prepend_line_numbers("a\r\nb\n"), "1 | a\n2 | b\n");
    let many: String = (1..=10).map(|i| format!("l{}\n", i)).collect();
    let numbered = prepend_line_numbers(&many);
    assert!(numbered.starts_with(" 1 | l1\n"));
    assert!(numbered.ends_with("10 | l10\n"));
}

#[test]
fn token_counts_use_cl100k() {
    assert_eq!(count_tokens_local("hello world"), 2);
    assert_eq!(count_tokens_local(""), 0);
    let summary = count_tokens("hello world").expect("count should succeed");
    assert_eq!(summary.total_tokens, 2);
    assert_eq!(summary.cached_content_token_count, None);
}

#[test]
fn token_work_plan_skips_and_caches() {
    let item = TokenWorkItem { id: 1, path: b"R/a.rs".to_vec(), is_binary: false };
    let binary = TokenWorkItem { id: 2, path: b"R/b.bin".to_vec(), is_binary: true };
    assert_eq!(plan_token_work(&binary, 10, 100, 100), None);
    assert_eq!(plan_token_work(&item, 10, 100, 0), None);
    assert_eq!(plan_token_work(&item, 200, 100, 100), None);
    assert_eq!(plan_token_work(&item, 10, 100, 100), Some(true));
    assert_eq!(plan_token_work(&item, 10, 5, 100), Some(false));
}

#[test]
fn check_defaults_to_checked() {
    assert_eq!(Check::default(), Check::Checked);
    let n = node("R/x", false);
    assert_eq!(n.state, Check::Checked);
    assert!(!n.is_expanded);
    assert!(n.children.is_empty());
}
