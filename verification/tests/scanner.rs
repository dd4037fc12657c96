use std::collections::HashMap;

use sizes::config::{Config, EntryKind, KindSet, OutputFormat};
use sizes::report::ReportWriter;
use sizes::scanner::{Effect, EntryMeta, IoFailure, ScanEvent, ScanRequest, Scanner};
use sizes::summary::ScanSummary;

#[derive(Clone)]
enum Node {
    File { len: u64, hidden: bool, link: bool },
    Dir { hidden: bool, unreadable: bool },
}

struct Fs {
    nodes: HashMap<String, Node>,
    children: HashMap<String, Vec<String>>,
    broken: Vec<String>,
}

impl Fs {
    fn new(root: &str) -> Fs {
        let mut fs = Fs { nodes: HashMap::new(), children: HashMap::new(), broken: Vec::new() };
        fs.nodes.insert(root.into(), Node::Dir { hidden: false, unreadable: false });
        fs.children.insert(root.into(), Vec::new());
        fs
    }
    fn add(&mut self, parent: &str, name: &str, node: Node) -> String {
        let path = format!("{parent}/{name}");
        if let Node::Dir { .. } = node {
            self.children.insert(path.clone(), Vec::new());
        }
        self.nodes.insert(path.clone(), node);
        // list in reverse name order, so that the scanner's sorting shows
        self.children.get_mut(parent).unwrap().insert(0, path.clone());
        path
    }
}

fn config(root: &str) -> Config {
    Config {
        root: root.into(),
        depth: None,
        min_size: 0,
        types: KindSet::all(),
        output_dir: "out".into(),
        format: OutputFormat::Txt,
        max_output_size: 1024 * 1024,
        include_hidden: true,
        follow_symlinks: false,
        no_color: true,
        top: 10,
    }
}

struct Outcome {
    summary: ScanSummary,
    rows: Vec<(EntryKind, String, u64, usize)>,
    warnings: Vec<(String, String)>,
    order: Vec<String>,
}

fn scan(config: &Config, fs: &Fs, cancel_after: Option<usize>) -> Outcome {
    let mut writer = ReportWriter::create(config);
    let mut scanner = Scanner::new(config.clone());
    let mut event = ScanEvent::Start;
    let mut rows = Vec::new();
    let mut warnings = Vec::new();
    let mut order = Vec::new();
    let mut steps = 0;
    loop {
        steps += 1;
        let cancelled = cancel_after.map_or(false, |n| steps > n);
        assert!(scanner.accepts(&event));
        let step = scanner.step(&mut writer, event, cancelled);
        for effect in step.effects {
            match effect {
                Effect::Row { entry, depth, .. } => {
                    order.push(format!("row:{}", entry.path));
                    rows.push((entry.entry_type, entry.path, entry.size_bytes, depth))
                }
                Effect::Warn { path, error_type, .. } => {
                    order.push(format!("warn:{error_type}"));
                    warnings.push((path, error_type))
                }
                Effect::StartPart { index } => order.push(format!("part:{index}")),
            }
        }
        event = match step.request {
            ScanRequest::ReadDir { path } => match fs.nodes.get(&path) {
                Some(Node::Dir { unreadable: true, .. }) => {
                    ScanEvent::ListFailed {
                        failure: IoFailure { message: "Access is denied.".into(), os_code: Some(5) },
                    }
                }
                _ => ScanEvent::Listed {
                    entries: fs.children[&path].clone(),
                    errors: if fs.broken.contains(&path) {
                        vec![IoFailure { message: "bad entry".into(), os_code: None }]
                    } else {
                        vec![]
                    },
                },
            },
            ScanRequest::Stat { path, .. } => match fs.nodes.get(&path) {
                Some(Node::File { len, hidden, link }) => ScanEvent::Stat(EntryMeta {
                    is_dir: false,
                    is_file: !*link,
                    len: *len,
                    hidden: *hidden,
                    reparse: *link,
                }),
                Some(Node::Dir { hidden, .. }) => ScanEvent::Stat(EntryMeta {
                    is_dir: true,
                    is_file: false,
                    len: 0,
                    hidden: *hidden,
                    reparse: false,
                }),
                None => ScanEvent::StatFailed {
                    failure: IoFailure { message: "gone".into(), os_code: Some(2) },
                },
            },
            ScanRequest::Done => break,
        };
    }
    Outcome { summary: scanner.summary().clone(), rows, warnings, order }
}

fn file(len: u64) -> Node {
    Node::File { len, hidden: false, link: false }
}

fn dir() -> Node {
    Node::Dir { hidden: false, unreadable: false }
}

#[test]
fn nested_sizes_are_recursive() {
    let mut fs = Fs::new("root");
    fs.add("root", "a.bin", file(3));
    let child = fs.add("root", "child", dir());
    fs.add(&child, "b.bin", file(2));
    let out = scan(&config("root"), &fs, None);
    assert_eq!(out.summary.root_size_bytes, 5);
    assert_eq!(out.summary.files_seen, 2);
    assert_eq!(out.summary.directories_seen, 2);
}

#[test]
fn min_size_filters_rows_not_totals() {
    let mut fs = Fs::new("root");
    fs.add("root", "small.bin", file(1));
    let mut config = config("root");
    config.min_size = 10;
    let out = scan(&config, &fs, None);
    assert_eq!(out.summary.root_size_bytes, 1);
    assert_eq!(out.summary.files_emitted, 0);
}

#[test]
fn rows_come_sorted_and_directories_after_children() {
    let mut fs = Fs::new("root");
    fs.add("root", "b.bin", file(4));
    let child = fs.add("root", "a", dir());
    fs.add(&child, "y", file(1));
    fs.add(&child, "x", file(2));
    let out = scan(&config("root"), &fs, None);
    let got: Vec<(EntryKind, &str, u64, usize)> =
        out.rows.iter().map(|(k, p, s, d)| (*k, p.as_str(), *s, *d)).collect();
    assert_eq!(
        got,
        vec![
            (EntryKind::File, "root/a/x", 2, 2),
            (EntryKind::File, "root/a/y", 1, 2),
            (EntryKind::Directory, "root/a", 3, 1),
            (EntryKind::File, "root/b.bin", 4, 1),
            (EntryKind::Directory, "root", 7, 0),
        ]
    );
    assert_eq!(out.summary.files_emitted, 3);
    assert_eq!(out.summary.directories_emitted, 2);
    assert_eq!(out.summary.bytes_seen, 7);
    assert_eq!(out.summary.root_size_human, "7 B");
    let top: Vec<u64> = out.summary.top_entries.iter().map(|e| e.size_bytes).collect();
    assert_eq!(top, vec![7, 4, 3, 2, 1]);
}

#[test]
fn hidden_entries_count_but_are_not_emitted_by_default() {
    let mut fs = Fs::new("root");
    let h = fs.add("root", ".cache", Node::Dir { hidden: true, unreadable: false });
    fs.add(&h, "blob", file(100));
    fs.add("root", "seen", file(1));
    let mut config = config("root");
    config.include_hidden = false;
    let out = scan(&config, &fs, None);
    assert_eq!(out.summary.root_size_bytes, 101);
    assert_eq!(out.summary.files_seen, 2);
    assert_eq!(out.summary.skipped_hidden, 2);
    let paths: Vec<&str> = out.rows.iter().map(|r| r.1.as_str()).collect();
    assert_eq!(paths, vec!["root/seen", "root"]);
    // hidden entries still enter the largest-entries table
    assert_eq!(out.summary.top_entries[0].size_bytes, 101);
    assert_eq!(out.summary.top_entries[1].path, "root/.cache");
}

#[test]
fn links_are_skipped_unless_followed() {
    let mut fs = Fs::new("root");
    fs.add("root", "link", Node::File { len: 50, hidden: false, link: true });
    fs.add("root", "f", file(5));
    let out = scan(&config("root"), &fs, None);
    assert_eq!(out.summary.skipped_reparse_points, 1);
    assert_eq!(out.summary.root_size_bytes, 5);
    let mut followed = config("root");
    followed.follow_symlinks = true;
    let out = scan(&followed, &fs, None);
    assert_eq!(out.summary.skipped_reparse_points, 0);
    // a followed link that is neither file nor directory counts nothing
    assert_eq!(out.summary.root_size_bytes, 5);
}

#[test]
fn depth_and_type_filters() {
    let mut fs = Fs::new("root");
    let a = fs.add("root", "a", dir());
    let b = fs.add(&a, "b", dir());
    fs.add(&b, "deep", file(9));
    fs.add("root", "top", file(1));
    let mut c = config("root");
    c.depth = Some(1);
    c.types = KindSet { file: false, directory: true };
    let out = scan(&c, &fs, None);
    let paths: Vec<&str> = out.rows.iter().map(|r| r.1.as_str()).collect();
    assert_eq!(paths, vec!["root/a", "root"]);
    assert_eq!(out.summary.root_size_bytes, 10);
    assert_eq!(out.summary.files_seen, 2);
    assert_eq!(out.summary.directories_seen, 3);
}

#[test]
fn read_errors_are_warnings() {
    let mut fs = Fs::new("root");
    fs.add("root", "locked", Node::Dir { hidden: false, unreadable: true });
    fs.add("root", "f", file(2));
    fs.broken.push("root".into());
    // an entry that vanishes before its metadata is read
    fs.children.get_mut("root").unwrap().push("root/ghost".into());
    let out = scan(&config("root"), &fs, None);
    assert_eq!(
        out.warnings,
        vec![
            ("root".to_string(), "dir_entry".to_string()),
            ("root/ghost".to_string(), "metadata".to_string()),
            ("root/locked".to_string(), "read_dir".to_string()),
        ]
    );
    assert_eq!(out.summary.errors, 3);
    assert_eq!(out.summary.root_size_bytes, 2);
    // the unreadable directory is still a row, of size 0
    assert!(out.rows.iter().any(|r| r.1 == "root/locked" && r.2 == 0));
}

#[test]
fn unreadable_root_is_not_a_row() {
    let mut fs = Fs::new("root");
    fs.nodes.insert("root".into(), Node::Dir { hidden: false, unreadable: true });
    let out = scan(&config("root"), &fs, None);
    assert!(out.rows.is_empty());
    assert_eq!(out.summary.root_size_bytes, 0);
    assert_eq!(out.summary.errors, 1);
}

#[test]
fn cancelling_stops_the_walk() {
    let mut fs = Fs::new("root");
    for i in 0..5 {
        fs.add("root", &format!("f{i}"), file(1));
    }
    let out = scan(&config("root"), &fs, Some(3));
    assert!(out.summary.files_seen < 5);
    assert_eq!(out.summary.root_size_bytes, out.summary.bytes_seen);
    let out = scan(&config("root"), &fs, Some(0));
    assert_eq!(out.summary.directories_seen, 0);
    assert!(out.rows.is_empty());
}

#[test]
fn cancelled_directory_is_a_zero_row() {
    let mut fs = Fs::new("root");
    fs.add("root", "f", file(3));
    let sub = fs.add("root", "sub", dir());
    fs.add(&sub, "x", file(7));
    // the fourth step reports `root/sub` after the scan was cancelled
    let out = scan(&config("root"), &fs, Some(3));
    let got: Vec<(EntryKind, &str, u64, usize)> =
        out.rows.iter().map(|(k, p, s, d)| (*k, p.as_str(), *s, *d)).collect();
    assert_eq!(
        got,
        vec![
            (EntryKind::File, "root/f", 3, 1),
            (EntryKind::Directory, "root/sub", 0, 1),
            (EntryKind::Directory, "root", 3, 0),
        ]
    );
    assert_eq!(out.summary.directories_seen, 1);
    assert_eq!(out.summary.files_seen, 1);
    assert_eq!(out.summary.root_size_bytes, 3);
}

#[test]
fn oversized_rows_are_warnings_and_errors() {
    let mut fs = Fs::new("root");
    fs.add("root", "f", file(3));
    let mut c = config("root");
    c.max_output_size = 4;
    let out = scan(&c, &fs, None);
    assert_eq!(
        out.warnings,
        vec![
            ("root/f".to_string(), "output_split".to_string()),
            ("root".to_string(), "output_split".to_string()),
        ]
    );
    assert_eq!(out.summary.errors, 2);
    assert_eq!(out.summary.files_emitted, 1);
    assert_eq!(out.summary.directories_emitted, 1);
    // the second row does not fit in the first part: a part starts before it
    assert_eq!(
        out.order,
        vec!["row:root/f", "warn:output_split", "part:2", "row:root", "warn:output_split"]
    );
}

fn mixed_tree() -> Fs {
    let mut fs = Fs::new("root");
    fs.add("root", "a.bin", file(300));
    fs.add("root", ".hidden.bin", Node::File { len: 70, hidden: true, link: false });
    fs.add("root", "link", Node::File { len: 9, hidden: false, link: true });
    let child = fs.add("root", "child", dir());
    fs.add(&child, "b.bin", file(20));
    let deep = fs.add(&child, "deep", dir());
    fs.add(&deep, "c.bin", file(5));
    fs.add("root", "gone.bin", file(1));
    fs.nodes.remove("root/gone.bin");
    fs
}

#[test]
fn row_filters_leave_totals_alone() {
    let fs = mixed_tree();
    let plain = config("root");
    let mut filtered = config("root");
    filtered.depth = Some(1);
    filtered.min_size = 10;
    filtered.types = KindSet { file: true, directory: false };
    filtered.include_hidden = false;
    let a = scan(&plain, &fs, None);
    let b = scan(&filtered, &fs, None);
    assert_ne!(a.rows, b.rows);
    assert_eq!(a.summary.files_seen, b.summary.files_seen);
    assert_eq!(a.summary.directories_seen, b.summary.directories_seen);
    assert_eq!(a.summary.bytes_seen, b.summary.bytes_seen);
    assert_eq!(a.summary.skipped_reparse_points, b.summary.skipped_reparse_points);
    assert_eq!(a.summary.root_size_bytes, b.summary.root_size_bytes);
    assert_eq!(a.summary.root_size_bytes, 395);
    assert_eq!(a.summary.top_entries, b.summary.top_entries);
}

#[test]
fn counts_over_a_whole_scan() {
    let fs = mixed_tree();
    for cancel_after in [None, Some(3), Some(6)] {
        let mut config = config("root");
        config.top = 2;
        config.min_size = 10;
        let out = scan(&config, &fs, cancel_after);
        assert_eq!(out.summary.errors as usize, out.warnings.len());
        assert!(out.summary.files_emitted <= out.summary.files_seen);
        assert!(out.summary.top_entries.len() <= 2);
    }
}
