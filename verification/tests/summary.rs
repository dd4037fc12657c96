use sizes::config::{Config, EntryKind, KindSet, OutputFormat};
use sizes::error_log::LoggedError;
use sizes::progress::Progress;
use sizes::summary::{summary_markdown, RunStatus, ScanSummary};
use sizes::top::TopEntry;

fn config() -> Config {
    Config {
        root: "C:\\Data".into(),
        depth: None,
        min_size: 0,
        types: KindSet::all(),
        output_dir: "size-report".into(),
        format: OutputFormat::Jsonl,
        max_output_size: 1024,
        include_hidden: false,
        follow_symlinks: false,
        no_color: false,
        top: 20,
    }
}

#[test]
fn empty_summary() {
    let s = ScanSummary::empty();
    assert_eq!(s.root_size_bytes, 0);
    assert_eq!(s.root_size_human, "0 B");
    assert_eq!(s.files_seen + s.directories_seen + s.errors, 0);
    assert!(s.output_files.is_empty() && s.top_entries.is_empty());
}

#[test]
fn set_root_size_formats() {
    let mut s = ScanSummary::empty();
    s.files_seen = 4;
    s.set_root_size(1_503_238_554);
    assert_eq!(s.root_size_bytes, 1_503_238_554);
    assert_eq!(s.root_size_human, "1.40 GB");
    assert_eq!(s.files_seen, 4);
}

#[test]
fn run_status_and_exit_codes() {
    assert_eq!(RunStatus::decide(true, 3), RunStatus::Interrupted);
    assert_eq!(RunStatus::decide(false, 3), RunStatus::CompletedWithErrors);
    assert_eq!(RunStatus::decide(false, 0), RunStatus::Completed);
    assert_eq!(RunStatus::Completed.exit_code(), 0);
    assert_eq!(RunStatus::CompletedWithErrors.exit_code(), 5);
    assert_eq!(RunStatus::Interrupted.exit_code(), 4);
    assert_eq!(RunStatus::CompletedWithErrors.debug_text(), "CompletedWithErrors");
}

#[test]
fn markdown_summary() {
    let mut s = ScanSummary::empty();
    s.set_root_size(2048);
    s.files_seen = 2;
    s.directories_seen = 1;
    s.files_emitted = 2;
    s.directories_emitted = 1;
    s.errors = 1;
    s.top_entries = vec![
        TopEntry { size_bytes: 2048, kind: EntryKind::Directory, path: "C:\\Data".into() },
        TopEntry { size_bytes: 1024, kind: EntryKind::File, path: "C:\\Data\\a|b".into() },
    ];
    let md = summary_markdown(&config(), &s, RunStatus::CompletedWithErrors, "t0", "t1");
    assert_eq!(
        md,
        "# Directory Size Summary\n\n- Status: CompletedWithErrors\n- Root: C:\\Data\n- Started: t0\n- Ended: t1\n- Total size: 2.00 KB\n- Files seen: 2\n- Directories seen: 1\n- Report rows: 3\n- Recoverable errors: 1\n- Skipped hidden entries: 0\n- Skipped reparse points: 0\n\n## Top Entries\n\n| type | size | path |\n|---|---:|---|\n| Directory | 2.00 KB | C:\\Data |\n| File | 1.00 KB | C:\\Data\\a\\|b |\n"
    );
}

#[test]
fn progress_throttles_and_spins() {
    let mut p = Progress::new(false, true, "size-report".into());
    let mut s = ScanSummary::empty();
    s.files_seen = 1200;
    s.directories_seen = 80;
    s.bytes_seen = 1_503_238_554;
    assert!(p.tick(100_000_000, "C:\\Data", &s).is_none());
    let line = p.tick(3_000_000_000, "C:\\Data", &s).unwrap();
    assert_eq!(line, "\r/ files=1200 dirs=80 bytes=1.40 GB elapsed=3s current=C:\\Data out=size-report   ");
    assert!(p.tick(3_100_000_000, "C:\\Data", &s).is_none());
    let line = p.tick(3_250_000_000, "x", &s).unwrap();
    assert!(line.starts_with("\r- files="));
    s.errors = 2;
    assert_eq!(
        p.finish(&s, RunStatus::Completed).unwrap(),
        "\rCompleted: files=1200 dirs=80 bytes=1.40 GB errors=2        \n"
    );
    let off = Progress::new(true, true, "o".into());
    assert!(off.finish(&s, RunStatus::Completed).is_none());
    let mut off = Progress::new(false, false, "o".into());
    assert!(off.tick(10_000_000_000, "x", &s).is_none());
}

#[test]
fn error_lines() {
    let e = LoggedError {
        timestamp: "2024-01-01T00:00:00Z".into(),
        severity: "warning".into(),
        path: "C:\\Data\\locked".into(),
        error_type: "read_dir".into(),
        message: "Access is denied. (os error 5)".into(),
        os_code: Some(5),
    };
    assert_eq!(
        e.log_line(),
        "2024-01-01T00:00:00Z\twarning\tread_dir\tC:\\Data\\locked\tAccess is denied. (os error 5)\tSome(5)\n"
    );
    assert_eq!(e.console_line(), "warning: C:\\Data\\locked: Access is denied. (os error 5)\n");
    let mut e2 = e.clone();
    e2.os_code = None;
    assert!(e2.log_line().ends_with("\tNone\n"));
    e2.os_code = Some(-7);
    assert!(e2.log_line().ends_with("\tSome(-7)\n"));
    assert_eq!(format!("{:?}", Some(-7i32)), "Some(-7)");
}
