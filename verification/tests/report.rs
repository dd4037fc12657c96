use sizes::config::{Config, EntryKind, KindSet, OutputFormat};
use sizes::report::{kind_text, md_escape, part_file_name, ReportEntry, ReportWriter};

fn config(format: OutputFormat, max: u64) -> Config {
    Config {
        root: ".".into(),
        depth: None,
        min_size: 0,
        types: KindSet::all(),
        output_dir: "out".into(),
        format,
        max_output_size: max,
        include_hidden: true,
        follow_symlinks: false,
        no_color: true,
        top: 10,
    }
}

#[test]
fn jsonl_split_boundary() {
    let config = config(OutputFormat::Jsonl, 90);
    let mut writer = ReportWriter::create(&config);
    for idx in 0..3 {
        writer.write(&ReportEntry::new(EntryKind::File, &format!("long-file-name-{idx}"), 100));
    }
    assert!(writer.part_files().len() >= 2);
}

#[test]
fn entry_new_formats_size() {
    let e = ReportEntry::new(EntryKind::Directory, "C:\\Data", 10485760);
    assert_eq!(e.entry_type, EntryKind::Directory);
    assert_eq!(e.path, "C:\\Data");
    assert_eq!(e.size_human, "10.0 MB");
    assert_eq!(e.size_bytes, 10485760);
}

#[test]
fn row_formats() {
    let e = ReportEntry::new(EntryKind::File, "C:\\Data\\a.bin", 10485760);
    assert_eq!(
        String::from_utf8(ReportWriter::create(&config(OutputFormat::Jsonl, 100)).serialize(&e)).unwrap(),
        "{\"type\":\"file\",\"path\":\"C:\\\\Data\\\\a.bin\",\"sizeHuman\":\"10.0 MB\",\"sizeBytes\":10485760}\n"
    );
    assert_eq!(
        String::from_utf8(ReportWriter::create(&config(OutputFormat::Csv, 100)).serialize(&e)).unwrap(),
        "file,C:\\Data\\a.bin,10.0 MB,10485760\n"
    );
    assert_eq!(
        String::from_utf8(ReportWriter::create(&config(OutputFormat::Md, 100)).serialize(&e)).unwrap(),
        "| file | C:\\Data\\a.bin | 10.0 MB | 10485760 |\n"
    );
    assert_eq!(
        String::from_utf8(ReportWriter::create(&config(OutputFormat::Txt, 100)).serialize(&e)).unwrap(),
        "type=file path=C:\\Data\\a.bin sizeHuman=10.0 MB sizeBytes=10485760\n"
    );
}

#[test]
fn row_escaping() {
    let e = ReportEntry::new(EntryKind::Directory, "a|b,\"c\"", 5);
    assert_eq!(
        String::from_utf8(ReportWriter::create(&config(OutputFormat::Jsonl, 100)).serialize(&e)).unwrap(),
        "{\"type\":\"directory\",\"path\":\"a|b,\\\"c\\\"\",\"sizeHuman\":\"5 B\",\"sizeBytes\":5}\n"
    );
    assert_eq!(
        String::from_utf8(ReportWriter::create(&config(OutputFormat::Csv, 100)).serialize(&e)).unwrap(),
        "directory,\"a|b,\"\"c\"\"\",5 B,5\n"
    );
    assert_eq!(
        String::from_utf8(ReportWriter::create(&config(OutputFormat::Md, 100)).serialize(&e)).unwrap(),
        "| directory | a\\|b,\"c\" | 5 B | 5 |\n"
    );
    assert_eq!(md_escape("|x||"), "\\|x\\|\\|");
    assert_eq!(kind_text(EntryKind::File), "file");
    assert_eq!(kind_text(EntryKind::Directory), "directory");
}

#[test]
fn part_names() {
    assert_eq!(part_file_name(1, OutputFormat::Jsonl), "report.part-001.jsonl");
    assert_eq!(part_file_name(12, OutputFormat::Csv), "report.part-012.csv");
    assert_eq!(part_file_name(999, OutputFormat::Md), "report.part-999.md");
    assert_eq!(part_file_name(1000, OutputFormat::Txt), "report.part-1000.txt");
}

#[test]
fn headers() {
    let w = ReportWriter::create(&config(OutputFormat::Csv, 100));
    assert_eq!(w.part_header(), b"type,path,sizeHuman,sizeBytes\n".to_vec());
    let w = ReportWriter::create(&config(OutputFormat::Md, 100));
    assert_eq!(
        w.part_header(),
        b"| type | path | sizeHuman | sizeBytes |\n|---|---:|---:|---:|\n".to_vec()
    );
    let w = ReportWriter::create(&config(OutputFormat::Jsonl, 100));
    assert!(w.part_header().is_empty());
}

#[test]
fn rotation_and_warnings() {
    // each txt row for a one-character path of 5 bytes is 43 bytes
    let mut w = ReportWriter::create(&config(OutputFormat::Txt, 100));
    let e = ReportEntry::new(EntryKind::File, "a", 5);
    let s1 = w.write(&e);
    assert_eq!(s1.row.len(), 43);
    assert_eq!(s1.new_part, None);
    assert!(s1.warning.is_none());
    let s2 = w.write(&e);
    assert_eq!(s2.new_part, None);
    let s3 = w.write(&e);
    assert_eq!(s3.new_part, Some(2));
    assert_eq!(w.part_files(), vec!["report.part-001.txt".to_string(), "report.part-002.txt".to_string()]);
    // a row larger than a part: written alone, with a warning
    let mut w = ReportWriter::create(&config(OutputFormat::Txt, 10));
    let s1 = w.write(&e);
    assert_eq!(s1.new_part, None);
    assert_eq!(s1.warning.as_deref(), Some("single row 43 bytes exceeds max output size 10"));
    let s2 = w.write(&e);
    assert_eq!(s2.new_part, Some(2));
    assert!(s2.warning.is_some());
}

#[test]
fn csv_header_counts_toward_the_limit() {
    // header 30 bytes + row "file,a,5 B,5\n" (13 bytes)
    let mut w = ReportWriter::create(&config(OutputFormat::Csv, 50));
    let e = ReportEntry::new(EntryKind::File, "a", 5);
    assert_eq!(w.write(&e).new_part, None);
    assert_eq!(w.write(&e).new_part, Some(2));
    assert_eq!(w.write(&e).new_part, Some(3));
    let mut w = ReportWriter::create(&config(OutputFormat::Csv, 56));
    assert_eq!(w.write(&e).new_part, None);
    assert_eq!(w.write(&e).new_part, None);
    assert_eq!(w.write(&e).new_part, Some(2));
}

#[test]
fn jsonl_escapes_control_characters() {
    let path = "a\\b\n\t\r\u{8}\u{c}\u{1}\u{1f} é\u{7f}/";
    let e = ReportEntry::new(EntryKind::File, path, 1);
    let row = String::from_utf8(ReportWriter::create(&config(OutputFormat::Jsonl, 1000)).serialize(&e)).unwrap();
    assert_eq!(
        row,
        "{\"type\":\"file\",\"path\":\"a\\\\b\\n\\t\\r\\b\\f\\u0001\\u001f é\u{7f}/\",\"sizeHuman\":\"1 B\",\"sizeBytes\":1}\n"
    );
    let quoted = serde_json::to_string(path).unwrap();
    assert!(row.contains(&format!("\"path\":{quoted},")));
}

#[test]
fn csv_quotes_only_what_needs_it() {
    let cases = [
        ("plain path é", "file,plain path é,1 B,1\n"),
        ("line\nbreak", "file,\"line\nbreak\",1 B,1\n"),
        ("carriage\rreturn", "file,\"carriage\rreturn\",1 B,1\n"),
        ("say \"hi\"", "file,\"say \"\"hi\"\"\",1 B,1\n"),
        ("semi;colon\ttab", "file,semi;colon\ttab,1 B,1\n"),
    ];
    for (path, expected) in cases {
        let e = ReportEntry::new(EntryKind::File, path, 1);
        let row = ReportWriter::create(&config(OutputFormat::Csv, 1000)).serialize(&e);
        assert_eq!(String::from_utf8(row.clone()).unwrap(), expected, "{path:?}");
        let mut w = csv::WriterBuilder::new().has_headers(false).from_writer(Vec::new());
        w.write_record(["file", path, "1 B", "1"]).unwrap();
        assert_eq!(row, w.into_inner().unwrap());
    }
}
