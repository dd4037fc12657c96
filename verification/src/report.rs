//! Report rows in four formats and the writer that splits them into parts.
use vstd::prelude::*;
use vstd::utf8::{encode_utf8, is_ascii_chars};
use vstd::string::StrSliceExecFns;
use crate::config::{Config, EntryKind, OutputFormat};
use crate::human::{format_bytes, format_bytes_text};
use crate::text::{
    chars_of, dec_string, dec_text, push_char, push_dec, push_dec_padded, push_str, string_of,
    zero_pad,
};

verus! {

/// A hexadecimal digit, in lower case.
pub open spec fn hex_digit(d: nat) -> char {
    if d < 10 {
        ((d + 48) as u8) as char
    } else {
        ((d + 87) as u8) as char
    }
}

/// How `serde_json` writes the character `c` inside a JSON string: `"`,
/// `\` and the control characters below U+0020 escaped (`\b`, `\t`, `\n`,
/// `\f`, `\r`, the others as `\u00xx` in lower-case hex), all else as is.
pub open spec fn json_char(c: char) -> Seq<char> {
    if c == '"' {
        seq!['\\', '"']
    } else if c == '\\' {
        seq!['\\', '\\']
    } else if c == '\u{8}' {
        seq!['\\', 'b']
    } else if c == '\t' {
        seq!['\\', 't']
    } else if c == '\n' {
        seq!['\\', 'n']
    } else if c == '\u{c}' {
        seq!['\\', 'f']
    } else if c == '\r' {
        seq!['\\', 'r']
    } else if (c as int) < 0x20 {
        seq!['\\', 'u', '0', '0', hex_digit((c as int / 16) as nat), hex_digit((c as int % 16) as nat)]
    } else {
        seq![c]
    }
}

/// The characters of `s`, each as `json_char` writes it.
pub open spec fn json_escaped(s: Seq<char>) -> Seq<char>
    decreases s.len(),
{
    if s.len() == 0 {
        Seq::empty()
    } else {
        json_escaped(s.drop_last()) + json_char(s.last())
    }
}

/// What `serde_json` writes for a string: the JSON string literal, quoted
/// and escaped.
pub closed spec fn json_quoted(s: Seq<char>) -> Seq<char> {
    seq!['"'] + json_escaped(s) + seq!['"']
}

/// `f` with each `"` doubled.
pub open spec fn doubled_quotes(f: Seq<char>) -> Seq<char>
    decreases f.len(),
{
    if f.len() == 0 {
        Seq::empty()
    } else {
        doubled_quotes(f.drop_last()) + if f.last() == '"' {
            seq!['"', '"']
        } else {
            seq![f.last()]
        }
    }
}

/// A field as the `csv` crate writes it with its default settings: in
/// double quotes, each `"` doubled, when it holds `,`, `"`, `\r` or `\n`;
/// as it is otherwise.
pub open spec fn csv_field(f: Seq<char>) -> Seq<char> {
    if exists|i: int| 0 <= i < f.len() && (f[i] == ',' || f[i] == '"' || f[i] == '\r' || f[i] == '\n') {
        seq!['"'] + doubled_quotes(f) + seq!['"']
    } else {
        f
    }
}

/// What the `csv` crate writes for one record of four fields (default
/// settings, no header row): the fields separated by `,` and ended by `\n`,
/// in UTF-8.
pub closed spec fn csv_record(a: Seq<char>, b: Seq<char>, c: Seq<char>, d: Seq<char>) -> Seq<u8> {
    encode_utf8(
        csv_field(a) + seq![','] + csv_field(b) + seq![','] + csv_field(c) + seq![','] + csv_field(d)
            + seq!['\n'],
    )
}

/// `serde_json::to_string` on a string slice: the JSON literal for `s`,
/// quoted and escaped as `json_quoted` states (the escape table and the
/// lower-case hex of `serde_json`'s serializer). Serializing a `str` into
/// memory does not fail (the serializer writes to a `Vec`).
#[verifier::external_body]
fn json_string(s: &str) -> (r: String)
    ensures
        r@ == json_quoted(s@),
{
    serde_json::to_string(s).expect("serializing a string into memory cannot fail")
}

/// `csv::WriterBuilder::new().has_headers(false)` writing the record
/// `[a, b, c, d]` into a `Vec`: the bytes of that record, as `csv_record`
/// states them (the default writer quotes only the fields that need it,
/// doubles quotes, and ends a record with `\n`). A single record never
/// trips the field-count check, and writing into memory does not fail.
#[verifier::external_body]
fn csv_record_bytes(a: &str, b: &str, c: &str, d: &str) -> (r: Vec<u8>)
    ensures
        r@ == csv_record(a@, b@, c@, d@),
        r@.len() > 0 && r@.last() == 10u8,
{
    let mut w = csv::WriterBuilder::new().has_headers(false).from_writer(Vec::new());
    w.write_record([a, b, c, d]).expect("csv write to memory cannot fail");
    w.into_inner().expect("csv memory flush cannot fail")
}

/// One row of the report.
#[derive(Debug, Clone)]
pub struct ReportEntry {
    pub entry_type: EntryKind,
    pub path: String,
    pub size_human: String,
    pub size_bytes: u64,
}

pub open spec fn kind_text_of(k: EntryKind) -> Seq<char> {
    match k {
        EntryKind::File => "file"@,
        EntryKind::Directory => "directory"@,
    }
}

/// `s` with every `|` written as `\|`.
pub open spec fn md_escaped(s: Seq<char>) -> Seq<char>
    decreases s.len(),
{
    if s.len() == 0 {
        Seq::empty()
    } else if s.last() == '|' {
        md_escaped(s.drop_last()) + seq!['\\', '|']
    } else {
        md_escaped(s.drop_last()).push(s.last())
    }
}

/// The text of a row in the JSONL, Markdown and text formats.
pub open spec fn row_text(format: OutputFormat, e: ReportEntry) -> Seq<char> {
    let kind = kind_text_of(e.entry_type);
    let size = dec_text(e.size_bytes as nat);
    match format {
        OutputFormat::Md => "| "@ + kind + " | "@ + md_escaped(e.path@) + " | "@ + e.size_human@
            + " | "@ + size + " |\n"@,
        OutputFormat::Txt => "type="@ + kind + " path="@ + e.path@ + " sizeHuman="@
            + e.size_human@ + " sizeBytes="@ + size + "\n"@,
        _ => "{\"type\":\""@ + kind + "\",\"path\":"@ + json_quoted(e.path@) + ",\"sizeHuman\":"@
            + json_quoted(e.size_human@) + ",\"sizeBytes\":"@ + size + "}\n"@,
    }
}

/// The bytes of a row.
pub open spec fn row_bytes(format: OutputFormat, e: ReportEntry) -> Seq<u8> {
    match format {
        OutputFormat::Csv => csv_record(
            kind_text_of(e.entry_type),
            e.path@,
            e.size_human@,
            dec_text(e.size_bytes as nat),
        ),
        _ => encode_utf8(row_text(format, e)),
    }
}

/// The header that starts every part.
pub open spec fn header_text(format: OutputFormat) -> Seq<char> {
    match format {
        OutputFormat::Csv => "type,path,sizeHuman,sizeBytes\n"@,
        OutputFormat::Md => "| type | path | sizeHuman | sizeBytes |\n|---|---:|---:|---:|\n"@,
        _ => Seq::empty(),
    }
}

/// The header size the rotation rule compares with (60 for Markdown).
pub open spec fn header_allowance(format: OutputFormat) -> nat {
    match format {
        OutputFormat::Csv => 30,
        OutputFormat::Md => 60,
        _ => 0,
    }
}

pub open spec fn extension_of(format: OutputFormat) -> Seq<char> {
    match format {
        OutputFormat::Jsonl => "jsonl"@,
        OutputFormat::Csv => "csv"@,
        OutputFormat::Md => "md"@,
        OutputFormat::Txt => "txt"@,
    }
}

/// The file name of part `index`: `report.part-001.jsonl` and so on.
pub open spec fn part_name(index: nat, format: OutputFormat) -> Seq<char> {
    "report.part-"@ + zero_pad(dec_text(index), 3) + "."@ + extension_of(format)
}

/// The name of a row kind in the report.
pub fn kind_text(kind: EntryKind) -> (s: &'static str)
    ensures
        s@ == kind_text_of(kind),
{
    match kind {
        EntryKind::File => "file",
        EntryKind::Directory => "directory",
    }
}

/// Escapes `|` for a Markdown table cell.
pub fn md_escape(value: &str) -> (r: String)
    ensures
        r@ == md_escaped(value@),
{
    let v = chars_of(value);
    let mut r = String::new();
    let mut i: usize = 0;
    assert(v@.take(0) =~= Seq::<char>::empty());
    while i < v.len()
        invariant
            0 <= i <= v@.len(),
            r@ == md_escaped(v@.take(i as int)),
        decreases v.len() - i,
    {
        let c = v[i];
        assert(v@.take(i + 1).drop_last() =~= v@.take(i as int));
        if c == '|' {
            push_char(&mut r, '\\');
            push_char(&mut r, '|');
        } else {
            push_char(&mut r, c);
        }
        i = i + 1;
        assert(r@ =~= md_escaped(v@.take(i as int)));
    }
    assert(v@.take(v@.len() as int) =~= v@);
    r
}

/// The file name of part `index` in `format`.
pub fn part_file_name(index: usize, format: OutputFormat) -> (s: String)
    ensures
        s@ == part_name(index as nat, format),
{
    let mut s = string_of("report.part-");
    push_dec_padded(&mut s, index as u128, 3);
    push_str(&mut s, ".");
    let ext = match format {
        OutputFormat::Jsonl => "jsonl",
        OutputFormat::Csv => "csv",
        OutputFormat::Md => "md",
        OutputFormat::Txt => "txt",
    };
    push_str(&mut s, ext);
    s
}

impl ReportEntry {
    /// A row for `path` of `size_bytes` bytes, with its human-readable size.
    pub fn new(kind: EntryKind, path: &str, size_bytes: u64) -> (e: ReportEntry)
        ensures
            e.entry_type == kind,
            e.path@ == path@,
            e.size_human@ == format_bytes_text(size_bytes as nat),
            e.size_bytes == size_bytes,
    {
        ReportEntry {
            entry_type: kind,
            path: string_of(path),
            size_human: format_bytes(size_bytes),
            size_bytes,
        }
    }
}

proof fn lemma_encode_concat(a: Seq<char>, b: Seq<char>)
    ensures
        encode_utf8(a + b) == encode_utf8(a) + encode_utf8(b),
    decreases a.len(),
{
    if a.len() == 0 {
        assert(a + b =~= b);
    } else {
        lemma_encode_concat(a.drop_first(), b);
        assert((a + b).drop_first() =~= a.drop_first() + b);
    }
}

/// A text that ends with a line break encodes to bytes that end with one.
proof fn lemma_encode_ends_with_newline(s: Seq<char>)
    requires
        s.len() > 0,
        s.last() == '\n',
    ensures
        encode_utf8(s).len() > 0,
        encode_utf8(s).last() == 10u8,
{
    let a = s.drop_last();
    assert(s =~= a + seq!['\n']);
    lemma_encode_concat(a, seq!['\n']);
    assert((10u32 & 0x7F) as u8 == 10u8) by (bit_vector);
    assert(('\n' as u32) == 10u32);
    assert(seq!['\n'][0] as u32 == 10u32);
    assert(seq!['\n'].drop_first() =~= Seq::<char>::empty());
    let nl = seq!['\n'];
    assert(encode_utf8(nl.drop_first()) =~= Seq::<u8>::empty());
    assert(vstd::utf8::has_width_1_encoding(nl[0] as u32));
    assert(vstd::utf8::leading_byte_width_1(nl[0] as u32) == 10u8);
    assert(vstd::utf8::encode_scalar(nl[0] as u32) =~= seq![10u8]);
    assert(encode_utf8(nl) == vstd::utf8::encode_scalar(nl[0] as u32) + encode_utf8(nl.drop_first()));
    assert(encode_utf8(nl) =~= seq![10u8]);
}

/// The bytes of `s`.
fn bytes_of(s: &String) -> (b: Vec<u8>)
    ensures
        b@ == encode_utf8(s@),
{
    s.as_str().as_bytes_vec()
}

/// Serializes `entry` as one row in `format`.
fn serialize_row(format: OutputFormat, entry: &ReportEntry) -> (row: Vec<u8>)
    ensures
        row@ == row_bytes(format, *entry),
        row@.len() > 0,
{
    let kind = kind_text(entry.entry_type);
    match format {
        OutputFormat::Csv => {
            let size = dec_string(entry.size_bytes as u128);
            csv_record_bytes(kind, entry.path.as_str(), entry.size_human.as_str(), size.as_str())
        },
        OutputFormat::Md => {
            let mut s = string_of("| ");
            push_str(&mut s, kind);
            push_str(&mut s, " | ");
            let escaped = md_escape(entry.path.as_str());
            push_str(&mut s, escaped.as_str());
            push_str(&mut s, " | ");
            push_str(&mut s, entry.size_human.as_str());
            push_str(&mut s, " | ");
            push_dec(&mut s, entry.size_bytes as u128);
            let ghost before = s@;
            push_str(&mut s, " |\n");
            proof {
                reveal_strlit(" |\n");
                assert(s@ =~= row_text(format, *entry));
                lemma_encode_ends_with_newline(s@);
            }
            bytes_of(&s)
        },
        OutputFormat::Txt => {
            let mut s = string_of("type=");
            push_str(&mut s, kind);
            push_str(&mut s, " path=");
            push_str(&mut s, entry.path.as_str());
            push_str(&mut s, " sizeHuman=");
            push_str(&mut s, entry.size_human.as_str());
            push_str(&mut s, " sizeBytes=");
            push_dec(&mut s, entry.size_bytes as u128);
            push_str(&mut s, "\n");
            proof {
                reveal_strlit("\n");
                assert(s@ =~= row_text(format, *entry));
                lemma_encode_ends_with_newline(s@);
            }
            bytes_of(&s)
        },
        OutputFormat::Jsonl => {
            let mut s = string_of("{\"type\":\"");
            push_str(&mut s, kind);
            push_str(&mut s, "\",\"path\":");
            let p = json_string(entry.path.as_str());
            push_str(&mut s, p.as_str());
            push_str(&mut s, ",\"sizeHuman\":");
            let h = json_string(entry.size_human.as_str());
            push_str(&mut s, h.as_str());
            push_str(&mut s, ",\"sizeBytes\":");
            push_dec(&mut s, entry.size_bytes as u128);
            push_str(&mut s, "}\n");
            proof {
                reveal_strlit("}\n");
                assert(s@ =~= row_text(format, *entry));
                lemma_encode_ends_with_newline(s@);
            }
            bytes_of(&s)
        },
    }
}

} // verus!

verus! {

/// What the writer does for one row: start part `new_part` first (when
/// `Some`), then write `row`; `warning` is to be logged.
#[derive(Debug)]
pub struct WriteStep {
    pub new_part: Option<usize>,
    pub row: Vec<u8>,
    pub warning: Option<String>,
}

/// The writer's state as the contracts see it.
pub struct WriterView {
    pub format: OutputFormat,
    pub max_bytes: u64,
    pub part_index: usize,
    pub current_bytes: u64,
    /// Rows written to the current part.
    pub rows_in_part: nat,
}

/// Splits report rows into parts of at most `max_bytes` bytes. It decides;
/// the caller creates the part files and writes the bytes.
pub struct ReportWriter {
    format: OutputFormat,
    max_bytes: u64,
    part_index: usize,
    current_bytes: u64,
    md_header_written: bool,
    csv_header: Vec<u8>,
    rows_in_part: Ghost<nat>,
}

impl View for ReportWriter {
    type V = WriterView;

    closed spec fn view(&self) -> WriterView {
        WriterView {
            format: self.format,
            max_bytes: self.max_bytes,
            part_index: self.part_index,
            current_bytes: self.current_bytes,
            rows_in_part: self.rows_in_part@,
        }
    }
}

pub open spec fn header_bytes(format: OutputFormat) -> Seq<u8> {
    encode_utf8(header_text(format))
}

/// The warning for a row longer than a whole part.
pub open spec fn oversize_warning(len: nat, max: nat) -> Seq<char> {
    "single row "@ + dec_text(len) + " bytes exceeds max output size "@ + dec_text(max)
}

/// Whether the next row of `len` bytes goes to a new part: the current part
/// already holds more than a header, and the row would take it past the limit.
pub open spec fn rotates(w: WriterView, len: nat) -> bool {
    w.current_bytes > header_allowance(w.format) && w.current_bytes + len > w.max_bytes
}

/// The writer's state after it writes a row of `len` bytes.
pub open spec fn after_write(o: WriterView, len: nat) -> WriterView {
    let rot = rotates(o, len);
    WriterView {
        format: o.format,
        max_bytes: o.max_bytes,
        part_index: if rot {
            sat_usize(o.part_index + 1)
        } else {
            o.part_index
        },
        current_bytes: sat_u64(
            (if rot {
                header_bytes(o.format).len() as int
            } else {
                o.current_bytes as int
            }) + len,
        ),
        rows_in_part: if rot {
            1
        } else {
            o.rows_in_part + 1
        },
    }
}

pub open spec fn sat_u64(x: int) -> u64 {
    if x > u64::MAX {
        u64::MAX
    } else {
        x as u64
    }
}

pub open spec fn sat_usize(x: int) -> usize {
    if x > usize::MAX {
        usize::MAX
    } else {
        x as usize
    }
}

proof fn lemma_header_lengths(format: OutputFormat)
    ensures
        header_bytes(format).len() >= header_allowance(format),
        header_bytes(format).len() == (match format {
            OutputFormat::Csv => 30nat,
            OutputFormat::Md => 61nat,
            _ => 0nat,
        }),
{
    reveal_strlit("type,path,sizeHuman,sizeBytes\n");
    reveal_strlit("| type | path | sizeHuman | sizeBytes |\n|---|---:|---:|---:|\n");
    let c = header_text(OutputFormat::Csv);
    let m = header_text(OutputFormat::Md);
    assert(is_ascii_chars(c));
    assert(is_ascii_chars(m));
    vstd::utf8::is_ascii_chars_encode_utf8(c);
    vstd::utf8::is_ascii_chars_encode_utf8(m);
    assert(c.len() == 30);
    assert(m.len() == 61);
    assert(encode_utf8(Seq::<char>::empty()) =~= Seq::<u8>::empty());
}

impl ReportWriter {
    /// The writer's own bookkeeping: its copy of the CSV header.
    pub closed spec fn header_ok(&self) -> bool {
        self.csv_header@ == header_bytes(OutputFormat::Csv)
    }

    /// A part exceeds the limit only with a single row in it; parts are
    /// numbered from 1.
    pub open spec fn wf(&self) -> bool {
        &&& self.header_ok()
        &&& self@.part_index >= 1
        &&& self@.rows_in_part == 0 ==> self@.current_bytes == header_bytes(self@.format).len()
        &&& self@.rows_in_part >= 1 ==> self@.current_bytes > header_allowance(self@.format)
        &&& self@.rows_in_part >= 2 ==> self@.current_bytes <= self@.max_bytes
    }

    /// The writer for a run with `config`, at the start of part 1 with its
    /// header counted.
    pub fn create(config: &Config) -> (w: ReportWriter)
        ensures
            w.wf(),
            w@.format == config.format,
            w@.max_bytes == config.max_output_size,
            w@.part_index == 1,
            w@.current_bytes == header_bytes(config.format).len(),
            w@.rows_in_part == 0,
    {
        let csv_header = bytes_of(&string_of("type,path,sizeHuman,sizeBytes\n"));
        let mut w = ReportWriter {
            format: config.format,
            max_bytes: config.max_output_size,
            part_index: 1,
            current_bytes: 0,
            md_header_written: false,
            csv_header,
            rows_in_part: Ghost(0),
        };
        w.count_part_header();
        proof {
            lemma_header_lengths(config.format);
        }
        w
    }

    fn header_len(&self) -> (n: u64)
        requires
            self.header_ok(),
        ensures
            n == header_allowance(self.format),
    {
        proof {
            lemma_header_lengths(OutputFormat::Csv);
        }
        match self.format {
            OutputFormat::Csv => self.csv_header.len() as u64,
            OutputFormat::Md => 60,
            OutputFormat::Jsonl | OutputFormat::Txt => 0,
        }
    }

    /// Counts the header of a fresh part.
    fn count_part_header(&mut self)
        requires
            old(self).header_ok(),
            old(self).current_bytes == 0,
        ensures
            final(self).header_ok(),
            final(self)@ == (WriterView { current_bytes: header_bytes(old(self).format).len() as u64, ..old(self)@ }),
    {
        proof {
            lemma_header_lengths(self.format);
            reveal_strlit("type,path,sizeHuman,sizeBytes\n");
            reveal_strlit("| type | path | sizeHuman | sizeBytes |\n|---|---:|---:|---:|\n");
            vstd::utf8::is_ascii_chars_encode_utf8(header_text(OutputFormat::Csv));
            vstd::utf8::is_ascii_chars_encode_utf8(header_text(OutputFormat::Md));
            assert(encode_utf8(Seq::<char>::empty()) =~= Seq::<u8>::empty());
        }
        match self.format {
            OutputFormat::Csv => {
                self.current_bytes = self.csv_header.len() as u64;
            },
            OutputFormat::Md => {
                self.current_bytes = 61;
                self.md_header_written = true;
            },
            OutputFormat::Jsonl | OutputFormat::Txt => {},
        }
    }

    /// The bytes of `entry`'s row in this writer's format.
    pub fn serialize(&self, entry: &ReportEntry) -> (row: Vec<u8>)
        ensures
            row@ == row_bytes(self@.format, *entry),
            row@.len() > 0,
    {
        serialize_row(self.format, entry)
    }

    /// The header bytes that start each part.
    pub fn part_header(&self) -> (h: Vec<u8>)
        ensures
            h@ == header_bytes(self@.format),
    {
        match self.format {
            OutputFormat::Csv => bytes_of(&string_of("type,path,sizeHuman,sizeBytes\n")),
            OutputFormat::Md => bytes_of(
                &string_of("| type | path | sizeHuman | sizeBytes |\n|---|---:|---:|---:|\n"),
            ),
            OutputFormat::Jsonl | OutputFormat::Txt => {
                assert(encode_utf8(Seq::<char>::empty()) =~= Seq::<u8>::empty());
                Vec::new()
            },
        }
    }

    /// Decides where `entry` goes: its row, whether a new part starts first
    /// (when the row would take a part that holds rows past the limit), and
    /// a warning when the row alone is larger than a part may be.
    pub fn write(&mut self, entry: &ReportEntry) -> (step: WriteStep)
        requires
            old(self).wf(),
        ensures
            final(self).wf(),
            step.row@ == row_bytes(old(self)@.format, *entry),
            final(self)@ == after_write(old(self)@, step.row@.len()),
            ({
                let o = old(self)@;
                let n = final(self)@;
                let len = step.row@.len();
                let rot = rotates(o, len);
                &&& step.new_part == (if rot {
                    Some(sat_usize(o.part_index + 1))
                } else {
                    None::<usize>
                })
                &&& n.format == o.format
                &&& n.max_bytes == o.max_bytes
                &&& n.part_index == (if rot {
                    sat_usize(o.part_index + 1)
                } else {
                    o.part_index
                })
                &&& n.current_bytes == sat_u64(
                    (if rot {
                        header_bytes(o.format).len() as int
                    } else {
                        o.current_bytes as int
                    }) + len,
                )
                &&& n.rows_in_part == (if rot {
                    1
                } else {
                    o.rows_in_part + 1
                })
                &&& match step.warning {
                    Some(w) => len > o.max_bytes && w@ == oversize_warning(len, o.max_bytes as nat),
                    None => len <= o.max_bytes,
                }
            }),
    {
        let row = self.serialize(entry);
        let len = row.len() as u64;
        let hl = self.header_len();
        let rotate = self.current_bytes > hl && (self.current_bytes as u128) + (len as u128) > (
        self.max_bytes as u128);
        let mut new_part: Option<usize> = None;
        if rotate {
            self.part_index = if self.part_index < usize::MAX {
                self.part_index + 1
            } else {
                usize::MAX
            };
            self.current_bytes = 0;
            self.md_header_written = false;
            self.count_part_header();
            self.rows_in_part = Ghost(0);
            new_part = Some(self.part_index);
        }
        proof {
            lemma_header_lengths(self.format);
        }
        let warning = if len > self.max_bytes {
            let mut m = string_of("single row ");
            push_dec(&mut m, len as u128);
            push_str(&mut m, " bytes exceeds max output size ");
            push_dec(&mut m, self.max_bytes as u128);
            Some(m)
        } else {
            None
        };
        self.current_bytes = self.current_bytes.saturating_add(len);
        self.rows_in_part = Ghost(self.rows_in_part@ + 1);
        WriteStep { new_part, row, warning }
    }

    /// The file names of the parts started so far, in order.
    pub fn part_files(&self) -> (names: Vec<String>)
        ensures
            names@.len() == self@.part_index,
            forall|i: int| 0 <= i < names@.len() ==> #[trigger] names@[i]@ == part_name((i + 1) as nat, self@.format),
    {
        let mut names: Vec<String> = Vec::new();
        let mut i: usize = 0;
        while i < self.part_index
            invariant
                0 <= i <= self.part_index,
                names@.len() == i,
                forall|j: int| 0 <= j < i ==> #[trigger] names@[j]@ == part_name((j + 1) as nat, self.format),
            decreases self.part_index - i,
        {
            names.push(part_file_name(i + 1, self.format));
            i = i + 1;
        }
        names
    }
}

/// A part holds more than `max_bytes` bytes only when it holds at most one
/// row: rows never split, and a row goes to a new part rather than take a
/// part with rows in it past the limit.
pub proof fn lemma_part_over_limit_holds_one_row(w: &ReportWriter)
    requires
        w.wf(),
    ensures
        w@.current_bytes > w@.max_bytes ==> w@.rows_in_part <= 1,
{
}

} // verus!
