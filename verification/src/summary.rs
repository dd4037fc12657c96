//! Scan totals, the run status, and the Markdown summary document.
use vstd::prelude::*;
use crate::config::{Config, EntryKind};
use crate::human::{format_bytes, format_bytes_text};
use crate::report::{md_escape, md_escaped};
use crate::text::{dec_text, push_dec, push_str, string_of};
use crate::top::{keys_of, EntryKey, TopEntry};

verus! {

/// How a run ended.
#[derive(Debug, Clone, Copy, PartialEq, Eq, Structural)]
pub enum RunStatus {
    Completed,
    CompletedWithErrors,
    Interrupted,
}

/// Totals of a scan.
#[derive(Debug, Clone)]
pub struct ScanSummary {
    pub root_size_bytes: u64,
    pub root_size_human: String,
    pub files_seen: u64,
    pub directories_seen: u64,
    pub files_emitted: u64,
    pub directories_emitted: u64,
    pub bytes_seen: u64,
    pub errors: u64,
    pub skipped_hidden: u64,
    pub skipped_reparse_points: u64,
    pub output_files: Vec<String>,
    pub top_entries: Vec<TopEntry>,
}

/// The status of a finished run: interrupted, or completed with or without
/// recoverable errors.
pub open spec fn status_of(interrupted: bool, errors: u64) -> RunStatus {
    if interrupted {
        RunStatus::Interrupted
    } else if errors > 0 {
        RunStatus::CompletedWithErrors
    } else {
        RunStatus::Completed
    }
}

pub open spec fn exit_code_of(status: RunStatus) -> i32 {
    match status {
        RunStatus::Completed => 0,
        RunStatus::CompletedWithErrors => 5,
        RunStatus::Interrupted => 4,
    }
}

pub open spec fn status_text(status: RunStatus) -> Seq<char> {
    match status {
        RunStatus::Completed => "Completed"@,
        RunStatus::CompletedWithErrors => "CompletedWithErrors"@,
        RunStatus::Interrupted => "Interrupted"@,
    }
}

pub open spec fn kind_debug_text(k: EntryKind) -> Seq<char> {
    match k {
        EntryKind::File => "File"@,
        EntryKind::Directory => "Directory"@,
    }
}

/// The rows of the top-entries table.
pub open spec fn top_table_rows(es: Seq<EntryKey>) -> Seq<char>
    decreases es.len(),
{
    if es.len() == 0 {
        Seq::empty()
    } else {
        let e = es.last();
        top_table_rows(es.drop_last()) + "| "@ + kind_debug_text(e.1) + " | "@
            + format_bytes_text(e.0 as nat) + " | "@ + md_escaped(e.2) + " |\n"@
    }
}

/// The text of `summary.md`.
pub open spec fn summary_md_text(
    config: Config,
    summary: ScanSummary,
    status: RunStatus,
    started: Seq<char>,
    ended: Seq<char>,
) -> Seq<char> {
    "# Directory Size Summary\n\n- Status: "@ + status_text(status) + "\n- Root: "@
        + config.root@ + "\n- Started: "@ + started + "\n- Ended: "@ + ended
        + "\n- Total size: "@ + summary.root_size_human@ + "\n- Files seen: "@ + dec_text(
        summary.files_seen as nat,
    ) + "\n- Directories seen: "@ + dec_text(summary.directories_seen as nat)
        + "\n- Report rows: "@ + dec_text((summary.files_emitted + summary.directories_emitted) as nat)
        + "\n- Recoverable errors: "@ + dec_text(summary.errors as nat)
        + "\n- Skipped hidden entries: "@ + dec_text(summary.skipped_hidden as nat)
        + "\n- Skipped reparse points: "@ + dec_text(summary.skipped_reparse_points as nat)
        + "\n\n## Top Entries\n\n| type | size | path |\n|---|---:|---|\n"@ + top_table_rows(
        keys_of(summary.top_entries@),
    )
}

impl RunStatus {
    /// The status of a run that was or was not interrupted, after `errors`
    /// recoverable errors.
    pub fn decide(interrupted: bool, errors: u64) -> (s: RunStatus)
        ensures
            s == status_of(interrupted, errors),
    {
        if interrupted {
            RunStatus::Interrupted
        } else if errors > 0 {
            RunStatus::CompletedWithErrors
        } else {
            RunStatus::Completed
        }
    }

    /// The process exit code for the status: 0, 5 with recoverable errors,
    /// 4 when interrupted.
    pub fn exit_code(self) -> (c: i32)
        ensures
            c == exit_code_of(self),
    {
        match self {
            RunStatus::Completed => 0,
            RunStatus::CompletedWithErrors => 5,
            RunStatus::Interrupted => 4,
        }
    }

    /// The status as `{:?}` writes it.
    pub fn debug_text(self) -> (s: &'static str)
        ensures
            s@ == status_text(self),
    {
        match self {
            RunStatus::Completed => "Completed",
            RunStatus::CompletedWithErrors => "CompletedWithErrors",
            RunStatus::Interrupted => "Interrupted",
        }
    }
}

fn kind_debug(k: EntryKind) -> (s: &'static str)
    ensures
        s@ == kind_debug_text(k),
{
    match k {
        EntryKind::File => "File",
        EntryKind::Directory => "Directory",
    }
}

impl ScanSummary {
    /// All totals zero, no output files, no top entries.
    pub fn empty() -> (s: ScanSummary)
        ensures
            s.root_size_bytes == 0,
            s.root_size_human@ == "0 B"@,
            s.files_seen == 0,
            s.directories_seen == 0,
            s.files_emitted == 0,
            s.directories_emitted == 0,
            s.bytes_seen == 0,
            s.errors == 0,
            s.skipped_hidden == 0,
            s.skipped_reparse_points == 0,
            s.output_files@.len() == 0,
            s.top_entries@.len() == 0,
    {
        ScanSummary {
            root_size_bytes: 0,
            root_size_human: string_of("0 B"),
            files_seen: 0,
            directories_seen: 0,
            files_emitted: 0,
            directories_emitted: 0,
            bytes_seen: 0,
            errors: 0,
            skipped_hidden: 0,
            skipped_reparse_points: 0,
            output_files: Vec::new(),
            top_entries: Vec::new(),
        }
    }

    /// Records the size of the root, in bytes and for people.
    pub fn set_root_size(&mut self, bytes: u64)
        ensures
            final(self).root_size_bytes == bytes,
            final(self).root_size_human@ == format_bytes_text(bytes as nat),
            final(self).files_seen == old(self).files_seen,
            final(self).directories_seen == old(self).directories_seen,
            final(self).files_emitted == old(self).files_emitted,
            final(self).directories_emitted == old(self).directories_emitted,
            final(self).bytes_seen == old(self).bytes_seen,
            final(self).errors == old(self).errors,
            final(self).skipped_hidden == old(self).skipped_hidden,
            final(self).skipped_reparse_points == old(self).skipped_reparse_points,
            final(self).output_files@ == old(self).output_files@,
            final(self).top_entries@ == old(self).top_entries@,
    {
        self.root_size_bytes = bytes;
        self.root_size_human = format_bytes(bytes);
    }
}

/// The text of `summary.md` for a run.
pub fn summary_markdown(
    config: &Config,
    summary: &ScanSummary,
    status: RunStatus,
    started: &str,
    ended: &str,
) -> (md: String)
    ensures
        md@ == summary_md_text(*config, *summary, status, started@, ended@),
{
    let mut md = string_of("# Directory Size Summary\n\n- Status: ");
    push_str(&mut md, status.debug_text());
    push_str(&mut md, "\n- Root: ");
    push_str(&mut md, config.root.as_str());
    push_str(&mut md, "\n- Started: ");
    push_str(&mut md, started);
    push_str(&mut md, "\n- Ended: ");
    push_str(&mut md, ended);
    push_str(&mut md, "\n- Total size: ");
    push_str(&mut md, summary.root_size_human.as_str());
    push_str(&mut md, "\n- Files seen: ");
    push_dec(&mut md, summary.files_seen as u128);
    push_str(&mut md, "\n- Directories seen: ");
    push_dec(&mut md, summary.directories_seen as u128);
    push_str(&mut md, "\n- Report rows: ");
    push_dec(&mut md, summary.files_emitted as u128 + summary.directories_emitted as u128);
    push_str(&mut md, "\n- Recoverable errors: ");
    push_dec(&mut md, summary.errors as u128);
    push_str(&mut md, "\n- Skipped hidden entries: ");
    push_dec(&mut md, summary.skipped_hidden as u128);
    push_str(&mut md, "\n- Skipped reparse points: ");
    push_dec(&mut md, summary.skipped_reparse_points as u128);
    push_str(&mut md, "\n\n## Top Entries\n\n| type | size | path |\n|---|---:|---|\n");
    let ghost head = md@;
    let entries = &summary.top_entries;
    let mut i: usize = 0;
    assert(keys_of(entries@).take(0) =~= Seq::<EntryKey>::empty());
    assert(head =~= head + top_table_rows(keys_of(entries@).take(0)));
    while i < entries.len()
        invariant
            0 <= i <= entries@.len(),
            md@ == head + top_table_rows(keys_of(entries@).take(i as int)),
        decreases entries.len() - i,
    {
        let e = &entries[i];
        push_str(&mut md, "| ");
        push_str(&mut md, kind_debug(e.kind));
        push_str(&mut md, " | ");
        let size = format_bytes(e.size_bytes);
        push_str(&mut md, size.as_str());
        push_str(&mut md, " | ");
        let path = md_escape(e.path.as_str());
        push_str(&mut md, path.as_str());
        push_str(&mut md, " |\n");
        proof {
            let ks = keys_of(entries@).take(i + 1);
            assert(ks.drop_last() =~= keys_of(entries@).take(i as int));
            assert(ks.last() == e@);
        }
        i = i + 1;
        assert(md@ =~= head + top_table_rows(keys_of(entries@).take(i as int)));
    }
    assert(keys_of(entries@).take(entries@.len() as int) =~= keys_of(entries@));
    assert(md@ =~= summary_md_text(*config, *summary, status, started@, ended@));
    md
}


/// `part` stands somewhere in `t`, its characters one after the other.
pub open spec fn has_part(t: Seq<char>, part: Seq<char>) -> bool {
    exists|i: int| 0 <= i && i + part.len() <= t.len() && #[trigger] t.subrange(i, i + part.len()) == part
}

/// Each status is written as its own name, and no two statuses share one.
pub proof fn lemma_status_names(a: RunStatus, b: RunStatus)
    ensures
        status_text(RunStatus::Completed) == "Completed"@,
        status_text(RunStatus::CompletedWithErrors) == "CompletedWithErrors"@,
        status_text(RunStatus::Interrupted) == "Interrupted"@,
        a != b ==> status_text(a) != status_text(b),
{
    reveal_strlit("Completed");
    reveal_strlit("CompletedWithErrors");
    reveal_strlit("Interrupted");
    if a != b && status_text(a) == status_text(b) {
        assert(status_text(a).len() == status_text(b).len());
        assert(status_text(a)[0] == status_text(b)[0]);
        assert(status_text(a)[9] == status_text(b)[9]);
    }
}

/// `summary.md` opens with the run's status by name.
pub proof fn lemma_summary_md_status(
    config: Config,
    summary: ScanSummary,
    status: RunStatus,
    started: Seq<char>,
    ended: Seq<char>,
)
    ensures
        ("# Directory Size Summary\n\n- Status: "@ + (match status {
            RunStatus::Completed => "Completed"@,
            RunStatus::CompletedWithErrors => "CompletedWithErrors"@,
            RunStatus::Interrupted => "Interrupted"@,
        }) + "\n"@).is_prefix_of(summary_md_text(config, summary, status, started, ended)),
{
    lemma_status_names(status, status);
    let s0 = "# Directory Size Summary\n\n- Status: "@ + status_text(status);
    let pre = s0 + "\n"@;
    reveal_strlit("\n- Root: ");
    reveal_strlit("- Root: ");
    reveal_strlit("\n");
    assert(s0 + "\n- Root: "@ =~= pre + "- Root: "@);
    assert(pre.is_prefix_of(s0 + "\n- Root: "@)) by {
        assert((pre + "- Root: "@).take(pre.len() as int) =~= pre);
    }
    assert forall|y: Seq<char>, z: Seq<char>| pre.is_prefix_of(y) implies pre.is_prefix_of(#[trigger] (y + z)) by {
        assert((y + z).take(pre.len() as int) =~= y.take(pre.len() as int));
    }
}

/// `summary.md` states, each on its own line and in this order, the root,
/// the start and end times, the total size, the files and directories
/// seen, the report rows (files plus directories emitted), the recoverable
/// errors, the hidden entries skipped and the reparse points skipped.
pub proof fn lemma_summary_md_lines(
    config: Config,
    summary: ScanSummary,
    status: RunStatus,
    started: Seq<char>,
    ended: Seq<char>,
)
    ensures
        has_part(
            summary_md_text(config, summary, status, started, ended),
            "\n- Root: "@ + config.root@ + "\n- Started: "@ + started + "\n- Ended: "@ + ended
                + "\n- Total size: "@ + summary.root_size_human@ + "\n- Files seen: "@ + dec_text(
                summary.files_seen as nat,
            ) + "\n- Directories seen: "@ + dec_text(summary.directories_seen as nat)
                + "\n- Report rows: "@ + dec_text((summary.files_emitted + summary.directories_emitted) as nat)
                + "\n- Recoverable errors: "@ + dec_text(summary.errors as nat)
                + "\n- Skipped hidden entries: "@ + dec_text(summary.skipped_hidden as nat)
                + "\n- Skipped reparse points: "@ + dec_text(summary.skipped_reparse_points as nat) + "\n"@,
        ),
{
    let y = "# Directory Size Summary\n\n- Status: "@ + status_text(status);
    let h1 = "\n- Root: "@;
    let a1 = y + "\n- Root: "@;
    let h2 = h1 + config.root@;
    let a2 = a1 + config.root@;
    vstd::seq_lib::lemma_concat_associative(y, h1, config.root@);
    assert(a2 == y + h2);
    let h3 = h2 + "\n- Started: "@;
    let a3 = a2 + "\n- Started: "@;
    vstd::seq_lib::lemma_concat_associative(y, h2, "\n- Started: "@);
    assert(a3 == y + h3);
    let h4 = h3 + started;
    let a4 = a3 + started;
    vstd::seq_lib::lemma_concat_associative(y, h3, started);
    assert(a4 == y + h4);
    let h5 = h4 + "\n- Ended: "@;
    let a5 = a4 + "\n- Ended: "@;
    vstd::seq_lib::lemma_concat_associative(y, h4, "\n- Ended: "@);
    assert(a5 == y + h5);
    let h6 = h5 + ended;
    let a6 = a5 + ended;
    vstd::seq_lib::lemma_concat_associative(y, h5, ended);
    assert(a6 == y + h6);
    let h7 = h6 + "\n- Total size: "@;
    let a7 = a6 + "\n- Total size: "@;
    vstd::seq_lib::lemma_concat_associative(y, h6, "\n- Total size: "@);
    assert(a7 == y + h7);
    let h8 = h7 + summary.root_size_human@;
    let a8 = a7 + summary.root_size_human@;
    vstd::seq_lib::lemma_concat_associative(y, h7, summary.root_size_human@);
    assert(a8 == y + h8);
    let h9 = h8 + "\n- Files seen: "@;
    let a9 = a8 + "\n- Files seen: "@;
    vstd::seq_lib::lemma_concat_associative(y, h8, "\n- Files seen: "@);
    assert(a9 == y + h9);
    let h10 = h9 + dec_text(summary.files_seen as nat);
    let a10 = a9 + dec_text(summary.files_seen as nat);
    vstd::seq_lib::lemma_concat_associative(y, h9, dec_text(summary.files_seen as nat));
    assert(a10 == y + h10);
    let h11 = h10 + "\n- Directories seen: "@;
    let a11 = a10 + "\n- Directories seen: "@;
    vstd::seq_lib::lemma_concat_associative(y, h10, "\n- Directories seen: "@);
    assert(a11 == y + h11);
    let h12 = h11 + dec_text(summary.directories_seen as nat);
    let a12 = a11 + dec_text(summary.directories_seen as nat);
    vstd::seq_lib::lemma_concat_associative(y, h11, dec_text(summary.directories_seen as nat));
    assert(a12 == y + h12);
    let h13 = h12 + "\n- Report rows: "@;
    let a13 = a12 + "\n- Report rows: "@;
    vstd::seq_lib::lemma_concat_associative(y, h12, "\n- Report rows: "@);
    assert(a13 == y + h13);
    let h14 = h13 + dec_text((summary.files_emitted + summary.directories_emitted) as nat);
    let a14 = a13 + dec_text((summary.files_emitted + summary.directories_emitted) as nat);
    vstd::seq_lib::lemma_concat_associative(y, h13, dec_text((summary.files_emitted + summary.directories_emitted) as nat));
    assert(a14 == y + h14);
    let h15 = h14 + "\n- Recoverable errors: "@;
    let a15 = a14 + "\n- Recoverable errors: "@;
    vstd::seq_lib::lemma_concat_associative(y, h14, "\n- Recoverable errors: "@);
    assert(a15 == y + h15);
    let h16 = h15 + dec_text(summary.errors as nat);
    let a16 = a15 + dec_text(summary.errors as nat);
    vstd::seq_lib::lemma_concat_associative(y, h15, dec_text(summary.errors as nat));
    assert(a16 == y + h16);
    let h17 = h16 + "\n- Skipped hidden entries: "@;
    let a17 = a16 + "\n- Skipped hidden entries: "@;
    vstd::seq_lib::lemma_concat_associative(y, h16, "\n- Skipped hidden entries: "@);
    assert(a17 == y + h17);
    let h18 = h17 + dec_text(summary.skipped_hidden as nat);
    let a18 = a17 + dec_text(summary.skipped_hidden as nat);
    vstd::seq_lib::lemma_concat_associative(y, h17, dec_text(summary.skipped_hidden as nat));
    assert(a18 == y + h18);
    let h19 = h18 + "\n- Skipped reparse points: "@;
    let a19 = a18 + "\n- Skipped reparse points: "@;
    vstd::seq_lib::lemma_concat_associative(y, h18, "\n- Skipped reparse points: "@);
    assert(a19 == y + h19);
    let h20 = h19 + dec_text(summary.skipped_reparse_points as nat);
    let a20 = a19 + dec_text(summary.skipped_reparse_points as nat);
    vstd::seq_lib::lemma_concat_associative(y, h19, dec_text(summary.skipped_reparse_points as nat));
    assert(a20 == y + h20);
    let h = h20;
    let a = a20;
    let t1 = "\n\n## Top Entries\n\n| type | size | path |\n|---|---:|---|\n"@;
    let t2 = "\n## Top Entries\n\n| type | size | path |\n|---|---:|---|\n"@;
    let mid = h + "\n"@;
    reveal_strlit("\n\n## Top Entries\n\n| type | size | path |\n|---|---:|---|\n");
    reveal_strlit("\n## Top Entries\n\n| type | size | path |\n|---|---:|---|\n");
    reveal_strlit("\n");
    assert(t1 =~= "\n"@ + t2);
    assert(a =~= y + h);
    assert(a + t1 =~= (y + mid) + t2);
    assert((y + mid + t2).subrange(y.len() as int, (y.len() + mid.len()) as int) =~= mid);
    assert(has_part(a + t1, mid));
    assert forall|u: Seq<char>, v: Seq<char>| has_part(u, mid) implies has_part(#[trigger] (u + v), mid) by {
        let i = choose|i: int| 0 <= i && i + mid.len() <= u.len() && #[trigger] u.subrange(i, i + mid.len()) == mid;
        assert((u + v).subrange(i, i + mid.len()) =~= u.subrange(i, i + mid.len()));
    }
}

} // verus!
