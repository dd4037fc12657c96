//! The directory scan as a state machine: it asks for listings and file
//! metadata, and answers with report rows, warnings and totals.
use vstd::prelude::*;
use crate::config::{Config, EntryKind};
use crate::report::{row_bytes, ReportEntry, ReportWriter, WriterView};
use crate::human::format_bytes_text;
use crate::scan_model::{
    bool_count, child_depth, close_offer, closing_offers, counted_by, counts_file, enters_dir,
    event_warnings, first_offers, hidden_count, kind_count, lemma_closing_offers_from,
    lemma_one_counts, lemma_rows_of_push, lemma_run_close, lemma_run_close_counts, lemma_sat_add,
    lemma_shown_rows_from, lemma_shown_rows_one, lemma_span_push, lemma_span_split,
    lemma_step_counts, lemma_step_rows, lemma_warn_count_push, lemma_warns_extend,
    lemma_warns_of_push, lemma_parts_marked_concat, lemma_parts_marked_empty, lemma_parts_marked_warn,
    lemma_splits_marked_concat, lemma_splits_marked_empty, lemma_step_file_rows, lemma_rows_of_offers, lemma_splits_marked_other_warn, splits_marked, lemma_row_block_marked,
    lemma_writer_after_concat, offer_key, opened_dir, parts_marked, passes_filters, row_block,
    rows_of, rows_ok, sat, writer_after,
    shown_rows, skips_reparse, span_size, split_warnings_from, step_offers, warn_count, warns_of,
    FileLog, Offer, OpenDir, RowKey, Warning,
};
use crate::summary::ScanSummary;
use crate::text::string_of;
use crate::top::{
    holds_largest, keys_of, lemma_listing_unique, lemma_table_holds_largest, lemma_text_lt_asymmetric,
    lemma_text_lt_irreflexive, lemma_text_lt_total, lemma_text_lt_transitive, listed_before,
    offered, text_less, text_lt, EntryKey, TopEntry, TopN,
};
use vstd::relations::{sorted_by, total_ordering};
use vstd::seq_lib::lemma_sorted_unique;

verus! {

broadcast use vstd::seq_lib::group_to_multiset_ensures;

/// What the file system says of one directory entry.
#[derive(Debug, Clone, Copy)]
pub struct EntryMeta {
    pub is_dir: bool,
    pub is_file: bool,
    /// Size in bytes (for files).
    pub len: u64,
    /// Hidden by the platform's rule.
    pub hidden: bool,
    /// A symbolic link, junction or other reparse point.
    pub reparse: bool,
}

/// An I/O failure as the caller met it: its message and OS error code.
#[derive(Debug, Clone)]
pub struct IoFailure {
    pub message: String,
    pub os_code: Option<i32>,
}

/// What the caller reports back after doing what the scanner asked.
#[derive(Debug)]
pub enum ScanEvent {
    /// Begin the scan.
    Start,
    /// The directory was read: its entries (in any order) and the failures
    /// of entries that could not be read.
    Listed { entries: Vec<String>, errors: Vec<IoFailure> },
    /// The directory could not be read.
    ListFailed { failure: IoFailure },
    /// The metadata of the entry asked for.
    Stat(EntryMeta),
    /// The metadata could not be read.
    StatFailed { failure: IoFailure },
}

/// What the scanner needs next.
#[derive(Debug)]
pub enum ScanRequest {
    /// Read this directory (and redraw progress).
    ReadDir { path: String },
    /// Read the metadata of this entry, the `listing_index`-th of the
    /// listing reported for its directory.
    Stat { path: String, listing_index: usize },
    /// The scan is over; the summary is final.
    Done,
}

/// Output to produce, in order, before answering the request.
#[derive(Debug)]
pub enum Effect {
    /// Flush the current part and start part `index` with its header.
    StartPart { index: usize },
    /// Append a row to the current part.
    Row { entry: ReportEntry, depth: usize, bytes: Vec<u8> },
    /// Record a recoverable error.
    Warn { path: String, error_type: String, failure: IoFailure },
}

/// The scanner's answer to one event.
#[derive(Debug)]
pub struct ScanStep {
    pub effects: Vec<Effect>,
    pub request: ScanRequest,
}

/// An entry of a directory listing: its path, and where the caller's listing had it.
#[derive(Debug)]
pub struct Listed {
    pub path: String,
    pub index: usize,
}

impl View for Listed {
    type V = (Seq<char>, usize);

    open spec fn view(&self) -> (Seq<char>, usize) {
        (self.path@, self.index)
    }
}

/// The paths of a sorted listing with their places in the listing.
pub open spec fn listed_keys(s: Seq<Listed>) -> Seq<(Seq<char>, usize)> {
    s.map_values(|l: Listed| l@)
}

/// The order in which a directory's entries are visited: by path, and by
/// place in the listing among equal paths.
pub open spec fn listed_le(a: (Seq<char>, usize), b: (Seq<char>, usize)) -> bool {
    text_lt(a.0, b.0) || (a.0 == b.0 && a.1 <= b.1)
}

/// The entries of a listing, each with its place in it, in visiting order.
pub open spec fn visit_order(paths: Seq<String>) -> Seq<(Seq<char>, usize)> {
    Seq::new(paths.len(), |i: int| (paths[i]@, i as usize)).sort_by(
        |a: (Seq<char>, usize), b: (Seq<char>, usize)| listed_le(a, b),
    )
}

/// The visiting order is a total order, so a listing has one order of
/// visit (see `visit_order`).
pub proof fn lemma_listed_le_total()
    ensures
        total_ordering(|a: (Seq<char>, usize), b: (Seq<char>, usize)| listed_le(a, b)),
{
    let r = |a: (Seq<char>, usize), b: (Seq<char>, usize)| listed_le(a, b);
    assert forall|x: (Seq<char>, usize), y: (Seq<char>, usize)| #[trigger] r(x, y) && #[trigger] r(y, x) implies x == y by {
        lemma_text_lt_irreflexive(x.0);
        if text_lt(x.0, y.0) {
            lemma_text_lt_asymmetric(x.0, y.0);
        }
    }
    assert forall|x: (Seq<char>, usize), y: (Seq<char>, usize), z: (Seq<char>, usize)| #[trigger] r(x, y) && #[trigger] r(y, z) implies r(x, z) by {
        if text_lt(x.0, y.0) && text_lt(y.0, z.0) {
            lemma_text_lt_transitive(x.0, y.0, z.0);
        }
    }
    assert forall|x: (Seq<char>, usize), y: (Seq<char>, usize)| #[trigger] r(x, y) || #[trigger] r(y, x) by {
        lemma_text_lt_total(x.0, y.0);
    }
}

/// The listing `paths` with each path's place in it, in visiting order.
pub fn sort_listing(paths: Vec<String>) -> (r: Vec<Listed>)
    ensures
        listed_keys(r@) == visit_order(paths@),
{
    let ghost leq = |a: (Seq<char>, usize), b: (Seq<char>, usize)| listed_le(a, b);
    let ghost src = Seq::new(paths@.len(), |i: int| (paths@[i]@, i as usize));
    let mut res: Vec<Listed> = Vec::new();
    let mut n: usize = 0;
    proof {
        lemma_listed_le_total();
    }
    assert(src.take(0) =~= Seq::<(Seq<char>, usize)>::empty());
    assert(listed_keys(res@) =~= Seq::<(Seq<char>, usize)>::empty());
    while n < paths.len()
        invariant
            0 <= n <= paths@.len(),
            src == Seq::new(paths@.len(), |i: int| (paths@[i]@, i as usize)),
            leq == |a: (Seq<char>, usize), b: (Seq<char>, usize)| listed_le(a, b),
            total_ordering(leq),
            listed_keys(res@).to_multiset() == src.take(n as int).to_multiset(),
            sorted_by(listed_keys(res@), leq),
            forall|j: int| 0 <= j < res@.len() ==> (#[trigger] res@[j]).index < n,
        decreases paths.len() - n,
    {
        let x = Listed { path: string_of(paths[n].as_str()), index: n };
        let mut k: usize = 0;
        while k < res.len() && !text_less(x.path.as_str(), res[k].path.as_str())
            invariant
                0 <= k <= res@.len(),
                forall|j: int| 0 <= j < k ==> !text_lt(x.path@, #[trigger] res@[j].path@),
            decreases res.len() - k,
        {
            k = k + 1;
        }
        let ghost before = res@;
        let ghost bk = listed_keys(before);
        let ghost xk = x@;
        res.insert(k, x);
        proof {
            assert(listed_keys(res@) =~= bk.insert(k as int, xk));
            assert(src.take(n + 1) =~= src.take(n as int).push(xk));
            assert forall|j: int| 0 <= j < k implies #[trigger] leq(bk[j], xk) by {
                assert(bk[j] == before[j]@);
                lemma_text_lt_total(before[j].path@, xk.0);
            }
            assert forall|j: int| k <= j < bk.len() implies #[trigger] leq(xk, bk[j]) by {
                assert(text_lt(xk.0, before[k as int].path@));
                assert(bk[k as int] == before[k as int]@);
                assert(bk[j] == before[j]@);
                if j > k {
                    assert(leq(bk[k as int], bk[j]));
                    if text_lt(bk[k as int].0, bk[j].0) {
                        lemma_text_lt_transitive(xk.0, bk[k as int].0, bk[j].0);
                    }
                }
            }
            let nk = listed_keys(res@);
            assert forall|i: int, j: int| 0 <= i < j < nk.len() implies #[trigger] leq(nk[i], nk[j]) by {
                if j < k {
                    assert(nk[i] == bk[i] && nk[j] == bk[j]);
                } else if j == k {
                    assert(nk[i] == bk[i]);
                } else if i < k {
                    assert(nk[i] == bk[i] && nk[j] == bk[j - 1]);
                } else if i == k {
                    assert(nk[j] == bk[j - 1]);
                } else {
                    assert(nk[i] == bk[i - 1] && nk[j] == bk[j - 1]);
                }
            }
            assert forall|j: int| 0 <= j < res@.len() implies (#[trigger] res@[j]).index < n + 1 by {
                if j < k {
                    assert(res@[j] == before[j]);
                } else if j > k {
                    assert(res@[j] == before[j - 1]);
                }
            }
        }
        n = n + 1;
    }
    proof {
        assert(src.take(paths@.len() as int) =~= src);
        src.lemma_sort_by_ensures(leq);
        lemma_sorted_unique(listed_keys(res@), src.sort_by(leq), leq);
    }
    res
}

} // verus!

verus! {

/// A directory being scanned.
pub struct Frame {
    path: String,
    depth: usize,
    hidden: bool,
    total: u64,
    entries: Vec<Listed>,
    next: usize,
    /// How many files had been counted when the directory was opened.
    from: Ghost<nat>,
}

/// Where the counted files of the `i`-th open directory end (so far): where
/// the next one's begin, or the end of the log for the innermost one.
spec fn frame_end(stack: Seq<Frame>, n: nat, i: int) -> nat {
    if i + 1 < stack.len() {
        stack[i + 1].from@
    } else {
        n
    }
}

/// Each open directory's total is the capped size of the files counted
/// while it was the innermost open directory, its closed subdirectories
/// included.
spec fn frames_sized(stack: Seq<Frame>, files: FileLog) -> bool {
    forall|i: int|
        0 <= i < stack.len() ==> {
            &&& (#[trigger] stack[i]).from@ <= frame_end(stack, files.len(), i) <= files.len()
            &&& stack[i].total == span_size(files, stack[i].from@ as int, frame_end(stack, files.len(), i) as int)
        }
}

/// The innermost directory's total is replaced (and more files may have
/// been counted since): its counted files still add up.
proof fn lemma_sized_replace_top(stack: Seq<Frame>, files: FileLog, files2: FileLog, f2: Frame)
    requires
        frames_sized(stack, files),
        stack.len() >= 1,
        files.len() <= files2.len(),
        forall|x: int, y: int| 0 <= x <= y <= files.len() ==> #[trigger] span_size(files2, x, y) == span_size(files, x, y),
        f2.from == stack.last().from,
        f2.total == span_size(files2, f2.from@ as int, files2.len() as int),
    ensures
        frames_sized(stack.drop_last().push(f2), files2),
{
    let s2 = stack.drop_last().push(f2);
    assert forall|i: int| 0 <= i < s2.len() implies {
        &&& (#[trigger] s2[i]).from@ <= frame_end(s2, files2.len(), i) <= files2.len()
        &&& s2[i].total == span_size(files2, s2[i].from@ as int, frame_end(s2, files2.len(), i) as int)
    } by {
        if i + 1 < s2.len() {
            assert(s2[i] == stack[i]);
            assert(stack[i + 1].from == s2[i + 1].from);
            assert(frame_end(stack, files.len(), i) == frame_end(s2, files2.len(), i));
        } else {
            assert(stack[i].from@ <= frame_end(stack, files.len(), i));
        }
    }
}

/// A subdirectory is opened with nothing counted in it yet.
proof fn lemma_sized_open(stack: Seq<Frame>, files: FileLog, c: Frame)
    requires
        frames_sized(stack, files),
        c.from@ == files.len(),
        c.total == 0,
    ensures
        frames_sized(stack.push(c), files),
{
    let s2 = stack.push(c);
    assert(files.subrange(files.len() as int, files.len() as int).len() == 0);
    assert forall|i: int| 0 <= i < s2.len() implies {
        &&& (#[trigger] s2[i]).from@ <= frame_end(s2, files.len(), i) <= files.len()
        &&& s2[i].total == span_size(files, s2[i].from@ as int, frame_end(s2, files.len(), i) as int)
    } by {
        if i < stack.len() {
            assert(s2[i] == stack[i]);
            assert(frame_end(stack, files.len(), i) == frame_end(s2, files.len(), i));
        }
    }
}

/// The innermost directory is closed and its total added to its parent's.
proof fn lemma_sized_close(stack: Seq<Frame>, files: FileLog, p2: Frame)
    requires
        frames_sized(stack, files),
        stack.len() >= 2,
        p2.from == stack[stack.len() - 2].from,
        p2.total == sat(stack[stack.len() - 2].total + stack.last().total),
    ensures
        frames_sized(stack.drop_last().drop_last().push(p2), files),
        stack.last().total == span_size(files, stack.last().from@ as int, files.len() as int),
{
    let k = stack.len() - 2;
    assert(stack[k].from@ <= frame_end(stack, files.len(), k));
    assert(stack[k + 1].from@ <= frame_end(stack, files.len(), k + 1));
    lemma_span_split(files, stack[k].from@ as int, stack[k + 1].from@ as int, files.len() as int);
    let s2 = stack.drop_last().drop_last().push(p2);
    assert forall|i: int| 0 <= i < s2.len() implies {
        &&& (#[trigger] s2[i]).from@ <= frame_end(s2, files.len(), i) <= files.len()
        &&& s2[i].total == span_size(files, s2[i].from@ as int, frame_end(s2, files.len(), i) as int)
    } by {
        if i < k {
            assert(s2[i] == stack[i]);
            assert(frame_end(stack, files.len(), i) == frame_end(s2, files.len(), i));
        }
    }
}

/// The open directories of a stack.
spec fn dirs_of(stack: Seq<Frame>) -> Seq<OpenDir> {
    stack.map_values(|f: Frame| (f.path@, f.from@, f.depth, f.hidden))
}

/// The same directory, whatever its total and listing.
spec fn same_dir(a: Frame, b: Frame) -> bool {
    a.path == b.path && a.from == b.from && a.depth == b.depth && a.hidden == b.hidden
}

/// `a` is `b` with some innermost directories closed (totals aside).
spec fn same_dirs(a: Seq<Frame>, b: Seq<Frame>) -> bool {
    &&& a.len() <= b.len()
    &&& forall|k: int| 0 <= k < a.len() ==> same_dir(#[trigger] a[k], b[k])
}

/// The entries of `f`'s listing not yet visited, in visiting order.
spec fn queue_of(f: Frame) -> Seq<(Seq<char>, usize)> {
    listed_keys(f.entries@).subrange(f.next as int, f.entries@.len() as int)
}

/// `a` is `b` with some innermost directories closed (what is left to
/// visit aside).
spec fn same_queues(a: Seq<Frame>, b: Seq<Frame>) -> bool {
    &&& a.len() <= b.len()
    &&& forall|k: int| 0 <= k < a.len() ==> (#[trigger] a[k]).entries == b[k].entries && a[k].next == b[k].next
}

proof fn lemma_same_queues_take(a: Seq<Frame>, b: Seq<Frame>)
    requires
        same_queues(a, b),
    ensures
        a.map_values(|f: Frame| queue_of(f)) == b.map_values(|f: Frame| queue_of(f)).take(a.len() as int),
{
    let qa = a.map_values(|f: Frame| queue_of(f));
    let qb = b.map_values(|f: Frame| queue_of(f)).take(a.len() as int);
    assert forall|k: int| 0 <= k < a.len() implies #[trigger] qa[k] == qb[k] by {
        assert(a[k].entries == b[k].entries && a[k].next == b[k].next);
    }
    assert(qa =~= qb);
}

proof fn lemma_same_queues_trans(a: Seq<Frame>, b: Seq<Frame>, c: Seq<Frame>)
    requires
        same_queues(a, b),
        same_queues(b, c),
    ensures
        same_queues(a, c),
{
    assert forall|k: int| 0 <= k < a.len() implies (#[trigger] a[k]).entries == c[k].entries && a[k].next == c[k].next by {
        assert(b[k].entries == c[k].entries);
    }
}

/// Visiting an entry takes it off the front of its directory's queue.
proof fn lemma_queue_advance(f: Frame, g: Frame)
    requires
        g.entries == f.entries,
        g.next == f.next + 1,
        f.next < f.entries@.len(),
    ensures
        queue_of(g) == queue_of(f).drop_first(),
{
    assert(queue_of(g) =~= queue_of(f).drop_first());
}

proof fn lemma_same_dirs_prefix(a: Seq<Frame>, b: Seq<Frame>)
    requires
        same_dirs(a, b),
    ensures
        dirs_of(a).is_prefix_of(dirs_of(b)),
{
    assert(dirs_of(a) =~= dirs_of(b).subrange(0, a.len() as int)) by {
        assert forall|k: int| 0 <= k < a.len() implies dirs_of(a)[k] == dirs_of(b).subrange(0, a.len() as int)[k] by {
            assert(same_dir(a[k], b[k]));
        }
    }
}

/// The innermost directory, with nothing counted in it, is dropped.
proof fn lemma_sized_drop_empty(stack: Seq<Frame>, files: FileLog)
    requires
        frames_sized(stack, files),
        stack.len() >= 1,
        stack.last().from@ == files.len(),
    ensures
        frames_sized(stack.drop_last(), files),
{
    let s2 = stack.drop_last();
    assert forall|i: int| 0 <= i < s2.len() implies {
        &&& (#[trigger] s2[i]).from@ <= frame_end(s2, files.len(), i) <= files.len()
        &&& s2[i].total == span_size(files, s2[i].from@ as int, frame_end(s2, files.len(), i) as int)
    } by {
        assert(s2[i] == stack[i]);
        assert(frame_end(stack, files.len(), i) == frame_end(s2, files.len(), i));
    }
}

/// What the scanner waits for.
#[derive(Debug, Clone, Copy, PartialEq, Eq, Structural)]
pub enum Awaiting {
    Start,
    Listing,
    Metadata,
    Nothing,
}

/// Sum of the totals of the directories being scanned.
spec fn sum_totals(s: Seq<Frame>) -> nat
    decreases s.len(),
{
    if s.len() == 0 {
        0
    } else {
        sum_totals(s.drop_last()) + (s.last().total as nat)
    }
}

/// `x + 1`, stopping at `u64::MAX`.
fn inc(x: u64) -> (r: u64)
    ensures
        r == sat(x + 1),
{
    if x < u64::MAX {
        x + 1
    } else {
        x
    }
}

proof fn lemma_same_dirs_trans(a: Seq<Frame>, b: Seq<Frame>, c: Seq<Frame>)
    requires
        same_dirs(a, b),
        same_dirs(b, c),
    ensures
        same_dirs(a, c),
{
    assert forall|k: int| 0 <= k < a.len() implies same_dir(#[trigger] a[k], c[k]) by {
        assert(same_dir(b[k], c[k]));
    }
}

/// After `run`: the open directories keep their queues, those closed had
/// nothing left to visit (or the scan was cancelled), and the entry asked
/// for is the first of the innermost queue.
proof fn lemma_queues_after_run(
    run_old: Seq<Frame>,
    fin: Seq<Frame>,
    mid: Seq<Seq<(Seq<char>, usize)>>,
    cancelled: bool,
    req: ScanRequest,
)
    requires
        run_old.map_values(|f: Frame| queue_of(f)) == mid,
        same_queues(fin, run_old),
        forall|j: int| fin.len() <= j < run_old.len() ==> cancelled || queue_of(#[trigger] run_old[j]).len() == 0,
        req matches ScanRequest::Stat { path, listing_index } ==> fin.len() >= 1 && queue_of(fin.last()).len() > 0
            && queue_of(fin.last())[0] == (path@, listing_index),
    ensures
        ({
            let nq = fin.map_values(|f: Frame| queue_of(f));
            &&& nq.len() <= mid.len()
            &&& nq == mid.take(nq.len() as int)
            &&& forall|j: int| nq.len() <= j < mid.len() ==> cancelled || (#[trigger] mid[j]).len() == 0
            &&& req matches ScanRequest::Stat { path, listing_index } ==> nq.len() > 0 && nq.last().len() > 0
                && nq.last()[0] == (path@, listing_index)
        }),
{
    lemma_same_queues_take(fin, run_old);
    assert forall|j: int| fin.len() <= j < mid.len() implies cancelled || (#[trigger] mid[j]).len() == 0 by {
        assert(mid[j] == queue_of(run_old[j]));
    }
}

/// Replacing the innermost directory by one of the same path and start
/// keeps the open directories.
proof fn lemma_dirs_replace_top(stack: Seq<Frame>, f2: Frame)
    requires
        stack.len() >= 1,
        same_dir(f2, stack.last()),
    ensures
        same_dirs(stack.drop_last().push(f2), stack),
        dirs_of(stack.drop_last().push(f2)) == dirs_of(stack),
{
    let s2 = stack.drop_last().push(f2);
    assert forall|k: int| 0 <= k < s2.len() implies same_dir(#[trigger] s2[k], stack[k]) by {
        if k + 1 < s2.len() {
            assert(s2[k] == stack[k]);
        }
    }
    assert(dirs_of(s2) =~= dirs_of(stack)) by {
        assert forall|k: int| 0 <= k < s2.len() implies dirs_of(s2)[k] == dirs_of(stack)[k] by {
            assert(same_dir(s2[k], stack[k]));
        }
    }
}

proof fn lemma_same_dirs_drop(stack: Seq<Frame>)
    requires
        stack.len() >= 1,
    ensures
        same_dirs(stack.drop_last(), stack),
{
    assert forall|k: int| 0 <= k < stack.len() - 1 implies same_dir(#[trigger] stack.drop_last()[k], stack[k]) by {}
}

/// The parts of the summary that the scan sets only once it is over (and
/// the list of output files, which it never sets) are the same in `a` and `b`.
pub open spec fn same_outcome(a: ScanSummary, b: ScanSummary) -> bool {
    &&& a.root_size_bytes == b.root_size_bytes
    &&& a.root_size_human@ == b.root_size_human@
    &&& a.top_entries@ == b.top_entries@
    &&& a.output_files@ == b.output_files@
}

/// Walks the tree under `config.root`, computing recursive sizes, emitting
/// report rows through a `ReportWriter`, and keeping the largest entries.
pub struct Scanner {
    config: Config,
    summary: ScanSummary,
    top: TopN,
    stack: Vec<Frame>,
    phase: Awaiting,
    warnings: u64,
    /// Every entry offered to the largest-entries table, in order.
    seen: Ghost<Seq<EntryKey>>,
    /// Every file counted, in order.
    files: Ghost<FileLog>,
}

impl Scanner {
    pub closed spec fn view_config(&self) -> Config {
        self.config
    }

    pub closed spec fn view_summary(&self) -> ScanSummary {
        self.summary
    }

    pub closed spec fn awaiting(&self) -> Awaiting {
        self.phase
    }

    /// The path the scanner waits on: the directory to list, or the entry
    /// whose metadata it asked for.
    pub closed spec fn pending_path(&self) -> Seq<char> {
        if self.phase == Awaiting::Listing {
            self.stack@.last().path@
        } else if self.phase == Awaiting::Metadata {
            self.stack@.last().entries@[self.stack@.last().next as int].path@
        } else {
            Seq::empty()
        }
    }

    /// The files counted so far, in order: each one's path and size.
    pub closed spec fn counted_files(&self) -> FileLog {
        self.files@
    }

    /// The directories open now, outermost first: each one's path, and how
    /// many files had been counted when it was opened.
    pub closed spec fn open_dirs(&self) -> Seq<OpenDir> {
        dirs_of(self.stack@)
    }

    /// For each open directory, outermost first, the entries of its listing
    /// not yet visited, in visiting order, each with its place in the
    /// listing.
    pub closed spec fn queues(&self) -> Seq<Seq<(Seq<char>, usize)>> {
        self.stack@.map_values(|f: Frame| queue_of(f))
    }

    /// The entries (files and finished directories) offered so far to the
    /// largest-entries table, in order.
    pub closed spec fn offered_entries(&self) -> Seq<EntryKey> {
        self.seen@
    }

    /// The summary once the scan is over: the root's size for people, and
    /// the largest entries offered (as many as `--top`), largest first.
    pub open spec fn summary_final(&self) -> bool {
        let n = self.view_summary();
        &&& n.root_size_bytes == n.bytes_seen
        &&& n.root_size_human@ == format_bytes_text(n.root_size_bytes as nat)
        &&& keys_of(n.top_entries@).to_multiset() == offered(
            self.view_config().top as nat,
            self.offered_entries(),
        )
        &&& forall|i: int, j: int|
            0 <= i < j < n.top_entries@.len() ==> listed_before(
                #[trigger] n.top_entries@[i]@,
                #[trigger] n.top_entries@[j]@,
            )
    }

    /// Whether the scanner takes `e` now.
    pub open spec fn takes(&self, e: ScanEvent) -> bool {
        match e {
            ScanEvent::Start => self.awaiting() == Awaiting::Start,
            ScanEvent::Listed { .. } | ScanEvent::ListFailed { .. } => self.awaiting()
                == Awaiting::Listing,
            ScanEvent::Stat(_) | ScanEvent::StatFailed { .. } => self.awaiting()
                == Awaiting::Metadata,
        }
    }

    /// The scanner's bookkeeping holds together; in particular the bytes
    /// seen are the sum of the directory totals (and, once done, the size of
    /// the root).
    pub closed spec fn wf(&self) -> bool {
        &&& self.top.wf()
        &&& self.top.max_len() == self.config.top
        &&& self.top.kept() == offered(self.config.top as nat, self.seen@)
        &&& self.phase == Awaiting::Nothing ==> self.summary_final()
        &&& forall|i: int| 0 <= i < self.stack@.len() ==> #[trigger] self.stack@[i].next <= self.stack@[i].entries@.len()
        &&& self.phase == Awaiting::Start ==> self.stack@.len() == 0 && self.summary.bytes_seen == 0
        &&& self.phase == Awaiting::Listing ==> self.stack@.len() >= 1 && self.stack@.last().total == 0
        &&& self.phase == Awaiting::Metadata ==> self.stack@.len() >= 1 && self.stack@.last().next < self.stack@.last().entries@.len()
        &&& self.phase == Awaiting::Nothing ==> self.stack@.len() == 0 && self.summary.bytes_seen == self.summary.root_size_bytes
        &&& self.phase != Awaiting::Nothing ==> self.summary.bytes_seen == sat(sum_totals(self.stack@) as int)
        &&& frames_sized(self.stack@, self.files@)
        &&& self.phase == Awaiting::Listing ==> self.stack@.last().from@ == self.files@.len()
        &&& self.summary.errors == self.warnings
        &&& self.summary.bytes_seen == span_size(self.files@, 0, self.files@.len() as int)
        &&& self.summary.files_seen == sat(self.files@.len() as int)
    }

    /// A scanner for a run with `config`, before the scan starts.
    pub fn new(config: Config) -> (s: Scanner)
        ensures
            s.wf(),
            s.awaiting() == Awaiting::Start,
            s.view_config() == config,
            s.view_summary().files_seen == 0,
            s.view_summary().directories_seen == 0,
            s.view_summary().bytes_seen == 0,
            s.view_summary().skipped_reparse_points == 0,
            s.view_summary().files_emitted == 0,
            s.view_summary().directories_emitted == 0,
            s.view_summary().skipped_hidden == 0,
            s.view_summary().errors == 0,
            s.view_summary().root_size_bytes == 0,
            s.view_summary().root_size_human@ == "0 B"@,
            s.view_summary().top_entries@.len() == 0,
            s.view_summary().output_files@.len() == 0,
            s.counted_files().len() == 0,
            s.open_dirs().len() == 0,
            s.queues().len() == 0,
            s.offered_entries().len() == 0,
    {
        let top = TopN::new(config.top);
        Scanner {
            config,
            summary: ScanSummary::empty(),
            top,
            stack: Vec::new(),
            phase: Awaiting::Start,
            warnings: 0,
            seen: Ghost(Seq::empty()),
            files: Ghost(Seq::empty()),
        }
    }

    /// The totals so far.
    pub fn summary(&self) -> (s: &ScanSummary)
        ensures
            *s == self.view_summary(),
    {
        &self.summary
    }

    /// Whether the scanner takes `e` now.
    pub fn accepts(&self, e: &ScanEvent) -> (b: bool)
        ensures
            b == self.takes(*e),
    {
        match e {
            ScanEvent::Start => self.phase == Awaiting::Start,
            ScanEvent::Listed { .. } | ScanEvent::ListFailed { .. } => self.phase
                == Awaiting::Listing,
            ScanEvent::Stat(_) | ScanEvent::StatFailed { .. } => self.phase == Awaiting::Metadata,
        }
    }

    /// Whether a row of `kind` at `depth` of `size` bytes is emitted: its
    /// kind is selected, it is no deeper than `--depth`, and no smaller than
    /// `--min-size`.
    pub fn should_emit(&self, kind: EntryKind, depth: usize, size: u64) -> (b: bool)
        ensures
            b == passes_filters(self.view_config(), kind, depth, size),
    {
        self.config.should_emit_kind(kind) && match self.config.depth {
            Some(max) => depth <= max,
            None => true,
        } && size >= self.config.min_size
    }

    fn warn(&mut self, effects: &mut Vec<Effect>, path: &str, error_type: &str, failure: IoFailure)
        ensures
            final(effects)@.len() == old(effects)@.len() + 1,
            forall|i: int| 0 <= i < old(effects)@.len() ==> final(effects)@[i] == old(effects)@[i],
            final(effects)@.last() is Warn,
            final(self).warnings == sat(old(self).warnings + 1),
            warn_count(final(effects)@) == warn_count(old(effects)@) + 1,
            warns_of(final(effects)@) == warns_of(old(effects)@).push(
                (path@, error_type@, failure.message@, failure.os_code),
            ),
            final(effects)@.last()->path@ == path@,
            final(effects)@.last()->error_type@ == error_type@,
            final(effects)@.last()->failure == failure,
            rows_of(final(effects)@) == rows_of(old(effects)@),
            final(self).config == old(self).config,
            final(self).summary == (ScanSummary { errors: final(self).warnings, ..old(self).summary }),
            final(self).top == old(self).top,
            final(self).seen == old(self).seen,
            final(self).files == old(self).files,
            final(self).stack == old(self).stack,
            final(self).phase == old(self).phase,
    {
        effects.push(
            Effect::Warn {
                path: string_of(path),
                error_type: string_of(error_type),
                failure,
            },
        );
        self.warnings = inc(self.warnings);
        self.summary.errors = self.warnings;
        proof {
            assert(effects@.drop_last() =~= old(effects)@);
            lemma_warns_of_push(old(effects)@, effects@.last());
        }
    }

    spec fn frames_ok(&self) -> bool {
        forall|i: int| 0 <= i < self.stack@.len() ==> #[trigger] self.stack@[i].next <= self.stack@[i].entries@.len()
    }

    /// Emits a row for an entry (a file or a finished directory): it joins
    /// the largest-entries table, and becomes a report row unless it is
    /// hidden (and hidden rows are off) or a filter drops it.
    fn emit(
        &mut self,
        writer: &mut ReportWriter,
        effects: &mut Vec<Effect>,
        kind: EntryKind,
        path: &String,
        depth: usize,
        size: u64,
        hidden: bool,
        w0: Ghost<WriterView>,
    )
        requires
            old(self).top.wf(),
            old(self).top.max_len() == old(self).config.top,
            old(self).top.kept() == offered(old(self).config.top as nat, old(self).seen@),
            old(writer).wf(),
            rows_ok(old(effects)@, old(self).config, old(writer)@.format),
            old(self).summary.errors == old(self).warnings,
            parts_marked(w0@, old(effects)@),
            writer_after(w0@, old(effects)@) == old(writer)@,
            splits_marked(old(writer)@.max_bytes as nat, old(effects)@),
        ensures
            splits_marked(old(writer)@.max_bytes as nat, final(effects)@),
            final(writer)@.max_bytes == old(writer)@.max_bytes,
            parts_marked(w0@, final(effects)@),
            writer_after(w0@, final(effects)@) == final(writer)@,
            final(self).top.wf(),
            final(self).top.max_len() == final(self).config.top,
            final(self).top.kept() == offered(final(self).config.top as nat, final(self).seen@),
            final(writer).wf(),
            final(writer)@.format == old(writer)@.format,
            rows_ok(final(effects)@, final(self).config, old(writer)@.format),
            final(self).config == old(self).config,
            final(self).stack == old(self).stack,
            final(self).phase == old(self).phase,
            final(self).summary.files_seen == old(self).summary.files_seen,
            final(self).summary.directories_seen == old(self).summary.directories_seen,
            final(self).summary.bytes_seen == old(self).summary.bytes_seen,
            final(self).summary.skipped_reparse_points == old(self).summary.skipped_reparse_points,
            final(self).summary.root_size_bytes == old(self).summary.root_size_bytes,
            final(self).files == old(self).files,
            same_outcome(final(self).summary, old(self).summary),
            rows_of(final(effects)@) == rows_of(old(effects)@) + shown_rows(
                old(self).config,
                seq![(kind, path@, size, depth, hidden)],
            ),
            final(self).seen@ == old(self).seen@.push((size, kind, path@)),
            warn_count(old(effects)@) <= warn_count(final(effects)@),
            warns_of(old(effects)@).is_prefix_of(warns_of(final(effects)@)),
            split_warnings_from(warns_of(final(effects)@), warns_of(old(effects)@).len() as int),
            final(self).warnings == sat(old(self).warnings + warn_count(final(effects)@) - warn_count(old(effects)@)),
            final(self).summary.errors == final(self).warnings,
            final(self).summary.skipped_hidden == sat(
                old(self).summary.skipped_hidden + hidden_count(old(self).config, seq![(kind, path@, size, depth, hidden)]),
            ),
            final(self).summary.files_emitted == sat(
                old(self).summary.files_emitted + kind_count(
                    shown_rows(old(self).config, seq![(kind, path@, size, depth, hidden)]),
                    EntryKind::File,
                ),
            ),
            final(self).summary.directories_emitted == sat(
                old(self).summary.directories_emitted + kind_count(
                    shown_rows(old(self).config, seq![(kind, path@, size, depth, hidden)]),
                    EntryKind::Directory,
                ),
            ),
    {
        let ghost start = effects@;
        proof {
            assert(warns_of(start).is_prefix_of(warns_of(start))) by {
                assert(warns_of(start) =~= warns_of(start).subrange(0, warns_of(start).len() as int));
            }
        }
        let ghost o: Offer = (kind, path@, size, depth, hidden);
        proof {
            lemma_shown_rows_one(self.config, o);
            lemma_one_counts(self.config, o);
            assert(rows_of(start) + Seq::<RowKey>::empty() =~= rows_of(start));
            assert(rows_of(start) + seq![(kind, path@, size, depth)] =~= rows_of(start).push((kind, path@, size, depth)));
        }
        let candidate = TopEntry { size_bytes: size, kind, path: path.clone() };
        let ghost key = candidate@;
        self.top.push(candidate);
        self.seen = Ghost(self.seen@.push(key));
        proof {
            assert(self.seen@.drop_last() =~= old(self).seen@);
        }
        if hidden && !self.config.include_hidden {
            self.summary.skipped_hidden = inc(self.summary.skipped_hidden);
            return;
        }
        if self.should_emit(kind, depth, size) {
            let entry = ReportEntry::new(kind, path.as_str(), size);
            let ws = writer.write(&entry);
            let ghost np = ws.new_part;
            let ghost mut wopt: Option<Effect> = None;
            if let Some(index) = ws.new_part {
                effects.push(Effect::StartPart { index });
            }
            let ghost before = effects@;
            effects.push(Effect::Row { entry, depth, bytes: ws.row });
            assert(rows_ok(effects@, self.config, writer@.format)) by {
                assert forall|i: int| 0 <= i < effects@.len() implies match #[trigger] effects@[i] {
                    Effect::Row { entry, depth, bytes } => bytes@ == row_bytes(writer@.format, entry)
                        && entry.size_human@ == format_bytes_text(entry.size_bytes as nat)
                        && passes_filters(self.config, entry.entry_type, depth, entry.size_bytes),
                    _ => true,
                } by {
                    if i < before.len() {
                        assert(effects@[i] == before[i]);
                    }
                }
            }
            let ghost after_row = effects@;
            proof {
                lemma_rows_of_push(before, after_row.last());
                lemma_warn_count_push(before, after_row.last());
                lemma_warns_of_push(before, after_row.last());
                assert(after_row == before.push(after_row.last()));
                if before.len() > start.len() {
                    lemma_rows_of_push(start, before.last());
                    lemma_warn_count_push(start, before.last());
                    lemma_warns_of_push(start, before.last());
                    assert(before == start.push(before.last()));
                }
            }
            if let Some(message) = ws.warning {
                self.warn(effects, path.as_str(), "output_split", IoFailure { message, os_code: None });
                proof {
                    wopt = Some(effects@.last());
                    assert(warns_of(effects@) =~= warns_of(start).push(warns_of(effects@).last()));
                    lemma_rows_of_push(after_row, effects@.last());
                    assert(effects@ =~= after_row.push(effects@.last()));
                }
            }
            proof {
                let row_e = after_row.last();
                assert(after_row == before.push(row_e));
                let block = row_block(np, row_e, wopt);
                assert(effects@ =~= start + block);
                lemma_row_block_marked(old(writer)@, np, row_e, wopt);
                lemma_parts_marked_concat(w0@, start, block);
                lemma_writer_after_concat(w0@, start, block);
                lemma_splits_marked_concat(old(writer)@.max_bytes as nat, start, block);
            }
            match kind {
                EntryKind::File => {
                    self.summary.files_emitted = inc(self.summary.files_emitted);
                },
                EntryKind::Directory => {
                    self.summary.directories_emitted = inc(self.summary.directories_emitted);
                },
            }
        }
    }

    /// Ends the scan with the root's size.
    fn finish(&mut self, root_size: u64)
        requires
            old(self).top.wf(),
            old(self).top.max_len() == old(self).config.top,
            old(self).top.kept() == offered(old(self).config.top as nat, old(self).seen@),
            old(self).summary.bytes_seen == root_size,
        ensures
            final(self).top.wf(),
            final(self).top == old(self).top,
            final(self).seen == old(self).seen,
            final(self).files == old(self).files,
            final(self).summary_final(),
            final(self).phase == Awaiting::Nothing,
            final(self).stack == old(self).stack,
            final(self).config == old(self).config,
            final(self).summary.root_size_bytes == root_size,
            final(self).summary.files_seen == old(self).summary.files_seen,
            final(self).summary.directories_seen == old(self).summary.directories_seen,
            final(self).summary.bytes_seen == old(self).summary.bytes_seen,
            final(self).summary.skipped_reparse_points == old(self).summary.skipped_reparse_points,
            final(self).summary.skipped_hidden == old(self).summary.skipped_hidden,
            final(self).summary.files_emitted == old(self).summary.files_emitted,
            final(self).summary.directories_emitted == old(self).summary.directories_emitted,
            final(self).warnings == old(self).warnings,
            final(self).summary.errors == old(self).warnings,
            final(self).summary.output_files@ == old(self).summary.output_files@,
    {
        self.summary.set_root_size(root_size);
        self.summary.errors = self.warnings;
        self.summary.top_entries = self.top.sorted_desc();
        self.phase = Awaiting::Nothing;
    }

    proof fn lemma_sum_push(s: Seq<Frame>, f: Frame)
        ensures
            sum_totals(s.push(f)) == sum_totals(s) + f.total,
    {
        assert(s.push(f).drop_last() =~= s);
    }

    /// Goes on with the directory on top: asks for the next entry's
    /// metadata, or (when done or cancelled) finishes it and its parents.
    #[verifier::spinoff_prover]
    fn run(&mut self, writer: &mut ReportWriter, effects: &mut Vec<Effect>, cancelled: bool, w0: Ghost<WriterView>) -> (req: ScanRequest)
        requires
            parts_marked(w0@, old(effects)@),
            writer_after(w0@, old(effects)@) == old(writer)@,
            splits_marked(old(writer)@.max_bytes as nat, old(effects)@),
            old(self).top.wf(),
            old(self).top.max_len() == old(self).config.top,
            old(self).top.kept() == offered(old(self).config.top as nat, old(self).seen@),
            old(self).frames_ok(),
            old(self).stack@.len() >= 1,
            old(self).summary.bytes_seen == sat(sum_totals(old(self).stack@) as int),
            old(writer).wf(),
            rows_ok(old(effects)@, old(self).config, old(writer)@.format),
            frames_sized(old(self).stack@, old(self).files@),
            old(self).summary.errors == old(self).warnings,
            old(self).summary.bytes_seen == span_size(old(self).files@, 0, old(self).files@.len() as int),
            old(self).summary.files_seen == sat(old(self).files@.len() as int),
        ensures
            final(self).wf(),
            final(writer).wf(),
            final(writer)@.format == old(writer)@.format,
            rows_ok(final(effects)@, final(self).config, old(writer)@.format),
            final(self).config == old(self).config,
            final(self).summary.files_seen == old(self).summary.files_seen,
            final(self).summary.directories_seen == old(self).summary.directories_seen,
            final(self).summary.bytes_seen == old(self).summary.bytes_seen,
            final(self).summary.skipped_reparse_points == old(self).summary.skipped_reparse_points,
            final(self).files == old(self).files,
            same_dirs(final(self).stack@, old(self).stack@),
            rows_of(final(effects)@) == rows_of(old(effects)@) + shown_rows(
                old(self).config,
                closing_offers(dirs_of(old(self).stack@), old(self).files@, final(self).stack@.len() as int),
            ),
            final(self).seen@ == old(self).seen@ + closing_offers(
                dirs_of(old(self).stack@),
                old(self).files@,
                final(self).stack@.len() as int,
            ).map_values(|o: Offer| offer_key(o)),
            req is Done ==> final(self).phase == Awaiting::Nothing,
            req is Stat ==> final(self).phase == Awaiting::Metadata,
            req matches ScanRequest::Stat { path, listing_index } ==> path@ == final(self).pending_path(),
            !(req is ReadDir),
            same_queues(final(self).stack@, old(self).stack@),
            forall|j: int|
                final(self).stack@.len() <= j < old(self).stack@.len() ==> cancelled || queue_of(
                    #[trigger] old(self).stack@[j],
                ).len() == 0,
            req matches ScanRequest::Stat { path, listing_index } ==> final(self).stack@.len() >= 1
                && queue_of(final(self).stack@.last()).len() > 0 && queue_of(final(self).stack@.last())[0]
                == (path@, listing_index),
            req is Done ==> final(self).stack@.len() == 0,
            cancelled ==> req is Done,
            parts_marked(w0@, final(effects)@),
            writer_after(w0@, final(effects)@) == final(writer)@,
            splits_marked(old(writer)@.max_bytes as nat, final(effects)@),
            final(writer)@.max_bytes == old(writer)@.max_bytes,
            !(req is Done) ==> same_outcome(final(self).summary, old(self).summary),
            final(self).summary.output_files@ == old(self).summary.output_files@,
            warn_count(old(effects)@) <= warn_count(final(effects)@),
            warns_of(old(effects)@).is_prefix_of(warns_of(final(effects)@)),
            split_warnings_from(warns_of(final(effects)@), warns_of(old(effects)@).len() as int),
            final(self).warnings == sat(old(self).warnings + warn_count(final(effects)@) - warn_count(old(effects)@)),
            final(self).summary.skipped_hidden == sat(
                old(self).summary.skipped_hidden + hidden_count(old(self).config, closing_offers(dirs_of(old(self).stack@), old(self).files@, final(self).stack@.len() as int)),
            ),
            final(self).summary.files_emitted == sat(
                old(self).summary.files_emitted + kind_count(
                    shown_rows(old(self).config, closing_offers(dirs_of(old(self).stack@), old(self).files@, final(self).stack@.len() as int)),
                    EntryKind::File,
                ),
            ),
            final(self).summary.directories_emitted == sat(
                old(self).summary.directories_emitted + kind_count(
                    shown_rows(old(self).config, closing_offers(dirs_of(old(self).stack@), old(self).files@, final(self).stack@.len() as int)),
                    EntryKind::Directory,
                ),
            ),
    {
        let ghost fmt = old(writer)@.format;
        proof {
            let none = closing_offers(dirs_of(self.stack@), self.files@, self.stack@.len() as int);
            assert(none == Seq::<Offer>::empty());
            assert(rows_of(effects@) + shown_rows(self.config, none) =~= rows_of(effects@));
            assert(self.seen@ + none.map_values(|o: Offer| offer_key(o)) =~= self.seen@);
            assert(hidden_count(self.config, none) == 0);
            assert(warns_of(effects@) =~= warns_of(effects@).subrange(0, warns_of(effects@).len() as int));
            assert(kind_count(Seq::<RowKey>::empty(), EntryKind::File) == 0);
            assert(kind_count(Seq::<RowKey>::empty(), EntryKind::Directory) == 0);
        }
        loop
            invariant
                self.top.wf(),
                self.top.max_len() == self.config.top,
                self.top.kept() == offered(self.config.top as nat, self.seen@),
                self.frames_ok(),
                self.stack@.len() >= 1,
                self.summary.bytes_seen == sat(sum_totals(self.stack@) as int),
                writer.wf(),
                writer@.format == fmt,
                fmt == old(writer)@.format,
                rows_ok(effects@, self.config, fmt),
                self.config == old(self).config,
                self.summary.files_seen == old(self).summary.files_seen,
                self.summary.directories_seen == old(self).summary.directories_seen,
                self.summary.bytes_seen == old(self).summary.bytes_seen,
                self.summary.skipped_reparse_points == old(self).summary.skipped_reparse_points,
                frames_sized(self.stack@, self.files@),
                self.files == old(self).files,
                same_dirs(self.stack@, old(self).stack@),
                rows_of(effects@) == rows_of(old(effects)@) + shown_rows(
                    self.config,
                    closing_offers(dirs_of(old(self).stack@), self.files@, self.stack@.len() as int),
                ),
                self.seen@ == old(self).seen@ + closing_offers(
                    dirs_of(old(self).stack@),
                    self.files@,
                    self.stack@.len() as int,
                ).map_values(|o: Offer| offer_key(o)),
                same_queues(self.stack@, old(self).stack@),
                forall|j: int|
                    self.stack@.len() <= j < old(self).stack@.len() ==> cancelled || queue_of(
                        #[trigger] old(self).stack@[j],
                    ).len() == 0,
                self.summary.errors == self.warnings,
                parts_marked(w0@, effects@),
                writer_after(w0@, effects@) == writer@,
                splits_marked(old(writer)@.max_bytes as nat, effects@),
                writer@.max_bytes == old(writer)@.max_bytes,
                same_outcome(self.summary, old(self).summary),
                old(self).summary.bytes_seen == span_size(old(self).files@, 0, old(self).files@.len() as int),
                old(self).summary.files_seen == sat(old(self).files@.len() as int),
                warn_count(old(effects)@) <= warn_count(effects@),
                warns_of(old(effects)@).is_prefix_of(warns_of(effects@)),
                split_warnings_from(warns_of(effects@), warns_of(old(effects)@).len() as int),
                self.warnings == sat(old(self).warnings + warn_count(effects@) - warn_count(old(effects)@)),
                self.summary.skipped_hidden == sat(
                    old(self).summary.skipped_hidden + hidden_count(self.config, closing_offers(dirs_of(old(self).stack@), self.files@, self.stack@.len() as int)),
                ),
                self.summary.files_emitted == sat(
                    old(self).summary.files_emitted + kind_count(shown_rows(self.config, closing_offers(dirs_of(old(self).stack@), self.files@, self.stack@.len() as int)), EntryKind::File),
                ),
                self.summary.directories_emitted == sat(
                    old(self).summary.directories_emitted + kind_count(
                        shown_rows(self.config, closing_offers(dirs_of(old(self).stack@), self.files@, self.stack@.len() as int)),
                        EntryKind::Directory,
                    ),
                ),
            decreases self.stack@.len(),
        {
            let n = self.stack.len();
            let next = self.stack[n - 1].next;
            if !cancelled && next < self.stack[n - 1].entries.len() {
                let e = &self.stack[n - 1].entries[next];
                let req = ScanRequest::Stat { path: e.path.clone(), listing_index: e.index };
                self.phase = Awaiting::Metadata;
                proof {
                    let top = self.stack@.last();
                    assert(queue_of(top)[0] == listed_keys(top.entries@)[next as int]);
                }
                return req;
            }
            let ghost before = self.stack@;
            let ghost k = (n - 1) as int;
            let ghost open = dirs_of(old(self).stack@);
            let ghost pre = effects@;
            let ghost seen0 = self.seen@;
            let ghost sum0 = self.summary;
            let ghost o = close_offer(open[k], self.files@);
            proof {
                assert(queue_of(before[k]).len() == 0 || cancelled);
                assert(before[k].entries == old(self).stack@[k].entries);
                assert(dirs_of(before)[k] == open[k]) by {
                    assert(same_dir(before[k], old(self).stack@[k]));
                }
            }
            if n == 1 {
                let frame = self.stack.pop().unwrap();
                proof {
                    assert(before.drop_last() =~= self.stack@);
                    assert(sum_totals(before) == sum_totals(self.stack@) + frame.total);
                    assert(before[k] == frame);
                    assert(frame_end(before, self.files@.len(), k) == self.files@.len());
                    assert(sum_totals(self.stack@) == 0);
                    assert(o == (EntryKind::Directory, frame.path@, frame.total, frame.depth, frame.hidden));
                }
                self.emit(writer, effects, EntryKind::Directory, &frame.path, frame.depth, frame.total, frame.hidden, w0);
                proof {
                    lemma_run_close(self.config, open, self.files@, k, rows_of(old(effects)@), rows_of(pre), rows_of(effects@), old(self).seen@, seen0, self.seen@, o);
                    lemma_run_close_counts(self.config, open, self.files@, k, o,
                        (old(self).summary.skipped_hidden, sum0.skipped_hidden, self.summary.skipped_hidden),
                        (old(self).summary.files_emitted, sum0.files_emitted, self.summary.files_emitted),
                        (old(self).summary.directories_emitted, sum0.directories_emitted, self.summary.directories_emitted));
                    lemma_sat_add(old(self).warnings as int, warn_count(pre) - warn_count(old(effects)@), warn_count(effects@) - warn_count(pre));
                    lemma_warns_extend(warns_of(old(effects)@), warns_of(pre), warns_of(effects@));
                }
                self.finish(frame.total);
                return ScanRequest::Done;
            }
            self.close_top(writer, effects, w0);
            proof {
                lemma_same_dirs_trans(self.stack@, before, old(self).stack@);
                lemma_same_queues_trans(self.stack@, before, old(self).stack@);
                lemma_run_close(self.config, open, self.files@, k, rows_of(old(effects)@), rows_of(pre), rows_of(effects@), old(self).seen@, seen0, self.seen@, o);
                lemma_run_close_counts(self.config, open, self.files@, k, o,
                    (old(self).summary.skipped_hidden, sum0.skipped_hidden, self.summary.skipped_hidden),
                    (old(self).summary.files_emitted, sum0.files_emitted, self.summary.files_emitted),
                    (old(self).summary.directories_emitted, sum0.directories_emitted, self.summary.directories_emitted));
                lemma_sat_add(old(self).warnings as int, warn_count(pre) - warn_count(old(effects)@), warn_count(effects@) - warn_count(pre));
                lemma_warns_extend(warns_of(old(effects)@), warns_of(pre), warns_of(effects@));
            }
        }
    }

    /// Closes the innermost directory (not the root): adds its total to its
    /// parent's and emits its row.
    #[verifier::spinoff_prover]
    fn close_top(&mut self, writer: &mut ReportWriter, effects: &mut Vec<Effect>, w0: Ghost<WriterView>)
        requires
            parts_marked(w0@, old(effects)@),
            writer_after(w0@, old(effects)@) == old(writer)@,
            splits_marked(old(writer)@.max_bytes as nat, old(effects)@),
            old(self).stack@.len() >= 2,
            old(self).top.wf(),
            old(self).top.max_len() == old(self).config.top,
            old(self).top.kept() == offered(old(self).config.top as nat, old(self).seen@),
            old(self).frames_ok(),
            old(self).summary.bytes_seen == sat(sum_totals(old(self).stack@) as int),
            frames_sized(old(self).stack@, old(self).files@),
            old(self).summary.errors == old(self).warnings,
            old(writer).wf(),
            rows_ok(old(effects)@, old(self).config, old(writer)@.format),
        ensures
            ({
                let k = old(self).stack@.len() - 1;
                let o = close_offer(dirs_of(old(self).stack@)[k], old(self).files@);
                let c = old(self).config;
                &&& final(self).stack@.len() == k
                &&& final(self).top.wf()
                &&& final(self).top.max_len() == final(self).config.top
                &&& final(self).top.kept() == offered(final(self).config.top as nat, final(self).seen@)
                &&& final(self).frames_ok()
                &&& final(self).summary.bytes_seen == sat(sum_totals(final(self).stack@) as int)
                &&& frames_sized(final(self).stack@, final(self).files@)
                &&& final(self).summary.errors == final(self).warnings
                &&& final(self).config == c
                &&& final(self).files == old(self).files
                &&& final(self).phase == old(self).phase
                &&& final(self).summary.files_seen == old(self).summary.files_seen
                &&& final(self).summary.directories_seen == old(self).summary.directories_seen
                &&& final(self).summary.bytes_seen == old(self).summary.bytes_seen
                &&& final(self).summary.skipped_reparse_points == old(self).summary.skipped_reparse_points
                &&& same_dirs(final(self).stack@, old(self).stack@)
                &&& same_queues(final(self).stack@, old(self).stack@)
                &&& final(writer).wf()
                &&& final(writer)@.format == old(writer)@.format
                &&& rows_ok(final(effects)@, c, old(writer)@.format)
                &&& rows_of(final(effects)@) == rows_of(old(effects)@) + shown_rows(c, seq![o])
                &&& final(self).seen@ == old(self).seen@.push(offer_key(o))
                &&& final(self).summary.skipped_hidden == sat(old(self).summary.skipped_hidden + hidden_count(c, seq![o]))
                &&& final(self).summary.files_emitted == sat(
                    old(self).summary.files_emitted + kind_count(shown_rows(c, seq![o]), EntryKind::File),
                )
                &&& final(self).summary.directories_emitted == sat(
                    old(self).summary.directories_emitted + kind_count(shown_rows(c, seq![o]), EntryKind::Directory),
                )
                &&& warn_count(old(effects)@) <= warn_count(final(effects)@)
                &&& final(self).warnings == sat(old(self).warnings + warn_count(final(effects)@) - warn_count(old(effects)@))
                &&& warns_of(old(effects)@).is_prefix_of(warns_of(final(effects)@))
                &&& split_warnings_from(warns_of(final(effects)@), warns_of(old(effects)@).len() as int)
                &&& parts_marked(w0@, final(effects)@)
                &&& writer_after(w0@, final(effects)@) == final(writer)@
                &&& splits_marked(old(writer)@.max_bytes as nat, final(effects)@)
                &&& final(writer)@.max_bytes == old(writer)@.max_bytes
                &&& same_outcome(final(self).summary, old(self).summary)
            }),
    {
        let ghost before = self.stack@;
        let frame = self.stack.pop().unwrap();
        let ghost k = self.stack@.len() as int;
        proof {
            assert(before.drop_last() =~= self.stack@);
            assert(sum_totals(before) == sum_totals(self.stack@) + frame.total);
            assert(before[k] == frame);
            assert(frame_end(before, self.files@.len(), k) == self.files@.len());
            assert(dirs_of(before)[k] == (frame.path@, frame.from@, frame.depth, frame.hidden));
        }
        let ghost rest0 = self.stack@;
        let mut parent = self.stack.pop().unwrap();
        let ghost rest = self.stack@;
        proof {
            assert(rest0.drop_last() =~= rest);
            assert(sum_totals(rest0) == sum_totals(rest) + parent.total);
        }
        parent.total = parent.total.saturating_add(frame.total);
        self.stack.push(parent);
        proof {
            assert(rest0 == before.drop_last());
            assert(rest == before.drop_last().drop_last());
            assert(before[before.len() - 2] == rest0.last());
            lemma_sized_close(before, self.files@, parent);
            assert forall|i: int| 0 <= i < self.stack@.len() implies (#[trigger] self.stack@[i]).entries
                == before[i].entries && self.stack@[i].next == before[i].next by {
                if i < rest.len() {
                    assert(self.stack@[i] == before[i]);
                } else {
                    assert(self.stack@[i] == parent);
                    assert(rest0.last() == before[i]);
                }
            }
            Self::lemma_sum_push(rest, parent);
            assert forall|i: int| 0 <= i < self.stack@.len() implies same_dir(#[trigger] self.stack@[i], before[i]) by {
                if i < rest.len() {
                    assert(self.stack@[i] == before[i]);
                } else {
                    assert(self.stack@[i] == parent);
                    assert(rest0.last() == before[i]);
                }
            }
            assert forall|i: int| 0 <= i < self.stack@.len() implies #[trigger] self.stack@[i].next <= self.stack@[i].entries@.len() by {
                if i < rest.len() {
                    assert(self.stack@[i] == before[i]);
                } else {
                    assert(self.stack@[i] == parent);
                }
            }
        }
        self.emit(writer, effects, EntryKind::Directory, &frame.path, frame.depth, frame.total, frame.hidden, w0);
    }

    /// Pops the top frame (whose listing is in) and reads its next entry.
    fn take_entry(&mut self) -> (r: (Frame, String, usize))
        requires
            old(self).stack@.len() >= 1,
            old(self).stack@.last().next < old(self).stack@.last().entries@.len(),
            old(self).frames_ok(),
        ensures
            final(self).stack@ == old(self).stack@.drop_last(),
            r.0.path == old(self).stack@.last().path,
            r.0.depth == old(self).stack@.last().depth,
            r.0.hidden == old(self).stack@.last().hidden,
            r.0.total == old(self).stack@.last().total,
            r.0.entries == old(self).stack@.last().entries,
            r.0.next == old(self).stack@.last().next + 1,
            r.0.next <= r.0.entries@.len(),
            r.0.from == old(self).stack@.last().from,
            r.1@ == old(self).stack@.last().entries@[old(self).stack@.last().next as int].path@,
            final(self).frames_ok(),
            final(self).config == old(self).config,
            final(self).summary == old(self).summary,
            final(self).top == old(self).top,
            final(self).seen == old(self).seen,
            final(self).files == old(self).files,
            final(self).phase == old(self).phase,
            final(self).warnings == old(self).warnings,
    {
        let ghost before = self.stack@;
        let mut f = self.stack.pop().unwrap();
        assert(before.drop_last() =~= self.stack@);
        let p = f.entries[f.next].path.clone();
        let i = f.entries[f.next].index;
        let len = f.entries.len();
        assert(f.next < len);
        f.next = f.next + 1;
        (f, p, i)
    }

    /// Starts the scan at the root.
    #[verifier::spinoff_prover]
    fn on_start(&mut self, writer: &mut ReportWriter, cancelled: bool) -> (s: ScanStep)
        requires
            old(self).wf(),
            old(self).takes(ScanEvent::Start),
            old(writer).wf(),
        ensures
            step_post(*old(self), *final(self), *old(writer), *final(writer), ScanEvent::Start, cancelled, s),
    {
        let ghost c = self.config;
        let ghost before = self.stack@;
        let ghost open = dirs_of(before);
        let ghost files0 = self.files@;
        let ghost seen0 = self.seen@;
        let ghost pending = self.pending_path();
        let ghost none = Seq::<Offer>::empty();
        let mut effects: Vec<Effect> = Vec::new();
        proof {
            lemma_parts_marked_empty(old(writer)@);
            lemma_splits_marked_empty(old(writer)@.max_bytes as nat);
        }
        proof {
            assert(warns_of(effects@).take(0) =~= Seq::<Warning>::empty());
        }
        proof {
            assert(shown_rows(c, none) == Seq::<RowKey>::empty());
            assert(seen0 =~= seen0 + none.map_values(|o: Offer| offer_key(o)));
            assert(none + none =~= none);
        }
        if cancelled {
            self.finish(0);
            proof {
                assert(dirs_of(self.stack@) =~= open.subrange(0, 0));
                assert(closing_offers(open, files0, 0) == none);
                assert(self.queues() =~= Seq::<Seq<(Seq<char>, usize)>>::empty());
                assert(Seq::<Seq<(Seq<char>, usize)>>::empty().take(0) =~= Seq::<Seq<(Seq<char>, usize)>>::empty());
            }
            return ScanStep { effects, request: ScanRequest::Done };
        }
        self.summary.directories_seen = inc(self.summary.directories_seen);
        let root = string_of(self.config.root.as_str());
        let path = string_of(root.as_str());
        let f = Frame {
            path: root,
            depth: 0,
            hidden: false,
            total: 0,
            entries: Vec::new(),
            next: 0,
            from: Ghost(self.files@.len()),
        };
        self.stack.push(f);
        proof {
            Self::lemma_sum_push(Seq::empty(), f);
            assert(Seq::<Frame>::empty().push(f) =~= self.stack@);
            lemma_sized_open(Seq::empty(), files0, f);
            assert(dirs_of(self.stack@) =~= open.push((path@, files0.len(), 0usize, false)));
            assert(closing_offers(open, files0, 1) == none);
            assert(queue_of(f) =~= Seq::<(Seq<char>, usize)>::empty());
            assert(self.queues() =~= Seq::<Seq<(Seq<char>, usize)>>::empty().push(Seq::empty()));
        }
        self.phase = Awaiting::Listing;
        ScanStep { effects, request: ScanRequest::ReadDir { path } }
    }

    /// Takes the listing of the innermost open directory.
    #[verifier::spinoff_prover]
    fn on_listed(&mut self, writer: &mut ReportWriter, entries: Vec<String>, errors: Vec<IoFailure>, cancelled: bool) -> (s: ScanStep)
        requires
            old(self).wf(),
            old(self).takes(ScanEvent::Listed { entries, errors }),
            old(writer).wf(),
        ensures
            step_post(*old(self), *final(self), *old(writer), *final(writer), ScanEvent::Listed { entries, errors }, cancelled, s),
    {
        let ghost c = self.config;
        let ghost before = self.stack@;
        let ghost open = dirs_of(before);
        let ghost files0 = self.files@;
        let ghost seen0 = self.seen@;
        let ghost pending = self.pending_path();
        let ghost none = Seq::<Offer>::empty();
        let ghost listing = entries@;
        let ghost mid = queues_after(self.queues(), ScanEvent::Listed { entries, errors });
        let ghost ev = event_warnings(ScanEvent::Listed { entries, errors }, pending);
        let mut effects: Vec<Effect> = Vec::new();
        proof {
            lemma_parts_marked_empty(old(writer)@);
            lemma_splits_marked_empty(old(writer)@.max_bytes as nat);
        }
        proof {
            assert(shown_rows(c, none) == Seq::<RowKey>::empty());
            assert(seen0 =~= seen0 + none.map_values(|o: Offer| offer_key(o)));
            assert(none + none =~= none);
        }
        let mut f = self.stack.pop().unwrap();
        proof {
            assert(before.drop_last() =~= self.stack@);
        }
        let mut i: usize = 0;
        while i < errors.len()
            invariant
                0 <= i <= errors@.len(),
                self.stack@ == before.drop_last(),
                self.config == old(self).config,
                self.summary.files_seen == old(self).summary.files_seen,
                self.summary.directories_seen == old(self).summary.directories_seen,
                self.summary.bytes_seen == old(self).summary.bytes_seen,
                self.summary.skipped_reparse_points == old(self).summary.skipped_reparse_points,
                self.summary.root_size_bytes == old(self).summary.root_size_bytes,
                same_outcome(self.summary, old(self).summary),
                self.top == old(self).top,
                self.seen == old(self).seen,
                self.files == old(self).files,
                self.phase == old(self).phase,
                rows_ok(effects@, self.config, old(writer)@.format),
                rows_of(effects@) == Seq::<RowKey>::empty(),
                self.summary.errors == self.warnings,
                self.summary.skipped_hidden == old(self).summary.skipped_hidden,
                self.summary.files_emitted == old(self).summary.files_emitted,
                self.summary.directories_emitted == old(self).summary.directories_emitted,
                self.warnings == sat(old(self).warnings + warn_count(effects@)),
                parts_marked(old(writer)@, effects@),
                writer_after(old(writer)@, effects@) == writer@,
                splits_marked(old(writer)@.max_bytes as nat, effects@),
                ev == event_warnings(ScanEvent::Listed { entries, errors }, pending),
                pending == f.path@,
                warns_of(effects@) == ev.take(i as int),
            decreases errors.len() - i,
        {
            let ghost pre = effects@;
            self.warn(&mut effects, f.path.as_str(), "dir_entry", IoFailure {
                message: string_of(errors[i].message.as_str()),
                os_code: errors[i].os_code,
            });
            assert forall|k: int| 0 <= k < effects@.len() implies match #[trigger] effects@[k] {
                Effect::Row { entry, depth, bytes } => bytes@ == row_bytes(old(writer)@.format, entry)
                    && entry.size_human@ == format_bytes_text(entry.size_bytes as nat)
                    && passes_filters(self.config, entry.entry_type, depth, entry.size_bytes),
                _ => true,
            } by {
                if k < pre.len() {
                    assert(effects@[k] == pre[k]);
                }
            }
            proof {
                lemma_rows_of_push(pre, effects@.last());
                lemma_parts_marked_warn(old(writer)@, pre, effects@.last());
                reveal_strlit("dir_entry");
                reveal_strlit("output_split");
                assert("dir_entry"@.len() != "output_split"@.len());
                lemma_splits_marked_other_warn(old(writer)@.max_bytes as nat, pre, effects@.last());
                assert(ev.take(i + 1) =~= ev.take(i as int).push(ev[i as int]));
                assert(effects@ =~= pre.push(effects@.last()));
            }
            i = i + 1;
        }
        f.entries = sort_listing(entries);
        f.next = 0;
        self.stack.push(f);
        proof {
            Self::lemma_sum_push(before.drop_last(), f);
            assert(sum_totals(before) == sum_totals(before.drop_last()) + before.last().total);
            assert forall|k: int| 0 <= k < self.stack@.len() implies #[trigger] self.stack@[k].next <= self.stack@[k].entries@.len() by {
                if k < self.stack@.len() - 1 {
                    assert(self.stack@[k] == before[k]);
                }
            }
            assert(before[before.len() - 1] == before.last());
            lemma_sized_replace_top(before, files0, files0, f);
            lemma_dirs_replace_top(before, f);
            assert(queue_of(f) =~= visit_order(listing));
            assert(self.stack@.map_values(|x: Frame| queue_of(x)) =~= mid) by {
                assert forall|k: int| 0 <= k < self.stack@.len() - 1 implies self.stack@[k] == before[k] by {}
            }
        }
        let ghost run_old = self.stack@;
        let ghost pre = effects@;
        let request = self.run(writer, &mut effects, cancelled, Ghost(old(writer)@));
        proof {
            assert(ev.take(ev.len() as int) =~= ev);
            assert(warns_of(effects@).take(ev.len() as int) =~= warns_of(pre));
            lemma_queues_after_run(run_old, self.stack@, mid, cancelled, request);
            lemma_same_dirs_trans(self.stack@, run_old, before);
            lemma_same_dirs_prefix(self.stack@, before);
            lemma_step_rows(c, none, closing_offers(open, files0, self.stack@.len() as int), rows_of(pre), rows_of(effects@), seen0, seen0, self.seen@);
        }
        ScanStep { effects, request }
    }

    /// Takes the failure to list the innermost open directory.
    #[verifier::spinoff_prover]
    fn on_list_failed(&mut self, writer: &mut ReportWriter, failure: IoFailure, cancelled: bool) -> (s: ScanStep)
        requires
            old(self).wf(),
            old(self).takes(ScanEvent::ListFailed { failure }),
            old(writer).wf(),
        ensures
            step_post(*old(self), *final(self), *old(writer), *final(writer), ScanEvent::ListFailed { failure }, cancelled, s),
    {
        let ghost c = self.config;
        let ghost before = self.stack@;
        let ghost open = dirs_of(before);
        let ghost files0 = self.files@;
        let ghost seen0 = self.seen@;
        let ghost pending = self.pending_path();
        let ghost none = Seq::<Offer>::empty();
        let ghost mid = queues_after(self.queues(), ScanEvent::ListFailed { failure });
        let mut effects: Vec<Effect> = Vec::new();
        proof {
            lemma_parts_marked_empty(old(writer)@);
            lemma_splits_marked_empty(old(writer)@.max_bytes as nat);
        }
        let ghost ev = event_warnings(ScanEvent::ListFailed { failure }, pending);
        proof {
            assert(shown_rows(c, none) == Seq::<RowKey>::empty());
            assert(seen0 =~= seen0 + none.map_values(|o: Offer| offer_key(o)));
            assert(none + none =~= none);
        }
        let f = self.stack.pop().unwrap();
        proof {
            assert(before.drop_last() =~= self.stack@);
        }
        self.warn(&mut effects, f.path.as_str(), "read_dir", failure);
        assert(rows_ok(effects@, self.config, old(writer)@.format)) by {
            assert(effects@.len() == 1);
        }
        proof {
            lemma_rows_of_push(Seq::empty(), effects@.last());
            lemma_parts_marked_warn(old(writer)@, Seq::empty(), effects@.last());
            reveal_strlit("read_dir");
            reveal_strlit("output_split");
            assert("read_dir"@.len() != "output_split"@.len());
            lemma_splits_marked_other_warn(old(writer)@.max_bytes as nat, Seq::empty(), effects@.last());
            assert(effects@ =~= Seq::<Effect>::empty().push(effects@.last()));
            assert(sum_totals(before) == sum_totals(before.drop_last()) + before.last().total);
            assert(before.last().total == 0);
            lemma_sized_drop_empty(before, files0);
            lemma_same_dirs_drop(before);
        }
        if self.stack.len() == 0 {
            proof {
                assert(sum_totals(self.stack@) == 0);
                assert(self.summary.bytes_seen == 0);
            }
            self.finish(0);
            proof {
                assert(dirs_of(self.stack@) =~= open.subrange(0, 0));
                assert(self.queues() =~= Seq::<Seq<(Seq<char>, usize)>>::empty());
                assert(mid =~= Seq::<Seq<(Seq<char>, usize)>>::empty());
                assert(mid.take(0) =~= Seq::<Seq<(Seq<char>, usize)>>::empty());
                assert(warns_of(effects@).take(1) =~= ev);
            }
            return ScanStep { effects, request: ScanRequest::Done };
        }
        let ghost pre = effects@;
        let ghost o: Offer = (EntryKind::Directory, f.path@, 0, f.depth, f.hidden);
        proof {
            let j = before.len() - 1;
            assert(open[j] == (f.path@, f.from@, f.depth, f.hidden));
            assert(files0.subrange(files0.len() as int, files0.len() as int) =~= Seq::<(Seq<char>, u64)>::empty());
            assert(o == close_offer(open.last(), files0));
            assert(shown_rows(c, seq![o]) =~= Seq::<RowKey>::empty() + shown_rows(c, seq![o]));
            assert(seen0.push(offer_key(o)) =~= seen0 + seq![o].map_values(|x: Offer| offer_key(x)));
        }
        let ghost sum_a = self.summary;
        let ghost w_a = self.warnings;
        self.emit(writer, &mut effects, EntryKind::Directory, &f.path, f.depth, 0, f.hidden, Ghost(old(writer)@));
        let ghost run_old = self.stack@;
        let ghost pre2 = effects@;
        let ghost seen1 = self.seen@;
        let ghost sum_b = self.summary;
        let ghost w_b = self.warnings;
        let request = self.run(writer, &mut effects, cancelled, Ghost(old(writer)@));
        proof {
            assert(run_old.map_values(|x: Frame| queue_of(x)) =~= mid);
            lemma_queues_after_run(run_old, self.stack@, mid, cancelled, request);
            lemma_same_dirs_trans(self.stack@, run_old, before);
            lemma_same_dirs_prefix(self.stack@, before);
            assert(dirs_of(run_old) =~= open.drop_last());
            let keep = self.stack@.len() as int;
            assert(closing_offers(open, files0, keep) == seq![o] + closing_offers(open.drop_last(), files0, keep));
            lemma_step_rows(c, seq![o], closing_offers(open.drop_last(), files0, keep), rows_of(pre2), rows_of(effects@), seen0, seen1, self.seen@);
            lemma_step_counts(c, seq![o], closing_offers(open.drop_last(), files0, keep),
                (old(self).summary.skipped_hidden, sum_b.skipped_hidden, self.summary.skipped_hidden),
                (old(self).summary.files_emitted, sum_b.files_emitted, self.summary.files_emitted),
                (old(self).summary.directories_emitted, sum_b.directories_emitted, self.summary.directories_emitted));
            lemma_sat_add(old(self).warnings as int, warn_count(pre) as int, warn_count(pre2) - warn_count(pre));
            lemma_sat_add(old(self).warnings as int, warn_count(pre2) as int, warn_count(effects@) - warn_count(pre2));
            lemma_warns_extend(warns_of(pre), warns_of(pre2), warns_of(effects@));
            assert(warns_of(effects@).take(1) =~= warns_of(pre));
            assert(warns_of(pre) =~= ev);
        }
        ScanStep { effects, request }
    }

    /// Takes the metadata of a directory the scan enters: asks for its listing.
    #[verifier::spinoff_prover]
    fn on_enter_dir(&mut self, writer: &mut ReportWriter, meta: EntryMeta, cancelled: bool) -> (s: ScanStep)
        requires
            old(self).wf(),
            old(self).takes(ScanEvent::Stat(meta)),
            old(writer).wf(),
            enters_dir(old(self).view_config(), meta, cancelled),
        ensures
            step_post(*old(self), *final(self), *old(writer), *final(writer), ScanEvent::Stat(meta), cancelled, s),
    {
        let ghost c = self.config;
        let ghost before = self.stack@;
        let ghost open = dirs_of(before);
        let ghost files0 = self.files@;
        let ghost seen0 = self.seen@;
        let ghost pending = self.pending_path();
        let ghost none = Seq::<Offer>::empty();
        let ghost mid = queues_after(self.queues(), ScanEvent::Stat(meta));
        let mut effects: Vec<Effect> = Vec::new();
        proof {
            lemma_parts_marked_empty(old(writer)@);
            lemma_splits_marked_empty(old(writer)@.max_bytes as nat);
        }
        proof {
            assert(warns_of(effects@).take(0) =~= Seq::<Warning>::empty());
        }
        let (mut f, entry, _index) = self.take_entry();
        let ghost rest = self.stack@;
        proof {
            assert(entry@ == pending);
            assert(before[before.len() - 1] == before.last());
            assert(open.last() == (f.path@, f.from@, f.depth, f.hidden));
            assert(f.from@ <= frame_end(before, files0.len(), before.len() - 1));
            lemma_queue_advance(before.last(), f);
            assert(rest.push(f).map_values(|x: Frame| queue_of(x)) =~= mid) by {
                assert forall|k: int| 0 <= k < rest.len() implies rest[k] == before[k] by {}
            }
        }
        let is_hidden = f.hidden || meta.hidden;
        let child_depth: usize = if f.depth < usize::MAX {
            f.depth + 1
        } else {
            usize::MAX
        };
        self.stack.push(f);
        proof {
            Self::lemma_sum_push(rest, f);
            lemma_sized_replace_top(before, files0, files0, f);
            lemma_dirs_replace_top(before, f);
        }
        self.summary.directories_seen = inc(self.summary.directories_seen);
        let path = string_of(entry.as_str());
        let child = Frame {
            path: entry,
            depth: child_depth,
            hidden: is_hidden,
            total: 0,
            entries: Vec::new(),
            next: 0,
            from: Ghost(self.files@.len()),
        };
        let ghost upper = self.stack@;
        self.stack.push(child);
        proof {
            Self::lemma_sum_push(upper, child);
            assert forall|k: int| 0 <= k < self.stack@.len() implies #[trigger] self.stack@[k].next <= self.stack@[k].entries@.len() by {
                if k < upper.len() {
                    assert(self.stack@[k] == upper[k]);
                }
            }
            lemma_sized_open(upper, files0, child);
            assert(dirs_of(self.stack@) =~= dirs_of(upper).push((path@, files0.len(), child_depth, is_hidden)));
            assert(closing_offers(open, files0, (open.len() + 1) as int) == none);
            assert(queue_of(child) =~= Seq::<(Seq<char>, usize)>::empty());
            assert(self.queues() =~= mid.push(Seq::<(Seq<char>, usize)>::empty()));
            assert(none + none =~= none);
            assert(shown_rows(c, none) == Seq::<RowKey>::empty());
            assert(seen0 =~= seen0 + none.map_values(|o: Offer| offer_key(o)));
        }
        self.phase = Awaiting::Listing;
        ScanStep { effects, request: ScanRequest::ReadDir { path } }
    }

    /// Takes the metadata of the entry asked for, for an entry the scan does
    /// not enter: counts it if it is a file, and emits its row; the
    /// innermost directory stays open. Returns the entry as offered, if it
    /// was.
    #[verifier::rlimit(30)]
    #[verifier::spinoff_prover]
    fn take_stat(&mut self, writer: &mut ReportWriter, effects: &mut Vec<Effect>, meta: EntryMeta, cancelled: bool) -> (first: Ghost<Seq<Offer>>)
        requires
            old(self).wf(),
            old(self).takes(ScanEvent::Stat(meta)),
            old(writer).wf(),
            !enters_dir(old(self).view_config(), meta, cancelled),
            old(effects)@.len() == 0,
        ensures
            first@ == first_offers(old(self).config, meta, cancelled, old(self).open_dirs(), old(self).pending_path()),
            final(self).config == old(self).config,
            final(self).top.wf(),
            final(self).top.max_len() == final(self).config.top,
            final(self).top.kept() == offered(final(self).config.top as nat, final(self).seen@),
            final(self).frames_ok(),
            final(self).stack@.len() == old(self).stack@.len(),
            final(self).summary.bytes_seen == sat(sum_totals(final(self).stack@) as int),
            frames_sized(final(self).stack@, final(self).files@),
            final(self).summary.errors == final(self).warnings,
            final(writer).wf(),
            final(writer)@.format == old(writer)@.format,
            rows_ok(final(effects)@, final(self).config, old(writer)@.format),
            final(self).files@ == match counted_by(old(self).config, ScanEvent::Stat(meta), old(self).pending_path()) {
                Some(f) => old(self).files@.push(f),
                None => old(self).files@,
            },
            same_dirs(final(self).stack@, old(self).stack@),
            dirs_of(final(self).stack@) == dirs_of(old(self).stack@),
            final(self).stack@.map_values(|x: Frame| queue_of(x)) == queues_after(old(self).queues(), ScanEvent::Stat(meta)),
            rows_of(final(effects)@) == shown_rows(old(self).config, first@),
            final(self).seen@ == old(self).seen@ + first@.map_values(|x: Offer| offer_key(x)),
            final(self).summary.skipped_hidden == sat(old(self).summary.skipped_hidden + hidden_count(old(self).config, first@)),
            final(self).summary.files_emitted == sat(
                old(self).summary.files_emitted + kind_count(shown_rows(old(self).config, first@), EntryKind::File),
            ),
            final(self).summary.directories_emitted == sat(
                old(self).summary.directories_emitted + kind_count(shown_rows(old(self).config, first@), EntryKind::Directory),
            ),
            final(self).warnings == sat(old(self).warnings + warn_count(final(effects)@)),
            split_warnings_from(warns_of(final(effects)@), 0),
            parts_marked(old(writer)@, final(effects)@),
            writer_after(old(writer)@, final(effects)@) == final(writer)@,
            splits_marked(old(writer)@.max_bytes as nat, final(effects)@),
            final(writer)@.max_bytes == old(writer)@.max_bytes,
            same_outcome(final(self).summary, old(self).summary),
            final(self).summary.bytes_seen == span_size(final(self).files@, 0, final(self).files@.len() as int),
            final(self).summary.files_seen == sat(final(self).files@.len() as int),
            final(self).summary.directories_seen == old(self).summary.directories_seen,
            final(self).summary.files_seen == sat(old(self).summary.files_seen + bool_count(counts_file(old(self).config, meta))),
            final(self).summary.bytes_seen == (if counts_file(old(self).config, meta) {
                sat(old(self).summary.bytes_seen + meta.len)
            } else {
                old(self).summary.bytes_seen
            }),
            final(self).summary.skipped_reparse_points == sat(
                old(self).summary.skipped_reparse_points + bool_count(skips_reparse(old(self).config, meta)),
            ),
    {
        let ghost c = self.config;
        let ghost before = self.stack@;
        let ghost open = dirs_of(before);
        let ghost files0 = self.files@;
        let ghost seen0 = self.seen@;
        let ghost pending = self.pending_path();
        let ghost mid = queues_after(self.queues(), ScanEvent::Stat(meta));
        proof {
            lemma_parts_marked_empty(old(writer)@);
            lemma_splits_marked_empty(old(writer)@.max_bytes as nat);
            assert(effects@ =~= Seq::<Effect>::empty());
        }
        let (mut f, entry, _index) = self.take_entry();
        let ghost rest = self.stack@;
        proof {
            assert(entry@ == pending);
            assert(before[before.len() - 1] == before.last());
            assert(open.last() == (f.path@, f.from@, f.depth, f.hidden));
            assert(f.from@ <= frame_end(before, files0.len(), before.len() - 1));
            lemma_queue_advance(before.last(), f);
        }
        let is_hidden = f.hidden || meta.hidden;
        let child_depth: usize = if f.depth < usize::MAX {
            f.depth + 1
        } else {
            usize::MAX
        };
        let ghost first = first_offers(c, meta, cancelled, open, pending);
        proof {
            assert(hidden_count(c, Seq::<Offer>::empty()) == 0);
            assert(shown_rows(c, Seq::<Offer>::empty()) == Seq::<RowKey>::empty());
            assert(kind_count(Seq::<RowKey>::empty(), EntryKind::File) == 0);
            assert(kind_count(Seq::<RowKey>::empty(), EntryKind::Directory) == 0);
            assert(warn_count(effects@) == 0);
        }
        if !self.config.follow_symlinks && meta.reparse {
            self.summary.skipped_reparse_points = inc(self.summary.skipped_reparse_points);
            self.stack.push(f);
        } else if meta.is_dir {
            self.stack.push(f);
            self.emit(writer, effects, EntryKind::Directory, &entry, child_depth, 0, is_hidden, Ghost(old(writer)@));
        } else if meta.is_file {
            self.summary.files_seen = inc(self.summary.files_seen);
            self.summary.bytes_seen = self.summary.bytes_seen.saturating_add(meta.len);
            let ghost e = (entry@, meta.len);
            proof {
                lemma_span_push(files0, e, f.from@ as int);
                lemma_span_push(files0, e, 0);
            }
            f.total = f.total.saturating_add(meta.len);
            self.files = Ghost(self.files@.push(e));
            self.stack.push(f);
            self.emit(writer, effects, EntryKind::File, &entry, child_depth, meta.len, is_hidden, Ghost(old(writer)@));
        } else {
            self.stack.push(f);
        }
        proof {
            Self::lemma_sum_push(rest, f);
            lemma_sized_replace_top(before, files0, self.files@, f);
            lemma_dirs_replace_top(before, f);
            lemma_shown_rows_one(c, first[0]);
            assert(rows_of(effects@) =~= shown_rows(c, first));
            assert(self.seen@ =~= seen0 + first.map_values(|x: Offer| offer_key(x)));
            assert(queue_of(f) == queue_of(before.last()).drop_first());
            assert(self.stack@.map_values(|x: Frame| queue_of(x)) =~= mid) by {
                assert forall|k: int| 0 <= k < rest.len() implies rest[k] == before[k] by {}
            }
            assert forall|k: int| 0 <= k < self.stack@.len() implies #[trigger] self.stack@[k].next <= self.stack@[k].entries@.len() by {
                if k < rest.len() {
                    assert(self.stack@[k] == before[k]);
                }
            }
        }
        Ghost(first)
    }

    /// Takes the metadata of an entry the scan does not enter.
    #[verifier::rlimit(30)]
    #[verifier::spinoff_prover]
    fn on_stat(&mut self, writer: &mut ReportWriter, meta: EntryMeta, cancelled: bool) -> (s: ScanStep)
        requires
            old(self).wf(),
            old(self).takes(ScanEvent::Stat(meta)),
            old(writer).wf(),
            !enters_dir(old(self).view_config(), meta, cancelled),
        ensures
            step_post(*old(self), *final(self), *old(writer), *final(writer), ScanEvent::Stat(meta), cancelled, s),
    {
        let ghost c = self.config;
        let ghost before = self.stack@;
        let ghost open = dirs_of(before);
        let ghost seen0 = self.seen@;
        let ghost mid = queues_after(self.queues(), ScanEvent::Stat(meta));
        let mut effects: Vec<Effect> = Vec::new();
        proof {
            lemma_parts_marked_empty(old(writer)@);
            lemma_splits_marked_empty(old(writer)@.max_bytes as nat);
        }
        let first = self.take_stat(writer, &mut effects, meta, cancelled);
        let ghost run_old = self.stack@;
        let ghost pre = effects@;
        let ghost seen1 = self.seen@;
        let ghost sum1 = self.summary;
        let request = self.run(writer, &mut effects, cancelled, Ghost(old(writer)@));
        proof {
            lemma_queues_after_run(run_old, self.stack@, mid, cancelled, request);
            lemma_same_dirs_trans(self.stack@, run_old, before);
            lemma_same_dirs_prefix(self.stack@, before);
            let closing = closing_offers(open, self.files@, self.stack@.len() as int);
            lemma_step_rows(c, first@, closing, rows_of(pre), rows_of(effects@), seen0, seen1, self.seen@);
            lemma_step_counts(c, first@, closing,
                (old(self).summary.skipped_hidden, sum1.skipped_hidden, self.summary.skipped_hidden),
                (old(self).summary.files_emitted, sum1.files_emitted, self.summary.files_emitted),
                (old(self).summary.directories_emitted, sum1.directories_emitted, self.summary.directories_emitted));
            lemma_sat_add(old(self).warnings as int, warn_count(pre) as int, warn_count(effects@) - warn_count(pre));
            lemma_warns_extend(Seq::empty(), warns_of(pre), warns_of(effects@));
            assert(warns_of(effects@).take(0) =~= Seq::<Warning>::empty());
        }
        ScanStep { effects, request }
    }

    /// Takes the failure to read the metadata of the entry asked for.
    #[verifier::spinoff_prover]
    fn on_stat_failed(&mut self, writer: &mut ReportWriter, failure: IoFailure, cancelled: bool) -> (s: ScanStep)
        requires
            old(self).wf(),
            old(self).takes(ScanEvent::StatFailed { failure }),
            old(writer).wf(),
        ensures
            step_post(*old(self), *final(self), *old(writer), *final(writer), ScanEvent::StatFailed { failure }, cancelled, s),
    {
        let ghost c = self.config;
        let ghost before = self.stack@;
        let ghost open = dirs_of(before);
        let ghost files0 = self.files@;
        let ghost seen0 = self.seen@;
        let ghost pending = self.pending_path();
        let ghost none = Seq::<Offer>::empty();
        let ghost mid = queues_after(self.queues(), ScanEvent::StatFailed { failure });
        let mut effects: Vec<Effect> = Vec::new();
        proof {
            lemma_parts_marked_empty(old(writer)@);
            lemma_splits_marked_empty(old(writer)@.max_bytes as nat);
        }
        let ghost ev = event_warnings(ScanEvent::StatFailed { failure }, pending);
        proof {
            assert(shown_rows(c, none) == Seq::<RowKey>::empty());
            assert(seen0 =~= seen0 + none.map_values(|o: Offer| offer_key(o)));
            assert(none + none =~= none);
        }
        let (f, entry, _index) = self.take_entry();
        let ghost rest = self.stack@;
        self.stack.push(f);
        proof {
            Self::lemma_sum_push(rest, f);
            assert(before[before.len() - 1] == before.last());
            lemma_sized_replace_top(before, files0, files0, f);
            lemma_dirs_replace_top(before, f);
            lemma_queue_advance(before.last(), f);
            assert(self.stack@.map_values(|x: Frame| queue_of(x)) =~= mid) by {
                assert forall|k: int| 0 <= k < rest.len() implies rest[k] == before[k] by {}
            }
        }
        self.warn(&mut effects, entry.as_str(), "metadata", failure);
        assert(rows_ok(effects@, self.config, old(writer)@.format)) by {
            assert(effects@.len() == 1);
        }
        proof {
            lemma_rows_of_push(Seq::empty(), effects@.last());
            lemma_parts_marked_warn(old(writer)@, Seq::empty(), effects@.last());
            reveal_strlit("metadata");
            reveal_strlit("output_split");
            assert("metadata"@.len() != "output_split"@.len());
            lemma_splits_marked_other_warn(old(writer)@.max_bytes as nat, Seq::empty(), effects@.last());
            assert(effects@ =~= Seq::<Effect>::empty().push(effects@.last()));
        }
        let ghost run_old = self.stack@;
        let ghost pre = effects@;
        let request = self.run(writer, &mut effects, cancelled, Ghost(old(writer)@));
        proof {
            lemma_queues_after_run(run_old, self.stack@, mid, cancelled, request);
            lemma_sat_add(old(self).warnings as int, warn_count(pre) as int, warn_count(effects@) - warn_count(pre));
            assert(warns_of(pre) =~= ev);
            assert(warns_of(effects@).take(1) =~= warns_of(pre));
            lemma_same_dirs_trans(self.stack@, run_old, before);
            lemma_same_dirs_prefix(self.stack@, before);
            lemma_step_rows(c, none, closing_offers(open, files0, self.stack@.len() as int), rows_of(pre), rows_of(effects@), seen0, seen0, self.seen@);
        }
        ScanStep { effects, request }
    }

    /// Takes the caller's report of what it did and says what to do next
    /// (`step_post` states it all). Entries are visited in path order within
    /// each directory, and a directory is closed once its entries are
    /// visited. The counts of entries seen do not depend on the row filters
    /// (`--depth`, `--min-size`, `--type`, `--include-hidden`); rows go out
    /// for the entries that pass them, and only those; once done, the root's
    /// size is the sum of the file sizes seen. Directories are emitted after
    /// their children, so each directory row holds the recursive size of a
    /// directory the scan had open: the sizes of the files counted since it
    /// was opened, added up (capped at `u64::MAX`).
    pub fn step(&mut self, writer: &mut ReportWriter, event: ScanEvent, cancelled: bool) -> (s: ScanStep)
        requires
            old(self).wf(),
            old(self).takes(event),
            old(writer).wf(),
        ensures
            step_post(*old(self), *final(self), *old(writer), *final(writer), event, cancelled, s),
    {
        match event {
            ScanEvent::Start => self.on_start(writer, cancelled),
            ScanEvent::Listed { entries, errors } => self.on_listed(writer, entries, errors, cancelled),
            ScanEvent::ListFailed { failure } => self.on_list_failed(writer, failure, cancelled),
            ScanEvent::Stat(meta) => {
                if !(!self.config.follow_symlinks && meta.reparse) && meta.is_dir && !cancelled {
                    self.on_enter_dir(writer, meta, cancelled)
                } else {
                    self.on_stat(writer, meta, cancelled)
                }
            },
            ScanEvent::StatFailed { failure } => self.on_stat_failed(writer, failure, cancelled),
        }
    }
}

/// The queues of the open directories once event `e` is taken, before the
/// directories with nothing left to visit are closed: a listing fills the
/// innermost queue in visiting order, a failed listing closes the innermost
/// directory, and an entry's metadata (or its failure) takes the entry off.
pub open spec fn queues_after(
    qs: Seq<Seq<(Seq<char>, usize)>>,
    e: ScanEvent,
) -> Seq<Seq<(Seq<char>, usize)>> {
    match e {
        ScanEvent::Start => Seq::empty(),
        ScanEvent::Listed { entries, .. } => qs.drop_last().push(visit_order(entries@)),
        ScanEvent::ListFailed { .. } => qs.drop_last(),
        _ => qs.drop_last().push(qs.last().drop_first()),
    }
}

/// What a step guarantees, from the scanner and writer before it (`o`,
/// `ow`) to those after it (`n`, `nw`), for event `e`.
pub open spec fn step_post(
    o: Scanner,
    n: Scanner,
    ow: ReportWriter,
    nw: ReportWriter,
    e: ScanEvent,
    cancelled: bool,
    s: ScanStep,
) -> bool {
    let c = o.view_config();
    let offers = step_offers(
        c,
        e,
        cancelled,
        o.open_dirs(),
        o.pending_path(),
        n.counted_files(),
        n.open_dirs().len() as int,
    );
    let os = o.view_summary();
    let ns = n.view_summary();
    let mid = queues_after(o.queues(), e);
    let nq = n.queues();
    let ev = event_warnings(e, o.pending_path());
    let ws = warns_of(s.effects@);
    // The scanner and the writer stay well formed; the settings stay.
    &&& n.wf()
    &&& nw.wf()
    &&& nw@.format == ow@.format
    &&& n.view_config() == c
    &&& rows_ok(s.effects@, c, ow@.format)
    // What is asked next, and for which path.
    &&& (s.request is Done <==> n.awaiting() == Awaiting::Nothing)
    &&& (s.request is ReadDir ==> n.awaiting() == Awaiting::Listing)
    &&& (s.request is ReadDir ==> (e is Start && !cancelled) || (e matches ScanEvent::Stat(m) && enters_dir(
        c,
        m,
        cancelled,
    )))
    &&& (s.request is Stat ==> n.awaiting() == Awaiting::Metadata)
    &&& (s.request matches ScanRequest::ReadDir { path } ==> path@ == n.pending_path())
    &&& (s.request matches ScanRequest::Stat { path, listing_index } ==> path@ == n.pending_path())
    &&& (e is Start && !cancelled ==> s.request is ReadDir && n.pending_path() == c.root@)
    &&& (e matches ScanEvent::Stat(m) && enters_dir(c, m, cancelled) ==> s.request is ReadDir
        && n.pending_path() == o.pending_path())
    &&& (n.awaiting() == Awaiting::Nothing ==> n.summary_final())
    // The file counted, and the directories open.
    &&& n.counted_files() == match counted_by(c, e, o.pending_path()) {
        Some(f) => o.counted_files().push(f),
        None => o.counted_files(),
    }
    &&& (s.request matches ScanRequest::ReadDir { path } ==> n.open_dirs() == o.open_dirs().push(
        opened_dir(o.open_dirs(), e, path@, n.counted_files().len()),
    ))
    &&& (!(s.request is ReadDir) ==> n.open_dirs().is_prefix_of(o.open_dirs()))
    // The entries left to visit: the directories closed are those with
    // nothing left (or all, once cancelled), and the entry asked for is the
    // first one left in the innermost directory.
    &&& nq.len() == n.open_dirs().len()
    &&& (cancelled ==> s.request is Done)
    &&& (s.request is ReadDir ==> nq == mid.push(Seq::empty()))
    &&& (!(s.request is ReadDir) ==> nq.len() <= mid.len() && nq == mid.take(nq.len() as int))
    &&& (!(s.request is ReadDir) ==> forall|j: int|
        nq.len() <= j < mid.len() ==> cancelled || (#[trigger] mid[j]).len() == 0)
    &&& (s.request matches ScanRequest::Stat { path, listing_index } ==> nq.len() > 0 && nq.last().len() > 0
        && nq.last()[0] == (path@, listing_index))
    &&& (s.request is Done ==> nq.len() == 0)
    // Part starts, the writer's state, and warnings.
    &&& parts_marked(ow@, s.effects@)
    &&& writer_after(ow@, s.effects@) == nw@
    &&& splits_marked(ow@.max_bytes as nat, s.effects@)
    &&& ev.len() <= ws.len()
    &&& ws.take(ev.len() as int) == ev
    &&& split_warnings_from(ws, ev.len() as int)
    // What the summary says of the scan's end is set only at the end.
    &&& (n.awaiting() != Awaiting::Nothing ==> same_outcome(ns, os))
    &&& ns.output_files@ == os.output_files@
    // The counts of the summary.
    &&& ns.errors == sat(os.errors + warn_count(s.effects@))
    &&& ns.skipped_hidden == sat(os.skipped_hidden + hidden_count(c, offers))
    &&& ns.files_emitted == sat(os.files_emitted + kind_count(rows_of(s.effects@), EntryKind::File))
    &&& ns.directories_emitted == sat(os.directories_emitted + kind_count(rows_of(s.effects@), EntryKind::Directory))
    // The rows: those of the entries offered that show; every entry offered
    // goes to the largest-entries table.
    &&& rows_of(s.effects@) == shown_rows(c, offers)
    &&& n.offered_entries() == o.offered_entries() + offers.map_values(|x: Offer| offer_key(x))
    // The counts of what the scan saw do not depend on the row filters.
    &&& match e {
        ScanEvent::Start => {
            &&& ns.directories_seen == sat(os.directories_seen + bool_count(!cancelled))
            &&& ns.files_seen == os.files_seen
            &&& ns.bytes_seen == os.bytes_seen
            &&& ns.skipped_reparse_points == os.skipped_reparse_points
        },
        ScanEvent::Stat(m) => {
            &&& ns.directories_seen == sat(os.directories_seen + bool_count(enters_dir(c, m, cancelled)))
            &&& ns.files_seen == sat(os.files_seen + bool_count(counts_file(c, m)))
            &&& ns.bytes_seen == (if counts_file(c, m) {
                sat(os.bytes_seen + m.len)
            } else {
                os.bytes_seen
            })
            &&& ns.skipped_reparse_points == sat(os.skipped_reparse_points + bool_count(skips_reparse(c, m)))
        },
        _ => {
            &&& ns.directories_seen == os.directories_seen
            &&& ns.files_seen == os.files_seen
            &&& ns.bytes_seen == os.bytes_seen
            &&& ns.skipped_reparse_points == os.skipped_reparse_points
        },
    }
}

/// Directories are emitted after their children, so each directory row a
/// step emits holds the recursive size of a directory the scan had open: the
/// sizes of the files counted since it was opened, added up (capped at
/// `u64::MAX`). The one exception is a directory that a cancelled scan
/// leaves unread, whose row says 0.
pub proof fn lemma_directory_rows_are_recursive(
    o: Scanner,
    n: Scanner,
    ow: ReportWriter,
    nw: ReportWriter,
    e: ScanEvent,
    cancelled: bool,
    s: ScanStep,
)
    requires
        step_post(o, n, ow, nw, e, cancelled, s),
    ensures
        forall|i: int|
            0 <= i < rows_of(s.effects@).len() && (#[trigger] rows_of(s.effects@)[i]).0 == EntryKind::Directory
                ==> (exists|j: int|
                0 <= j < o.open_dirs().len() && o.open_dirs()[j].0 == rows_of(s.effects@)[i].1
                    && rows_of(s.effects@)[i].2 == span_size(
                    n.counted_files(),
                    o.open_dirs()[j].1 as int,
                    n.counted_files().len() as int,
                )) || (cancelled && rows_of(s.effects@)[i].2 == 0),
{
    let c = o.view_config();
    let open = o.open_dirs();
    let files = n.counted_files();
    let keep = n.open_dirs().len() as int;
    let offers = step_offers(c, e, cancelled, open, o.pending_path(), files, keep);
    let closing = closing_offers(open, files, keep);
    let rows = rows_of(s.effects@);
    lemma_shown_rows_from(c, offers);
    lemma_closing_offers_from(open, files, keep);
    assert forall|i: int| 0 <= i < rows.len() && (#[trigger] rows[i]).0 == EntryKind::Directory implies (exists|j: int|
        0 <= j < open.len() && open[j].0 == rows[i].1 && rows[i].2 == span_size(files, open[j].1 as int, files.len() as int))
        || (cancelled && rows[i].2 == 0) by {
        let t = choose|t: int| 0 <= t < offers.len() && #[trigger] shown_rows(c, offers)[i] == (
            offers[t].0,
            offers[t].1,
            offers[t].2,
            offers[t].3,
        );
        let first = match e {
            ScanEvent::Stat(m) => first_offers(c, m, cancelled, open, o.pending_path()),
            _ => Seq::<Offer>::empty(),
        };
        let cl = match e {
            ScanEvent::ListFailed { .. } => if open.len() >= 2 {
                closing
            } else {
                Seq::<Offer>::empty()
            },
            _ => closing,
        };
        assert(offers == first + cl);
        if t >= first.len() {
            let u = t - first.len();
            assert(offers[t] == cl[u]);
            let j = choose|j: int| keep <= j < open.len() && #[trigger] closing[u] == close_offer(open[j], files);
            assert(open[j].0 == rows[i].1);
        }
    }
}

/// Once a scan is over, the root's recursive size is the sum of the sizes
/// of all the files counted (capped at `u64::MAX`), whatever the row filters
/// were; so are the bytes seen, and the files seen are those files.
pub proof fn lemma_root_size_is_bytes_seen(s: &Scanner)
    requires
        s.wf(),
        s.awaiting() == Awaiting::Nothing,
    ensures
        s.view_summary().root_size_bytes == s.view_summary().bytes_seen,
        s.view_summary().bytes_seen == span_size(s.counted_files(), 0, s.counted_files().len() as int),
        s.view_summary().files_seen == sat(s.counted_files().len() as int),
{
}

/// Once a scan is over, the summary's top entries are the largest entries
/// offered during the scan (files and directories, hidden or not, filtered
/// or not): `min(--top, offered)` of them, none left out larger than one kept.
pub proof fn lemma_top_entries_are_largest(s: &Scanner)
    requires
        s.wf(),
        s.awaiting() == Awaiting::Nothing,
    ensures
        holds_largest(
            s.offered_entries().to_multiset(),
            keys_of(s.view_summary().top_entries@).to_multiset(),
            s.view_config().top as nat,
        ),
{
    lemma_table_holds_largest(s.view_config().top as nat, s.offered_entries());
}


/// The warnings emitted by `steps`, added up.
pub open spec fn warnings_of_steps(steps: Seq<ScanStep>) -> nat
    decreases steps.len(),
{
    if steps.len() == 0 {
        0
    } else {
        warnings_of_steps(steps.drop_last()) + warn_count(steps.last().effects@)
    }
}

/// `states` and `writers` are a run of the scanner: each state follows the
/// one before it by a step on `events[i]` that answered `steps[i]`.
pub open spec fn is_run(
    states: Seq<Scanner>,
    writers: Seq<ReportWriter>,
    events: Seq<ScanEvent>,
    cancels: Seq<bool>,
    steps: Seq<ScanStep>,
) -> bool {
    &&& states.len() == events.len() + 1
    &&& writers.len() == states.len()
    &&& cancels.len() == events.len()
    &&& steps.len() == events.len()
    &&& forall|i: int|
        0 <= i < events.len() ==> #[trigger] step_post(
            states[i],
            states[i + 1],
            writers[i],
            writers[i + 1],
            events[i],
            cancels[i],
            steps[i],
        )
}

/// Over a whole scan from a new scanner, whatever the tree, the read errors
/// and the moment of cancelling: the error count is the number of warnings
/// emitted (capped at `u64::MAX`), no more files are emitted than seen, and
/// once the scan is over the table of largest entries holds at most `--top`.
pub proof fn lemma_scan_counts(
    states: Seq<Scanner>,
    writers: Seq<ReportWriter>,
    events: Seq<ScanEvent>,
    cancels: Seq<bool>,
    steps: Seq<ScanStep>,
)
    requires
        is_run(states, writers, events, cancels, steps),
        states[0].awaiting() == Awaiting::Start,
        states[0].view_summary().errors == 0,
        states[0].view_summary().files_emitted == 0,
        states[0].view_summary().files_seen == 0,
    ensures
        states.last().view_summary().errors == sat(warnings_of_steps(steps) as int),
        states.last().view_summary().files_emitted <= states.last().view_summary().files_seen,
        states.last().awaiting() == Awaiting::Nothing ==> states.last().view_summary().top_entries@.len()
            <= states.last().view_config().top,
    decreases events.len(),
{
    if events.len() > 0 {
        let k = events.len() - 1;
        let ps = states.drop_last();
        let pw = writers.drop_last();
        let pe = events.drop_last();
        let pc = cancels.drop_last();
        let pt = steps.drop_last();
        assert forall|i: int| 0 <= i < pe.len() implies #[trigger] step_post(
            ps[i],
            ps[i + 1],
            pw[i],
            pw[i + 1],
            pe[i],
            pc[i],
            pt[i],
        ) by {
            assert(step_post(states[i], states[i + 1], writers[i], writers[i + 1], events[i], cancels[i], steps[i]));
        }
        lemma_scan_counts(ps, pw, pe, pc, pt);
        let o = states[k];
        let n = states[k + 1];
        assert(step_post(o, n, writers[k], writers[k + 1], events[k], cancels[k], steps[k]));
        assert(ps.last() == o);
        assert(states.last() == n);
        let c = o.view_config();
        lemma_step_file_rows(
            c,
            events[k],
            cancels[k],
            o.open_dirs(),
            o.pending_path(),
            n.counted_files(),
            n.open_dirs().len() as int,
        );
        lemma_sat_add(0, warnings_of_steps(pt) as int, warn_count(steps[k].effects@) as int);
        assert(steps.drop_last() == pt);
        if n.awaiting() == Awaiting::Nothing {
            let top = n.view_summary().top_entries@;
            lemma_table_holds_largest(c.top as nat, n.offered_entries());
            keys_of(top).to_multiset_ensures();
        }
    }
}


/// `a` and `b` are the same settings but for the row filters: depth,
/// minimum size, kinds, and hidden rows.
pub open spec fn same_but_row_filters(a: Config, b: Config) -> bool {
    &&& a.root@ == b.root@
    &&& a.output_dir@ == b.output_dir@
    &&& a.format == b.format
    &&& a.max_output_size == b.max_output_size
    &&& a.follow_symlinks == b.follow_symlinks
    &&& a.no_color == b.no_color
    &&& a.top == b.top
}

/// A scanner as `Scanner::new` makes it: nothing scanned yet.
pub open spec fn starts_fresh(s: Scanner) -> bool {
    let t = s.view_summary();
    &&& s.awaiting() == Awaiting::Start
    &&& t.files_seen == 0
    &&& t.directories_seen == 0
    &&& t.bytes_seen == 0
    &&& t.skipped_reparse_points == 0
    &&& t.root_size_bytes == 0
    &&& t.root_size_human@ == "0 B"@
    &&& t.top_entries@.len() == 0
    &&& s.counted_files().len() == 0
    &&& s.open_dirs().len() == 0
    &&& s.queues().len() == 0
    &&& s.offered_entries().len() == 0
}

/// Two scans that differ only in their row filters stand at the same point:
/// they wait for the same thing, have counted the same files, have the
/// same directories open with the same entries left, have offered the same
/// entries, and their summaries agree on everything but the row counts and
/// the warnings.
pub open spec fn runs_agree(a: Scanner, b: Scanner) -> bool {
    let x = a.view_summary();
    let y = b.view_summary();
    &&& same_but_row_filters(a.view_config(), b.view_config())
    &&& a.awaiting() == b.awaiting()
    &&& a.pending_path() == b.pending_path()
    &&& a.counted_files() == b.counted_files()
    &&& a.open_dirs() == b.open_dirs()
    &&& a.queues() == b.queues()
    &&& a.offered_entries() == b.offered_entries()
    &&& x.files_seen == y.files_seen
    &&& x.directories_seen == y.directories_seen
    &&& x.bytes_seen == y.bytes_seen
    &&& x.skipped_reparse_points == y.skipped_reparse_points
    &&& x.root_size_bytes == y.root_size_bytes
    &&& x.root_size_human@ == y.root_size_human@
    &&& keys_of(x.top_entries@) == keys_of(y.top_entries@)
}

/// The two requests ask for the same thing.
pub open spec fn same_request(a: ScanRequest, b: ScanRequest) -> bool {
    match (a, b) {
        (ScanRequest::ReadDir { path: p }, ScanRequest::ReadDir { path: q }) => p@ == q@,
        (ScanRequest::Stat { path: p, listing_index: i }, ScanRequest::Stat { path: q, listing_index: j }) => p@
            == q@ && i == j,
        (ScanRequest::Done, ScanRequest::Done) => true,
        _ => false,
    }
}

/// Two new scanners whose settings differ only in the row filters agree.
pub proof fn lemma_fresh_runs_agree(a: Scanner, b: Scanner)
    requires
        starts_fresh(a),
        starts_fresh(b),
        same_but_row_filters(a.view_config(), b.view_config()),
    ensures
        runs_agree(a, b),
{
    assert(keys_of(a.view_summary().top_entries@) =~= keys_of(b.view_summary().top_entries@));
    assert(a.counted_files() =~= b.counted_files());
    assert(a.open_dirs() =~= b.open_dirs());
    assert(a.queues() =~= b.queues());
    assert(a.offered_entries() =~= b.offered_entries());
}

/// The row filters change the rows only: two scans that agree and take the
/// same event (with the same cancelling) ask for the same thing next and
/// still agree. So on the same tree, scans that differ only in `--depth`,
/// `--min-size`, `--types` and `--include-hidden` see the same files,
/// directories and bytes, and end with the same root size and the same
/// largest entries.
pub proof fn lemma_filters_change_rows_only(
    o1: Scanner,
    n1: Scanner,
    ow1: ReportWriter,
    nw1: ReportWriter,
    s1: ScanStep,
    o2: Scanner,
    n2: Scanner,
    ow2: ReportWriter,
    nw2: ReportWriter,
    s2: ScanStep,
    e: ScanEvent,
    cancelled: bool,
)
    requires
        runs_agree(o1, o2),
        step_post(o1, n1, ow1, nw1, e, cancelled, s1),
        step_post(o2, n2, ow2, nw2, e, cancelled, s2),
    ensures
        runs_agree(n1, n2),
        same_request(s1.request, s2.request),
{
    let c1 = o1.view_config();
    let c2 = o2.view_config();
    let mid = queues_after(o1.queues(), e);
    let nq1 = n1.queues();
    let nq2 = n2.queues();
    let opens = match e {
        ScanEvent::Stat(m) => enters_dir(c1, m, cancelled),
        ScanEvent::Start => !cancelled,
        _ => false,
    };
    assert(opens == match e {
        ScanEvent::Stat(m) => enters_dir(c2, m, cancelled),
        ScanEvent::Start => !cancelled,
        _ => false,
    });
    assert(counted_by(c1, e, o1.pending_path()) == counted_by(c2, e, o2.pending_path()));
    assert(n1.counted_files() == n2.counted_files());
    if opens {
        assert(s1.request is ReadDir);
        assert(s2.request is ReadDir);
        assert(n1.pending_path() == n2.pending_path());
    } else if cancelled {
        assert(s1.request is Done);
        assert(s2.request is Done);
        assert(nq1 =~= nq2);
        assert(n1.open_dirs() =~= n2.open_dirs()) by {
            assert(n1.open_dirs() =~= o1.open_dirs().take(0));
            assert(n2.open_dirs() =~= o2.open_dirs().take(0));
        }
    } else {
        assert(!(s1.request is ReadDir));
        assert(!(s2.request is ReadDir));
        let l1 = nq1.len() as int;
        let l2 = nq2.len() as int;
        if s1.request is Stat && s2.request is Done {
            assert(mid[l1 - 1] == nq1.last());
            assert(mid[l1 - 1].len() == 0);
        } else if s2.request is Stat && s1.request is Done {
            assert(mid[l2 - 1] == nq2.last());
            assert(mid[l2 - 1].len() == 0);
        } else if s1.request is Stat && s2.request is Stat {
            if l1 < l2 {
                assert(mid[l2 - 1] == nq2.last());
                assert(mid[l2 - 1].len() == 0);
            } else if l2 < l1 {
                assert(mid[l1 - 1] == nq1.last());
                assert(mid[l1 - 1].len() == 0);
            }
            assert(nq1 == nq2);
        } else {
            assert(nq1.len() == 0 && nq2.len() == 0);
            assert(nq1 =~= nq2);
        }
        assert(nq1 == nq2);
        assert(n1.open_dirs() =~= o1.open_dirs().take(l1));
        assert(n2.open_dirs() =~= o2.open_dirs().take(l2));
        assert(n1.open_dirs() == n2.open_dirs());
    }
    let offers1 = step_offers(c1, e, cancelled, o1.open_dirs(), o1.pending_path(), n1.counted_files(), n1.open_dirs().len() as int);
    let offers2 = step_offers(c2, e, cancelled, o2.open_dirs(), o2.pending_path(), n2.counted_files(), n2.open_dirs().len() as int);
    assert(offers1 == offers2);
    assert(n1.offered_entries() == n2.offered_entries());
    assert(n1.awaiting() == n2.awaiting());
    if n1.awaiting() == Awaiting::Nothing {
        let t1 = n1.view_summary().top_entries@;
        let t2 = n2.view_summary().top_entries@;
        assert forall|i: int, j: int| 0 <= i < j < keys_of(t1).len() implies listed_before(
            #[trigger] keys_of(t1)[i],
            #[trigger] keys_of(t1)[j],
        ) by {
            assert(listed_before(t1[i]@, t1[j]@));
        }
        assert forall|i: int, j: int| 0 <= i < j < keys_of(t2).len() implies listed_before(
            #[trigger] keys_of(t2)[i],
            #[trigger] keys_of(t2)[j],
        ) by {
            assert(listed_before(t2[i]@, t2[j]@));
        }
        lemma_listing_unique(keys_of(t1), keys_of(t2));
    }
}


/// Over whole scans of the same tree (the same events, cancelled at the
/// same point or not at all), two new scanners whose settings differ only
/// in the row filters ask for the same things at every step and end in
/// agreement: the same files, directories and bytes seen, the same
/// reparse points skipped, the same root size and the same largest entries.
pub proof fn lemma_filtered_runs_agree(
    states1: Seq<Scanner>,
    writers1: Seq<ReportWriter>,
    steps1: Seq<ScanStep>,
    states2: Seq<Scanner>,
    writers2: Seq<ReportWriter>,
    steps2: Seq<ScanStep>,
    events: Seq<ScanEvent>,
    cancels: Seq<bool>,
)
    requires
        is_run(states1, writers1, events, cancels, steps1),
        is_run(states2, writers2, events, cancels, steps2),
        starts_fresh(states1[0]),
        starts_fresh(states2[0]),
        same_but_row_filters(states1[0].view_config(), states2[0].view_config()),
    ensures
        runs_agree(states1.last(), states2.last()),
        forall|i: int| 0 <= i < events.len() ==> same_request(#[trigger] steps1[i].request, steps2[i].request),
    decreases events.len(),
{
    if events.len() == 0 {
        lemma_fresh_runs_agree(states1[0], states2[0]);
    } else {
        let k = events.len() - 1;
        let pe = events.drop_last();
        let pc = cancels.drop_last();
        assert forall|i: int| 0 <= i < pe.len() implies #[trigger] step_post(
            states1.drop_last()[i],
            states1.drop_last()[i + 1],
            writers1.drop_last()[i],
            writers1.drop_last()[i + 1],
            pe[i],
            pc[i],
            steps1.drop_last()[i],
        ) by {
            assert(step_post(states1[i], states1[i + 1], writers1[i], writers1[i + 1], events[i], cancels[i], steps1[i]));
        }
        assert forall|i: int| 0 <= i < pe.len() implies #[trigger] step_post(
            states2.drop_last()[i],
            states2.drop_last()[i + 1],
            writers2.drop_last()[i],
            writers2.drop_last()[i + 1],
            pe[i],
            pc[i],
            steps2.drop_last()[i],
        ) by {
            assert(step_post(states2[i], states2[i + 1], writers2[i], writers2[i + 1], events[i], cancels[i], steps2[i]));
        }
        lemma_filtered_runs_agree(
            states1.drop_last(),
            writers1.drop_last(),
            steps1.drop_last(),
            states2.drop_last(),
            writers2.drop_last(),
            steps2.drop_last(),
            pe,
            pc,
        );
        assert(step_post(states1[k], states1[k + 1], writers1[k], writers1[k + 1], events[k], cancels[k], steps1[k]));
        assert(step_post(states2[k], states2[k + 1], writers2[k], writers2[k + 1], events[k], cancels[k], steps2[k]));
        assert(states1.drop_last().last() == states1[k]);
        assert(states2.drop_last().last() == states2[k]);
        lemma_filters_change_rows_only(
            states1[k],
            states1[k + 1],
            writers1[k],
            writers1[k + 1],
            steps1[k],
            states2[k],
            states2[k + 1],
            writers2[k],
            writers2[k + 1],
            steps2[k],
            events[k],
            cancels[k],
        );
        assert forall|i: int| 0 <= i < events.len() implies same_request(#[trigger] steps1[i].request, steps2[i].request) by {
            if i < k {
                assert(steps1.drop_last()[i] == steps1[i]);
                assert(steps2.drop_last()[i] == steps2[i]);
            }
        }
    }
}


/// The rows of a step, spelled out: of the entries the step offers (the
/// file it counts, the directories it closes), in order, exactly those that
/// are not hidden or with `--include-hidden` on, whose kind is one of
/// `--type`, no deeper than `--depth` (files and directories alike) and no
/// smaller than `--min-size`.
pub proof fn lemma_step_row_rule(
    o: Scanner,
    n: Scanner,
    ow: ReportWriter,
    nw: ReportWriter,
    e: ScanEvent,
    cancelled: bool,
    s: ScanStep,
)
    requires
        step_post(o, n, ow, nw, e, cancelled, s),
    ensures
        ({
            let c = o.view_config();
            rows_of(s.effects@) == step_offers(
                c,
                e,
                cancelled,
                o.open_dirs(),
                o.pending_path(),
                n.counted_files(),
                n.open_dirs().len() as int,
            ).filter(
                |x: Offer|
                    (c.include_hidden || !x.4) && (match x.0 {
                        EntryKind::File => c.types.file,
                        EntryKind::Directory => c.types.directory,
                    }) && (match c.depth {
                        Some(max) => x.3 <= max,
                        None => true,
                    }) && x.2 >= c.min_size,
            ).map_values(|x: Offer| (x.0, x.1, x.2, x.3))
        }),
{
    let c = o.view_config();
    lemma_rows_of_offers(
        c,
        step_offers(c, e, cancelled, o.open_dirs(), o.pending_path(), n.counted_files(), n.open_dirs().len() as int),
    );
}

/// No row of a step, file or directory, is deeper than `--depth`, of a kind
/// left out by `--type`, or smaller than `--min-size`.
pub proof fn lemma_step_rows_within_filters(
    o: Scanner,
    n: Scanner,
    ow: ReportWriter,
    nw: ReportWriter,
    e: ScanEvent,
    cancelled: bool,
    s: ScanStep,
)
    requires
        step_post(o, n, ow, nw, e, cancelled, s),
    ensures
        forall|i: int|
            0 <= i < rows_of(s.effects@).len() ==> {
                let r = #[trigger] rows_of(s.effects@)[i];
                let c = o.view_config();
                &&& (c.depth matches Some(max) ==> r.3 <= max)
                &&& (r.0 == EntryKind::File ==> c.types.file)
                &&& (r.0 == EntryKind::Directory ==> c.types.directory)
                &&& r.2 >= c.min_size
            },
{
    let c = o.view_config();
    let offers = step_offers(c, e, cancelled, o.open_dirs(), o.pending_path(), n.counted_files(), n.open_dirs().len() as int);
    let keep = |x: Offer|
        (c.include_hidden || !x.4) && (match x.0 {
            EntryKind::File => c.types.file,
            EntryKind::Directory => c.types.directory,
        }) && (match c.depth {
            Some(max) => x.3 <= max,
            None => true,
        }) && x.2 >= c.min_size;
    lemma_step_row_rule(o, n, ow, nw, e, cancelled, s);
    let f = offers.filter(keep);
    assert forall|i: int| 0 <= i < rows_of(s.effects@).len() implies {
        let r = #[trigger] rows_of(s.effects@)[i];
        &&& (c.depth matches Some(max) ==> r.3 <= max)
        &&& (r.0 == EntryKind::File ==> c.types.file)
        &&& (r.0 == EntryKind::Directory ==> c.types.directory)
        &&& r.2 >= c.min_size
    } by {
        offers.lemma_filter_pred(keep, i);
        assert(keep(f[i]));
    }
}

} // verus!
