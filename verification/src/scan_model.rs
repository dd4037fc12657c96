//! What a scan step produces, as mathematics: the files a scan counts and
//! the directories it has open, the entries it offers when it counts a file
//! or closes a directory, the report rows of those entries that pass the
//! filters, and the warnings; with the facts about them that the scanner's
//! proofs combine.
use vstd::prelude::*;
use crate::config::{Config, EntryKind, OutputFormat};
use crate::human::format_bytes_text;
use crate::report::{after_write, oversize_warning, rotates, row_bytes, WriterView};
use crate::scanner::{Effect, EntryMeta, IoFailure, ScanEvent};
use crate::top::EntryKey;

verus! {

/// `x`, capped at `u64::MAX`: the scan's counters and sizes saturate.
pub open spec fn sat(x: int) -> u64 {
    if x > u64::MAX {
        u64::MAX
    } else {
        x as u64
    }
}

/// Capping after two additions is capping once.
pub proof fn lemma_sat_add(x: int, a: int, b: int)
    requires
        0 <= x,
        0 <= a,
        0 <= b,
    ensures
        sat(sat(x + a) + b) == sat(x + a + b),
{
}

/// The files counted by a scan, in order: each one's path and size.
pub type FileLog = Seq<(Seq<char>, u64)>;

/// Total size of the files in `files`.
pub open spec fn size_sum(files: FileLog) -> nat
    decreases files.len(),
{
    if files.len() == 0 {
        0
    } else {
        size_sum(files.drop_last()) + (files.last().1 as nat)
    }
}

/// Total size of the files counted from the `a`-th up to (not including)
/// the `b`-th, capped at `u64::MAX`.
pub open spec fn span_size(files: FileLog, a: int, b: int) -> u64 {
    sat(size_sum(files.subrange(a, b)) as int)
}

/// The size of two runs of files is the sum of their sizes.
pub proof fn lemma_size_sum_concat(s: FileLog, t: FileLog)
    ensures
        size_sum(s + t) == size_sum(s) + size_sum(t),
    decreases t.len(),
{
    if t.len() == 0 {
        assert(s + t =~= s);
    } else {
        lemma_size_sum_concat(s, t.drop_last());
        assert((s + t).drop_last() =~= s + t.drop_last());
    }
}

/// Counting runs split at any point.
pub proof fn lemma_span_split(files: FileLog, a: int, b: int, c: int)
    requires
        0 <= a <= b <= c <= files.len(),
    ensures
        span_size(files, a, c) == sat(span_size(files, a, b) + span_size(files, b, c)),
{
    assert(files.subrange(a, c) =~= files.subrange(a, b) + files.subrange(b, c));
    lemma_size_sum_concat(files.subrange(a, b), files.subrange(b, c));
}

/// Counting one more file adds its size to a run that reaches the end.
pub proof fn lemma_span_push(files: FileLog, e: (Seq<char>, u64), a: int)
    requires
        0 <= a <= files.len(),
    ensures
        span_size(files.push(e), a, (files.len() + 1) as int) == sat(span_size(files, a, files.len() as int) + e.1),
        forall|x: int, y: int| 0 <= x <= y <= files.len() ==> #[trigger] span_size(files.push(e), x, y) == span_size(files, x, y),
{
    assert(files.push(e).subrange(a, (files.len() + 1) as int).drop_last() =~= files.subrange(a, files.len() as int));
    assert forall|x: int, y: int| 0 <= x <= y <= files.len() implies #[trigger] span_size(files.push(e), x, y) == span_size(files, x, y) by {
        assert(files.push(e).subrange(x, y) =~= files.subrange(x, y));
    }
}

/// Whether a row of this kind, depth and size passes the row filters.
pub open spec fn passes_filters(c: Config, kind: EntryKind, depth: usize, size: u64) -> bool {
    &&& c.types.has(kind)
    &&& match c.depth {
        Some(max) => depth <= max,
        None => true,
    }
    &&& size >= c.min_size
}

/// The entry is a link or junction that the scan does not follow.
pub open spec fn skips_reparse(c: Config, m: EntryMeta) -> bool {
    !c.follow_symlinks && m.reparse
}

/// The entry is a file that the scan counts.
pub open spec fn counts_file(c: Config, m: EntryMeta) -> bool {
    !skips_reparse(c, m) && !m.is_dir && m.is_file
}

/// The entry is a directory that the scan enters.
pub open spec fn enters_dir(c: Config, m: EntryMeta, cancelled: bool) -> bool {
    !skips_reparse(c, m) && m.is_dir && !cancelled
}

/// The file that `e`, reported for the entry at `path`, makes the scan
/// count, if any.
pub open spec fn counted_by(c: Config, e: ScanEvent, path: Seq<char>) -> Option<(Seq<char>, u64)> {
    match e {
        ScanEvent::Stat(m) => if counts_file(c, m) {
            Some((path, m.len))
        } else {
            None
        },
        _ => None,
    }
}

/// 1 for `true`, 0 for `false`.
pub open spec fn bool_count(b: bool) -> int {
    if b {
        1
    } else {
        0
    }
}

/// The depth of an entry of a directory at depth `d`.
pub open spec fn child_depth(d: usize) -> usize {
    if d < usize::MAX {
        (d + 1) as usize
    } else {
        usize::MAX
    }
}

/// A directory the scan has open: its path, how many files had been counted
/// when it was opened, its depth, and whether it is hidden (or inside a
/// hidden directory).
pub type OpenDir = (Seq<char>, nat, usize, bool);

/// The directory a step opens when it asks to list `path`: the root, or the
/// directory that `e` reports in the innermost open directory of `open`.
pub open spec fn opened_dir(open: Seq<OpenDir>, e: ScanEvent, path: Seq<char>, n: nat) -> OpenDir {
    match e {
        ScanEvent::Stat(m) => (path, n, child_depth(open.last().2), open.last().3 || m.hidden),
        _ => (path, n, 0, false),
    }
}

/// An entry as the scan offers it to the report and to the largest-entries
/// table: kind, path, size, depth, and whether it is hidden.
pub type Offer = (EntryKind, Seq<char>, u64, usize, bool);

/// The key under which the largest-entries table knows an offered entry.
pub open spec fn offer_key(o: Offer) -> EntryKey {
    (o.2, o.0, o.1)
}

/// The entry that `e` reports in the innermost open directory of `open`,
/// with this kind, path and size.
pub open spec fn entry_offer(open: Seq<OpenDir>, kind: EntryKind, path: Seq<char>, size: u64, m: EntryMeta) -> Offer {
    (kind, path, size, child_depth(open.last().2), open.last().3 || m.hidden)
}

/// The entry that a `Stat` event for the entry at `pending` offers before
/// any directory closes: the file it makes the scan count, or the directory
/// a cancelled scan leaves unread (at size 0).
pub open spec fn first_offers(c: Config, m: EntryMeta, cancelled: bool, open: Seq<OpenDir>, pending: Seq<char>) -> Seq<Offer> {
    if counts_file(c, m) {
        seq![entry_offer(open, EntryKind::File, pending, m.len, m)]
    } else if cancelled && m.is_dir && !skips_reparse(c, m) {
        seq![entry_offer(open, EntryKind::Directory, pending, 0, m)]
    } else {
        Seq::empty()
    }
}

/// The open directory `d` as offered when it is closed: with the size of
/// the files counted since it was opened.
pub open spec fn close_offer(d: OpenDir, files: FileLog) -> Offer {
    (EntryKind::Directory, d.0, span_size(files, d.1 as int, files.len() as int), d.2, d.3)
}

/// The directories of `open` past the first `keep`, innermost first, as
/// offered when closed.
pub open spec fn closing_offers(open: Seq<OpenDir>, files: FileLog, keep: int) -> Seq<Offer>
    decreases open.len(),
{
    if open.len() == 0 || open.len() <= keep {
        Seq::empty()
    } else {
        seq![close_offer(open.last(), files)] + closing_offers(open.drop_last(), files, keep)
    }
}

/// The entries a step offers, in order: the file that a `Stat` event makes
/// the scan count (or the directory a cancelled scan leaves unread, at size
/// 0), then the directories it closes (all past the first `keep`),
/// innermost first; a root that cannot be listed is not offered.
pub open spec fn step_offers(
    c: Config,
    e: ScanEvent,
    cancelled: bool,
    open: Seq<OpenDir>,
    pending: Seq<char>,
    files: FileLog,
    keep: int,
) -> Seq<Offer> {
    match e {
        ScanEvent::Stat(m) => first_offers(c, m, cancelled, open, pending) + closing_offers(open, files, keep),
        ScanEvent::ListFailed { .. } => if open.len() >= 2 {
            closing_offers(open, files, keep)
        } else {
            Seq::empty()
        },
        _ => closing_offers(open, files, keep),
    }
}

/// Closing one more directory, the `k`-th, offers it last.
pub proof fn lemma_closing_offers_step(open: Seq<OpenDir>, files: FileLog, k: int)
    requires
        0 <= k < open.len(),
    ensures
        closing_offers(open, files, k) == closing_offers(open, files, k + 1).push(close_offer(open[k], files)),
    decreases open.len(),
{
    if open.len() == k + 1 {
        assert(closing_offers(open.drop_last(), files, k) =~= Seq::<Offer>::empty());
        assert(closing_offers(open, files, k) =~= seq![close_offer(open.last(), files)]);
    } else {
        lemma_closing_offers_step(open.drop_last(), files, k);
        assert(open.drop_last()[k] == open[k]);
        assert(closing_offers(open, files, k) =~= closing_offers(open, files, k + 1).push(close_offer(open[k], files)));
    }
}

/// Each directory that `closing_offers` offers is one of the open
/// directories past the first `keep`, with its counted files.
pub proof fn lemma_closing_offers_from(open: Seq<OpenDir>, files: FileLog, keep: int)
    requires
        0 <= keep,
    ensures
        forall|t: int|
            0 <= t < closing_offers(open, files, keep).len() ==> exists|j: int|
                keep <= j < open.len() && #[trigger] closing_offers(open, files, keep)[t] == close_offer(
                    open[j],
                    files,
                ),
    decreases open.len(),
{
    if open.len() > 0 && open.len() > keep {
        let rest = open.drop_last();
        lemma_closing_offers_from(rest, files, keep);
        let cl = closing_offers(open, files, keep);
        assert(cl == seq![close_offer(open.last(), files)] + closing_offers(rest, files, keep));
        assert forall|t: int| 0 <= t < cl.len() implies exists|j: int|
            keep <= j < open.len() && #[trigger] cl[t] == close_offer(open[j], files) by {
            if t == 0 {
                assert(cl[0] == close_offer(open[open.len() - 1], files));
            } else {
                assert(cl[t] == closing_offers(rest, files, keep)[t - 1]);
                assert(0 <= t - 1 < closing_offers(rest, files, keep).len());
                let j = choose|j: int|
                    keep <= j < rest.len() && #[trigger] closing_offers(rest, files, keep)[t - 1] == close_offer(
                        rest[j],
                        files,
                    );
                assert(rest[j] == open[j]);
            }
        }
    }
}

/// What a report row says of its entry: kind, path, size and depth.
pub type RowKey = (EntryKind, Seq<char>, u64, usize);

/// Whether an offered entry gets a report row: it is not hidden (or hidden
/// rows are on), and it passes the row filters.
pub open spec fn shows(c: Config, o: Offer) -> bool {
    (c.include_hidden || !o.4) && passes_filters(c, o.0, o.3, o.2)
}

/// The report rows of the entries `offers`, in order.
pub open spec fn shown_rows(c: Config, offers: Seq<Offer>) -> Seq<RowKey>
    decreases offers.len(),
{
    if offers.len() == 0 {
        Seq::empty()
    } else {
        let o = offers.last();
        if shows(c, o) {
            shown_rows(c, offers.drop_last()).push((o.0, o.1, o.2, o.3))
        } else {
            shown_rows(c, offers.drop_last())
        }
    }
}

/// The row filters, spelled out: a row is kept when its kind is one of
/// `--type`, it is no deeper than `--depth` (either kind), and it is no
/// smaller than `--min-size`.
pub proof fn lemma_filter_rule(c: Config, kind: EntryKind, depth: usize, size: u64)
    ensures
        passes_filters(c, kind, depth, size) == ((match kind {
            EntryKind::File => c.types.file,
            EntryKind::Directory => c.types.directory,
        }) && (match c.depth {
            Some(max) => depth <= max,
            None => true,
        }) && size >= c.min_size),
{
}

/// The rows of offered entries, spelled out: an offered entry gets a row
/// exactly when it is not hidden or `--include-hidden` is on, and it passes
/// the kind, depth and size filters; the rows keep the order of the offers.
pub proof fn lemma_rows_of_offers(c: Config, offers: Seq<Offer>)
    ensures
        shown_rows(c, offers) == offers.filter(
            |x: Offer|
                (c.include_hidden || !x.4) && (match x.0 {
                    EntryKind::File => c.types.file,
                    EntryKind::Directory => c.types.directory,
                }) && (match c.depth {
                    Some(max) => x.3 <= max,
                    None => true,
                }) && x.2 >= c.min_size,
        ).map_values(|x: Offer| (x.0, x.1, x.2, x.3)),
    decreases offers.len(),
{
    let keep = |x: Offer|
        (c.include_hidden || !x.4) && (match x.0 {
            EntryKind::File => c.types.file,
            EntryKind::Directory => c.types.directory,
        }) && (match c.depth {
            Some(max) => x.3 <= max,
            None => true,
        }) && x.2 >= c.min_size;
    let row = |x: Offer| (x.0, x.1, x.2, x.3);
    reveal(Seq::filter);
    if offers.len() == 0 {
        assert(offers.filter(keep).map_values(row) =~= Seq::<RowKey>::empty());
    } else {
        let rest = offers.drop_last();
        let o = offers.last();
        lemma_rows_of_offers(c, rest);
        assert(shows(c, o) == keep(o));
        if keep(o) {
            assert(offers.filter(keep) == rest.filter(keep).push(o));
            assert(rest.filter(keep).push(o).map_values(row) =~= rest.filter(keep).map_values(row).push(row(o)));
        } else {
            assert(offers.filter(keep) == rest.filter(keep));
        }
    }
}

/// The report rows among `effects`, in order.
pub open spec fn rows_of(effects: Seq<Effect>) -> Seq<RowKey>
    decreases effects.len(),
{
    if effects.len() == 0 {
        Seq::empty()
    } else {
        match effects.last() {
            Effect::Row { entry, depth, .. } => rows_of(effects.drop_last()).push(
                (entry.entry_type, entry.path@, entry.size_bytes, depth),
            ),
            _ => rows_of(effects.drop_last()),
        }
    }
}

/// Every row effect is the serialized row of an entry, its size for people
/// written out, that passes the filters.
pub open spec fn rows_ok(effects: Seq<Effect>, c: Config, format: OutputFormat) -> bool {
    forall|i: int|
        0 <= i < effects.len() ==> match #[trigger] effects[i] {
            Effect::Row { entry, depth, bytes } => bytes@ == row_bytes(format, entry)
                && entry.size_human@ == format_bytes_text(entry.size_bytes as nat)
                && passes_filters(c, entry.entry_type, depth, entry.size_bytes),
            _ => true,
        }
}

/// One offered entry gives its row exactly when it shows.
pub proof fn lemma_shown_rows_one(c: Config, o: Offer)
    ensures
        shown_rows(c, seq![o]) == if shows(c, o) {
            seq![(o.0, o.1, o.2, o.3)]
        } else {
            Seq::<RowKey>::empty()
        },
{
    assert(seq![o].drop_last() =~= Seq::<Offer>::empty());
    assert(shown_rows(c, Seq::<Offer>::empty()) == Seq::<RowKey>::empty());
    if shows(c, o) {
        assert(Seq::<RowKey>::empty().push((o.0, o.1, o.2, o.3)) =~= seq![(o.0, o.1, o.2, o.3)]);
    }
}

/// The rows of two runs of offers are the rows of each, in order.
pub proof fn lemma_shown_rows_concat(c: Config, a: Seq<Offer>, b: Seq<Offer>)
    ensures
        shown_rows(c, a + b) == shown_rows(c, a) + shown_rows(c, b),
    decreases b.len(),
{
    if b.len() == 0 {
        assert(a + b =~= a);
        assert(shown_rows(c, a) + shown_rows(c, b) =~= shown_rows(c, a));
    } else {
        lemma_shown_rows_concat(c, a, b.drop_last());
        assert((a + b).drop_last() =~= a + b.drop_last());
        assert((a + b).last() == b.last());
        if shows(c, b.last()) {
            assert(shown_rows(c, a + b) =~= shown_rows(c, a) + shown_rows(c, b));
        }
    }
}

/// Each report row of `offers` is the row of one of them.
pub proof fn lemma_shown_rows_from(c: Config, offers: Seq<Offer>)
    ensures
        forall|i: int|
            0 <= i < shown_rows(c, offers).len() ==> exists|t: int|
                0 <= t < offers.len() && #[trigger] shown_rows(c, offers)[i] == (
                    offers[t].0,
                    offers[t].1,
                    offers[t].2,
                    offers[t].3,
                ),
    decreases offers.len(),
{
    if offers.len() > 0 {
        let rest = offers.drop_last();
        lemma_shown_rows_from(c, rest);
        assert forall|i: int| 0 <= i < shown_rows(c, offers).len() implies exists|t: int|
            0 <= t < offers.len() && #[trigger] shown_rows(c, offers)[i] == (
                offers[t].0,
                offers[t].1,
                offers[t].2,
                offers[t].3,
            ) by {
            if i < shown_rows(c, rest).len() {
                let t = choose|t: int|
                    0 <= t < rest.len() && #[trigger] shown_rows(c, rest)[i] == (
                        rest[t].0,
                        rest[t].1,
                        rest[t].2,
                        rest[t].3,
                    );
                assert(rest[t] == offers[t]);
            } else {
                let t = offers.len() - 1;
                assert(offers[t] == offers.last());
            }
        }
    }
}

/// One more effect adds its row, if it is one.
pub proof fn lemma_rows_of_push(e: Seq<Effect>, x: Effect)
    ensures
        rows_of(e.push(x)) == match x {
            Effect::Row { entry, depth, .. } => rows_of(e).push((entry.entry_type, entry.path@, entry.size_bytes, depth)),
            _ => rows_of(e),
        },
{
    assert(e.push(x).drop_last() =~= e);
}

/// How many of `rows` are of kind `k`.
pub open spec fn kind_count(rows: Seq<RowKey>, k: EntryKind) -> nat
    decreases rows.len(),
{
    if rows.len() == 0 {
        0
    } else {
        kind_count(rows.drop_last(), k) + if rows.last().0 == k {
            1nat
        } else {
            0nat
        }
    }
}

/// How many of `offers` are hidden entries that get no row because hidden
/// rows are off.
pub open spec fn hidden_count(c: Config, offers: Seq<Offer>) -> nat
    decreases offers.len(),
{
    if offers.len() == 0 {
        0
    } else {
        hidden_count(c, offers.drop_last()) + if !c.include_hidden && offers.last().4 {
            1nat
        } else {
            0nat
        }
    }
}

/// Counting rows of a kind over two runs adds up.
pub proof fn lemma_kind_count_concat(a: Seq<RowKey>, b: Seq<RowKey>, k: EntryKind)
    ensures
        kind_count(a + b, k) == kind_count(a, k) + kind_count(b, k),
    decreases b.len(),
{
    if b.len() == 0 {
        assert(a + b =~= a);
    } else {
        lemma_kind_count_concat(a, b.drop_last(), k);
        assert((a + b).drop_last() =~= a + b.drop_last());
    }
}

/// Counting hidden offers over two runs adds up.
pub proof fn lemma_hidden_count_concat(c: Config, a: Seq<Offer>, b: Seq<Offer>)
    ensures
        hidden_count(c, a + b) == hidden_count(c, a) + hidden_count(c, b),
    decreases b.len(),
{
    if b.len() == 0 {
        assert(a + b =~= a);
    } else {
        lemma_hidden_count_concat(c, a, b.drop_last());
        assert((a + b).drop_last() =~= a + b.drop_last());
    }
}

/// Rows taken in two parts count as rows taken at once.
pub proof fn lemma_counts_concat(c: Config, a: Seq<Offer>, b: Seq<Offer>)
    ensures
        hidden_count(c, a + b) == hidden_count(c, a) + hidden_count(c, b),
        kind_count(shown_rows(c, a + b), EntryKind::File) == kind_count(shown_rows(c, a), EntryKind::File)
            + kind_count(shown_rows(c, b), EntryKind::File),
        kind_count(shown_rows(c, a + b), EntryKind::Directory) == kind_count(shown_rows(c, a), EntryKind::Directory)
            + kind_count(shown_rows(c, b), EntryKind::Directory),
{
    lemma_hidden_count_concat(c, a, b);
    lemma_shown_rows_concat(c, a, b);
    lemma_kind_count_concat(shown_rows(c, a), shown_rows(c, b), EntryKind::File);
    lemma_kind_count_concat(shown_rows(c, a), shown_rows(c, b), EntryKind::Directory);
}

/// The counts of one offered entry.
pub proof fn lemma_one_counts(c: Config, o: Offer)
    ensures
        hidden_count(c, seq![o]) == if !c.include_hidden && o.4 {
            1nat
        } else {
            0nat
        },
        kind_count(shown_rows(c, seq![o]), EntryKind::File) == if shows(c, o) && o.0 == EntryKind::File {
            1nat
        } else {
            0nat
        },
        kind_count(shown_rows(c, seq![o]), EntryKind::Directory) == if shows(c, o) && o.0
            == EntryKind::Directory {
            1nat
        } else {
            0nat
        },
{
    assert(seq![o].drop_last() =~= Seq::<Offer>::empty());
    assert(hidden_count(c, Seq::<Offer>::empty()) == 0);
    lemma_shown_rows_one(c, o);
    let r = (o.0, o.1, o.2, o.3);
    assert(seq![r].drop_last() =~= Seq::<RowKey>::empty());
    assert(kind_count(Seq::<RowKey>::empty(), EntryKind::File) == 0);
    assert(kind_count(Seq::<RowKey>::empty(), EntryKind::Directory) == 0);
}

/// Closing directories emits no file rows.
pub proof fn lemma_closing_file_rows(c: Config, open: Seq<OpenDir>, files: FileLog, keep: int)
    ensures
        kind_count(shown_rows(c, closing_offers(open, files, keep)), EntryKind::File) == 0,
    decreases open.len(),
{
    if !(open.len() == 0 || open.len() <= keep) {
        let o = close_offer(open.last(), files);
        lemma_closing_file_rows(c, open.drop_last(), files, keep);
        lemma_counts_concat(c, seq![o], closing_offers(open.drop_last(), files, keep));
        lemma_one_counts(c, o);
    } else {
        assert(kind_count(Seq::<RowKey>::empty(), EntryKind::File) == 0);
    }
}

/// A step emits a file row only for the file it counts: at most one, and
/// none unless the step's event is an entry's metadata that counts a file.
pub proof fn lemma_step_file_rows(
    c: Config,
    e: ScanEvent,
    cancelled: bool,
    open: Seq<OpenDir>,
    pending: Seq<char>,
    files: FileLog,
    keep: int,
)
    ensures
        kind_count(shown_rows(c, step_offers(c, e, cancelled, open, pending, files, keep)), EntryKind::File)
            <= match e {
            ScanEvent::Stat(m) => bool_count(counts_file(c, m)),
            _ => 0,
        },
{
    lemma_closing_file_rows(c, open, files, keep);
    match e {
        ScanEvent::Stat(m) => {
            let first = first_offers(c, m, cancelled, open, pending);
            lemma_counts_concat(c, first, closing_offers(open, files, keep));
            if first.len() == 1 {
                lemma_one_counts(c, first[0]);
                assert(first == seq![first[0]]);
            } else {
                assert(first =~= Seq::<Offer>::empty());
                assert(kind_count(Seq::<RowKey>::empty(), EntryKind::File) == 0);
            }
        },
        ScanEvent::ListFailed { .. } => {
            if open.len() < 2 {
                assert(kind_count(Seq::<RowKey>::empty(), EntryKind::File) == 0);
            }
        },
        _ => {},
    }
}

/// Closing the `k`-th open directory adds its row (if shown) and its key.
pub proof fn lemma_run_close(
    c: Config,
    open: Seq<OpenDir>,
    files: FileLog,
    k: int,
    r0: Seq<RowKey>,
    r1: Seq<RowKey>,
    r2: Seq<RowKey>,
    s0: Seq<EntryKey>,
    s1: Seq<EntryKey>,
    s2: Seq<EntryKey>,
    o: Offer,
)
    requires
        0 <= k < open.len(),
        o == close_offer(open[k], files),
        r1 == r0 + shown_rows(c, closing_offers(open, files, k + 1)),
        r2 == r1 + shown_rows(c, seq![o]),
        s1 == s0 + closing_offers(open, files, k + 1).map_values(|x: Offer| offer_key(x)),
        s2 == s1.push(offer_key(o)),
    ensures
        r2 == r0 + shown_rows(c, closing_offers(open, files, k)),
        s2 == s0 + closing_offers(open, files, k).map_values(|x: Offer| offer_key(x)),
{
    let before = closing_offers(open, files, k + 1);
    lemma_closing_offers_step(open, files, k);
    assert(before.push(o) =~= before + seq![o]);
    lemma_shown_rows_concat(c, before, seq![o]);
    assert(r2 =~= r0 + shown_rows(c, closing_offers(open, files, k)));
    assert(s2 =~= s0 + closing_offers(open, files, k).map_values(|x: Offer| offer_key(x)));
}

/// Closing the `k`-th open directory adds to the counts of hidden entries
/// and of rows what its offer does.
pub proof fn lemma_run_close_counts(
    c: Config,
    open: Seq<OpenDir>,
    files: FileLog,
    k: int,
    o: Offer,
    h: (u64, u64, u64),
    f: (u64, u64, u64),
    d: (u64, u64, u64),
)
    requires
        0 <= k < open.len(),
        o == close_offer(open[k], files),
        h.1 == sat(h.0 + hidden_count(c, closing_offers(open, files, k + 1))),
        h.2 == sat(h.1 + hidden_count(c, seq![o])),
        f.1 == sat(f.0 + kind_count(shown_rows(c, closing_offers(open, files, k + 1)), EntryKind::File)),
        f.2 == sat(f.1 + kind_count(shown_rows(c, seq![o]), EntryKind::File)),
        d.1 == sat(d.0 + kind_count(shown_rows(c, closing_offers(open, files, k + 1)), EntryKind::Directory)),
        d.2 == sat(d.1 + kind_count(shown_rows(c, seq![o]), EntryKind::Directory)),
    ensures
        h.2 == sat(h.0 + hidden_count(c, closing_offers(open, files, k))),
        f.2 == sat(f.0 + kind_count(shown_rows(c, closing_offers(open, files, k)), EntryKind::File)),
        d.2 == sat(d.0 + kind_count(shown_rows(c, closing_offers(open, files, k)), EntryKind::Directory)),
{
    let before = closing_offers(open, files, k + 1);
    lemma_closing_offers_step(open, files, k);
    assert(before.push(o) =~= before + seq![o]);
    lemma_counts_concat(c, before, seq![o]);
    lemma_sat_add(h.0 as int, hidden_count(c, before) as int, hidden_count(c, seq![o]) as int);
    lemma_sat_add(f.0 as int, kind_count(shown_rows(c, before), EntryKind::File) as int, kind_count(shown_rows(c, seq![o]), EntryKind::File) as int);
    lemma_sat_add(d.0 as int, kind_count(shown_rows(c, before), EntryKind::Directory) as int, kind_count(shown_rows(c, seq![o]), EntryKind::Directory) as int);
}

/// A step's rows and keys: those of the entries offered first, then those
/// of the directories closed.
pub proof fn lemma_step_rows(
    c: Config,
    first: Seq<Offer>,
    closing: Seq<Offer>,
    r_first: Seq<RowKey>,
    r_fin: Seq<RowKey>,
    s0: Seq<EntryKey>,
    s_first: Seq<EntryKey>,
    s_fin: Seq<EntryKey>,
)
    requires
        r_first == shown_rows(c, first),
        r_fin == r_first + shown_rows(c, closing),
        s_first == s0 + first.map_values(|o: Offer| offer_key(o)),
        s_fin == s_first + closing.map_values(|o: Offer| offer_key(o)),
    ensures
        r_fin == shown_rows(c, first + closing),
        s_fin == s0 + (first + closing).map_values(|o: Offer| offer_key(o)),
{
    lemma_shown_rows_concat(c, first, closing);
    assert(s_fin =~= s0 + (first + closing).map_values(|o: Offer| offer_key(o)));
}

/// A step's counts of hidden entries and of rows: those of the entries
/// offered first, then those of the directories closed.
pub proof fn lemma_step_counts(
    c: Config,
    first: Seq<Offer>,
    closing: Seq<Offer>,
    h: (u64, u64, u64),
    f: (u64, u64, u64),
    d: (u64, u64, u64),
)
    requires
        h.1 == sat(h.0 + hidden_count(c, first)),
        h.2 == sat(h.1 + hidden_count(c, closing)),
        f.1 == sat(f.0 + kind_count(shown_rows(c, first), EntryKind::File)),
        f.2 == sat(f.1 + kind_count(shown_rows(c, closing), EntryKind::File)),
        d.1 == sat(d.0 + kind_count(shown_rows(c, first), EntryKind::Directory)),
        d.2 == sat(d.1 + kind_count(shown_rows(c, closing), EntryKind::Directory)),
    ensures
        h.2 == sat(h.0 + hidden_count(c, first + closing)),
        f.2 == sat(f.0 + kind_count(shown_rows(c, first + closing), EntryKind::File)),
        d.2 == sat(d.0 + kind_count(shown_rows(c, first + closing), EntryKind::Directory)),
{
    lemma_counts_concat(c, first, closing);
    lemma_sat_add(h.0 as int, hidden_count(c, first) as int, hidden_count(c, closing) as int);
    lemma_sat_add(f.0 as int, kind_count(shown_rows(c, first), EntryKind::File) as int, kind_count(shown_rows(c, closing), EntryKind::File) as int);
    lemma_sat_add(d.0 as int, kind_count(shown_rows(c, first), EntryKind::Directory) as int, kind_count(shown_rows(c, closing), EntryKind::Directory) as int);
}

/// A warning as recorded: the path, the kind of error, its message and its
/// OS error code.
pub type Warning = (Seq<char>, Seq<char>, Seq<char>, Option<i32>);

/// How many of `effects` are warnings.
pub open spec fn warn_count(effects: Seq<Effect>) -> nat
    decreases effects.len(),
{
    if effects.len() == 0 {
        0
    } else {
        warn_count(effects.drop_last()) + if effects.last() is Warn {
            1nat
        } else {
            0nat
        }
    }
}

/// The warnings among `effects`, in order.
pub open spec fn warns_of(effects: Seq<Effect>) -> Seq<Warning>
    decreases effects.len(),
{
    if effects.len() == 0 {
        Seq::empty()
    } else {
        match effects.last() {
            Effect::Warn { path, error_type, failure } => warns_of(effects.drop_last()).push(
                (path@, error_type@, failure.message@, failure.os_code),
            ),
            _ => warns_of(effects.drop_last()),
        }
    }
}

/// The warnings from the `n`-th on are about rows too large for a part.
pub open spec fn split_warnings_from(ws: Seq<Warning>, n: int) -> bool {
    forall|i: int| n <= i < ws.len() ==> (#[trigger] ws[i]).1 == "output_split"@
}

/// The warnings that event `e` brings, about `path` (the directory listed,
/// or the entry whose metadata was asked for).
pub open spec fn event_warnings(e: ScanEvent, path: Seq<char>) -> Seq<Warning> {
    match e {
        ScanEvent::Listed { errors, .. } => errors@.map_values(
            |f: IoFailure| (path, "dir_entry"@, f.message@, f.os_code),
        ),
        ScanEvent::ListFailed { failure } => seq![(path, "read_dir"@, failure.message@, failure.os_code)],
        ScanEvent::StatFailed { failure } => seq![(path, "metadata"@, failure.message@, failure.os_code)],
        _ => Seq::empty(),
    }
}

/// One more effect adds one warning if it is one.
pub proof fn lemma_warn_count_push(e: Seq<Effect>, x: Effect)
    ensures
        warn_count(e.push(x)) == warn_count(e) + if x is Warn {
            1nat
        } else {
            0nat
        },
{
    assert(e.push(x).drop_last() =~= e);
}

/// One more effect adds its warning, if it is one.
pub proof fn lemma_warns_of_push(e: Seq<Effect>, x: Effect)
    ensures
        warns_of(e.push(x)) == match x {
            Effect::Warn { path, error_type, failure } => warns_of(e).push(
                (path@, error_type@, failure.message@, failure.os_code),
            ),
            _ => warns_of(e),
        },
        warn_count(e.push(x)) == warn_count(e) + if x is Warn {
            1nat
        } else {
            0nat
        },
{
    assert(e.push(x).drop_last() =~= e);
}

/// Warnings about rows too large, added after others of that kind, are
/// still only such warnings.
pub proof fn lemma_warns_extend(a: Seq<Warning>, b: Seq<Warning>, c: Seq<Warning>)
    requires
        a.is_prefix_of(b),
        b.is_prefix_of(c),
        split_warnings_from(b, a.len() as int),
        split_warnings_from(c, b.len() as int),
    ensures
        a.is_prefix_of(c),
        split_warnings_from(c, a.len() as int),
{
    assert forall|i: int| a.len() <= i < c.len() implies (#[trigger] c[i]).1 == "output_split"@ by {
        if i < b.len() {
            assert(c[i] == c.subrange(0, b.len() as int)[i]);
            assert(b[i].1 == "output_split"@);
        }
    }
    assert(a =~= c.subrange(0, a.len() as int)) by {
        assert forall|i: int| 0 <= i < a.len() implies a[i] == c.subrange(0, a.len() as int)[i] by {
            assert(a[i] == b.subrange(0, a.len() as int)[i]);
            assert(b[i] == c.subrange(0, b.len() as int)[i]);
        }
    }
}

/// The writer's state after it writes, in order, the rows among `effects`,
/// starting from `w`.
pub open spec fn writer_after(w: WriterView, effects: Seq<Effect>) -> WriterView
    decreases effects.len(),
{
    if effects.len() == 0 {
        w
    } else {
        match effects.last() {
            Effect::Row { bytes, .. } => after_write(writer_after(w, effects.drop_last()), bytes@.len()),
            _ => writer_after(w, effects.drop_last()),
        }
    }
}

/// The `i`-th of `effects` is in its place as to parts: a part start comes
/// just before the row that starts the part and gives the part's number,
/// and a row that starts a part comes just after its part start.
pub open spec fn part_mark_ok(w: WriterView, effects: Seq<Effect>, i: int) -> bool {
    match effects[i] {
        Effect::StartPart { index } => i + 1 < effects.len() && match effects[i + 1] {
            Effect::Row { bytes, .. } => rotates(writer_after(w, effects.take(i)), bytes@.len()) && index
                == writer_after(w, effects.take(i + 2)).part_index,
            _ => false,
        },
        Effect::Row { bytes, .. } => rotates(writer_after(w, effects.take(i)), bytes@.len()) ==> i > 0
            && effects[i - 1] is StartPart,
        _ => true,
    }
}

/// Every part start among `effects` is in its place, for a writer that
/// starts from `w`.
#[verifier::opaque]
pub open spec fn parts_marked(w: WriterView, effects: Seq<Effect>) -> bool {
    forall|i: int| 0 <= i < effects.len() ==> #[trigger] part_mark_ok(w, effects, i)
}

/// Writing two runs of rows is writing the first, then the second.
pub proof fn lemma_writer_after_concat(w: WriterView, a: Seq<Effect>, b: Seq<Effect>)
    ensures
        writer_after(w, a + b) == writer_after(writer_after(w, a), b),
    decreases b.len(),
{
    if b.len() == 0 {
        assert(a + b =~= a);
    } else {
        lemma_writer_after_concat(w, a, b.drop_last());
        assert((a + b).drop_last() =~= a + b.drop_last());
    }
}

/// With no effects, no part start is out of place and the writer stays.
pub proof fn lemma_parts_marked_empty(w: WriterView)
    ensures
        parts_marked(w, Seq::empty()),
        writer_after(w, Seq::empty()) == w,
{
    reveal(parts_marked);
}

/// Effects whose part starts are in place, followed by more such effects
/// (for the writer as the first left it), have their part starts in place.
pub proof fn lemma_parts_marked_concat(w: WriterView, a: Seq<Effect>, b: Seq<Effect>)
    requires
        parts_marked(w, a),
        parts_marked(writer_after(w, a), b),
    ensures
        parts_marked(w, a + b),
{
    reveal(parts_marked);
    let ab = a + b;
    assert forall|i: int| 0 <= i < ab.len() implies #[trigger] part_mark_ok(w, ab, i) by {
        if i < a.len() {
            assert(part_mark_ok(w, a, i));
            assert(ab[i] == a[i]);
            assert(ab.take(i) =~= a.take(i));
            if i + 1 < a.len() {
                assert(ab[i + 1] == a[i + 1]);
                assert(ab.take(i + 2) =~= a.take(i + 2));
            }
            if i > 0 {
                assert(ab[i - 1] == a[i - 1]);
            }
        } else {
            let j = i - a.len();
            assert(part_mark_ok(writer_after(w, a), b, j));
            assert(ab[i] == b[j]);
            assert(ab.take(i) =~= a + b.take(j));
            lemma_writer_after_concat(w, a, b.take(j));
            if j + 1 < b.len() {
                assert(ab[i + 1] == b[j + 1]);
                assert(ab.take(i + 2) =~= a + b.take(j + 2));
                lemma_writer_after_concat(w, a, b.take(j + 2));
            }
            if j > 0 {
                assert(ab[i - 1] == b[j - 1]);
            }
        }
    }
}

/// A warning keeps the part starts in place and the writer where it was.
pub proof fn lemma_parts_marked_warn(w: WriterView, e: Seq<Effect>, x: Effect)
    requires
        parts_marked(w, e),
        x is Warn,
    ensures
        parts_marked(w, e.push(x)),
        writer_after(w, e.push(x)) == writer_after(w, e),
{
    reveal(parts_marked);
    assert(e.push(x).drop_last() =~= e);
    assert(parts_marked(writer_after(w, e), seq![x])) by {
        assert(part_mark_ok(writer_after(w, e), seq![x], 0));
    }
    assert(e.push(x) =~= e + seq![x]);
    lemma_parts_marked_concat(w, e, seq![x]);
}

/// The `i`-th of `effects` is in its place as to rows too large for a part
/// (of at most `max` bytes): such a row is followed by a warning about it,
/// and only such a row; a warning of that kind follows a row.
pub open spec fn split_mark_ok(max: nat, effects: Seq<Effect>, i: int) -> bool {
    match effects[i] {
        Effect::Row { entry, bytes, .. } => {
            &&& (bytes@.len() > max) == (i + 1 < effects.len() && effects[i + 1] is Warn
                && effects[i + 1]->error_type@ == "output_split"@)
            &&& bytes@.len() > max ==> effects[i + 1]->path@ == entry.path@
                && effects[i + 1]->failure.message@ == oversize_warning(bytes@.len(), max)
                && effects[i + 1]->failure.os_code is None
        },
        Effect::Warn { error_type, .. } => error_type@ == "output_split"@ ==> i > 0 && effects[i - 1] is Row,
        _ => true,
    }
}

/// Every row too large for a part of at most `max` bytes among `effects`
/// comes with its warning, and every such warning with its row.
#[verifier::opaque]
pub open spec fn splits_marked(max: nat, effects: Seq<Effect>) -> bool {
    forall|i: int| 0 <= i < effects.len() ==> #[trigger] split_mark_ok(max, effects, i)
}

/// With no effects, no row lacks its warning.
pub proof fn lemma_splits_marked_empty(max: nat)
    ensures
        splits_marked(max, Seq::empty()),
{
    reveal(splits_marked);
}

/// Effects whose large rows carry their warnings, followed by more such
/// effects, still do.
pub proof fn lemma_splits_marked_concat(max: nat, a: Seq<Effect>, b: Seq<Effect>)
    requires
        splits_marked(max, a),
        splits_marked(max, b),
    ensures
        splits_marked(max, a + b),
{
    reveal(splits_marked);
    let ab = a + b;
    assert forall|i: int| 0 <= i < ab.len() implies #[trigger] split_mark_ok(max, ab, i) by {
        if i < a.len() {
            assert(split_mark_ok(max, a, i));
            assert(ab[i] == a[i]);
            if i + 1 < a.len() {
                assert(ab[i + 1] == a[i + 1]);
            } else if i + 1 < ab.len() {
                assert(ab[i + 1] == b[0]);
                assert(split_mark_ok(max, b, 0));
            }
            if i > 0 {
                assert(ab[i - 1] == a[i - 1]);
            }
        } else {
            let j = i - a.len();
            assert(split_mark_ok(max, b, j));
            assert(ab[i] == b[j]);
            if j + 1 < b.len() {
                assert(ab[i + 1] == b[j + 1]);
            }
            if j > 0 {
                assert(ab[i - 1] == b[j - 1]);
            }
        }
    }
}

/// A warning of another kind keeps rows and their warnings in place.
pub proof fn lemma_splits_marked_other_warn(max: nat, e: Seq<Effect>, x: Effect)
    requires
        splits_marked(max, e),
        x is Warn,
        x->error_type@ != "output_split"@,
    ensures
        splits_marked(max, e.push(x)),
{
    reveal(splits_marked);
    assert(splits_marked(max, seq![x])) by {
        assert(split_mark_ok(max, seq![x], 0));
    }
    assert(e.push(x) =~= e + seq![x]);
    lemma_splits_marked_concat(max, e, seq![x]);
}

/// The effects of one row: its part start when it starts a part, the row,
/// and a warning when it has one.
pub open spec fn row_block(start: Option<usize>, row: Effect, warn: Option<Effect>) -> Seq<Effect> {
    let s = match start {
        Some(index) => seq![Effect::StartPart { index }],
        None => Seq::empty(),
    };
    let w = match warn {
        Some(x) => seq![x],
        None => Seq::empty(),
    };
    s.push(row) + w
}

/// A row's effects, its part start given exactly when the writer starts a
/// part for it, are in place, and leave the writer as the row's write does.
pub proof fn lemma_row_block_marked(v: WriterView, start: Option<usize>, row: Effect, warn: Option<Effect>)
    requires
        row is Row,
        (start is Some) == rotates(v, row->bytes@.len()),
        start matches Some(index) ==> index == after_write(v, row->bytes@.len()).part_index,
        warn matches Some(x) ==> x is Warn,
        (warn is Some) == (row->bytes@.len() > v.max_bytes),
        warn matches Some(x) ==> x->error_type@ == "output_split"@ && x->path@ == row->entry.path@
            && x->failure.message@ == oversize_warning(row->bytes@.len(), v.max_bytes as nat)
            && x->failure.os_code is None,
    ensures
        parts_marked(v, row_block(start, row, warn)),
        writer_after(v, row_block(start, row, warn)) == after_write(v, row->bytes@.len()),
        splits_marked(v.max_bytes as nat, row_block(start, row, warn)),
{
    reveal(parts_marked);
    reveal(splits_marked);
    let len = row->bytes@.len();
    let pre = match start {
        Some(index) => seq![Effect::StartPart { index }],
        None => Seq::<Effect>::empty(),
    };
    let core = pre.push(row);
    assert(core.drop_last() =~= pre);
    assert(writer_after(v, Seq::<Effect>::empty()) == v);
    if pre.len() == 1 {
        assert(pre.drop_last() =~= Seq::<Effect>::empty());
        assert(pre.last() is StartPart);
        assert(writer_after(v, pre) == v);
    }
    assert(writer_after(v, core) == after_write(v, len));
    assert(parts_marked(v, core)) by {
        assert forall|i: int| 0 <= i < core.len() implies #[trigger] part_mark_ok(v, core, i) by {
            assert(core.take(i) =~= pre.take(i));
            if pre.len() == 1 {
                assert(pre.take(0) =~= Seq::<Effect>::empty());
                assert(pre.take(1) =~= pre);
                assert(core.take(2) =~= core);
            } else {
                assert(pre.take(0) =~= Seq::<Effect>::empty());
            }
        }
    }
    let block = row_block(start, row, warn);
    let r = pre.len() as int;
    match warn {
        Some(x) => {
            lemma_parts_marked_warn(v, core, x);
            assert(block =~= core.push(x));
            assert(block[r + 1] == x);
        },
        None => {
            assert(block =~= core);
        },
    }
    assert(block[r] == row);
    assert forall|i: int| 0 <= i < block.len() implies #[trigger] split_mark_ok(v.max_bytes as nat, block, i) by {
        if i < r {
            assert(block[i] is StartPart);
        }
    }
}

} // verus!
