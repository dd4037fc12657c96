//! Run settings: what to emit, where, and in which format.
use vstd::prelude::*;
use crate::human::{parse_size, ByteSize};
use crate::text::{ascii_lower, chars_eq_str, chars_of, lower_chars, push_char, push_chars, push_str, string_of, trim, trim_chars};

verus! {

/// Report stream format.
#[derive(Debug, Clone, Copy, PartialEq, Eq, Structural)]
pub enum OutputFormat {
    Jsonl,
    Csv,
    Md,
    Txt,
}

/// Kind of a report row.
#[derive(Debug, Clone, Copy, PartialEq, Eq, Structural, PartialOrd, Ord, Hash)]
pub enum EntryKind {
    File,
    Directory,
}

} // verus!

verus! {

/// A set of entry kinds.
#[derive(Debug, Clone, Copy, PartialEq, Eq, Structural)]
pub struct KindSet {
    pub file: bool,
    pub directory: bool,
}

impl KindSet {
    /// The kinds in the set.
    pub open spec fn has(&self, k: EntryKind) -> bool {
        match k {
            EntryKind::File => self.file,
            EntryKind::Directory => self.directory,
        }
    }

    pub open spec fn is_empty_set(&self) -> bool {
        !self.file && !self.directory
    }

    /// The empty set.
    pub fn new() -> (s: KindSet)
        ensures
            s.is_empty_set(),
    {
        KindSet { file: false, directory: false }
    }

    /// Both kinds.
    pub fn all() -> (s: KindSet)
        ensures
            forall|k: EntryKind| s.has(k),
    {
        KindSet { file: true, directory: true }
    }

    /// Adds `k`.
    pub fn insert(&mut self, k: EntryKind)
        ensures
            forall|j: EntryKind| final(self).has(j) == (old(self).has(j) || j == k),
    {
        match k {
            EntryKind::File => self.file = true,
            EntryKind::Directory => self.directory = true,
        }
    }

    pub fn contains(&self, k: &EntryKind) -> (b: bool)
        ensures
            b == self.has(*k),
    {
        match k {
            EntryKind::File => self.file,
            EntryKind::Directory => self.directory,
        }
    }

    pub fn is_empty(&self) -> (b: bool)
        ensures
            b == self.is_empty_set(),
    {
        !self.file && !self.directory
    }
}

/// Command-line options as given.
#[derive(Debug, Clone)]
pub struct Cli {
    /// Root directory to scan.
    pub root: String,
    /// Maximum directory depth to emit; root depth is 0.
    pub depth: Option<usize>,
    /// Minimum entry size to emit, e.g. 10KB.
    pub min_size: String,
    /// Entry types to emit, repeatable.
    pub types: Vec<String>,
    /// Output directory.
    pub output: Option<String>,
    /// Report stream format.
    pub format: OutputFormat,
    /// Maximum bytes per report part, e.g. 50MB.
    pub max_output_size: String,
    pub include_hidden: bool,
    pub follow_symlinks: bool,
    pub no_color: bool,
    /// Number of largest entries retained in summaries.
    pub top: usize,
}

/// What the file system says of the (normalized) root path.
#[derive(Debug, Clone, Copy, PartialEq, Eq, Structural)]
pub enum RootKind {
    Missing,
    NotDirectory,
    Directory,
}

/// Settings of a run.
#[derive(Debug, Clone)]
pub struct Config {
    pub root: String,
    pub depth: Option<usize>,
    pub min_size: u64,
    pub types: KindSet,
    pub output_dir: String,
    pub format: OutputFormat,
    pub max_output_size: u64,
    pub include_hidden: bool,
    pub follow_symlinks: bool,
    pub no_color: bool,
    pub top: usize,
}

pub open spec fn is_ascii_alpha(c: char) -> bool {
    ('a' <= c && c <= 'z') || ('A' <= c && c <= 'Z')
}

/// A bare drive (`C:`) becomes its root directory (`C:\`); other paths stay.
pub open spec fn normalized_root(root: Seq<char>) -> Seq<char> {
    if root.len() == 2 && is_ascii_alpha(root[0]) && root[1] == ':' {
        root.push('\\')
    } else {
        root
    }
}

/// The kind that a lower-cased, trimmed `--type` value names.
pub open spec fn kind_named(key: Seq<char>) -> Option<EntryKind> {
    if key == "file"@ || key == "files"@ {
        Some(EntryKind::File)
    } else if key == "dir"@ || key == "dirs"@ || key == "directory"@ || key == "directories"@ {
        Some(EntryKind::Directory)
    } else {
        None
    }
}

/// The kinds that the `--type` values name, or the message for the first
/// value that names none.
pub open spec fn kinds_named(values: Seq<Seq<char>>) -> Result<Set<EntryKind>, Seq<char>>
    decreases values.len(),
{
    if values.len() == 0 {
        Ok(Set::empty())
    } else {
        match kinds_named(values.drop_last()) {
            Err(e) => Err(e),
            Ok(s) => {
                let key = ascii_lower(trim(values.last()));
                match kind_named(key) {
                    Some(k) => Ok(s.insert(k)),
                    None => Err("invalid --type value: "@ + key),
                }
            },
        }
    }
}

pub open spec fn texts_of(v: Seq<String>) -> Seq<Seq<char>> {
    v.map_values(|s: String| s@)
}

/// The message `try_from_cli` fails with, if any, checked in this order:
/// the root, the minimum size, the split size, the entry types.
pub open spec fn config_error(cli: Cli, root_kind: RootKind) -> Option<Seq<char>> {
    let root = normalized_root(cli.root@);
    if root_kind == RootKind::Missing {
        Some("root does not exist: "@ + root)
    } else if root_kind == RootKind::NotDirectory {
        Some("root is not a directory: "@ + root)
    } else if parse_size(cli.min_size@) is Err {
        Some(parse_size(cli.min_size@)->Err_0)
    } else if parse_size(cli.max_output_size@) is Err {
        Some(parse_size(cli.max_output_size@)->Err_0)
    } else if parse_size(cli.max_output_size@)->Ok_0 == 0 {
        Some("--max-output-size must be greater than zero"@)
    } else if kinds_named(texts_of(cli.types@)) is Err {
        Some(kinds_named(texts_of(cli.types@))->Err_0)
    } else {
        None
    }
}

/// Whether `s` is the set of kinds to emit for `named`: those named, or
/// both when none are.
pub open spec fn emits_kinds(s: KindSet, named: Set<EntryKind>) -> bool {
    forall|k: EntryKind| s.has(k) == (named.contains(k) || named.is_empty())
}

/// `root` with a bare drive made into its root directory.
pub fn normalize_root(root: &str) -> (r: String)
    ensures
        r@ == normalized_root(root@),
{
    let v = chars_of(root);
    let mut r = string_of(root);
    if v.len() == 2 && (('a' <= v[0] && v[0] <= 'z') || ('A' <= v[0] && v[0] <= 'Z')) && v[1]
        == ':' {
        push_char(&mut r, '\\');
    }
    r
}

fn kind_named_exec(key: &[char]) -> (k: Option<EntryKind>)
    ensures
        k == kind_named(key@),
{
    if chars_eq_str(key, "file") || chars_eq_str(key, "files") {
        Some(EntryKind::File)
    } else if chars_eq_str(key, "dir") || chars_eq_str(key, "dirs") || chars_eq_str(
        key,
        "directory",
    ) || chars_eq_str(key, "directories") {
        Some(EntryKind::Directory)
    } else {
        None
    }
}

/// The kinds that `values` name, as `kinds_named` states.
pub fn parse_kinds(values: &Vec<String>) -> (r: Result<KindSet, String>)
    ensures
        match r {
            Ok(s) => kinds_named(texts_of(values@)) is Ok && forall|k: EntryKind|
                s.has(k) == kinds_named(texts_of(values@))->Ok_0.contains(k),
            Err(e) => kinds_named(texts_of(values@)) == Err::<Set<EntryKind>, Seq<char>>(e@),
        },
{
    let mut set = KindSet::new();
    let mut i: usize = 0;
    proof {
        assert(texts_of(values@).take(0) =~= Seq::<Seq<char>>::empty());
    }
    while i < values.len()
        invariant
            0 <= i <= values@.len(),
            kinds_named(texts_of(values@).take(i as int)) is Ok,
            forall|k: EntryKind| set.has(k) == kinds_named(texts_of(values@).take(i as int))->Ok_0.contains(k),
        decreases values.len() - i,
    {
        let v = chars_of(values[i].as_str());
        let t = trim_chars(v.as_slice());
        let key = lower_chars(t.as_slice());
        let ghost pre = texts_of(values@).take(i as int);
        let ghost next = texts_of(values@).take(i + 1);
        assert(next.drop_last() =~= pre);
        assert(next.last() == values@[i as int]@);
        match kind_named_exec(key.as_slice()) {
            Some(k) => {
                set.insert(k);
            },
            None => {
                let mut e = string_of("invalid --type value: ");
                push_chars(&mut e, key.as_slice());
                proof {
                    lemma_kinds_named_err_prefix(texts_of(values@), i as int + 1);
                    assert(texts_of(values@).take(values@.len() as int) =~= texts_of(values@));
                }
                return Err(e);
            },
        }
        i = i + 1;
    }
    assert(texts_of(values@).take(values@.len() as int) =~= texts_of(values@));
    Ok(set)
}

/// Once a prefix of the values fails, so do all the values, with the same message.
pub proof fn lemma_kinds_named_err_prefix(values: Seq<Seq<char>>, n: int)
    requires
        0 <= n <= values.len(),
        kinds_named(values.take(n)) is Err,
    ensures
        kinds_named(values) == kinds_named(values.take(n)),
    decreases values.len() - n,
{
    if n < values.len() {
        assert(values.take(n + 1).drop_last() =~= values.take(n));
        lemma_kinds_named_err_prefix(values, n + 1);
    } else {
        assert(values.take(n) =~= values);
    }
}

impl Config {
    /// Checks the command line and turns it into settings. `root_kind` says
    /// what the file system holds at the normalized root, and `output_dir` is
    /// the directory chosen for the output.
    pub fn try_from_cli(cli: Cli, root_kind: RootKind, output_dir: String) -> (r: Result<
        Config,
        String,
    >)
        ensures
            match r {
                Err(e) => config_error(cli, root_kind) == Some(e@),
                Ok(c) => {
                    &&& config_error(cli, root_kind) is None
                    &&& c.root@ == normalized_root(cli.root@)
                    &&& c.depth == cli.depth
                    &&& c.min_size == parse_size(cli.min_size@)->Ok_0
                    &&& emits_kinds(c.types, kinds_named(texts_of(cli.types@))->Ok_0)
                    &&& c.output_dir@ == output_dir@
                    &&& c.format == cli.format
                    &&& c.max_output_size == parse_size(cli.max_output_size@)->Ok_0
                    &&& c.include_hidden == cli.include_hidden
                    &&& c.follow_symlinks == cli.follow_symlinks
                    &&& c.no_color == cli.no_color
                    &&& c.top == cli.top
                },
            },
    {
        let root = normalize_root(cli.root.as_str());
        match root_kind {
            RootKind::Missing => {
                let mut e = string_of("root does not exist: ");
                push_str(&mut e, root.as_str());
                return Err(e);
            },
            RootKind::NotDirectory => {
                let mut e = string_of("root is not a directory: ");
                push_str(&mut e, root.as_str());
                return Err(e);
            },
            RootKind::Directory => {},
        }
        let min_size = match ByteSize::parse(cli.min_size.as_str()) {
            Ok(b) => b.0,
            Err(e) => return Err(e),
        };
        let max_output_size = match ByteSize::parse(cli.max_output_size.as_str()) {
            Ok(b) => b.0,
            Err(e) => return Err(e),
        };
        if max_output_size == 0 {
            return Err(string_of("--max-output-size must be greater than zero"));
        }
        let parsed = match parse_kinds(&cli.types) {
            Ok(s) => s,
            Err(e) => return Err(e),
        };
        let ghost named = kinds_named(texts_of(cli.types@))->Ok_0;
        let types = if parsed.is_empty() {
            proof {
                assert forall|k: EntryKind| !named.contains(k) by {
                    assert(!parsed.has(k));
                }
                assert(named =~= Set::<EntryKind>::empty());
            }
            KindSet::all()
        } else {
            proof {
                if parsed.has(EntryKind::File) {
                    assert(named.contains(EntryKind::File));
                } else {
                    assert(parsed.has(EntryKind::Directory));
                    assert(named.contains(EntryKind::Directory));
                }
            }
            parsed
        };
        Ok(
            Config {
                root,
                depth: cli.depth,
                min_size,
                types,
                output_dir,
                format: cli.format,
                max_output_size,
                include_hidden: cli.include_hidden,
                follow_symlinks: cli.follow_symlinks,
                no_color: cli.no_color,
                top: cli.top,
            },
        )
    }

    /// Whether rows of kind `kind` are emitted.
    pub fn should_emit_kind(&self, kind: EntryKind) -> (b: bool)
        ensures
            b == self.types.has(kind),
    {
        self.types.contains(&kind)
    }
}


/// The `--type` vocabulary: a value names files when, trimmed and in lower
/// case, it is `file` or `files`, and directories when it is `dir`, `dirs`,
/// `directory` or `directories`; any other value is refused with its
/// message.
pub proof fn lemma_type_words(v: Seq<char>)
    ensures
        ascii_lower(trim(v)) == "file"@ || ascii_lower(trim(v)) == "files"@ ==> kinds_named(seq![v])
            == Ok::<Set<EntryKind>, Seq<char>>(set![EntryKind::File]),
        ascii_lower(trim(v)) == "dir"@ || ascii_lower(trim(v)) == "dirs"@ || ascii_lower(trim(v)) == "directory"@
            || ascii_lower(trim(v)) == "directories"@ ==> kinds_named(seq![v]) == Ok::<Set<EntryKind>, Seq<char>>(
            set![EntryKind::Directory],
        ),
        !(ascii_lower(trim(v)) == "file"@ || ascii_lower(trim(v)) == "files"@ || ascii_lower(trim(v)) == "dir"@
            || ascii_lower(trim(v)) == "dirs"@ || ascii_lower(trim(v)) == "directory"@ || ascii_lower(trim(v))
            == "directories"@) ==> kinds_named(seq![v]) == Err::<Set<EntryKind>, Seq<char>>(
            "invalid --type value: "@ + ascii_lower(trim(v)),
        ),
{
    let vs = seq![v];
    assert(vs.drop_last() =~= Seq::<Seq<char>>::empty());
    assert(vs.last() == v);
    assert(kinds_named(Seq::<Seq<char>>::empty()) == Ok::<Set<EntryKind>, Seq<char>>(Set::empty()));
    assert(Set::<EntryKind>::empty().insert(EntryKind::File) =~= set![EntryKind::File]);
    assert(Set::<EntryKind>::empty().insert(EntryKind::Directory) =~= set![EntryKind::Directory]);
    let key = ascii_lower(trim(v));
    reveal_strlit("file");
    reveal_strlit("files");
    reveal_strlit("dir");
    reveal_strlit("dirs");
    reveal_strlit("directory");
    reveal_strlit("directories");
    assert("file"@ != "dir"@ && "file"@ != "dirs"@ && "file"@ != "directory"@ && "file"@ != "directories"@) by {
        assert("file"@[1] == 'i' && "dirs"@.len() == 4 && "dirs"@[1] == 'i' && "file"@[0] != "dirs"@[0]);
    }
    assert("files"@ != "dir"@ && "files"@ != "dirs"@ && "files"@ != "directory"@ && "files"@ != "directories"@) by {
        assert("files"@[0] != "dirs"@[0]);
    }
    assert(kinds_named(vs) == match kind_named(key) {
        Some(k) => Ok::<Set<EntryKind>, Seq<char>>(Set::<EntryKind>::empty().insert(k)),
        None => Err::<Set<EntryKind>, Seq<char>>("invalid --type value: "@ + key),
    });
    if key == "file"@ || key == "files"@ {
        assert(kind_named(key) == Some(EntryKind::File));
        assert(kinds_named(seq![v]) == Ok::<Set<EntryKind>, Seq<char>>(set![EntryKind::File]));
    } else if key == "dir"@ || key == "dirs"@ || key == "directory"@ || key == "directories"@ {
        assert(kind_named(key) == Some(EntryKind::Directory));
        assert(kinds_named(seq![v]) == Ok::<Set<EntryKind>, Seq<char>>(set![EntryKind::Directory]));
    } else {
        assert(kind_named(key) is None);
        assert(kinds_named(seq![v]) == Err::<Set<EntryKind>, Seq<char>>("invalid --type value: "@ + key));
    }
}

} // verus!
