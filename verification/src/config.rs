//! Project configuration, shared by the processor and the server.
//!
//! A single `config.toml` describes where lichess dumps are downloaded, where
//! the combined book lives, and where to fetch the dump list. Locating and
//! reading that file is I/O outside this library; the settings and the paths
//! derived from them live here. Paths are held as text.
use vstd::prelude::*;
use crate::fetch::{lines_of, lemma_lines_step_raw, lemma_lines_last_raw, lemma_lines_empty};
use crate::text::{chars_of, string_of, trim, trimmed};

verus! {

/// The default lichess standard-dump index, used when `[source].list_url` is
/// omitted.
pub const DEFAULT_LIST_URL: &'static str = "https://database.lichess.org/standard/list.txt";

/// What Rust's `Path::join` gives for `base` joined with `part`
/// (`part` replaces `base` when it is absolute).
pub uninterp spec fn joined_path(base: Seq<char>, part: Seq<char>) -> Seq<char>;

/// What Rust's `Path::file_name` gives for `p`: its final component, unless
/// that is `..` or the path is a root or empty.
pub uninterp spec fn path_file_name(p: Seq<char>) -> Option<Seq<char>>;

/// What Rust's `Path::with_file_name` gives for `p` and `name`: `p` with
/// its final component replaced by `name`.
pub uninterp spec fn path_with_file_name(p: Seq<char>, name: Seq<char>) -> Seq<char>;

/// Rust's `Path::join` on text paths: the result is [`joined_path`] of the
/// two inputs.
#[verifier::external_body]
fn join_path(base: &str, part: &str) -> (r: String)
    ensures
        r@ == joined_path(base@, part@),
{
    std::path::Path::new(base).join(part).to_string_lossy().into_owned()
}

/// Rust's `Path::file_name` on a text path: the result is
/// [`path_file_name`] of the input.
#[verifier::external_body]
fn file_name(p: &str) -> (r: Option<String>)
    ensures
        r matches Some(n) ==> path_file_name(p@) == Some(n@),
        r is None <==> path_file_name(p@) is None,
{
    std::path::Path::new(p).file_name().map(|f| f.to_string_lossy().into_owned())
}

/// Rust's `Path::with_file_name` on text paths: the result is
/// [`path_with_file_name`] of the inputs.
#[verifier::external_body]
fn with_file_name(p: &str, name: &str) -> (r: String)
    ensures
        r@ == path_with_file_name(p@, name@),
{
    std::path::Path::new(p).with_file_name(name).to_string_lossy().into_owned()
}

/// The `[storage]` table: where dumps and the combined book live.
#[derive(Debug)]
pub struct Storage {
    /// Directory holding downloaded `.pgn.zst` dumps.
    pub downloads: String,
    /// The combined book every dump is folded into. Defaults to
    /// `<downloads>/known.book` (see [`Storage::book_path`]).
    pub book: Option<String>,
}

/// The `[source]` table: where the dump list is fetched from.
#[derive(Debug)]
pub struct Source {
    pub list_url: String,
}

/// The `[server]` table: the bind address and the book to serve.
#[derive(Debug)]
pub struct Server {
    pub bind: String,
    /// Book to serve. Defaults to `[storage].book` (the combined book).
    pub book: Option<String>,
}

/// The whole configuration, and the file it was loaded from.
#[derive(Debug)]
pub struct Config {
    pub storage: Storage,
    pub source: Source,
    pub server: Server,
    /// The file this config was loaded from (not part of the TOML).
    pub path: String,
}

impl Default for Storage {
    fn default() -> (s: Self)
        ensures
            s.downloads@ == "data"@,
            s.book is None,
    {
        Storage { downloads: String::from_str("data"), book: None }
    }
}

fn copy_path(p: &Option<String>) -> (r: Option<String>)
    ensures
        r matches Some(s) ==> p matches Some(q) && s@ == q@,
        r is None <==> p is None,
{
    match p {
        Some(s) => Some(s.clone()),
        None => None,
    }
}

/// The combined book path of a `[storage]` table: `book` when set,
/// otherwise `known.book` inside the downloads directory.
pub open spec fn storage_book_path(s: Storage) -> Seq<char> {
    match s.book {
        Some(b) => b@,
        None => joined_path(s.downloads@, "known.book"@),
    }
}

impl Storage {
    /// The combined book path, falling back to `<downloads>/known.book`.
    pub fn book_path(&self) -> (p: String)
        ensures
            p@ == storage_book_path(*self),
    {
        match &self.book {
            Some(b) => b.clone(),
            None => join_path(self.downloads.as_str(), "known.book"),
        }
    }
}

/// The default dump list URL.
pub fn default_list_url() -> (s: String)
    ensures
        s@ == DEFAULT_LIST_URL@,
{
    String::from_str(DEFAULT_LIST_URL)
}

impl Default for Source {
    fn default() -> (s: Self)
        ensures
            s.list_url@ == DEFAULT_LIST_URL@,
    {
        Source { list_url: default_list_url() }
    }
}

/// The default bind address.
pub fn default_bind() -> (s: String)
    ensures
        s@ == "0.0.0.0:8080"@,
{
    String::from_str("0.0.0.0:8080")
}

impl Default for Server {
    fn default() -> (s: Self)
        ensures
            s.bind@ == "0.0.0.0:8080"@,
            s.book is None,
    {
        Server { bind: default_bind(), book: None }
    }
}

/// The sidecar listing the dumps folded into a book: the book's file name
/// (empty when it has none) with `.sources` appended, next to the book.
pub open spec fn manifest_path_of(book: Seq<char>) -> Seq<char> {
    let name = match path_file_name(book) {
        Some(n) => n,
        None => Seq::empty(),
    };
    path_with_file_name(book, name + ".sources"@)
}

impl Config {
    /// Path a downloaded dump with the given filename should live at.
    pub fn download_path(&self, filename: &str) -> (p: String)
        ensures
            p@ == joined_path(self.storage.downloads@, filename@),
    {
        join_path(self.storage.downloads.as_str(), filename)
    }

    /// The combined book the processor writes and the server reads.
    pub fn book_path(&self) -> (p: String)
        ensures
            p@ == storage_book_path(self.storage),
    {
        self.storage.book_path()
    }

    /// The book the server should load (defaults to the combined book).
    pub fn server_book_path(&self) -> (p: String)
        ensures
            p@ == match self.server.book {
                Some(b) => b@,
                None => storage_book_path(self.storage),
            },
    {
        match copy_path(&self.server.book) {
            Some(b) => b,
            None => self.book_path(),
        }
    }

    /// Sidecar listing the dump filenames already folded into the combined
    /// book, so `list` can show what's been processed. Lives next to the book.
    pub fn manifest_path(&self) -> (p: String)
        ensures
            p@ == manifest_path_of(storage_book_path(self.storage)),
    {
        let book = self.book_path();
        let mut name = match file_name(book.as_str()) {
            Some(n) => n,
            None => String::new(),
        };
        name.append(".sources");
        with_file_name(book.as_str(), name.as_str())
    }
}

/// The non-empty trimmed lines of a manifest, in order.
pub open spec fn manifest_names(lines: Seq<Seq<char>>) -> Seq<Seq<char>>
    decreases lines.len(),
{
    if lines.len() == 0 {
        Seq::empty()
    } else {
        let head = if trimmed(lines[0]).len() == 0 {
            Seq::empty()
        } else {
            seq![trimmed(lines[0])]
        };
        head + manifest_names(lines.drop_first())
    }
}

/// The text of each name.
pub open spec fn names_text(v: Seq<String>) -> Seq<Seq<char>> {
    v.map_values(|s: String| s@)
}

proof fn lemma_names_cons(l: Seq<char>, ls: Seq<Seq<char>>)
    ensures
        manifest_names(seq![l] + ls) == (if trimmed(l).len() == 0 {
            Seq::<Seq<char>>::empty()
        } else {
            seq![trimmed(l)]
        }) + manifest_names(ls),
{
    assert((seq![l] + ls)[0] == l);
    assert((seq![l] + ls).drop_first() =~= ls);
}

fn push_name(out: &mut Vec<String>, line: &str)
    ensures
        names_text(final(out)@) == names_text(old(out)@) + (if trimmed(line@).len() == 0 {
            Seq::<Seq<char>>::empty()
        } else {
            seq![trimmed(line@)]
        }),
{
    let t = trim(line);
    if t.as_str().is_empty() {
        assert(names_text(out@) =~= names_text(old(out)@) + Seq::<Seq<char>>::empty());
    } else {
        out.push(t);
        assert(names_text(out@) =~= names_text(old(out)@) + seq![trimmed(line@)]);
    }
}

/// The dump filenames a manifest's text lists: one per line, trimmed, blank
/// lines skipped.
pub fn parse_manifest(text: &str) -> (r: Vec<String>)
    ensures
        names_text(r@) == manifest_names(lines_of(text@)),
{
    let cs = chars_of(text);
    let n = cs.len();
    let mut out: Vec<String> = Vec::new();
    let mut start: usize = 0;
    let mut i: usize = 0;
    assert(cs@.subrange(0, n as int) =~= text@);
    assert(names_text(out@) + manifest_names(lines_of(text@)) =~= manifest_names(lines_of(text@)));
    while i < n
        invariant
            n == cs@.len(),
            cs@ == text@,
            start <= i <= n,
            forall|x: int| start <= x < i ==> cs@[x] != '\n',
            names_text(out@) + manifest_names(lines_of(cs@.subrange(start as int, n as int)))
                == manifest_names(lines_of(text@)),
        decreases n - i,
    {
        if cs[i] == '\n' {
            let end = if i > start && cs[i - 1] == '\r' { i - 1 } else { i };
            let line = string_of(cs.as_slice(), start, end);
            proof {
                lemma_lines_step_raw(cs@, start as int, i as int);
                if i > start && cs@[i - 1] == '\r' {
                    assert(cs@.subrange(start as int, i as int).drop_last() =~= line@);
                } else {
                    assert(cs@.subrange(start as int, i as int) =~= line@);
                }
                lemma_names_cons(line@, lines_of(cs@.subrange(i + 1, n as int)));
            }
            let ghost before = names_text(out@);
            push_name(&mut out, line.as_str());
            proof {
                let tail = manifest_names(lines_of(cs@.subrange(i + 1, n as int)));
                let head = if trimmed(line@).len() == 0 { Seq::<Seq<char>>::empty() } else { seq![trimmed(line@)] };
                assert(before + head + tail =~= before + (head + tail));
            }
            start = i + 1;
        }
        i = i + 1;
    }
    if start < n {
        let line = string_of(cs.as_slice(), start, n);
        proof {
            lemma_lines_last_raw(cs@, start as int);
            lemma_names_cons(line@, Seq::<Seq<char>>::empty());
            assert(manifest_names(Seq::<Seq<char>>::empty()) == Seq::<Seq<char>>::empty());
        }
        let ghost before = names_text(out@);
        push_name(&mut out, line.as_str());
        proof {
            let head = if trimmed(line@).len() == 0 { Seq::<Seq<char>>::empty() } else { seq![trimmed(line@)] };
            assert(head + Seq::<Seq<char>>::empty() =~= head);
        }
    } else {
        proof {
            assert(cs@.subrange(start as int, n as int) =~= Seq::<char>::empty());
            lemma_lines_empty();
            assert(manifest_names(Seq::<Seq<char>>::empty()) == Seq::<Seq<char>>::empty());
            assert(names_text(out@) + Seq::<Seq<char>>::empty() =~= names_text(out@));
        }
    }
    out
}

} // verus!
