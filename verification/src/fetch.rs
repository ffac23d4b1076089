//! The dump index: parse lichess's list of monthly dumps and pick months.
//!
//! lichess publishes one zstd-compressed PGN per month, indexed by a text file
//! of URLs. Fetching that file and downloading dumps is I/O and lives outside
//! this library; reading the list and choosing entries lives here.
use vstd::prelude::*;
use crate::text::{
    chars_of, string_of, to_lowercase, trim, contains_str, eq_ignore_case, has_substring,
    eq_ignore_ascii_case, lowercase, trimmed,
};

verus! {

/// Hard cap on concurrent downloads, so a broad tag (a whole year, say) can't
/// hammer lichess with one connection per month.
pub const MAX_DOWNLOAD_JOBS: usize = 5;

/// One entry from the dump list: a month tag, its download URL, and filename.
#[derive(Debug, Clone)]
pub struct Entry {
    pub tag: String,
    pub url: String,
    pub filename: String,
}

/// The text of an entry's three fields.
pub open spec fn entry_text(e: Entry) -> (Seq<char>, Seq<char>, Seq<char>) {
    (e.tag@, e.url@, e.filename@)
}

impl Entry {
    /// A field-by-field copy.
    pub fn copy(&self) -> (r: Entry)
        ensures
            entry_text(r) == entry_text(*self),
    {
        Entry { tag: self.tag.clone(), url: self.url.clone(), filename: self.filename.clone() }
    }
}

/// An ASCII decimal digit.
pub open spec fn is_digit(c: char) -> bool {
    '0' <= c && c <= '9'
}

/// A `dddd-dd` run starts at character `i` of `s`.
pub open spec fn tag_at(s: Seq<char>, i: int) -> bool {
    &&& 0 <= i && i + 7 <= s.len()
    &&& is_digit(s[i]) && is_digit(s[i + 1]) && is_digit(s[i + 2]) && is_digit(s[i + 3])
    &&& s[i + 4] == '-'
    &&& is_digit(s[i + 5]) && is_digit(s[i + 6])
}

/// The first `dddd-dd` run of `s`, if there is one.
pub open spec fn tag_in(s: Seq<char>) -> Option<Seq<char>> {
    if exists|i: int| tag_at(s, i) {
        let i = choose|i: int| tag_at(s, i) && forall|j: int| 0 <= j < i ==> !tag_at(s, j);
        Some(s.subrange(i, i + 7))
    } else {
        None
    }
}

proof fn lemma_tag_in_first(s: Seq<char>, i: int)
    requires
        tag_at(s, i),
        forall|j: int| 0 <= j < i ==> !tag_at(s, j),
    ensures
        tag_in(s) == Some(s.subrange(i, i + 7)),
{
    let k = choose|k: int| tag_at(s, k) && forall|j: int| 0 <= j < k ==> !tag_at(s, j);
    assert(tag_at(s, k));
    if k < i {
        assert(!tag_at(s, k));
    }
    if i < k {
        assert(!tag_at(s, i));
    }
}

fn is_digit_exec(c: char) -> (r: bool)
    ensures
        r == is_digit(c),
{
    '0' <= c && c <= '9'
}

fn tag_at_exec(cs: &Vec<char>, i: usize) -> (r: bool)
    requires
        i + 7 <= cs.len(),
    ensures
        r == tag_at(cs@, i as int),
{
    is_digit_exec(cs[i]) && is_digit_exec(cs[i + 1]) && is_digit_exec(cs[i + 2])
        && is_digit_exec(cs[i + 3]) && cs[i + 4] == '-' && is_digit_exec(cs[i + 5])
        && is_digit_exec(cs[i + 6])
}

/// Pull a `YYYY-MM` tag out of a dump filename, if present: the first run
/// of four digits, a dash and two digits.
pub fn extract_tag(filename: &str) -> (r: Option<String>)
    ensures
        r is None <==> tag_in(filename@) is None,
        r matches Some(t) ==> tag_in(filename@) == Some(t@),
{
    let cs = chars_of(filename);
    if cs.len() < 7 {
        proof {
            assert forall|i: int| !tag_at(filename@, i) by {}
        }
        return None;
    }
    let mut i: usize = 0;
    let last = cs.len() - 7;
    while i <= last
        invariant
            last + 7 == cs.len(),
            i <= last + 1,
            cs@ == filename@,
            cs@.len() == cs.len(),
            forall|j: int| 0 <= j < i ==> !tag_at(filename@, j),
        decreases last + 1 - i,
    {
        if tag_at_exec(&cs, i) {
            proof {
                lemma_tag_in_first(filename@, i as int);
            }
            return Some(string_of(cs.as_slice(), i, i + 7));
        }
        i = i + 1;
    }
    proof {
        assert forall|j: int| !tag_at(filename@, j) by {
            if 0 <= j && j <= last {
            }
        }
    }
    None
}


/// A line without one trailing carriage return.
pub open spec fn strip_cr(l: Seq<char>) -> Seq<char> {
    if l.len() > 0 && l.last() == '\r' {
        l.drop_last()
    } else {
        l
    }
}

/// The index of the first newline of `s`, or `s.len()` when it has none.
pub open spec fn first_newline(s: Seq<char>) -> int
    decreases s.len(),
{
    if s.len() == 0 {
        0
    } else if s[0] == '\n' {
        0
    } else {
        1 + first_newline(s.drop_first())
    }
}

proof fn lemma_first_newline(s: Seq<char>, k: int)
    requires
        0 <= k <= s.len(),
        forall|j: int| 0 <= j < k ==> s[j] != '\n',
        k == s.len() || s[k] == '\n',
    ensures
        first_newline(s) == k,
    decreases k,
{
    if k > 0 {
        let t = s.drop_first();
        assert forall|j: int| 0 <= j < k - 1 implies t[j] != '\n' by {
            assert(t[j] == s[j + 1]);
        }
        lemma_first_newline(t, k - 1);
    }
}

pub proof fn lemma_first_newline_bound(s: Seq<char>)
    ensures
        0 <= first_newline(s) <= s.len(),
    decreases s.len(),
{
    if s.len() > 0 && s[0] != '\n' {
        lemma_first_newline_bound(s.drop_first());
    }
}

/// The lines of `s` as Rust's `str::lines` yields them: split after each
/// newline, a `\r` just before a newline dropped, and no empty last line.
#[verifier::opaque]
pub open spec fn lines_of(s: Seq<char>) -> Seq<Seq<char>>
    decreases s.len(),
{
    if s.len() == 0 {
        Seq::empty()
    } else {
        let k = first_newline(s);
        proof {
            lemma_first_newline_bound(s);
        }
        if k >= s.len() {
            seq![s]
        } else {
            seq![strip_cr(s.take(k))] + lines_of(s.skip(k + 1))
        }
    }
}

/// What follows the last `/` of `s` (all of `s` when it has none).
pub open spec fn after_last_slash(s: Seq<char>) -> Seq<char>
    decreases s.len(),
{
    if s.len() == 0 {
        s
    } else if s.last() == '/' {
        Seq::empty()
    } else {
        after_last_slash(s.drop_last()).push(s.last())
    }
}

proof fn lemma_after_last_slash(s: Seq<char>, j: int)
    requires
        0 <= j <= s.len(),
        forall|x: int| j <= x < s.len() ==> s[x] != '/',
    ensures
        after_last_slash(s) == after_last_slash(s.take(j)) + s.subrange(j, s.len() as int),
    decreases s.len() - j,
{
    if j == s.len() {
        assert(s.take(j) =~= s);
        assert(s.subrange(j, s.len() as int) =~= Seq::<char>::empty());
        assert(after_last_slash(s) + Seq::<char>::empty() =~= after_last_slash(s));
    } else {
        let p = s.drop_last();
        lemma_after_last_slash(p, j);
        assert(p.take(j) =~= s.take(j));
        assert(s.subrange(j, s.len() as int) =~= p.subrange(j, p.len() as int).push(s.last()));
    }
}

/// The entry a line of the dump list describes, if any: the trimmed line is
/// the URL, its last path segment the filename, and the filename's first
/// `dddd-dd` run the tag.
#[verifier::opaque]
pub open spec fn line_entry(line: Seq<char>) -> Option<(Seq<char>, Seq<char>, Seq<char>)> {
    let url = trimmed(line);
    let filename = after_last_slash(url);
    if url.len() == 0 {
        None
    } else {
        match tag_in(filename) {
            Some(tag) => Some((tag, url, filename)),
            None => None,
        }
    }
}

/// The entries the lines describe, in order.
#[verifier::opaque]
pub open spec fn entries_of(lines: Seq<Seq<char>>) -> Seq<(Seq<char>, Seq<char>, Seq<char>)>
    decreases lines.len(),
{
    if lines.len() == 0 {
        Seq::empty()
    } else {
        let head = match line_entry(lines[0]) {
            Some(e) => seq![e],
            None => Seq::empty(),
        };
        head + entries_of(lines.drop_first())
    }
}

/// The entries of a dump list, newest-first as lichess publishes it.
pub open spec fn list_entries(body: Seq<char>) -> Seq<(Seq<char>, Seq<char>, Seq<char>)> {
    entries_of(lines_of(body))
}

/// The text of each entry.
pub open spec fn entries_text(es: Seq<Entry>) -> Seq<(Seq<char>, Seq<char>, Seq<char>)> {
    es.map_values(|e: Entry| entry_text(e))
}

fn line_to_entry(line: &str) -> (r: Option<Entry>)
    ensures
        r is None <==> line_entry(line@) is None,
        r matches Some(e) ==> line_entry(line@) == Some(entry_text(e)),
{
    reveal(line_entry);
    let url = trim(line);
    if url.as_str().is_empty() {
        return None;
    }
    assert(url@.len() != 0);
    let cs = chars_of(url.as_str());
    let mut j: usize = cs.len();
    while j > 0 && cs[j - 1] != '/'
        invariant
            j <= cs@.len(),
            cs@ == url@,
            forall|x: int| j <= x < cs@.len() ==> cs@[x] != '/',
        decreases j,
    {
        j = j - 1;
    }
    proof {
        lemma_after_last_slash(url@, j as int);
        if j > 0 {
            assert(url@.take(j as int).last() == '/');
        } else {
            assert(url@.take(0) =~= Seq::<char>::empty());
        }
        assert(Seq::<char>::empty() + url@.subrange(j as int, url@.len() as int) =~= url@.subrange(j as int, url@.len() as int));
    }
    let filename = string_of(cs.as_slice(), j, cs.len());
    match extract_tag(filename.as_str()) {
        Some(tag) => Some(Entry { tag, url, filename }),
        None => None,
    }
}

/// The entries of one line followed by others.
pub open spec fn line_head(l: Seq<char>) -> Seq<(Seq<char>, Seq<char>, Seq<char>)> {
    match line_entry(l) {
        Some(e) => seq![e],
        None => Seq::empty(),
    }
}

proof fn lemma_entries_cons(l: Seq<char>, ls: Seq<Seq<char>>)
    ensures
        entries_of(seq![l] + ls) == line_head(l) + entries_of(ls),
{
    reveal(entries_of);
    assert((seq![l] + ls)[0] == l);
    assert((seq![l] + ls).drop_first() =~= ls);
}

proof fn lemma_entries_empty()
    ensures
        entries_of(Seq::<Seq<char>>::empty()) == Seq::<(Seq<char>, Seq<char>, Seq<char>)>::empty(),
{
    reveal(entries_of);
}

/// Splitting at a newline: the lines from `start` are the line ending at
/// `i` (without a `\r` just before the newline) followed by the lines after.
pub proof fn lemma_lines_step_raw(s: Seq<char>, start: int, i: int)
    requires
        0 <= start <= i < s.len(),
        forall|x: int| start <= x < i ==> s[x] != '\n',
        s[i] == '\n',
    ensures
        lines_of(s.subrange(start, s.len() as int)) == seq![strip_cr(s.subrange(start, i))] + lines_of(
            s.subrange(i + 1, s.len() as int),
        ),
{
    let rest = s.subrange(start, s.len() as int);
    lemma_first_newline(rest, i - start);
    assert(rest.take(i - start) =~= s.subrange(start, i));
    assert(rest.skip(i - start + 1) =~= s.subrange(i + 1, s.len() as int));
    reveal(lines_of);
}

/// Text without a newline after `start` is one last line.
pub proof fn lemma_lines_last_raw(s: Seq<char>, start: int)
    requires
        0 <= start < s.len(),
        forall|x: int| start <= x < s.len() ==> s[x] != '\n',
    ensures
        lines_of(s.subrange(start, s.len() as int)) == seq![s.subrange(start, s.len() as int)],
{
    let rest = s.subrange(start, s.len() as int);
    lemma_first_newline(rest, rest.len() as int);
    reveal(lines_of);
}

/// Empty text has no lines.
pub proof fn lemma_lines_empty()
    ensures
        lines_of(Seq::<char>::empty()) == Seq::<Seq<char>>::empty(),
{
    reveal(lines_of);
}

proof fn lemma_lines_step(s: Seq<char>, start: int, i: int)
    requires
        0 <= start <= i < s.len(),
        forall|x: int| start <= x < i ==> s[x] != '\n',
        s[i] == '\n',
    ensures
        entries_of(lines_of(s.subrange(start, s.len() as int))) == line_head(
            strip_cr(s.subrange(start, i)),
        ) + entries_of(lines_of(s.subrange(i + 1, s.len() as int))),
{
    let rest = s.subrange(start, s.len() as int);
    lemma_first_newline(rest, i - start);
    assert(rest.take(i - start) =~= s.subrange(start, i));
    assert(rest.skip(i - start + 1) =~= s.subrange(i + 1, s.len() as int));
    let tail = lines_of(s.subrange(i + 1, s.len() as int));
    assert(lines_of(rest) == seq![strip_cr(s.subrange(start, i))] + tail) by {
        reveal(lines_of);
    }
    lemma_entries_cons(strip_cr(s.subrange(start, i)), tail);
}

proof fn lemma_lines_last(s: Seq<char>, start: int)
    requires
        0 <= start < s.len(),
        forall|x: int| start <= x < s.len() ==> s[x] != '\n',
    ensures
        entries_of(lines_of(s.subrange(start, s.len() as int))) == line_head(
            s.subrange(start, s.len() as int),
        ),
{
    let rest = s.subrange(start, s.len() as int);
    lemma_first_newline(rest, rest.len() as int);
    assert(lines_of(rest) == seq![rest]) by {
        reveal(lines_of);
    }
    assert(seq![rest] =~= seq![rest] + Seq::<Seq<char>>::empty());
    lemma_entries_cons(rest, Seq::<Seq<char>>::empty());
    lemma_entries_empty();
    assert(line_head(rest) + Seq::<(Seq<char>, Seq<char>, Seq<char>)>::empty() =~= line_head(rest));
}

fn push_line(out: &mut Vec<Entry>, line: &str)
    ensures
        entries_text(final(out)@) == entries_text(old(out)@) + line_head(line@),
{
    match line_to_entry(line) {
        Some(e) => {
            out.push(e);
            assert(entries_text(out@) =~= entries_text(old(out)@) + line_head(line@));
        },
        None => {
            assert(entries_text(out@) =~= entries_text(old(out)@) + line_head(line@));
        },
    }
}

/// Parse the dump list: one URL per line, blank lines skipped, and only the
/// lines whose filename carries a `YYYY-MM` tag kept.
pub fn parse_list(body: &str) -> (r: Vec<Entry>)
    ensures
        entries_text(r@) == list_entries(body@),
{
    let cs = chars_of(body);
    let n = cs.len();
    let mut out: Vec<Entry> = Vec::new();
    let mut start: usize = 0;
    let mut i: usize = 0;
    assert(cs@.subrange(0, n as int) =~= body@);
    assert(entries_text(out@) =~= Seq::<(Seq<char>, Seq<char>, Seq<char>)>::empty());
    assert(entries_text(out@) + list_entries(body@) =~= list_entries(body@));
    while i < n
        invariant
            n == cs@.len(),
            cs@ == body@,
            start <= i <= n,
            forall|x: int| start <= x < i ==> cs@[x] != '\n',
            entries_text(out@) + entries_of(lines_of(cs@.subrange(start as int, n as int)))
                == list_entries(body@),
        decreases n - i,
    {
        if cs[i] == '\n' {
            let end = if i > start && cs[i - 1] == '\r' { i - 1 } else { i };
            let line = string_of(cs.as_slice(), start, end);
            proof {
                lemma_lines_step(cs@, start as int, i as int);
                if i > start && cs@[i - 1] == '\r' {
                    assert(cs@.subrange(start as int, i as int).drop_last() =~= line@);
                } else {
                    assert(cs@.subrange(start as int, i as int) =~= line@);
                }
            }
            let ghost before = entries_text(out@);
            push_line(&mut out, line.as_str());
            proof {
                let tail = entries_of(lines_of(cs@.subrange(i + 1, n as int)));
                assert(before + line_head(line@) + tail =~= before + (line_head(line@) + tail));
            }
            start = i + 1;
        }
        i = i + 1;
    }
    if start < n {
        let line = string_of(cs.as_slice(), start, n);
        proof {
            lemma_lines_last(cs@, start as int);
        }
        push_line(&mut out, line.as_str());
    } else {
        proof {
            assert(cs@.subrange(start as int, n as int) =~= Seq::<char>::empty());
            assert(lines_of(Seq::<char>::empty()) == Seq::<Seq<char>>::empty()) by {
                reveal(lines_of);
            }
            lemma_entries_empty();
            assert(entries_text(out@) + Seq::<(Seq<char>, Seq<char>, Seq<char>)>::empty() =~= entries_text(out@));
        }
    }
    out
}

/// The entries as values.
pub open spec fn deref_all(s: Seq<&Entry>) -> Seq<Entry> {
    s.map_values(|e: &Entry| *e)
}

/// The entries whose lowercased tag contains `lq`, in order.
pub open spec fn tag_contains_lower(entries: Seq<Entry>, lq: Seq<char>) -> Seq<Entry>
    decreases entries.len(),
{
    if entries.len() == 0 {
        Seq::empty()
    } else {
        let rest = tag_contains_lower(entries.drop_last(), lq);
        if has_substring(lowercase(entries.last().tag@), lq) {
            rest.push(entries.last())
        } else {
            rest
        }
    }
}

/// What `match_tag` selects for `query`: the newest entry for `latest` (in
/// any ASCII case), otherwise every entry whose tag contains the query,
/// both compared in lowercase.
pub open spec fn matched(entries: Seq<Entry>, query: Seq<char>) -> Seq<Entry> {
    if eq_ignore_ascii_case(query, "latest"@) {
        if entries.len() == 0 {
            entries
        } else {
            entries.take(1)
        }
    } else {
        tag_contains_lower(entries, lowercase(query))
    }
}

/// Entries whose tag matches `query` (substring), or the newest for `latest`.
pub fn match_tag<'a>(entries: &'a [Entry], query: &str) -> (r: Vec<&'a Entry>)
    ensures
        deref_all(r@) == matched(entries@, query@),
{
    if eq_ignore_case(query, "latest") {
        let mut r: Vec<&'a Entry> = Vec::new();
        if entries.len() > 0 {
            r.push(&entries[0]);
            assert(deref_all(r@) =~= entries@.take(1));
        } else {
            assert(deref_all(r@) =~= entries@);
        }
        return r;
    }
    let q = to_lowercase(query);
    let mut r: Vec<&'a Entry> = Vec::new();
    let mut i: usize = 0;
    while i < entries.len()
        invariant
            i <= entries@.len(),
            q@ == lowercase(query@),
            deref_all(r@) == tag_contains_lower(entries@.take(i as int), q@),
        decreases entries@.len() - i,
    {
        let e = &entries[i];
        let lt = to_lowercase(e.tag.as_str());
        let ghost before = deref_all(r@);
        if contains_str(lt.as_str(), q.as_str()) {
            r.push(e);
            assert(deref_all(r@) =~= before.push(*e));
        }
        assert(entries@.take(i + 1).drop_last() =~= entries@.take(i as int));
        i = i + 1;
    }
    assert(entries@.take(entries@.len() as int) =~= entries@);
    r
}

/// The entries whose tag contains `q` exactly (case-sensitive), in order.
pub open spec fn tag_contains(entries: Seq<Entry>, q: Seq<char>) -> Seq<Entry>
    decreases entries.len(),
{
    if entries.len() == 0 {
        Seq::empty()
    } else {
        let rest = tag_contains(entries.drop_last(), q);
        if has_substring(entries.last().tag@, q) {
            rest.push(entries.last())
        } else {
            rest
        }
    }
}

/// Whether an entry's tag contains `q`.
pub open spec fn tag_has(q: Seq<char>) -> spec_fn(Entry) -> bool {
    |e: Entry| has_substring(e.tag@, q)
}

/// Listing by a query keeps, in list order, exactly the months whose tag
/// contains the query: every such month is listed and no other.
pub proof fn lemma_listing_keeps_matching(entries: Seq<Entry>, q: Seq<char>)
    ensures
        tag_contains(entries, q) == entries.filter(tag_has(q)),
        forall|e: Entry| #[trigger] tag_contains(entries, q).contains(e) <==> entries.contains(e)
            && has_substring(e.tag@, q),
    decreases entries.len(),
{
    reveal(Seq::filter);
    if entries.len() > 0 {
        let pre = entries.drop_last();
        let x = entries.last();
        lemma_listing_keeps_matching(pre, q);
        assert(entries =~= pre.push(x));
        assert forall|e: Entry| #[trigger] tag_contains(entries, q).contains(e) <==> entries.contains(e)
            && has_substring(e.tag@, q) by {
            if entries.contains(e) {
                let i = choose|i: int| 0 <= i < entries.len() && entries[i] == e;
                if i < pre.len() {
                    assert(pre[i] == e);
                }
            }
            if pre.contains(e) {
                let i = choose|i: int| 0 <= i < pre.len() && pre[i] == e;
                assert(entries[i] == e);
            }
            if has_substring(x.tag@, q) {
                let r = tag_contains(pre, q);
                assert(tag_contains(entries, q) == r.push(x));
                if r.push(x).contains(e) {
                    let i = choose|i: int| 0 <= i < r.push(x).len() && r.push(x)[i] == e;
                    if i < r.len() {
                        assert(r[i] == e);
                    }
                }
                if r.contains(e) {
                    let i = choose|i: int| 0 <= i < r.len() && r[i] == e;
                    assert(r.push(x)[i] == e);
                }
                assert(r.push(x)[r.len() as int] == x);
            }
        }
    }
}

/// The months `list` shows: those whose tag contains the query, or all.
pub fn filter_entries<'a>(entries: &'a [Entry], query: Option<&str>) -> (r: Vec<&'a Entry>)
    ensures
        deref_all(r@) == match query {
            Some(q) => tag_contains(entries@, q@),
            None => entries@,
        },
        query matches Some(q) ==> deref_all(r@) == entries@.filter(tag_has(q@)),
{
    let mut r: Vec<&'a Entry> = Vec::new();
    let mut i: usize = 0;
    while i < entries.len()
        invariant
            i <= entries@.len(),
            deref_all(r@) == match query {
                Some(q) => tag_contains(entries@.take(i as int), q@),
                None => entries@.take(i as int),
            },
        decreases entries@.len() - i,
    {
        let e = &entries[i];
        let ghost before = deref_all(r@);
        let keep = match query {
            Some(q) => contains_str(e.tag.as_str(), q),
            None => true,
        };
        if keep {
            r.push(e);
            assert(deref_all(r@) =~= before.push(*e));
        }
        assert(entries@.take(i + 1).drop_last() =~= entries@.take(i as int));
        assert(entries@.take(i + 1) =~= entries@.take(i as int).push(*e));
        i = i + 1;
    }
    assert(entries@.take(entries@.len() as int) =~= entries@);
    proof {
        if let Some(q) = query {
            lemma_listing_keeps_matching(entries@, q@);
        }
    }
    r
}

/// `sel` already holds an entry with tag `tag`.
pub open spec fn has_tag(sel: Seq<(Seq<char>, Seq<char>, Seq<char>)>, tag: Seq<char>) -> bool {
    exists|i: int| 0 <= i < sel.len() && sel[i].0 == tag
}

/// `sel` followed by each of `ms` whose tag it does not hold yet.
pub open spec fn add_new(
    sel: Seq<(Seq<char>, Seq<char>, Seq<char>)>,
    ms: Seq<Entry>,
) -> Seq<(Seq<char>, Seq<char>, Seq<char>)>
    decreases ms.len(),
{
    if ms.len() == 0 {
        sel
    } else {
        let s2 = add_new(sel, ms.drop_last());
        if has_tag(s2, ms.last().tag@) {
            s2
        } else {
            s2.push(entry_text(ms.last()))
        }
    }
}

/// The months `get` downloads for `tags`: each tag's matches in turn, each
/// month once, in the order first selected.
pub open spec fn selected(entries: Seq<Entry>, tags: Seq<Seq<char>>) -> Seq<(Seq<char>, Seq<char>, Seq<char>)>
    decreases tags.len(),
{
    if tags.len() == 0 {
        Seq::empty()
    } else {
        add_new(selected(entries, tags.drop_last()), matched(entries, tags.last()))
    }
}

/// No two entries share a tag.
pub open spec fn distinct_tags(sel: Seq<(Seq<char>, Seq<char>, Seq<char>)>) -> bool {
    forall|i: int, j: int| 0 <= i < j < sel.len() ==> sel[i].0 != sel[j].0
}

proof fn lemma_add_new_distinct(sel: Seq<(Seq<char>, Seq<char>, Seq<char>)>, ms: Seq<Entry>)
    requires
        distinct_tags(sel),
    ensures
        distinct_tags(add_new(sel, ms)),
    decreases ms.len(),
{
    if ms.len() > 0 {
        lemma_add_new_distinct(sel, ms.drop_last());
        let s2 = add_new(sel, ms.drop_last());
        if !has_tag(s2, ms.last().tag@) {
            let s3 = s2.push(entry_text(ms.last()));
            assert forall|i: int, j: int| 0 <= i < j < s3.len() implies s3[i].0 != s3[j].0 by {
                if j == s2.len() {
                    assert(s3[i] == s2[i]);
                }
            }
        }
    }
}

/// Selecting months for download keeps each month once: no two selected
/// entries share a tag.
pub proof fn lemma_selected_distinct(entries: Seq<Entry>, tags: Seq<Seq<char>>)
    ensures
        distinct_tags(selected(entries, tags)),
    decreases tags.len(),
{
    if tags.len() > 0 {
        lemma_selected_distinct(entries, tags.drop_last());
        lemma_add_new_distinct(selected(entries, tags.drop_last()), matched(entries, tags.last()));
    }
}

proof fn lemma_add_new_members(sel: Seq<(Seq<char>, Seq<char>, Seq<char>)>, ms: Seq<Entry>)
    ensures
        sel.len() <= add_new(sel, ms).len(),
        forall|i: int| 0 <= i < sel.len() ==> #[trigger] add_new(sel, ms)[i] == sel[i],
        forall|e: Entry| #[trigger] ms.contains(e) ==> has_tag(add_new(sel, ms), e.tag@),
        forall|x: (Seq<char>, Seq<char>, Seq<char>)| #[trigger] add_new(sel, ms).contains(x) ==> sel.contains(x)
            || exists|e: Entry| ms.contains(e) && x == entry_text(e),
    decreases ms.len(),
{
    if ms.len() > 0 {
        let pre = ms.drop_last();
        let m = ms.last();
        lemma_add_new_members(sel, pre);
        let s2 = add_new(sel, pre);
        let s3 = add_new(sel, ms);
        assert forall|e: Entry| #[trigger] ms.contains(e) implies has_tag(s3, e.tag@) by {
            let i = choose|i: int| 0 <= i < ms.len() && ms[i] == e;
            if i < pre.len() {
                assert(pre[i] == e);
                assert(pre.contains(e));
                let k = choose|k: int| 0 <= k < s2.len() && s2[k].0 == e.tag@;
                if !has_tag(s2, m.tag@) {
                    assert(s3[k] == s2[k]);
                }
            } else {
                if !has_tag(s2, m.tag@) {
                    assert(s3[s2.len() as int] == entry_text(m));
                }
            }
        }
        assert forall|x: (Seq<char>, Seq<char>, Seq<char>)| #[trigger] s3.contains(x) implies sel.contains(x)
            || exists|e: Entry| ms.contains(e) && x == entry_text(e) by {
            let i = choose|i: int| 0 <= i < s3.len() && s3[i] == x;
            if i < s2.len() {
                assert(s2[i] == x);
                assert(s2.contains(x));
                if !sel.contains(x) {
                    let e = choose|e: Entry| pre.contains(e) && x == entry_text(e);
                    let k = choose|k: int| 0 <= k < pre.len() && pre[k] == e;
                    assert(ms[k] == e);
                    assert(ms.contains(e));
                }
            } else {
                assert(x == entry_text(m));
                assert(ms[ms.len() - 1] == m);
                assert(ms.contains(m));
            }
        }
    }
}

/// Selecting months for download takes every month that any requested tag
/// matches, and nothing else: for each tag, each entry it matches has its
/// month in the selection, and each selected month is an entry that some
/// tag matched.
pub proof fn lemma_selected_covers(entries: Seq<Entry>, tags: Seq<Seq<char>>)
    ensures
        forall|t: int, e: Entry|
            0 <= t < tags.len() && #[trigger] matched(entries, tags[t]).contains(e) ==> has_tag(
                selected(entries, tags),
                e.tag@,
            ),
        forall|x: (Seq<char>, Seq<char>, Seq<char>)| #[trigger] selected(entries, tags).contains(x) ==> exists|t: int, e: Entry|
            0 <= t < tags.len() && matched(entries, tags[t]).contains(e) && x == entry_text(e),
    decreases tags.len(),
{
    if tags.len() > 0 {
        let pre = tags.drop_last();
        let last = tags.last();
        lemma_selected_covers(entries, pre);
        let s2 = selected(entries, pre);
        let ms = matched(entries, last);
        let s3 = selected(entries, tags);
        lemma_add_new_members(s2, ms);
        assert forall|t: int, e: Entry|
            0 <= t < tags.len() && #[trigger] matched(entries, tags[t]).contains(e) implies has_tag(s3, e.tag@) by {
            if t < pre.len() {
                assert(pre[t] == tags[t]);
                assert(matched(entries, pre[t]).contains(e));
                let k = choose|k: int| 0 <= k < s2.len() && s2[k].0 == e.tag@;
                assert(s3[k] == s2[k]);
            } else {
                assert(tags[t] == last);
            }
        }
        assert forall|x: (Seq<char>, Seq<char>, Seq<char>)| #[trigger] s3.contains(x) implies exists|t: int, e: Entry|
            0 <= t < tags.len() && matched(entries, tags[t]).contains(e) && x == entry_text(e) by {
            if s2.contains(x) {
                let (t, e) = choose|t: int, e: Entry|
                    0 <= t < pre.len() && matched(entries, pre[t]).contains(e) && x == entry_text(e);
                assert(tags[t] == pre[t]);
            } else {
                let e = choose|e: Entry| ms.contains(e) && x == entry_text(e);
                assert(tags[tags.len() - 1] == last);
            }
        }
    }
}

/// The text of each tag.
pub open spec fn tags_text(tags: Seq<String>) -> Seq<Seq<char>> {
    tags.map_values(|t: String| t@)
}

fn holds_tag(sel: &Vec<Entry>, tag: &String) -> (r: bool)
    ensures
        r == has_tag(entries_text(sel@), tag@),
{
    let mut i: usize = 0;
    while i < sel.len()
        invariant
            i <= sel@.len(),
            forall|k: int| 0 <= k < i ==> sel@[k].tag@ != tag@,
        decreases sel@.len() - i,
    {
        if sel[i].tag == *tag {
            assert(entries_text(sel@)[i as int].0 == tag@);
            return true;
        }
        i = i + 1;
    }
    proof {
        assert forall|k: int| 0 <= k < entries_text(sel@).len() implies entries_text(sel@)[k].0 != tag@ by {
            assert(sel@[k].tag@ != tag@);
        }
    }
    false
}

/// Resolve tags to a de-duplicated set of entries: every tag's matches (see
/// [`match_tag`]), each month kept the first time it is selected.
pub fn select_entries(entries: &[Entry], tags: &[String]) -> (r: Vec<Entry>)
    ensures
        entries_text(r@) == selected(entries@, tags_text(tags@)),
        forall|t: int, e: Entry|
            0 <= t < tags@.len() && #[trigger] matched(entries@, tags@[t]@).contains(e) ==> has_tag(
                entries_text(r@),
                e.tag@,
            ),
{
    let mut sel: Vec<Entry> = Vec::new();
    let mut t: usize = 0;
    assert(entries_text(sel@) =~= Seq::<(Seq<char>, Seq<char>, Seq<char>)>::empty());
    while t < tags.len()
        invariant
            t <= tags@.len(),
            entries_text(sel@) == selected(entries@, tags_text(tags@.take(t as int))),
        decreases tags@.len() - t,
    {
        let matches = match_tag(entries, tags[t].as_str());
        let ghost ms = deref_all(matches@);
        let ghost base = entries_text(sel@);
        let mut k: usize = 0;
        while k < matches.len()
            invariant
                k <= matches@.len(),
                ms == deref_all(matches@),
                entries_text(sel@) == add_new(base, ms.take(k as int)),
            decreases matches@.len() - k,
        {
            let e = matches[k];
            assert(ms.take(k + 1).drop_last() =~= ms.take(k as int));
            assert(ms.take(k + 1).last() == *e);
            if !holds_tag(&sel, &e.tag) {
                let ghost before = entries_text(sel@);
                let c = e.copy();
                sel.push(c);
                assert(entries_text(sel@) =~= before.push(entry_text(*e)));
            }
            k = k + 1;
        }
        proof {
            assert(ms.take(ms.len() as int) =~= ms);
            assert(tags_text(tags@.take(t + 1)).drop_last() =~= tags_text(tags@.take(t as int)));
            assert(tags_text(tags@.take(t + 1)).last() == tags@[t as int]@);
        }
        t = t + 1;
    }
    assert(tags@.take(tags@.len() as int) =~= tags@);
    proof {
        lemma_selected_covers(entries@, tags_text(tags@));
        assert forall|t: int, e: Entry|
            0 <= t < tags@.len() && #[trigger] matched(entries@, tags@[t]@).contains(e) implies has_tag(
                entries_text(sel@),
                e.tag@,
            ) by {
            assert(tags_text(tags@)[t] == tags@[t]@);
        }
    }
    sel
}

/// How many downloads to run at once: the requested number, at least one
/// and at most [`MAX_DOWNLOAD_JOBS`], and no more than there are dumps.
pub fn download_jobs(requested: usize, pending: usize) -> (r: usize)
    ensures
        r == if pending < (if requested < 1 { 1 } else if requested > 5 { 5 } else { requested }) {
            pending
        } else if requested < 1 {
            1
        } else if requested > 5 {
            5
        } else {
            requested
        },
{
    let clamped = if requested < 1 {
        1
    } else if requested > MAX_DOWNLOAD_JOBS {
        MAX_DOWNLOAD_JOBS
    } else {
        requested
    };
    if pending < clamped {
        pending
    } else {
        clamped
    }
}

/// The PROCESSED cell of `list`: `yes` once folded into the book, `pending`
/// when downloaded but not yet folded in, a dash otherwise.
pub fn processed_cell(downloaded: bool, processed: bool) -> (r: &'static str)
    ensures
        processed ==> r@ == "yes"@,
        !processed && downloaded ==> r@ == "pending"@,
        !processed && !downloaded ==> r@ == "\u{2014}"@,
{
    if processed {
        "yes"
    } else if downloaded {
        "pending"
    } else {
        "\u{2014}"
    }
}

} // verus!
