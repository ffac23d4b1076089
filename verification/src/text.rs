//! Character-level string helpers the rest of the library builds on.
use vstd::prelude::*;
use vstd::std_specs::iter::IteratorSpec;

verus! {

broadcast use vstd::string::group_string_axioms;

/// `q` occurs in `s` as a contiguous run of characters.
pub open spec fn has_substring(s: Seq<char>, q: Seq<char>) -> bool {
    exists|i: int| 0 <= i && i + q.len() <= s.len() && #[trigger] s.subrange(i, i + q.len()) == q
}

/// A character with ASCII `A..=Z` folded to `a..=z`.
pub open spec fn ascii_fold(c: char) -> u32 {
    if 'A' <= c && c <= 'Z' {
        ((c as u32) + 32) as u32
    } else {
        c as u32
    }
}

/// The two strings are equal when ASCII letters are compared without case.
pub open spec fn eq_ignore_ascii_case(a: Seq<char>, b: Seq<char>) -> bool {
    a.len() == b.len() && forall|i: int| 0 <= i < a.len() ==> ascii_fold(a[i]) == ascii_fold(b[i])
}

/// What Rust's `str::to_lowercase` returns for `s` (Unicode lowercase
/// mapping).
pub uninterp spec fn lowercase(s: Seq<char>) -> Seq<char>;

/// What Rust's `str::trim` returns for `s` (leading and trailing Unicode
/// whitespace removed).
pub uninterp spec fn trimmed(s: Seq<char>) -> Seq<char>;

/// Rust's `str::to_lowercase`: the result is [`lowercase`] of the input.
#[verifier::external_body]
pub(crate) fn to_lowercase(s: &str) -> (r: String)
    ensures
        r@ == lowercase(s@),
{
    s.to_lowercase()
}

/// Rust's `str::trim`, copied out: the result is [`trimmed`] of the input.
#[verifier::external_body]
pub(crate) fn trim(s: &str) -> (r: String)
    ensures
        r@ == trimmed(s@),
{
    s.trim().to_string()
}

/// Rust's `String::push`: appends one character.
#[verifier::external_body]
fn push_char(s: &mut String, c: char)
    ensures
        final(s)@ == old(s)@.push(c),
{
    s.push(c)
}

/// The characters of `s`, in order.
pub fn chars_of(s: &str) -> (v: Vec<char>)
    ensures
        v@ == s@,
{
    let mut v: Vec<char> = Vec::new();
    for c in it: s.chars()
        invariant
            it.seq() == s@,
            v@ == s@.take(it.index() as int),
    {
        v.push(c);
        assert(v@ =~= s@.take(it.index() as int + 1));
    }
    assert(s@.take(s@.len() as int) =~= s@);
    v
}

/// A string of the characters `cs[lo..hi]`.
pub fn string_of(cs: &[char], lo: usize, hi: usize) -> (s: String)
    requires
        lo <= hi <= cs@.len(),
    ensures
        s@ == cs@.subrange(lo as int, hi as int),
{
    let mut s = String::new();
    let mut i = lo;
    while i < hi
        invariant
            lo <= i <= hi,
            hi <= cs@.len(),
            s@ == cs@.subrange(lo as int, i as int),
        decreases hi - i,
    {
        push_char(&mut s, cs[i]);
        assert(s@ =~= cs@.subrange(lo as int, i + 1));
        i = i + 1;
    }
    s
}

/// Whether `q` occurs in `s`.
pub fn contains_str(s: &str, q: &str) -> (r: bool)
    ensures
        r == has_substring(s@, q@),
{
    let sc = chars_of(s);
    let qc = chars_of(q);
    if qc.len() > sc.len() {
        return false;
    }
    let last = sc.len() - qc.len();
    let mut i: usize = 0;
    while i <= last
        invariant
            sc@ == s@,
            qc@ == q@,
            last == sc.len() - qc.len(),
            sc@.len() == sc.len(),
            qc@.len() == qc.len(),
            i <= last + 1,
            forall|k: int| 0 <= k < i ==> #[trigger] sc@.subrange(k, k + qc@.len()) != qc@,
        decreases last + 1 - i,
    {
        let mut j: usize = 0;
        let mut same = true;
        while j < qc.len()
            invariant
                sc@ == s@,
                qc@ == q@,
                i <= last,
                last == sc.len() - qc.len(),
                sc@.len() == sc.len(),
                qc@.len() == qc.len(),
                j <= qc@.len(),
                same <==> forall|x: int| 0 <= x < j ==> sc@[i + x] == qc@[x],
            decreases qc@.len() - j,
        {
            if sc[i + j] != qc[j] {
                same = false;
            }
            j = j + 1;
        }
        if same {
            assert(sc@.subrange(i as int, i + qc@.len()) =~= qc@);
            return true;
        }
        proof {
            let x = choose|x: int| 0 <= x < qc@.len() && sc@[i + x] != qc@[x];
            assert(sc@.subrange(i as int, i + qc@.len())[x] != qc@[x]);
        }
        if i == last {
            return false;
        }
        i = i + 1;
    }
    false
}

fn fold_exec(c: char) -> (r: u32)
    ensures
        r == ascii_fold(c),
{
    if 'A' <= c && c <= 'Z' {
        (c as u32) + 32
    } else {
        c as u32
    }
}

/// Whether `a` and `b` are equal when ASCII letters are compared without case.
pub fn eq_ignore_case(a: &str, b: &str) -> (r: bool)
    ensures
        r == eq_ignore_ascii_case(a@, b@),
{
    let ac = chars_of(a);
    let bc = chars_of(b);
    if ac.len() != bc.len() {
        return false;
    }
    let mut i: usize = 0;
    while i < ac.len()
        invariant
            ac@ == a@,
            bc@ == b@,
            ac@.len() == bc@.len(),
            i <= ac@.len(),
            forall|k: int| 0 <= k < i ==> ascii_fold(a@[k]) == ascii_fold(b@[k]),
        decreases ac@.len() - i,
    {
        if fold_exec(ac[i]) != fold_exec(bc[i]) {
            return false;
        }
        i = i + 1;
    }
    true
}

/// Whether two strings hold the same characters.
pub fn str_eq(a: &str, b: &str) -> (r: bool)
    ensures
        r == (a@ == b@),
{
    let ac = chars_of(a);
    let bc = chars_of(b);
    if ac.len() != bc.len() {
        return false;
    }
    let mut i: usize = 0;
    while i < ac.len()
        invariant
            ac@ == a@,
            bc@ == b@,
            ac@.len() == bc@.len(),
            i <= ac@.len(),
            forall|k: int| 0 <= k < i ==> a@[k] == b@[k],
        decreases ac@.len() - i,
    {
        if ac[i] != bc[i] {
            return false;
        }
        i = i + 1;
    }
    assert(a@ =~= b@);
    true
}

} // verus!
