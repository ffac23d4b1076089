//! Verified merge sorts for the two orders the book is written in: position
//! hashes ascending, and move records most popular first.
use vstd::prelude::*;
use vstd::slice::slice_subrange;

verus! {

broadcast use vstd::seq_lib::group_seq_properties;

/// Every element is smaller than every later one.
pub open spec fn strictly_ascending(s: Seq<u64>) -> bool {
    forall|i: int, j: int| 0 <= i < j < s.len() ==> s[i] < s[j]
}

/// The record order of the book: higher count first, ties by smaller move.
pub open spec fn pop_before(a: (u16, u64), b: (u16, u64)) -> bool {
    a.1 > b.1 || (a.1 == b.1 && a.0 < b.0)
}

/// Every record comes strictly before every later one.
pub open spec fn records_ordered(s: Seq<(u16, u64)>) -> bool {
    forall|i: int, j: int| 0 <= i < j < s.len() ==> pop_before(s[i], s[j])
}

/// No move occurs in two records.
pub open spec fn distinct_moves(s: Seq<(u16, u64)>) -> bool {
    forall|i: int, j: int| 0 <= i < j < s.len() ==> s[i].0 != s[j].0
}

/// Ascending by key, then by index.
pub open spec fn lex_before(a: (u16, usize), b: (u16, usize)) -> bool {
    a.0 < b.0 || (a.0 == b.0 && a.1 < b.1)
}

/// Every pair comes strictly before every later one.
pub open spec fn pairs_ordered(s: Seq<(u16, usize)>) -> bool {
    forall|i: int, j: int| 0 <= i < j < s.len() ==> lex_before(s[i], s[j])
}

fn lex_before_exec(a: (u16, usize), b: (u16, usize)) -> (r: bool)
    ensures
        r == lex_before(a, b),
{
    a.0 < b.0 || (a.0 == b.0 && a.1 < b.1)
}

fn pop_before_exec(a: (u16, u64), b: (u16, u64)) -> (r: bool)
    ensures
        r == pop_before(a, b),
{
    a.1 > b.1 || (a.1 == b.1 && a.0 < b.0)
}

proof fn lemma_push_contains<A>(s: Seq<A>, e: A, x: A)
    ensures
        s.push(e).contains(x) <==> s.contains(x) || x == e,
{
    if s.push(e).contains(x) {
        let k = choose|k: int| 0 <= k < s.push(e).len() && s.push(e)[k] == x;
        if k < s.len() {
            assert(s[k] == x);
        }
    }
    if s.contains(x) {
        let k = choose|k: int| 0 <= k < s.len() && s[k] == x;
        assert(s.push(e)[k] == x);
    }
    if x == e {
        assert(s.push(e)[s.len() as int] == x);
    }
}

fn merge_keys(a: &Vec<u64>, b: &Vec<u64>) -> (r: Vec<u64>)
    requires
        strictly_ascending(a@),
        strictly_ascending(b@),
        forall|x: u64| !(a@.contains(x) && b@.contains(x)),
    ensures
        strictly_ascending(r@),
        r@.len() == a@.len() + b@.len(),
        forall|x: u64| r@.contains(x) <==> a@.contains(x) || b@.contains(x),
{
    let mut r: Vec<u64> = Vec::new();
    let mut i: usize = 0;
    let mut j: usize = 0;
    while i < a.len() || j < b.len()
        invariant
            i <= a@.len(),
            j <= b@.len(),
            r@.len() == i + j,
            strictly_ascending(a@),
            strictly_ascending(b@),
            forall|x: u64| !(a@.contains(x) && b@.contains(x)),
            strictly_ascending(r@),
            forall|x: u64| r@.contains(x) <==> a@.take(i as int).contains(x) || b@.take(j as int).contains(x),
            forall|k: int| 0 <= k < r@.len() ==> (i < a@.len() ==> r@[k] < a@[i as int]),
            forall|k: int| 0 <= k < r@.len() ==> (j < b@.len() ==> r@[k] < b@[j as int]),
        decreases a@.len() + b@.len() - i - j,
    {
        let ghost old_r = r@;
        if j >= b.len() || (i < a.len() && a[i] < b[j]) {
            let x = a[i];
            r.push(x);
            proof {
                assert(a@.take(i + 1) =~= a@.take(i as int).push(x));
                assert forall|y: u64| r@.contains(y) <==> a@.take(i + 1).contains(y) || b@.take(j as int).contains(y) by {
                    lemma_push_contains(old_r, x, y);
                    lemma_push_contains(a@.take(i as int), x, y);
                }
                if j < b@.len() {
                    assert(x != b@[j as int]) by {
                        assert(a@.contains(x));
                        assert(b@.contains(b@[j as int]));
                    }
                }
            }
            i = i + 1;
        } else {
            let x = b[j];
            r.push(x);
            proof {
                assert(b@.take(j + 1) =~= b@.take(j as int).push(x));
                assert forall|y: u64| r@.contains(y) <==> a@.take(i as int).contains(y) || b@.take(j + 1).contains(y) by {
                    lemma_push_contains(old_r, x, y);
                    lemma_push_contains(b@.take(j as int), x, y);
                }
                if i < a@.len() {
                    assert(x != a@[i as int]) by {
                        assert(b@.contains(x));
                        assert(a@.contains(a@[i as int]));
                    }
                }
            }
            j = j + 1;
        }
    }
    assert(a@.take(a@.len() as int) =~= a@);
    assert(b@.take(b@.len() as int) =~= b@);
    r
}

/// Sort distinct keys ascending.
pub fn sort_keys(v: &[u64]) -> (r: Vec<u64>)
    requires
        v@.no_duplicates(),
    ensures
        strictly_ascending(r@),
        r@.len() == v@.len(),
        forall|x: u64| r@.contains(x) <==> v@.contains(x),
    decreases v@.len(),
{
    if v.len() <= 1 {
        let mut r: Vec<u64> = Vec::new();
        if v.len() == 1 {
            r.push(v[0]);
            assert(r@ =~= v@);
        } else {
            assert(r@ =~= v@);
        }
        return r;
    }
    let mid = v.len() / 2;
    let left = slice_subrange(v, 0, mid);
    let right = slice_subrange(v, mid, v.len());
    proof {
        assert forall|i: int, j: int| 0 <= i < left@.len() && 0 <= j < left@.len() && i != j
            implies left@[i] != left@[j] by {
            assert(left@[i] == v@[i] && left@[j] == v@[j]);
        }
        assert forall|i: int, j: int| 0 <= i < right@.len() && 0 <= j < right@.len() && i != j
            implies right@[i] != right@[j] by {
            assert(right@[i] == v@[mid + i] && right@[j] == v@[mid + j]);
        }
    }
    let ls = sort_keys(left);
    let rs = sort_keys(right);
    proof {
        assert forall|x: u64| !(ls@.contains(x) && rs@.contains(x)) by {
            if ls@.contains(x) && rs@.contains(x) {
                let p = choose|p: int| 0 <= p < left@.len() && left@[p] == x;
                let q = choose|q: int| 0 <= q < right@.len() && right@[q] == x;
                assert(v@[p] == v@[mid + q]);
            }
        }
    }
    let r = merge_keys(&ls, &rs);
    proof {
        assert(v@ =~= left@ + right@);
        assert forall|x: u64| r@.contains(x) <==> v@.contains(x) by {
            if v@.contains(x) {
                let p = choose|p: int| 0 <= p < v@.len() && v@[p] == x;
                if p < mid {
                    assert(left@[p] == x);
                } else {
                    assert(right@[p - mid] == x);
                }
            }
            if left@.contains(x) {
                let p = choose|p: int| 0 <= p < left@.len() && left@[p] == x;
                assert(v@[p] == x);
            }
            if right@.contains(x) {
                let p = choose|p: int| 0 <= p < right@.len() && right@[p] == x;
                assert(v@[mid + p] == x);
            }
        }
    }
    r
}

fn merge_records(a: &Vec<(u16, u64)>, b: &Vec<(u16, u64)>) -> (r: Vec<(u16, u64)>)
    requires
        records_ordered(a@),
        records_ordered(b@),
        forall|x: (u16, u64)| !(a@.contains(x) && b@.contains(x)),
    ensures
        records_ordered(r@),
        r@.len() == a@.len() + b@.len(),
        forall|x: (u16, u64)| r@.contains(x) <==> a@.contains(x) || b@.contains(x),
{
    let mut r: Vec<(u16, u64)> = Vec::new();
    let mut i: usize = 0;
    let mut j: usize = 0;
    while i < a.len() || j < b.len()
        invariant
            i <= a@.len(),
            j <= b@.len(),
            r@.len() == i + j,
            records_ordered(a@),
            records_ordered(b@),
            forall|x: (u16, u64)| !(a@.contains(x) && b@.contains(x)),
            records_ordered(r@),
            forall|x: (u16, u64)| r@.contains(x) <==> a@.take(i as int).contains(x) || b@.take(j as int).contains(x),
            forall|k: int| 0 <= k < r@.len() ==> (i < a@.len() ==> pop_before(r@[k], a@[i as int])),
            forall|k: int| 0 <= k < r@.len() ==> (j < b@.len() ==> pop_before(r@[k], b@[j as int])),
        decreases a@.len() + b@.len() - i - j,
    {
        let ghost old_r = r@;
        if j >= b.len() || (i < a.len() && pop_before_exec(a[i], b[j])) {
            let x = a[i];
            r.push(x);
            proof {
                assert(a@.take(i + 1) =~= a@.take(i as int).push(x));
                assert forall|y: (u16, u64)| r@.contains(y) <==> a@.take(i + 1).contains(y) || b@.take(j as int).contains(y) by {
                    lemma_push_contains(old_r, x, y);
                    lemma_push_contains(a@.take(i as int), x, y);
                }
                if j < b@.len() {
                    assert(x != b@[j as int]) by {
                        assert(a@.contains(x));
                        assert(b@.contains(b@[j as int]));
                    }
                }
            }
            assert forall|k: int| 0 <= k < r@.len() implies (i + 1 < a@.len() ==> pop_before(r@[k], a@[i + 1])) by {
                if i + 1 < a@.len() {
                    assert(pop_before(a@[i as int], a@[i + 1]));
                }
            }
            assert forall|k: int| 0 <= k < r@.len() implies (j < b@.len() ==> pop_before(r@[k], b@[j as int])) by {
            }
            i = i + 1;
        } else {
            let x = b[j];
            r.push(x);
            proof {
                assert(b@.take(j + 1) =~= b@.take(j as int).push(x));
                assert forall|y: (u16, u64)| r@.contains(y) <==> a@.take(i as int).contains(y) || b@.take(j + 1).contains(y) by {
                    lemma_push_contains(old_r, x, y);
                    lemma_push_contains(b@.take(j as int), x, y);
                }
                if i < a@.len() {
                    assert(x != a@[i as int]) by {
                        assert(b@.contains(x));
                        assert(a@.contains(a@[i as int]));
                    }
                }
            }
            assert forall|k: int| 0 <= k < r@.len() implies (j + 1 < b@.len() ==> pop_before(r@[k], b@[j + 1])) by {
                if j + 1 < b@.len() {
                    assert(pop_before(b@[j as int], b@[j + 1]));
                }
            }
            assert forall|k: int| 0 <= k < r@.len() implies (i < a@.len() ==> pop_before(r@[k], a@[i as int])) by {
            }
            j = j + 1;
        }
    }
    assert(a@.take(a@.len() as int) =~= a@);
    assert(b@.take(b@.len() as int) =~= b@);
    r
}

/// Sort records with distinct moves, most popular first.
pub fn sort_records(v: &[(u16, u64)]) -> (r: Vec<(u16, u64)>)
    requires
        v@.no_duplicates(),
    ensures
        records_ordered(r@),
        r@.len() == v@.len(),
        forall|x: (u16, u64)| r@.contains(x) <==> v@.contains(x),
    decreases v@.len(),
{
    if v.len() <= 1 {
        let mut r: Vec<(u16, u64)> = Vec::new();
        if v.len() == 1 {
            r.push(v[0]);
            assert(r@ =~= v@);
        } else {
            assert(r@ =~= v@);
        }
        return r;
    }
    let mid = v.len() / 2;
    let left = slice_subrange(v, 0, mid);
    let right = slice_subrange(v, mid, v.len());
    proof {
        assert forall|i: int, j: int| 0 <= i < left@.len() && 0 <= j < left@.len() && i != j
            implies left@[i] != left@[j] by {
            assert(left@[i] == v@[i] && left@[j] == v@[j]);
        }
        assert forall|i: int, j: int| 0 <= i < right@.len() && 0 <= j < right@.len() && i != j
            implies right@[i] != right@[j] by {
            assert(right@[i] == v@[mid + i] && right@[j] == v@[mid + j]);
        }
    }
    let ls = sort_records(left);
    let rs = sort_records(right);
    proof {
        assert forall|x: (u16, u64)| !(ls@.contains(x) && rs@.contains(x)) by {
            if ls@.contains(x) && rs@.contains(x) {
                let p = choose|p: int| 0 <= p < left@.len() && left@[p] == x;
                let q = choose|q: int| 0 <= q < right@.len() && right@[q] == x;
                assert(v@[p] == v@[mid + q]);
            }
        }
    }
    let r = merge_records(&ls, &rs);
    proof {
        assert(v@ =~= left@ + right@);
        assert forall|x: (u16, u64)| r@.contains(x) <==> v@.contains(x) by {
            if v@.contains(x) {
                let p = choose|p: int| 0 <= p < v@.len() && v@[p] == x;
                if p < mid {
                    assert(left@[p] == x);
                } else {
                    assert(right@[p - mid] == x);
                }
            }
            if left@.contains(x) {
                let p = choose|p: int| 0 <= p < left@.len() && left@[p] == x;
                assert(v@[p] == x);
            }
            if right@.contains(x) {
                let p = choose|p: int| 0 <= p < right@.len() && right@[p] == x;
                assert(v@[mid + p] == x);
            }
        }
    }
    r
}

fn merge_pairs(a: &Vec<(u16, usize)>, b: &Vec<(u16, usize)>) -> (r: Vec<(u16, usize)>)
    requires
        pairs_ordered(a@),
        pairs_ordered(b@),
        forall|x: (u16, usize)| !(a@.contains(x) && b@.contains(x)),
    ensures
        pairs_ordered(r@),
        r@.len() == a@.len() + b@.len(),
        forall|x: (u16, usize)| r@.contains(x) <==> a@.contains(x) || b@.contains(x),
{
    let mut r: Vec<(u16, usize)> = Vec::new();
    let mut i: usize = 0;
    let mut j: usize = 0;
    while i < a.len() || j < b.len()
        invariant
            i <= a@.len(),
            j <= b@.len(),
            r@.len() == i + j,
            pairs_ordered(a@),
            pairs_ordered(b@),
            forall|x: (u16, usize)| !(a@.contains(x) && b@.contains(x)),
            pairs_ordered(r@),
            forall|x: (u16, usize)| r@.contains(x) <==> a@.take(i as int).contains(x) || b@.take(j as int).contains(x),
            forall|k: int| 0 <= k < r@.len() ==> (i < a@.len() ==> lex_before(r@[k], a@[i as int])),
            forall|k: int| 0 <= k < r@.len() ==> (j < b@.len() ==> lex_before(r@[k], b@[j as int])),
        decreases a@.len() + b@.len() - i - j,
    {
        let ghost old_r = r@;
        if j >= b.len() || (i < a.len() && lex_before_exec(a[i], b[j])) {
            let x = a[i];
            r.push(x);
            proof {
                assert(a@.take(i + 1) =~= a@.take(i as int).push(x));
                assert forall|y: (u16, usize)| r@.contains(y) <==> a@.take(i + 1).contains(y) || b@.take(j as int).contains(y) by {
                    lemma_push_contains(old_r, x, y);
                    lemma_push_contains(a@.take(i as int), x, y);
                }
                if j < b@.len() {
                    assert(x != b@[j as int]) by {
                        assert(a@.contains(x));
                        assert(b@.contains(b@[j as int]));
                    }
                }
            }
            assert forall|k: int| 0 <= k < r@.len() implies (i + 1 < a@.len() ==> lex_before(r@[k], a@[i + 1])) by {
                if i + 1 < a@.len() {
                    assert(lex_before(a@[i as int], a@[i + 1]));
                }
            }
            assert forall|k: int| 0 <= k < r@.len() implies (j < b@.len() ==> lex_before(r@[k], b@[j as int])) by {
            }
            i = i + 1;
        } else {
            let x = b[j];
            r.push(x);
            proof {
                assert(b@.take(j + 1) =~= b@.take(j as int).push(x));
                assert forall|y: (u16, usize)| r@.contains(y) <==> a@.take(i as int).contains(y) || b@.take(j + 1).contains(y) by {
                    lemma_push_contains(old_r, x, y);
                    lemma_push_contains(b@.take(j as int), x, y);
                }
                if i < a@.len() {
                    assert(x != a@[i as int]) by {
                        assert(b@.contains(x));
                        assert(a@.contains(a@[i as int]));
                    }
                }
            }
            assert forall|k: int| 0 <= k < r@.len() implies (j + 1 < b@.len() ==> lex_before(r@[k], b@[j + 1])) by {
                if j + 1 < b@.len() {
                    assert(lex_before(b@[j as int], b@[j + 1]));
                }
            }
            assert forall|k: int| 0 <= k < r@.len() implies (i < a@.len() ==> lex_before(r@[k], a@[i as int])) by {
            }
            j = j + 1;
        }
    }
    assert(a@.take(a@.len() as int) =~= a@);
    assert(b@.take(b@.len() as int) =~= b@);
    r
}

/// Sort distinct (key, index) pairs ascending, by key then index.
pub fn sort_pairs(v: &[(u16, usize)]) -> (r: Vec<(u16, usize)>)
    requires
        v@.no_duplicates(),
    ensures
        pairs_ordered(r@),
        r@.len() == v@.len(),
        forall|x: (u16, usize)| r@.contains(x) <==> v@.contains(x),
    decreases v@.len(),
{
    if v.len() <= 1 {
        let mut r: Vec<(u16, usize)> = Vec::new();
        if v.len() == 1 {
            r.push(v[0]);
            assert(r@ =~= v@);
        } else {
            assert(r@ =~= v@);
        }
        return r;
    }
    let mid = v.len() / 2;
    let left = slice_subrange(v, 0, mid);
    let right = slice_subrange(v, mid, v.len());
    proof {
        assert forall|i: int, j: int| 0 <= i < left@.len() && 0 <= j < left@.len() && i != j
            implies left@[i] != left@[j] by {
            assert(left@[i] == v@[i] && left@[j] == v@[j]);
        }
        assert forall|i: int, j: int| 0 <= i < right@.len() && 0 <= j < right@.len() && i != j
            implies right@[i] != right@[j] by {
            assert(right@[i] == v@[mid + i] && right@[j] == v@[mid + j]);
        }
    }
    let ls = sort_pairs(left);
    let rs = sort_pairs(right);
    proof {
        assert forall|x: (u16, usize)| !(ls@.contains(x) && rs@.contains(x)) by {
            if ls@.contains(x) && rs@.contains(x) {
                let p = choose|p: int| 0 <= p < left@.len() && left@[p] == x;
                let q = choose|q: int| 0 <= q < right@.len() && right@[q] == x;
                assert(v@[p] == v@[mid + q]);
            }
        }
    }
    let r = merge_pairs(&ls, &rs);
    proof {
        assert(v@ =~= left@ + right@);
        assert forall|x: (u16, usize)| r@.contains(x) <==> v@.contains(x) by {
            if v@.contains(x) {
                let p = choose|p: int| 0 <= p < v@.len() && v@[p] == x;
                if p < mid {
                    assert(left@[p] == x);
                } else {
                    assert(right@[p - mid] == x);
                }
            }
            if left@.contains(x) {
                let p = choose|p: int| 0 <= p < left@.len() && left@[p] == x;
                assert(v@[p] == x);
            }
            if right@.contains(x) {
                let p = choose|p: int| 0 <= p < right@.len() && right@[p] == x;
                assert(v@[mid + p] == x);
            }
        }
    }
    r
}

} // verus!
