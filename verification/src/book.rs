//! The position book: accumulate move counts, write the book, read it back.
//!
//! Lookup is a binary search over the fixed-width entry table, with no
//! allocation beyond the returned records and no deserialization up front.
use vstd::prelude::*;
use vstd::bytes::*;
use vstd::slice::slice_subrange;
use vstd::std_specs::iter::IteratorSpec;
use crate::format::{
    blob_start, entry_hash_at, entry_moves_len, entry_records_in_bounds, entry_records_start,
    find_entry_spec, header_count, header_version, le_u16_at, le_u32_at, le_u64_at, magic_seq,
    search_entries, ENTRY_LEN, FORMAT_VERSION, HEADER_LEN, MOVE_REC_LEN, Tally, WrittenEntry,
    is_entry_order, is_record_order, book_bytes, header_bytes, table_bytes, blob_bytes,
    records_bytes, record_bytes, entry_bytes, saturate_u32, fits_format, blob_offset,
    lemma_int_bytes, lemma_records_layout, lemma_blob_entry, lemma_table_layout,
    entry_moves_off,
};
use crate::sort::{records_ordered, distinct_moves, strictly_ascending, pop_before};
use crate::mv::EncodedMove;
use vstd::multiset::Multiset;

verus! {

/// One move played from a position, with how many games chose it.
#[derive(Debug, Clone, Copy, PartialEq, Eq, Structural)]
pub struct MoveStat {
    pub mv: EncodedMove,
    pub count: u32,
}

/// Why a byte buffer is not a readable book.
#[derive(Debug, Clone, Copy, PartialEq, Eq, Structural)]
pub enum BookError {
    /// Not a known-chess book (bad magic).
    BadMagic,
    /// Unsupported book format version.
    Version(u32),
    /// The book file is truncated.
    Truncated,
}

/// The error `Book::open` reports for `b`, or `None` when `b` opens.
pub open spec fn open_error(b: Seq<u8>) -> Option<BookError> {
    if b.len() < 16 {
        Some(BookError::Truncated)
    } else if b.subrange(0, 8) != magic_seq() {
        Some(BookError::BadMagic)
    } else if header_version(b) != FORMAT_VERSION {
        Some(BookError::Version(header_version(b)))
    } else if b.len() < blob_start(b) {
        Some(BookError::Truncated)
    } else {
        None
    }
}

/// The records the reader decodes for entry `i`.
pub open spec fn entry_records(b: Seq<u8>, i: int) -> Seq<MoveStat> {
    let base = entry_records_start(b, i);
    Seq::new(
        entry_moves_len(b, i) as nat,
        |j: int|
            MoveStat {
                mv: EncodedMove(le_u16_at(b, base + 6 * j)),
                count: le_u32_at(b, base + 6 * j + 2),
            },
    )
}

/// What a lookup of `h` gives back: the records of the entry found, or none.
pub open spec fn lookup_spec(b: Seq<u8>, h: u64) -> Seq<MoveStat> {
    match find_entry_spec(b, h) {
        Some(i) => entry_records(b, i),
        None => Seq::empty(),
    }
}

/// Whether a lookup of `h` reads only bytes inside the book.
pub open spec fn lookup_in_bounds(b: Seq<u8>, h: u64) -> bool {
    match find_entry_spec(b, h) {
        Some(i) => entry_records_in_bounds(b, i),
        None => true,
    }
}

fn push_u16(out: &mut Vec<u8>, x: u16)
    ensures
        final(out)@ == old(out)@ + spec_u16_to_le_bytes(x),
{
    let mut b = u16_to_le_bytes(x);
    out.append(&mut b);
}

fn push_u32(out: &mut Vec<u8>, x: u32)
    ensures
        final(out)@ == old(out)@ + spec_u32_to_le_bytes(x),
{
    let mut b = u32_to_le_bytes(x);
    out.append(&mut b);
}

fn push_u64(out: &mut Vec<u8>, x: u64)
    ensures
        final(out)@ == old(out)@ + spec_u64_to_le_bytes(x),
{
    let mut b = u64_to_le_bytes(x);
    out.append(&mut b);
}

/// A search over `lo..hi` lands inside `lo..hi`.
pub proof fn lemma_search_in_range(b: Seq<u8>, lo: int, hi: int, h: u64)
    ensures
        search_entries(b, lo, hi, h) matches Some(i) ==> lo <= i < hi,
    decreases hi - lo,
{
    if lo < hi {
        let mid = (lo + hi) / 2;
        lemma_search_in_range(b, mid + 1, hi, h);
        lemma_search_in_range(b, lo, mid, h);
    }
}

/// A read-only view over a serialized book.
///
/// Borrows the backing bytes (typically an `mmap`), so construction is just
/// header validation.
pub struct Book<'a> {
    bytes: &'a [u8],
    count: usize,
    moves_blob_start: usize,
}

fn read_u16(buf: &[u8], off: usize) -> (r: u16)
    requires
        off + 2 <= buf.len(),
    ensures
        r == le_u16_at(buf@, off as int),
{
    u16_from_le_bytes(slice_subrange(buf, off, off + 2))
}

fn read_u32(buf: &[u8], off: usize) -> (r: u32)
    requires
        off + 4 <= buf.len(),
    ensures
        r == le_u32_at(buf@, off as int),
{
    u32_from_le_bytes(slice_subrange(buf, off, off + 4))
}

fn read_u64(buf: &[u8], off: usize) -> (r: u64)
    requires
        off + 8 <= buf.len(),
    ensures
        r == le_u64_at(buf@, off as int),
{
    u64_from_le_bytes(slice_subrange(buf, off, off + 8))
}

impl<'a> Book<'a> {
    /// The bytes the book reads.
    pub closed spec fn view_bytes(&self) -> Seq<u8> {
        self.bytes@
    }

    #[verifier::type_invariant]
    spec fn inv(&self) -> bool {
        &&& open_error(self.bytes@) is None
        &&& self.count == header_count(self.bytes@)
        &&& self.moves_blob_start == blob_start(self.bytes@)
    }

    /// Validate the header of `bytes` and wrap them.
    pub fn open(bytes: &'a [u8]) -> (res: Result<Self, BookError>)
        ensures
            res is Ok <==> open_error(bytes@) is None,
            res matches Ok(book) ==> book.view_bytes() == bytes@,
            res matches Err(e) ==> open_error(bytes@) == Some(e),
    {
        let buf = bytes;
        if buf.len() < HEADER_LEN {
            return Err(BookError::Truncated);
        }
        let magic: [u8; 8] = [0x4b, 0x4e, 0x43, 0x48, 0x45, 0x53, 0x53, 0x31];
        let mut i: usize = 0;
        while i < 8
            invariant
                i <= 8,
                buf@ == bytes@,
                buf@.len() >= 16,
                magic@ == magic_seq(),
                forall|j: int| 0 <= j < i ==> buf@[j] == magic_seq()[j],
            decreases 8 - i,
        {
            if buf[i] != magic[i] {
                proof {
                    assert(magic@[i as int] == magic_seq()[i as int]);
                    assert(buf@.subrange(0, 8)[i as int] != magic_seq()[i as int]);
                    assert(buf@.subrange(0, 8) != magic_seq());
                }
                return Err(BookError::BadMagic);
            }
            i = i + 1;
        }
        assert(buf@.subrange(0, 8) =~= magic_seq());
        let version = read_u32(buf, 8);
        if version != FORMAT_VERSION {
            return Err(BookError::Version(version));
        }
        let count32 = read_u32(buf, 12);
        let needed: u64 = 16 + (count32 as u64) * 16;
        if (buf.len() as u64) < needed {
            return Err(BookError::Truncated);
        }
        let count = count32 as usize;
        let moves_blob_start = 16 + count * 16;
        Ok(Book { bytes, count, moves_blob_start })
    }

    /// The number of positions in the book.
    pub fn position_count(&self) -> (n: usize)
        ensures
            n == header_count(self.view_bytes()),
    {
        proof {
            use_type_invariant(self);
        }
        self.count
    }

    /// Look up the moves played from `hash`, most popular first. Returns an
    /// empty vec for an unknown position.
    pub fn lookup(&self, hash: u64) -> (r: Vec<MoveStat>)
        requires
            lookup_in_bounds(self.view_bytes(), hash),
        ensures
            r@ == lookup_spec(self.view_bytes(), hash),
    {
        match self.find_entry(hash) {
            Some(idx) => {
                proof {
                    lemma_search_in_range(self.view_bytes(), 0, header_count(self.view_bytes()) as int, hash);
                }
                self.read_moves(idx)
            },
            None => Vec::new(),
        }
    }

    /// Look up the moves played from `hash`, or `None` when the entry found
    /// points outside the book (a lookup there would read past its end).
    pub fn try_lookup(&self, hash: u64) -> (r: Option<Vec<MoveStat>>)
        ensures
            r is Some <==> lookup_in_bounds(self.view_bytes(), hash),
            r matches Some(v) ==> v@ == lookup_spec(self.view_bytes(), hash),
    {
        proof {
            use_type_invariant(self);
        }
        match self.find_entry(hash) {
            Some(idx) => {
                proof {
                    lemma_search_in_range(self.view_bytes(), 0, header_count(self.view_bytes()) as int, hash);
                }
                let buf = self.bytes;
                let off = HEADER_LEN + idx * ENTRY_LEN;
                let moves_off = read_u32(buf, off + 8) as u64;
                let moves_len = read_u16(buf, off + 12) as u64;
                let end: u64 = self.moves_blob_start as u64 + moves_off + 6 * moves_len;
                if end <= buf.len() as u64 {
                    Some(self.read_moves(idx))
                } else {
                    None
                }
            },
            None => Some(Vec::new()),
        }
    }

    fn entry_hash(&self, idx: usize) -> (h: u64)
        requires
            idx < header_count(self.view_bytes()),
        ensures
            h == entry_hash_at(self.view_bytes(), idx as int),
    {
        proof {
            use_type_invariant(self);
        }
        let off = HEADER_LEN + idx * ENTRY_LEN;
        read_u64(self.bytes, off)
    }

    fn find_entry(&self, hash: u64) -> (r: Option<usize>)
        ensures
            r matches Some(i) ==> find_entry_spec(self.view_bytes(), hash) == Some(i as int),
            r is None ==> find_entry_spec(self.view_bytes(), hash) is None,
    {
        proof {
            use_type_invariant(self);
        }
        let mut lo: usize = 0;
        let mut hi: usize = self.count;
        while lo < hi
            invariant
                lo <= hi <= self.count,
                self.count == header_count(self.view_bytes()),
                self.count * 16 + 16 <= self.view_bytes().len(),
                search_entries(self.view_bytes(), lo as int, hi as int, hash)
                    == find_entry_spec(self.view_bytes(), hash),
            decreases hi - lo,
        {
            let mid = lo + (hi - lo) / 2;
            assert(mid == (lo + hi) / 2);
            let e = self.entry_hash(mid);
            if e < hash {
                lo = mid + 1;
            } else if e > hash {
                hi = mid;
            } else {
                return Some(mid);
            }
        }
        None
    }

    fn read_moves(&self, idx: usize) -> (r: Vec<MoveStat>)
        requires
            idx < header_count(self.view_bytes()),
            entry_records_in_bounds(self.view_bytes(), idx as int),
        ensures
            r@ == entry_records(self.view_bytes(), idx as int),
    {
        proof {
            use_type_invariant(self);
        }
        let buf = self.bytes;
        let off = HEADER_LEN + idx * ENTRY_LEN;
        let moves_off = read_u32(buf, off + 8) as usize;
        let moves_len = read_u16(buf, off + 12) as usize;
        assert(buf@.len() == buf.len());
        let base = self.moves_blob_start + moves_off;
        let ghost spec_recs = entry_records(buf@, idx as int);
        let mut out: Vec<MoveStat> = Vec::new();
        let mut i: usize = 0;
        while i < moves_len
            invariant
                i <= moves_len,
                moves_len == spec_recs.len(),
                spec_recs == entry_records(buf@, idx as int),
                base == entry_records_start(buf@, idx as int),
                base + 6 * moves_len <= buf.len(),
                out@ == spec_recs.subrange(0, i as int),
            decreases moves_len - i,
        {
            let r = base + i * MOVE_REC_LEN;
            let mv = read_u16(buf, r);
            let count = read_u32(buf, r + 2);
            let stat = MoveStat { mv: EncodedMove(mv), count };
            assert(stat == spec_recs[i as int]);
            out.push(stat);
            proof {
                assert(out@ =~= spec_recs.subrange(0, i + 1));
            }
            i = i + 1;
        }
        assert(out@ =~= spec_recs);
        out
    }
}

} // verus!

verus! {

broadcast use vstd::std_specs::hash::group_hash_axioms;

/// How many games recorded `mv` from `hash` so far.
pub open spec fn tally_count(t: Tally, hash: u64, mv: u16) -> u64 {
    if t.contains_key(hash) && t[hash].contains_key(mv) {
        t[hash][mv]
    } else {
        0
    }
}

/// The tally after one more game played `mv` from `hash`.
pub open spec fn tally_record(t: Tally, hash: u64, mv: u16) -> Tally {
    let moves = if t.contains_key(hash) { t[hash] } else { Map::empty() };
    t.insert(hash, moves.insert(mv, (tally_count(t, hash, mv) + 1) as u64))
}

/// Accumulates positions and move counts, then serializes the book.
///
/// The processor walks every game, and for each ply records "from this
/// position, this move was played" via [`BookBuilder::record`].
pub struct BookBuilder {
    positions: std::collections::HashMap<u64, std::collections::HashMap<u16, u64>>,
}

impl Default for BookBuilder {
    /// An empty builder.
    fn default() -> (b: Self)
        ensures
            b.tally() == Tally::empty(),
    {
        BookBuilder::new()
    }
}

impl BookBuilder {
    /// The counts recorded so far.
    pub closed spec fn tally(&self) -> Tally {
        self.positions@.map_values(|m: std::collections::HashMap<u16, u64>| m@)
    }

    /// An empty builder.
    pub fn new() -> (b: Self)
        ensures
            b.tally() == Tally::empty(),
            b.tally().dom().finite(),
    {
        let b = BookBuilder { positions: std::collections::HashMap::new() };
        assert(b.tally() =~= Tally::empty());
        b
    }

    /// Record that `mv` was played from the position with the given `hash`.
    pub fn record(&mut self, hash: u64, mv: EncodedMove)
        requires
            tally_count(old(self).tally(), hash, mv.0) < u64::MAX,
        ensures
            final(self).tally() == tally_record(old(self).tally(), hash, mv.0),
            final(self).tally().dom().finite(),
            final(self).tally().dom().len() == old(self).tally().dom().len() + if old(
                self,
            ).tally().contains_key(hash) {
                0int
            } else {
                1int
            },
    {
        let ghost t = self.tally();
        assert(t.dom() =~= self.positions@.dom());
        let mut moves = match self.positions.remove(&hash) {
            Some(m) => m,
            None => std::collections::HashMap::new(),
        };
        let c: u64 = match moves.get(&mv.0) {
            Some(c) => *c,
            None => 0,
        };
        moves.insert(mv.0, c + 1);
        self.positions.insert(hash, moves);
        assert(self.tally() =~= tally_record(t, hash, mv.0));
        assert(self.tally().dom() =~= t.dom().insert(hash));
    }

    /// The number of distinct positions recorded.
    pub fn position_count(&self) -> (n: usize)
        ensures
            n == self.tally().dom().len(),
            self.tally().dom().finite(),
    {
        assert(self.tally().dom() =~= self.positions@.dom());
        self.positions.len()
    }

    fn sorted_records(moves: &std::collections::HashMap<u16, u64>) -> (r: Vec<(u16, u64)>)
        ensures
            crate::sort::records_ordered(r@),
            crate::sort::distinct_moves(r@),
            r@.len() == moves@.dom().len(),
            forall|x: (u16, u64)| r@.contains(x) <==> (moves@.contains_key(x.0) && moves@[x.0] == x.1),
    {
        let ghost all = vstd::std_specs::hash::spec_hash_map_iter(moves).remaining();
        let mut recs: Vec<(u16, u64)> = Vec::new();
        for kv in it: moves.iter()
            invariant
                it.seq() == all,
                recs@.len() == it.index(),
                forall|i: int| 0 <= i < recs@.len() ==> recs@[i] == (*all[i].0, *all[i].1),
        {
            recs.push((*kv.0, *kv.1));
        }
        assert(all.len() == moves@.dom().len());
        assert forall|x: (u16, u64)| recs@.contains(x) <==> (moves@.contains_key(x.0) && moves@[x.0] == x.1) by {
            if recs@.contains(x) {
                let i = choose|i: int| 0 <= i < recs@.len() && recs@[i] == x;
                assert(moves@.contains_key(*all[i].0));
            }
            if moves@.contains_key(x.0) && moves@[x.0] == x.1 {
                let k = x.0;
                assert(all.contains((&k, &moves@[k])));
                let i = choose|i: int| 0 <= i < all.len() && all[i] == (&k, &moves@[k]);
                assert(recs@[i] == x);
            }
        }
        assert(recs@.no_duplicates()) by {
            assert forall|i: int, j: int| 0 <= i < recs@.len() && 0 <= j < recs@.len() && i != j
                implies recs@[i] != recs@[j] by {
                assert(moves@.contains_key(*all[i].0));
                assert(moves@.contains_key(*all[j].0));
                if recs@[i] == recs@[j] {
                    assert(all[i] == all[j]);
                }
            }
        }
        let r = crate::sort::sort_records(recs.as_slice());
        assert forall|i: int, j: int| 0 <= i < j < r@.len() implies r@[i].0 != r@[j].0 by {
            assert(r@.contains(r@[i]));
            assert(r@.contains(r@[j]));
            assert(recs@.contains(r@[i]));
            assert(recs@.contains(r@[j]));
            assert(moves@[r@[i].0] == r@[i].1);
            assert(moves@[r@[j].0] == r@[j].1);
            assert(crate::sort::pop_before(r@[i], r@[j]));
        }
        r
    }

    /// Serialize the accumulated data into the on-disk format: the positions
    /// by ascending hash, each position's moves most popular first.
    pub fn into_bytes(self) -> (bytes: Vec<u8>)
        ensures
            exists|es: Seq<WrittenEntry>| is_entry_order(self.tally(), es) && bytes@ == book_bytes(es),
    {
        let hashes = self.sorted_hashes();
        let count = hashes.len();
        let mut out: Vec<u8> = Vec::new();
        let magic: [u8; 8] = [0x4b, 0x4e, 0x43, 0x48, 0x45, 0x53, 0x53, 0x31];
        let mut k: usize = 0;
        while k < 8
            invariant
                k <= 8,
                magic@ == magic_seq(),
                out@ == magic_seq().take(k as int),
            decreases 8 - k,
        {
            out.push(magic[k]);
            assert(out@ =~= magic_seq().take(k + 1));
            k = k + 1;
        }
        push_u32(&mut out, FORMAT_VERSION);
        push_u32(&mut out, count as u32);
        assert(out@ =~= header_bytes(count as int));

        let mut blob: Vec<u8> = Vec::new();
        let ghost mut es: Seq<WrittenEntry> = Seq::empty();
        let mut i: usize = 0;
        while i < count
            invariant
                i <= count,
                count == hashes@.len(),
                es.len() == i,
                strictly_ascending(hashes@),
                forall|h: u64| hashes@.contains(h) <==> self.tally().contains_key(h),
                out@ == header_bytes(count as int) + table_bytes(es),
                blob@ == blob_bytes(es),
                forall|j: int| 0 <= j < i ==> (#[trigger] es[j]).0 == hashes@[j]
                    && is_record_order(self.tally()[hashes@[j]], es[j].1),
            decreases count - i,
        {
            let h = hashes[i];
            assert(hashes@.contains(h));
            assert(self.positions@.contains_key(h));
            let moves = match self.positions.get(&h) {
                Some(m) => m,
                None => {
                    assert(false);
                    return Vec::new();
                }
            };
            let recs = Self::sorted_records(moves);
            let moves_off = blob.len() as u32;
            let moves_len = recs.len() as u16;
            push_u64(&mut out, h);
            push_u32(&mut out, moves_off);
            push_u16(&mut out, moves_len);
            push_u16(&mut out, 0);
            let ghost blob_before = blob@;
            let mut j: usize = 0;
            while j < recs.len()
                invariant
                    j <= recs@.len(),
                    blob@ == blob_before + records_bytes(recs@.take(j as int)),
                decreases recs@.len() - j,
            {
                let (mv, cnt) = recs[j];
                push_u16(&mut blob, mv);
                let capped: u32 = if cnt > u32::MAX as u64 { u32::MAX } else { cnt as u32 };
                push_u32(&mut blob, capped);
                proof {
                    assert(recs@.take(j + 1).drop_last() =~= recs@.take(j as int));
                    assert(recs@.take(j + 1).last() == recs@[j as int]);
                    assert(capped == saturate_u32(cnt));
                    assert(blob@ =~= blob_before + records_bytes(recs@.take(j + 1)));
                }
                j = j + 1;
            }
            proof {
                assert(recs@.take(recs@.len() as int) =~= recs@);
                let e: WrittenEntry = (h, recs@);
                let es2 = es.push(e);
                assert(es2.drop_last() =~= es);
                assert(es2.last() == e);
                assert(out@ =~= header_bytes(count as int) + table_bytes(es2));
                assert(blob@ =~= blob_bytes(es2));
                assert(moves@ == self.tally()[h]);
                assert forall|x: int| 0 <= x < recs@.len() implies moves@.contains_key(#[trigger] recs@[x].0)
                    && moves@[recs@[x].0] == recs@[x].1 by {
                    assert(recs@.contains(recs@[x]));
                }
                assert forall|m: u16| #[trigger] moves@.contains_key(m) implies exists|x: int| 0 <= x < recs@.len() && recs@[x].0 == m by {
                    assert(recs@.contains((m, moves@[m])));
                }
                assert(is_record_order(self.tally()[h], recs@));
                es = es2;
            }
            i = i + 1;
        }
        out.append(&mut blob);
        proof {
            assert(is_entry_order(self.tally(), es)) by {
                assert forall|h: u64| #[trigger] self.tally().contains_key(h) implies exists|x: int| 0 <= x < es.len() && es[x].0 == h by {
                    assert(hashes@.contains(h));
                    let x = choose|x: int| 0 <= x < hashes@.len() && hashes@[x] == h;
                    assert(es[x].0 == h);
                }
                assert forall|x: int| 0 <= x < es.len() implies self.tally().contains_key(#[trigger] es[x].0)
                    && is_record_order(self.tally()[es[x].0], es[x].1) by {
                    assert(hashes@.contains(hashes@[x]));
                }
            }
            assert(out@ =~= book_bytes(es));
        }
        out
    }

    fn sorted_hashes(&self) -> (r: Vec<u64>)
        ensures
            crate::sort::strictly_ascending(r@),
            forall|h: u64| r@.contains(h) <==> self.tally().contains_key(h),
    {
        let ghost all = vstd::std_specs::hash::spec_keys_iter(&self.positions).remaining();
        let mut keys: Vec<u64> = Vec::new();
        for k in it: self.positions.keys()
            invariant
                it.seq() == all,
                keys@.len() == it.index(),
                forall|i: int| 0 <= i < keys@.len() ==> keys@[i] == *all[i],
        {
            keys.push(*k);
        }
        assert(keys@ =~= all.unref());
        assert(all.unref().to_set() == self.positions@.dom());
        assert(keys@.no_duplicates());
        let r = crate::sort::sort_keys(keys.as_slice());
        assert forall|h: u64| r@.contains(h) <==> self.tally().contains_key(h) by {
            assert(keys@.to_set().contains(h) <==> keys@.contains(h));
        }
        r
    }
}

} // verus!

verus! {

/// The records a lookup hands out for written records `rs`: each count
/// capped at `u32::MAX`.
pub open spec fn record_stats(rs: Seq<(u16, u64)>) -> Seq<MoveStat> {
    rs.map_values(|r: (u16, u64)| MoveStat { mv: EncodedMove(r.0), count: saturate_u32(r.1) })
}

/// On a table sorted strictly by hash, the search finds `h` exactly when
/// some entry in `lo..hi` holds it.
pub proof fn lemma_search_sorted(b: Seq<u8>, lo: int, hi: int, h: u64)
    requires
        forall|i: int, j: int| lo <= i < j < hi ==> entry_hash_at(b, i) < entry_hash_at(b, j),
    ensures
        search_entries(b, lo, hi, h) matches Some(k) ==> lo <= k < hi && entry_hash_at(b, k) == h,
        search_entries(b, lo, hi, h) is None ==> forall|k: int| lo <= k < hi ==> entry_hash_at(b, k) != h,
    decreases hi - lo,
{
    if lo < hi {
        let mid = (lo + hi) / 2;
        lemma_search_sorted(b, mid + 1, hi, h);
        lemma_search_sorted(b, lo, mid, h);
        let e = entry_hash_at(b, mid);
        if e < h {
            assert forall|k: int| lo <= k <= mid implies entry_hash_at(b, k) != h by {
                if k < mid {
                    assert(entry_hash_at(b, k) < entry_hash_at(b, mid));
                }
            }
        } else if e > h {
            assert forall|k: int| mid <= k < hi implies entry_hash_at(b, k) != h by {
                if k > mid {
                    assert(entry_hash_at(b, mid) < entry_hash_at(b, k));
                }
            }
        }
    }
}

/// Two record orders of the same moves are the same sequence.
pub proof fn lemma_record_order_unique(m: Map<u16, u64>, rs1: Seq<(u16, u64)>, rs2: Seq<(u16, u64)>)
    requires
        is_record_order(m, rs1),
        is_record_order(m, rs2),
    ensures
        rs1 == rs2,
    decreases rs1.len(),
{
    if rs1.len() == 0 {
        if rs2.len() > 0 {
            assert(m.contains_key(rs2[0].0));
        }
        assert(rs1 =~= rs2);
    } else if rs2.len() == 0 {
        assert(m.contains_key(rs1[0].0));
    } else {
        let a = rs1[0];
        let b = rs2[0];
        assert(m.contains_key(a.0));
        assert(m.contains_key(b.0));
        if a != b {
            let i = choose|i: int| 0 <= i < rs1.len() && rs1[i].0 == b.0;
            let j = choose|j: int| 0 <= j < rs2.len() && rs2[j].0 == a.0;
            assert(rs1[i] == b);
            assert(rs2[j] == a);
            assert(i != 0);
            assert(j != 0);
            assert(pop_before(a, b));
            assert(pop_before(b, a));
        }
        let k = a.0;
        let m2 = m.remove(k);
        let t1 = rs1.drop_first();
        let t2 = rs2.drop_first();
        assert forall|x: int| 0 <= x < t1.len() implies m2.contains_key(#[trigger] t1[x].0) && m2[t1[x].0] == t1[x].1 by {
            assert(rs1[x + 1] == t1[x]);
            assert(pop_before(rs1[0], rs1[x + 1]));
            assert(m.contains_key(rs1[x + 1].0));
        }
        assert forall|x: int| 0 <= x < t2.len() implies m2.contains_key(#[trigger] t2[x].0) && m2[t2[x].0] == t2[x].1 by {
            assert(rs2[x + 1] == t2[x]);
            assert(pop_before(rs2[0], rs2[x + 1]));
            assert(m.contains_key(rs2[x + 1].0));
        }
        assert forall|mv: u16| #[trigger] m2.contains_key(mv) implies exists|x: int| 0 <= x < t1.len() && t1[x].0 == mv by {
            assert(m.contains_key(mv));
            let x = choose|x: int| 0 <= x < rs1.len() && rs1[x].0 == mv;
            assert(x != 0);
            assert(t1[x - 1].0 == mv);
        }
        assert forall|mv: u16| #[trigger] m2.contains_key(mv) implies exists|x: int| 0 <= x < t2.len() && t2[x].0 == mv by {
            assert(m.contains_key(mv));
            let x = choose|x: int| 0 <= x < rs2.len() && rs2[x].0 == mv;
            assert(x != 0);
            assert(t2[x - 1].0 == mv);
        }
        assert forall|x: int, y: int| 0 <= x < y < t1.len() implies pop_before(t1[x], t1[y]) by {
            assert(t1[x] == rs1[x + 1] && t1[y] == rs1[y + 1]);
        }
        assert forall|x: int, y: int| 0 <= x < y < t2.len() implies pop_before(t2[x], t2[y]) by {
            assert(t2[x] == rs2[x + 1] && t2[y] == rs2[y + 1]);
        }
        lemma_record_order_unique(m2, t1, t2);
        assert(t1 == t2);
        assert(rs1.len() == t1.len() + 1);
        assert(rs2.len() == t2.len() + 1);
        assert(rs1 =~= rs2) by {
            assert forall|x: int| 0 <= x < rs1.len() implies rs1[x] == rs2[x] by {
                if x > 0 {
                    assert(rs1[x] == t1[x - 1]);
                    assert(rs2[x] == t2[x - 1]);
                }
            }
        }
    }
}

proof fn lemma_sub_sub(b: Seq<u8>, x: int, k: int, lo: int, hi: int)
    requires
        0 <= x,
        x + k <= b.len(),
        0 <= lo <= hi <= k,
    ensures
        b.subrange(x + lo, x + hi) == b.subrange(x, x + k).subrange(lo, hi),
{
    assert(b.subrange(x + lo, x + hi) =~= b.subrange(x, x + k).subrange(lo, hi));
}

/// Two entry orders of the same tally are the same sequence: the book
/// written from a tally depends only on the counts, not on the order in
/// which they were recorded or stored.
pub proof fn lemma_entry_order_unique(t: Tally, es1: Seq<WrittenEntry>, es2: Seq<WrittenEntry>)
    requires
        is_entry_order(t, es1),
        is_entry_order(t, es2),
    ensures
        es1 == es2,
    decreases es1.len(),
{
    if es1.len() == 0 {
        if es2.len() > 0 {
            assert(t.contains_key(es2[0].0));
        }
        assert(es1 =~= es2);
    } else if es2.len() == 0 {
        assert(t.contains_key(es1[0].0));
    } else {
        let a = es1[0];
        let b = es2[0];
        assert(t.contains_key(a.0));
        assert(t.contains_key(b.0));
        let i = choose|i: int| 0 <= i < es1.len() && es1[i].0 == b.0;
        let j = choose|j: int| 0 <= j < es2.len() && es2[j].0 == a.0;
        if i > 0 {
            assert(es1[0].0 < es1[i].0);
            if j > 0 {
                assert(es2[0].0 < es2[j].0);
            }
        }
        if j > 0 {
            assert(es2[0].0 < es2[j].0);
        }
        assert(a.0 == b.0);
        lemma_record_order_unique(t[a.0], a.1, b.1);
        let k = a.0;
        let t2 = t.remove(k);
        let r1 = es1.drop_first();
        let r2 = es2.drop_first();
        assert forall|x: int, y: int| 0 <= x < y < r1.len() implies r1[x].0 < r1[y].0 by {
            assert(r1[x] == es1[x + 1] && r1[y] == es1[y + 1]);
        }
        assert forall|x: int, y: int| 0 <= x < y < r2.len() implies r2[x].0 < r2[y].0 by {
            assert(r2[x] == es2[x + 1] && r2[y] == es2[y + 1]);
        }
        assert forall|x: int| 0 <= x < r1.len() implies t2.contains_key(#[trigger] r1[x].0)
            && is_record_order(t2[r1[x].0], r1[x].1) by {
            assert(r1[x] == es1[x + 1]);
            assert(es1[0].0 < es1[x + 1].0);
        }
        assert forall|x: int| 0 <= x < r2.len() implies t2.contains_key(#[trigger] r2[x].0)
            && is_record_order(t2[r2[x].0], r2[x].1) by {
            assert(r2[x] == es2[x + 1]);
            assert(es2[0].0 < es2[x + 1].0);
        }
        assert forall|h: u64| #[trigger] t2.contains_key(h) implies exists|x: int| 0 <= x < r1.len() && r1[x].0 == h by {
            let x = choose|x: int| 0 <= x < es1.len() && es1[x].0 == h;
            assert(x != 0);
            assert(r1[x - 1].0 == h);
        }
        assert forall|h: u64| #[trigger] t2.contains_key(h) implies exists|x: int| 0 <= x < r2.len() && r2[x].0 == h by {
            let x = choose|x: int| 0 <= x < es2.len() && es2[x].0 == h;
            assert(x != 0);
            assert(r2[x - 1].0 == h);
        }
        lemma_entry_order_unique(t2, r1, r2);
        assert(es1 =~= es2) by {
            assert forall|x: int| 0 <= x < es1.len() implies es1[x] == es2[x] by {
                if x > 0 {
                    assert(es1[x] == r1[x - 1] && es2[x] == r2[x - 1]);
                }
            }
        }
    }
}

/// The header and table fields of the book written for `es` read back as
/// written.
proof fn lemma_written_fields(es: Seq<WrittenEntry>, i: int)
    requires
        fits_format(es),
        0 <= i < es.len(),
    ensures
        entry_hash_at(book_bytes(es), i) == es[i].0,
        entry_moves_off(book_bytes(es), i) == blob_offset(es, i),
        entry_moves_len(book_bytes(es), i) == es[i].1.len(),
{
    let b = book_bytes(es);
    let row = entry_bytes(es[i].0, blob_offset(es, i), es[i].1.len() as int);
    let x = 16 + 16 * i;
    assert(b.len() >= 16 + 16 * es.len() && b.subrange(x, x + 16) == row) by {
        lemma_table_layout(es);
        lemma_int_bytes();
        let tb = table_bytes(es);
        assert(header_bytes(es.len() as int).len() == 16);
        assert(tb.subrange(16 * i, 16 * i + 16) == row);
        assert(b.subrange(x, x + 16) =~= tb.subrange(16 * i, 16 * i + 16));
    }
    let h8 = spec_u64_to_le_bytes(es[i].0);
    let o4 = spec_u32_to_le_bytes(blob_offset(es, i) as u32);
    let l2 = spec_u16_to_le_bytes(es[i].1.len() as u16);
    assert(b.subrange(x, x + 8) == h8) by {
        lemma_int_bytes();
        lemma_sub_sub(b, x, 16, 0, 8);
        assert(row.subrange(0, 8) =~= h8);
    }
    assert(b.subrange(x + 8, x + 12) == o4) by {
        lemma_int_bytes();
        lemma_sub_sub(b, x, 16, 8, 12);
        assert(row.subrange(8, 12) =~= o4);
    }
    assert(b.subrange(x + 12, x + 14) == l2) by {
        lemma_int_bytes();
        lemma_sub_sub(b, x, 16, 12, 14);
        assert(row.subrange(12, 14) =~= l2);
    }
    assert(blob_offset(es, i) <= u32::MAX);
    assert(es[i].1.len() <= u16::MAX);
    lemma_int_bytes();
}

/// The book written for `es` opens and counts its entries.
proof fn lemma_written_header(es: Seq<WrittenEntry>)
    requires
        fits_format(es),
    ensures
        open_error(book_bytes(es)) is None,
        header_count(book_bytes(es)) == es.len(),
        book_bytes(es).len() == 16 + 16 * es.len() + blob_bytes(es).len(),
{
    lemma_int_bytes();
    lemma_table_layout(es);
    let b = book_bytes(es);
    let hd = header_bytes(es.len() as int);
    assert(b.subrange(0, 8) =~= magic_seq());
    assert(b.subrange(8, 12) =~= spec_u32_to_le_bytes(FORMAT_VERSION));
    assert(b.subrange(12, 16) =~= spec_u32_to_le_bytes(es.len() as u32));
}

/// The records of entry `i` of the book written for `es` lie inside the book
/// and read back as written.
proof fn lemma_written_records(es: Seq<WrittenEntry>, i: int)
    requires
        fits_format(es),
        0 <= i < es.len(),
    ensures
        entry_records_in_bounds(book_bytes(es), i),
        entry_records(book_bytes(es), i) == record_stats(es[i].1),
{
    lemma_int_bytes();
    lemma_written_header(es);
    lemma_written_fields(es, i);
    lemma_blob_entry(es, i);
    let rs = es[i].1;
    lemma_records_layout(rs);
    let b = book_bytes(es);
    let n = es.len() as int;
    let o = blob_offset(es, i);
    let bl = blob_bytes(es);
    let rb = records_bytes(rs);
    assert(bl.subrange(o, o + 6 * rs.len()) == rb);
    let base = 16 + 16 * n + o;
    assert(entry_records_start(b, i) == base);
    assert(b =~= (header_bytes(n) + table_bytes(es)) + bl);
    let got = entry_records(b, i);
    let want = record_stats(rs);
    assert(got.len() == want.len());
    assert forall|j: int| 0 <= j < rs.len() implies got[j] == want[j] by {
        let rec = record_bytes(rs[j]);
        assert(rb.subrange(6 * j, 6 * j + 6) == rec);
        assert(b.subrange(base + 6 * j, base + 6 * j + 2) =~= rec.subrange(0, 2));
        assert(rec.subrange(0, 2) =~= spec_u16_to_le_bytes(rs[j].0));
        assert(b.subrange(base + 6 * j + 2, base + 6 * j + 2 + 4) =~= rec.subrange(2, 6));
        assert(rec.subrange(2, 6) =~= spec_u32_to_le_bytes(saturate_u32(rs[j].1)));
    }
    assert(got =~= want);
}

/// A book written from a tally reads back that tally.
///
/// It opens without error, holds one entry per recorded position, every
/// lookup stays inside the book, a position never recorded has no moves, and
/// a recorded position gives back its moves most popular first (ties by the
/// smaller packed move), each with its game count capped at `u32::MAX`.
pub proof fn lemma_round_trip(t: Tally, es: Seq<WrittenEntry>)
    requires
        is_entry_order(t, es),
        fits_format(es),
    ensures
        open_error(book_bytes(es)) is None,
        header_count(book_bytes(es)) == t.dom().len(),
        forall|h: u64| lookup_in_bounds(book_bytes(es), h),
        forall|h: u64| !t.contains_key(h) ==> lookup_spec(book_bytes(es), h) == Seq::<MoveStat>::empty(),
        forall|h: u64, rs: Seq<(u16, u64)>| t.contains_key(h) && is_record_order(t[h], rs)
            ==> lookup_spec(book_bytes(es), h) == record_stats(rs),
{
    let b = book_bytes(es);
    let n = es.len() as int;
    lemma_written_header(es);
    assert forall|i: int| 0 <= i < n implies entry_hash_at(b, i) == es[i].0 by {
        lemma_written_fields(es, i);
    }
    let ks = es.map_values(|e: WrittenEntry| e.0);
    assert(ks.no_duplicates());
    assert(ks.to_set() =~= t.dom()) by {
        assert forall|h: u64| ks.to_set().contains(h) <==> t.dom().contains(h) by {
            if t.contains_key(h) {
                let i = choose|i: int| 0 <= i < es.len() && es[i].0 == h;
                assert(ks[i] == h);
            }
            if ks.contains(h) {
                let i = choose|i: int| 0 <= i < ks.len() && ks[i] == h;
                assert(t.contains_key(es[i].0));
            }
        }
    }
    ks.unique_seq_to_set();
    assert(header_count(b) == t.dom().len());
    assert forall|h: u64| lookup_in_bounds(b, h)
        && (!t.contains_key(h) ==> lookup_spec(b, h) == Seq::<MoveStat>::empty())
        && (forall|rs: Seq<(u16, u64)>| t.contains_key(h) && is_record_order(t[h], rs)
            ==> lookup_spec(b, h) == record_stats(rs)) by {
        lemma_search_sorted(b, 0, n, h);
        match find_entry_spec(b, h) {
            Some(k) => {
                lemma_written_records(es, k);
                assert(es[k].0 == h);
                assert forall|rs: Seq<(u16, u64)>| t.contains_key(h) && is_record_order(t[h], rs)
                    implies lookup_spec(b, h) == record_stats(rs) by {
                    lemma_record_order_unique(t[h], rs, es[k].1);
                }
            },
            None => {
                if t.contains_key(h) {
                    let i = choose|i: int| 0 <= i < es.len() && es[i].0 == h;
                    assert(entry_hash_at(b, i) == h);
                }
            },
        }
    }
}

/// The tally that the calls `record(hash, mv)` in `calls`, in order, build
/// from an empty builder.
pub open spec fn tally_of(calls: Seq<(u64, u16)>) -> Tally
    decreases calls.len(),
{
    if calls.len() == 0 {
        Tally::empty()
    } else {
        tally_record(tally_of(calls.drop_last()), calls.last().0, calls.last().1)
    }
}

/// The tally that the number of calls per `(hash, mv)` determines: every
/// hash with a recorded move, every such move with its number of calls.
pub open spec fn tally_of_counts(c: Multiset<(u64, u16)>) -> Tally {
    Map::new(
        |h: u64| exists|m: u16| c.count((h, m)) > 0,
        |h: u64| Map::new(|m: u16| c.count((h, m)) > 0, |m: u16| c.count((h, m)) as u64),
    )
}

/// The hashes that `calls` record.
pub open spec fn recorded_hashes(calls: Seq<(u64, u16)>) -> Set<u64> {
    calls.map_values(|c: (u64, u16)| c.0).to_set()
}

proof fn lemma_tally_of_counts(calls: Seq<(u64, u16)>)
    requires
        calls.len() <= u64::MAX,
    ensures
        tally_of(calls) == tally_of_counts(calls.to_multiset()),
    decreases calls.len(),
{
    broadcast use vstd::seq_lib::group_to_multiset_ensures;
    broadcast use vstd::multiset::group_multiset_axioms;

    if calls.len() == 0 {
        assert(calls.to_multiset() =~= Multiset::<(u64, u16)>::empty());
        assert(tally_of_counts(calls.to_multiset()) =~= Tally::empty());
    } else {
        let pre = calls.drop_last();
        let x = calls.last();
        lemma_tally_of_counts(pre);
        assert(calls =~= pre.push(x));
        let c0 = pre.to_multiset();
        let c1 = calls.to_multiset();
        assert(c1 =~= c0.insert(x));
        assert(c0.count(x) <= c0.len());
        let t0 = tally_of(pre);
        let t1 = tally_of(calls);
        let f = tally_of_counts(c1);
        assert forall|h: u64| #[trigger] t1.contains_key(h) <==> f.contains_key(h) by {
            if h == x.0 {
                assert(c1.count(x) > 0);
            } else if t0.contains_key(h) {
                let m = choose|m: u16| c0.count((h, m)) > 0;
                assert(c1.count((h, m)) > 0);
            } else if f.contains_key(h) {
                let m = choose|m: u16| c1.count((h, m)) > 0;
                assert(c0.count((h, m)) > 0);
            }
        }
        assert forall|h: u64| #[trigger] t1.contains_key(h) implies t1[h] =~= f[h] by {
            if h == x.0 {
                assert forall|m: u16| #[trigger] t1[h].contains_key(m) <==> f[h].contains_key(m) by {
                    if m != x.1 && t0.contains_key(h) && t0[h].contains_key(m) {
                        assert(c0.count((h, m)) > 0);
                    }
                }
            } else {
                assert(t0.contains_key(h));
            }
        }
        assert(t1 =~= f);
    }
}

/// Recording builds a tally that depends only on how often each
/// `(hash, mv)` was recorded; so two builders that recorded the same calls
/// in any order hold the same tally and write the same bytes.
pub proof fn lemma_record_order_irrelevant(
    calls1: Seq<(u64, u16)>,
    calls2: Seq<(u64, u16)>,
    es1: Seq<WrittenEntry>,
    es2: Seq<WrittenEntry>,
)
    requires
        calls1.len() <= u64::MAX,
        calls1.to_multiset() == calls2.to_multiset(),
        is_entry_order(tally_of(calls1), es1),
        is_entry_order(tally_of(calls2), es2),
    ensures
        tally_of(calls1) == tally_of(calls2),
        book_bytes(es1) == book_bytes(es2),
{
    broadcast use vstd::seq_lib::group_to_multiset_ensures;

    assert(calls2.len() == calls1.len()) by {
        assert(calls1.to_multiset().len() == calls1.len());
        assert(calls2.to_multiset().len() == calls2.len());
    }
    lemma_tally_of_counts(calls1);
    lemma_tally_of_counts(calls2);
    lemma_entry_order_unique(tally_of(calls1), es1, es2);
}

/// The positions a builder counts are the distinct hashes it was given:
/// after the calls `record(hash, mv)` in `calls` from an empty builder, the
/// tally's hashes are exactly those of `calls`, so `position_count` is their
/// number.
pub proof fn lemma_recorded_positions(calls: Seq<(u64, u16)>)
    requires
        calls.len() <= u64::MAX,
    ensures
        tally_of(calls).dom() == recorded_hashes(calls),
        tally_of(calls).dom().finite(),
        tally_of(calls).dom().len() == recorded_hashes(calls).len(),
{
    broadcast use vstd::seq_lib::group_to_multiset_ensures;

    lemma_tally_of_counts(calls);
    let hs = calls.map_values(|c: (u64, u16)| c.0);
    let c = calls.to_multiset();
    assert forall|h: u64| #[trigger] tally_of(calls).contains_key(h) <==> hs.to_set().contains(h) by {
        if tally_of(calls).contains_key(h) {
            let m = choose|m: u16| c.count((h, m)) > 0;
            assert(calls.contains((h, m)));
            let i = choose|i: int| 0 <= i < calls.len() && calls[i] == (h, m);
            assert(hs[i] == h);
            assert(hs.contains(h));
        }
        if hs.to_set().contains(h) {
            assert(hs.contains(h));
            let i = choose|i: int| 0 <= i < hs.len() && hs[i] == h;
            assert(calls.contains(calls[i]));
            assert(c.count((h, calls[i].1)) > 0);
        }
    }
    assert(tally_of(calls).dom() =~= recorded_hashes(calls));
    vstd::seq_lib::seq_to_set_is_finite(hs);
}

/// A book written from the calls `record(hash, mv)` in `calls` reads them
/// back: it opens, holds one entry per distinct hash, every lookup stays
/// inside the book, a hash never recorded has no moves, and a recorded hash
/// gives back each move recorded from it exactly once, with its number of
/// calls capped at `u32::MAX`.
pub proof fn lemma_round_trip_calls(calls: Seq<(u64, u16)>, es: Seq<WrittenEntry>)
    requires
        calls.len() <= u64::MAX,
        is_entry_order(tally_of(calls), es),
        fits_format(es),
    ensures
        open_error(book_bytes(es)) is None,
        header_count(book_bytes(es)) == recorded_hashes(calls).len(),
        forall|h: u64| lookup_in_bounds(book_bytes(es), h),
        forall|h: u64|
            #[trigger] lookup_spec(book_bytes(es), h).len() == 0 <==> !recorded_hashes(calls).contains(h),
        forall|h: u64, m: u16, n: u32|
            #[trigger] lookup_spec(book_bytes(es), h).contains(MoveStat { mv: EncodedMove(m), count: n })
                <==> calls.to_multiset().count((h, m)) > 0 && n == saturate_u32(
                calls.to_multiset().count((h, m)) as u64,
            ),
        forall|h: u64, i: int, j: int|
            0 <= i < j < lookup_spec(book_bytes(es), h).len() ==> #[trigger] lookup_spec(
                book_bytes(es),
                h,
            )[i].mv != #[trigger] lookup_spec(book_bytes(es), h)[j].mv,
{
    let t = tally_of(calls);
    let b = book_bytes(es);
    let c = calls.to_multiset();
    lemma_tally_of_counts(calls);
    lemma_recorded_positions(calls);
    lemma_round_trip(t, es);
    assert forall|h: u64| t.contains_key(h) implies exists|k: int|
        0 <= k < es.len() && es[k].0 == h && #[trigger] lookup_spec(b, h) == record_stats(es[k].1)
        && is_record_order(t[h], es[k].1) by {
        let k = choose|k: int| 0 <= k < es.len() && es[k].0 == h;
        assert(t.contains_key(es[k].0));
    }
    assert forall|h: u64| #[trigger] lookup_spec(b, h).len() == 0 <==> !recorded_hashes(calls).contains(h) by {
        if t.contains_key(h) {
            let k = choose|k: int|
                0 <= k < es.len() && es[k].0 == h && #[trigger] lookup_spec(b, h) == record_stats(es[k].1)
                && is_record_order(t[h], es[k].1);
            let m = choose|m: u16| c.count((h, m)) > 0;
            assert(t[h].contains_key(m));
            let i = choose|i: int| 0 <= i < es[k].1.len() && es[k].1[i].0 == m;
            assert(lookup_spec(b, h).len() > 0);
        }
    }
    assert forall|h: u64, m: u16, n: u32|
        #[trigger] lookup_spec(b, h).contains(MoveStat { mv: EncodedMove(m), count: n })
            <==> c.count((h, m)) > 0 && n == saturate_u32(c.count((h, m)) as u64) by {
        let s = MoveStat { mv: EncodedMove(m), count: n };
        if t.contains_key(h) {
            let k = choose|k: int|
                0 <= k < es.len() && es[k].0 == h && #[trigger] lookup_spec(b, h) == record_stats(es[k].1)
                && is_record_order(t[h], es[k].1);
            let rs = es[k].1;
            if lookup_spec(b, h).contains(s) {
                let i = choose|i: int| 0 <= i < rs.len() && record_stats(rs)[i] == s;
                assert(t[h].contains_key(rs[i].0));
            }
            if c.count((h, m)) > 0 && n == saturate_u32(c.count((h, m)) as u64) {
                assert(t[h].contains_key(m));
                let i = choose|i: int| 0 <= i < rs.len() && rs[i].0 == m;
                assert(t[h].contains_key(rs[i].0));
                assert(record_stats(rs)[i] == s);
            }
        } else {
            if c.count((h, m)) > 0 {
                assert(t.contains_key(h));
            }
        }
    }
    assert forall|h: u64, i: int, j: int| 0 <= i < j < lookup_spec(b, h).len() implies #[trigger] lookup_spec(
        b,
        h,
    )[i].mv != #[trigger] lookup_spec(b, h)[j].mv by {
        if t.contains_key(h) {
            let k = choose|k: int|
                0 <= k < es.len() && es[k].0 == h && #[trigger] lookup_spec(b, h) == record_stats(es[k].1)
                && is_record_order(t[h], es[k].1);
            let rs = es[k].1;
            assert(pop_before(rs[i], rs[j]));
            assert(t[h].contains_key(rs[i].0) && t[h].contains_key(rs[j].0));
        }
    }
}

} // verus!
