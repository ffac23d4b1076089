//! The book's on-disk layout, stated as mathematics.
//!
//! ```text
//! magic    [u8; 8]  = b"KNCHESS1"
//! version  u32      = FORMAT_VERSION
//! count    u32      = number of position entries
//!
//! entry table  (count * 16 bytes, sorted ascending by hash)
//!   hash       u64
//!   moves_off  u32   byte offset into the moves blob
//!   moves_len  u16   number of move records at this position
//!   _pad       u16
//!
//! moves blob   (records of 6 bytes each)
//!   mv         u16   EncodedMove
//!   count      u32   number of games that played this move from here
//! ```
//! All integers are little-endian.
use vstd::prelude::*;
use vstd::bytes::*;
use crate::sort::pop_before;

verus! {

/// Length of the fixed header.
pub const HEADER_LEN: usize = 16;
/// Length of one entry of the entry table.
pub const ENTRY_LEN: usize = 16;
/// Length of one move record in the moves blob.
pub const MOVE_REC_LEN: usize = 6;
/// The format version this library reads and writes.
pub const FORMAT_VERSION: u32 = 1;

/// The eight magic bytes `KNCHESS1` that open every book.
pub open spec fn magic_seq() -> Seq<u8> {
    seq![0x4bu8, 0x4eu8, 0x43u8, 0x48u8, 0x45u8, 0x53u8, 0x53u8, 0x31u8]
}

/// The little-endian `u16` at byte offset `off`.
pub open spec fn le_u16_at(b: Seq<u8>, off: int) -> u16 {
    spec_u16_from_le_bytes(b.subrange(off, off + 2))
}

/// The little-endian `u32` at byte offset `off`.
pub open spec fn le_u32_at(b: Seq<u8>, off: int) -> u32 {
    spec_u32_from_le_bytes(b.subrange(off, off + 4))
}

/// The little-endian `u64` at byte offset `off`.
pub open spec fn le_u64_at(b: Seq<u8>, off: int) -> u64 {
    spec_u64_from_le_bytes(b.subrange(off, off + 8))
}

/// The version field of the header.
pub open spec fn header_version(b: Seq<u8>) -> u32 {
    le_u32_at(b, 8)
}

/// The entry count field of the header.
pub open spec fn header_count(b: Seq<u8>) -> u32 {
    le_u32_at(b, 12)
}

/// Where the moves blob starts: just past the entry table.
pub open spec fn blob_start(b: Seq<u8>) -> int {
    16 + 16 * header_count(b)
}

/// The hash of entry `i`.
pub open spec fn entry_hash_at(b: Seq<u8>, i: int) -> u64 {
    le_u64_at(b, 16 + 16 * i)
}

/// The blob offset of entry `i`'s move records.
pub open spec fn entry_moves_off(b: Seq<u8>, i: int) -> u32 {
    le_u32_at(b, 16 + 16 * i + 8)
}

/// The number of move records of entry `i`.
pub open spec fn entry_moves_len(b: Seq<u8>, i: int) -> u16 {
    le_u16_at(b, 16 + 16 * i + 12)
}

/// Where entry `i`'s move records start in the whole file.
pub open spec fn entry_records_start(b: Seq<u8>, i: int) -> int {
    blob_start(b) + entry_moves_off(b, i)
}

/// Whether entry `i`'s move records lie inside the file.
pub open spec fn entry_records_in_bounds(b: Seq<u8>, i: int) -> bool {
    entry_records_start(b, i) + 6 * entry_moves_len(b, i) <= b.len()
}

/// The binary search the reader performs over entries `lo..hi` for `h`.
///
/// On a table sorted strictly by hash this finds the entry holding `h`
/// exactly when there is one (see [`crate::book::lemma_search_sorted`]).
pub open spec fn search_entries(b: Seq<u8>, lo: int, hi: int, h: u64) -> Option<int>
    decreases hi - lo,
{
    if lo >= hi {
        None
    } else {
        let mid = (lo + hi) / 2;
        let e = entry_hash_at(b, mid);
        if e < h {
            search_entries(b, mid + 1, hi, h)
        } else if e > h {
            search_entries(b, lo, mid, h)
        } else {
            Some(mid)
        }
    }
}

/// The entry the reader finds for `h`, if any.
pub open spec fn find_entry_spec(b: Seq<u8>, h: u64) -> Option<int> {
    search_entries(b, 0, header_count(b) as int, h)
}


/// The counts a book holds: position hash to (packed move to games).
pub type Tally = Map<u64, Map<u16, u64>>;

/// A position as written: its hash and its `(move, count)` records in order.
pub type WrittenEntry = (u64, Seq<(u16, u64)>);

/// `rs` lists the moves of `moves` with their counts, most popular first,
/// ties broken by the smaller packed move.
pub open spec fn is_record_order(moves: Map<u16, u64>, rs: Seq<(u16, u64)>) -> bool {
    &&& forall|i: int, j: int| 0 <= i < j < rs.len() ==> pop_before(rs[i], rs[j])
    &&& forall|i: int| 0 <= i < rs.len() ==> moves.contains_key(#[trigger] rs[i].0) && moves[rs[i].0] == rs[i].1
    &&& forall|m: u16| #[trigger] moves.contains_key(m) ==> exists|i: int| 0 <= i < rs.len() && rs[i].0 == m
}

/// `es` lists the positions of `t` by ascending hash, each with its records
/// in record order.
pub open spec fn is_entry_order(t: Tally, es: Seq<WrittenEntry>) -> bool {
    &&& forall|i: int, j: int| 0 <= i < j < es.len() ==> es[i].0 < es[j].0
    &&& forall|i: int| 0 <= i < es.len() ==> t.contains_key(#[trigger] es[i].0) && is_record_order(t[es[i].0], es[i].1)
    &&& forall|h: u64| #[trigger] t.contains_key(h) ==> exists|i: int| 0 <= i < es.len() && es[i].0 == h
}

/// A count as the book stores it: capped at `u32::MAX`.
pub open spec fn saturate_u32(c: u64) -> u32 {
    if c > u32::MAX as u64 {
        u32::MAX
    } else {
        c as u32
    }
}

/// The six bytes of one move record.
pub open spec fn record_bytes(r: (u16, u64)) -> Seq<u8> {
    spec_u16_to_le_bytes(r.0) + spec_u32_to_le_bytes(saturate_u32(r.1))
}

/// The bytes of a run of move records.
pub open spec fn records_bytes(rs: Seq<(u16, u64)>) -> Seq<u8>
    decreases rs.len(),
{
    if rs.len() == 0 {
        Seq::empty()
    } else {
        records_bytes(rs.drop_last()) + record_bytes(rs.last())
    }
}

/// The moves blob: every entry's records, one after another.
pub open spec fn blob_bytes(es: Seq<WrittenEntry>) -> Seq<u8>
    decreases es.len(),
{
    if es.len() == 0 {
        Seq::empty()
    } else {
        blob_bytes(es.drop_last()) + records_bytes(es.last().1)
    }
}

/// The sixteen bytes of one entry-table row.
pub open spec fn entry_bytes(hash: u64, off: int, len: int) -> Seq<u8> {
    spec_u64_to_le_bytes(hash) + spec_u32_to_le_bytes(off as u32) + spec_u16_to_le_bytes(
        len as u16,
    ) + spec_u16_to_le_bytes(0)
}

/// The entry table: one row per entry, each pointing at its records.
pub open spec fn table_bytes(es: Seq<WrittenEntry>) -> Seq<u8>
    decreases es.len(),
{
    if es.len() == 0 {
        Seq::empty()
    } else {
        table_bytes(es.drop_last()) + entry_bytes(
            es.last().0,
            blob_bytes(es.drop_last()).len() as int,
            es.last().1.len() as int,
        )
    }
}

/// The sixteen header bytes for a book of `n` entries.
pub open spec fn header_bytes(n: int) -> Seq<u8> {
    magic_seq() + spec_u32_to_le_bytes(FORMAT_VERSION) + spec_u32_to_le_bytes(n as u32)
}

/// The whole book written for `es`.
pub open spec fn book_bytes(es: Seq<WrittenEntry>) -> Seq<u8> {
    header_bytes(es.len() as int) + table_bytes(es) + blob_bytes(es)
}

/// Every field of the book written for `es` holds its value without
/// truncation: the entry count fits a `u32`, each position's record count a
/// `u16`, and each offset into the moves blob a `u32`.
pub open spec fn fits_format(es: Seq<WrittenEntry>) -> bool {
    &&& es.len() <= u32::MAX
    &&& forall|i: int| 0 <= i < es.len() ==> (#[trigger] es[i]).1.len() <= u16::MAX
    &&& forall|i: int| 0 <= i < es.len() ==> #[trigger] blob_bytes(es.take(i)).len() <= u32::MAX
}


/// The integer encoders give two, four and eight bytes that decode back.
pub proof fn lemma_int_bytes()
    ensures
        forall|x: u16| #![trigger spec_u16_to_le_bytes(x)]
            spec_u16_to_le_bytes(x).len() == 2 && spec_u16_from_le_bytes(spec_u16_to_le_bytes(x)) == x,
        forall|x: u32| #![trigger spec_u32_to_le_bytes(x)]
            spec_u32_to_le_bytes(x).len() == 4 && spec_u32_from_le_bytes(spec_u32_to_le_bytes(x)) == x,
        forall|x: u64| #![trigger spec_u64_to_le_bytes(x)]
            spec_u64_to_le_bytes(x).len() == 8 && spec_u64_from_le_bytes(spec_u64_to_le_bytes(x)) == x,
{
    lemma_auto_spec_u16_to_from_le_bytes();
    lemma_auto_spec_u32_to_from_le_bytes();
    lemma_auto_spec_u64_to_from_le_bytes();
}

/// Record `j` of a run occupies bytes `6j..6j+6`.
pub proof fn lemma_records_layout(rs: Seq<(u16, u64)>)
    ensures
        records_bytes(rs).len() == 6 * rs.len(),
        forall|j: int| 0 <= j < rs.len() ==> records_bytes(rs).subrange(6 * j, 6 * j + 6)
            == record_bytes(#[trigger] rs[j]),
    decreases rs.len(),
{
    lemma_int_bytes();
    if rs.len() > 0 {
        let p = rs.drop_last();
        lemma_records_layout(p);
        let a = records_bytes(p);
        let b = record_bytes(rs.last());
        assert(records_bytes(rs) == a + b);
        assert forall|j: int| 0 <= j < rs.len() implies records_bytes(rs).subrange(6 * j, 6 * j + 6)
            == record_bytes(#[trigger] rs[j]) by {
            if j < p.len() {
                assert(p[j] == rs[j]);
                assert((a + b).subrange(6 * j, 6 * j + 6) =~= a.subrange(6 * j, 6 * j + 6));
            } else {
                assert((a + b).subrange(6 * j, 6 * j + 6) =~= b);
            }
        }
    }
}

/// Where entry `i`'s records start in the blob.
pub open spec fn blob_offset(es: Seq<WrittenEntry>, i: int) -> int {
    blob_bytes(es.take(i)).len() as int
}

/// Appending entry `i` to the first `i` entries appends its records.
pub proof fn lemma_blob_step(es: Seq<WrittenEntry>, i: int)
    requires
        0 <= i < es.len(),
    ensures
        blob_bytes(es.take(i + 1)) == blob_bytes(es.take(i)) + records_bytes(es[i].1),
{
    assert(es.take(i + 1).drop_last() =~= es.take(i));
    assert(es.take(i + 1).last() == es[i]);
}

/// The blob of the first `k` entries is a prefix of the whole blob.
pub proof fn lemma_blob_prefix(es: Seq<WrittenEntry>, k: int)
    requires
        0 <= k <= es.len(),
    ensures
        blob_offset(es, k) <= blob_bytes(es).len(),
        blob_bytes(es).subrange(0, blob_offset(es, k)) == blob_bytes(es.take(k)),
    decreases es.len() - k,
{
    if k == es.len() {
        assert(es.take(k) =~= es);
        assert(blob_bytes(es).subrange(0, blob_bytes(es).len() as int) =~= blob_bytes(es));
    } else {
        lemma_blob_prefix(es, k + 1);
        lemma_blob_step(es, k);
        let whole = blob_bytes(es);
        let big = blob_bytes(es.take(k + 1));
        let small = blob_bytes(es.take(k));
        assert(whole.subrange(0, big.len() as int) == big);
        assert(whole.subrange(0, small.len() as int) =~= big.subrange(0, small.len() as int));
        assert(big.subrange(0, small.len() as int) =~= small);
    }
}

/// Entry `i`'s records sit at its offset in the blob.
pub proof fn lemma_blob_entry(es: Seq<WrittenEntry>, i: int)
    requires
        0 <= i < es.len(),
    ensures
        blob_offset(es, i + 1) == blob_offset(es, i) + 6 * es[i].1.len(),
        blob_offset(es, i + 1) <= blob_bytes(es).len(),
        blob_bytes(es).subrange(blob_offset(es, i), blob_offset(es, i) + 6 * es[i].1.len())
            == records_bytes(es[i].1),
{
    lemma_blob_step(es, i);
    lemma_blob_prefix(es, i + 1);
    lemma_records_layout(es[i].1);
    let whole = blob_bytes(es);
    let big = blob_bytes(es.take(i + 1));
    let small = blob_bytes(es.take(i));
    let o = small.len() as int;
    assert(whole.subrange(o, o + 6 * es[i].1.len()) =~= big.subrange(o, o + 6 * es[i].1.len()));
    assert(big.subrange(o, o + 6 * es[i].1.len()) =~= records_bytes(es[i].1));
}

/// Row `i` of the entry table occupies bytes `16i..16i+16` and points at
/// entry `i`'s records.
pub proof fn lemma_table_layout(es: Seq<WrittenEntry>)
    ensures
        table_bytes(es).len() == 16 * es.len(),
        forall|i: int| 0 <= i < es.len() ==> table_bytes(es).subrange(16 * i, 16 * i + 16)
            == entry_bytes((#[trigger] es[i]).0, blob_offset(es, i), es[i].1.len() as int),
    decreases es.len(),
{
    lemma_int_bytes();
    if es.len() > 0 {
        let p = es.drop_last();
        let n = es.len() - 1;
        lemma_table_layout(p);
        let a = table_bytes(p);
        let b = entry_bytes(es.last().0, blob_bytes(p).len() as int, es.last().1.len() as int);
        assert(table_bytes(es) == a + b);
        assert(b.len() == 16);
        assert forall|i: int| 0 <= i < es.len() implies table_bytes(es).subrange(16 * i, 16 * i + 16)
            == entry_bytes((#[trigger] es[i]).0, blob_offset(es, i), es[i].1.len() as int) by {
            if i < n {
                assert(p[i] == es[i]);
                assert(es.take(i) =~= p.take(i));
                assert((a + b).subrange(16 * i, 16 * i + 16) =~= a.subrange(16 * i, 16 * i + 16));
            } else {
                assert(es.take(i) =~= p);
                assert((a + b).subrange(16 * i, 16 * i + 16) =~= b);
            }
        }
    }
}

} // verus!
