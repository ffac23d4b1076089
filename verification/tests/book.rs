use known_chess::book::{Book, BookBuilder, BookError, MoveStat};
use known_chess::mv::EncodedMove;

#[test]
fn round_trip() {
    let mut b = BookBuilder::new();
    b.record(42, EncodedMove(100));
    b.record(42, EncodedMove(100));
    b.record(42, EncodedMove(200));
    b.record(7, EncodedMove(5));

    let bytes = b.into_bytes();
    let book = Book::open(bytes.as_slice()).unwrap();
    assert_eq!(book.position_count(), 2);

    let moves = book.lookup(42);
    assert_eq!(moves.len(), 2);
    // Most popular first.
    assert_eq!(moves[0], MoveStat { mv: EncodedMove(100), count: 2 });
    assert_eq!(moves[1], MoveStat { mv: EncodedMove(200), count: 1 });

    assert_eq!(book.lookup(7).len(), 1);
    assert!(book.lookup(999).is_empty());
}

#[test]
fn empty_builder_writes_header_only() {
    let b = BookBuilder::new();
    assert_eq!(b.position_count(), 0);
    let bytes = b.into_bytes();
    assert_eq!(bytes, b"KNCHESS1\x01\x00\x00\x00\x00\x00\x00\x00".to_vec());
    let book = Book::open(bytes.as_slice()).unwrap();
    assert_eq!(book.position_count(), 0);
    assert!(book.lookup(0).is_empty());
}

#[test]
fn exact_layout_of_one_position() {
    let mut b = BookBuilder::new();
    b.record(0x0102030405060708, EncodedMove(0x0a0b));
    let bytes = b.into_bytes();
    let mut want: Vec<u8> = b"KNCHESS1".to_vec();
    want.extend_from_slice(&[1, 0, 0, 0, 1, 0, 0, 0]);
    want.extend_from_slice(&[8, 7, 6, 5, 4, 3, 2, 1, 0, 0, 0, 0, 1, 0, 0, 0]);
    want.extend_from_slice(&[0x0b, 0x0a, 1, 0, 0, 0]);
    assert_eq!(bytes, want);
}

#[test]
fn ties_go_to_the_smaller_move_and_hashes_ascend() {
    let mut b = BookBuilder::new();
    b.record(9, EncodedMove(30));
    b.record(9, EncodedMove(10));
    b.record(9, EncodedMove(20));
    b.record(9, EncodedMove(20));
    b.record(3, EncodedMove(1));
    b.record(u64::MAX, EncodedMove(2));
    assert_eq!(b.position_count(), 3);
    let bytes = b.into_bytes();
    let book = Book::open(bytes.as_slice()).unwrap();
    assert_eq!(
        book.lookup(9),
        vec![
            MoveStat { mv: EncodedMove(20), count: 2 },
            MoveStat { mv: EncodedMove(10), count: 1 },
            MoveStat { mv: EncodedMove(30), count: 1 },
        ]
    );
    assert_eq!(book.lookup(3), vec![MoveStat { mv: EncodedMove(1), count: 1 }]);
    assert_eq!(book.lookup(u64::MAX), vec![MoveStat { mv: EncodedMove(2), count: 1 }]);
    assert!(book.lookup(4).is_empty());
    // The table is sorted ascending by hash.
    assert_eq!(&bytes[16..24], &3u64.to_le_bytes());
    assert_eq!(&bytes[32..40], &9u64.to_le_bytes());
    assert_eq!(&bytes[48..56], &u64::MAX.to_le_bytes());
}

#[test]
fn recording_order_does_not_change_the_book() {
    let mut a = BookBuilder::new();
    let mut b = BookBuilder::new();
    let plays: [(u64, u16); 6] = [(5, 1), (2, 7), (5, 1), (5, 3), (8, 1), (2, 7)];
    for (h, m) in plays.iter() {
        a.record(*h, EncodedMove(*m));
    }
    for (h, m) in plays.iter().rev() {
        b.record(*h, EncodedMove(*m));
    }
    assert_eq!(a.into_bytes(), b.into_bytes());
}

#[test]
fn open_reports_each_error() {
    assert_eq!(Book::open(&[0u8; 15]).err(), Some(BookError::Truncated));
    let mut bad = b"KNCHESS2".to_vec();
    bad.extend_from_slice(&[1, 0, 0, 0, 0, 0, 0, 0]);
    assert_eq!(Book::open(bad.as_slice()).err(), Some(BookError::BadMagic));
    let mut v2 = b"KNCHESS1".to_vec();
    v2.extend_from_slice(&[2, 0, 0, 0, 0, 0, 0, 0]);
    assert_eq!(Book::open(v2.as_slice()).err(), Some(BookError::Version(2)));
    let mut short = b"KNCHESS1".to_vec();
    short.extend_from_slice(&[1, 0, 0, 0, 1, 0, 0, 0]);
    short.extend_from_slice(&[0u8; 15]);
    assert_eq!(Book::open(short.as_slice()).err(), Some(BookError::Truncated));
}

#[test]
fn try_lookup_refuses_records_past_the_end() {
    let mut bytes = b"KNCHESS1".to_vec();
    bytes.extend_from_slice(&[1, 0, 0, 0, 1, 0, 0, 0]);
    bytes.extend_from_slice(&[5, 0, 0, 0, 0, 0, 0, 0, 0, 0, 0, 0, 2, 0, 0, 0]);
    bytes.extend_from_slice(&[1, 0, 1, 0, 0, 0]);
    let book = Book::open(bytes.as_slice()).unwrap();
    assert_eq!(book.try_lookup(5), None);
    assert_eq!(book.try_lookup(6), Some(vec![]));
}

#[test]
fn lookup_reads_a_hand_written_book() {
    let mut bytes = b"KNCHESS1".to_vec();
    bytes.extend_from_slice(&[1, 0, 0, 0, 2, 0, 0, 0]);
    bytes.extend_from_slice(&[1, 0, 0, 0, 0, 0, 0, 0, 6, 0, 0, 0, 1, 0, 0, 0]);
    bytes.extend_from_slice(&[9, 0, 0, 0, 0, 0, 0, 0, 0, 0, 0, 0, 1, 0, 0, 0]);
    bytes.extend_from_slice(&[0x34, 0x12, 7, 0, 0, 0]);
    bytes.extend_from_slice(&[0x78, 0x56, 0xff, 0xff, 0xff, 0xff]);
    let book = Book::open(bytes.as_slice()).unwrap();
    assert_eq!(book.position_count(), 2);
    assert_eq!(book.lookup(9), vec![MoveStat { mv: EncodedMove(0x1234), count: 7 }]);
    assert_eq!(book.lookup(1), vec![MoveStat { mv: EncodedMove(0x5678), count: u32::MAX }]);
}

#[test]
fn record_order_does_not_change_the_bytes() {
    let calls: [(u64, u16); 6] = [(42, 100), (7, 5), (42, 200), (42, 100), (9, 1), (7, 5)];
    let mut a = BookBuilder::new();
    for (h, m) in calls {
        a.record(h, EncodedMove(m));
    }
    let mut b = BookBuilder::new();
    for (h, m) in calls.iter().rev() {
        b.record(*h, EncodedMove(*m));
    }
    assert_eq!(a.into_bytes(), b.into_bytes());
}

#[test]
fn position_count_is_the_number_of_distinct_hashes() {
    let mut b = BookBuilder::new();
    assert_eq!(b.position_count(), 0);
    b.record(42, EncodedMove(100));
    assert_eq!(b.position_count(), 1);
    b.record(42, EncodedMove(200));
    b.record(42, EncodedMove(100));
    assert_eq!(b.position_count(), 1);
    b.record(7, EncodedMove(100));
    assert_eq!(b.position_count(), 2);
}
