use known_chess::chess::{Chess, START_FEN};
use known_chess::mv::{canonical_index, canonical_legal, EncodedMove, LegalMove, Role};
use known_chess::zobrist::position_hash;

#[test]
fn canonical_index_round_trips() {
    let pos = Chess::default();
    let legal = canonical_legal(&pos);
    assert_eq!(legal.len(), 20);
    for (i, mv) in legal.iter().enumerate() {
        assert_eq!(canonical_index(&pos, mv), Some(i as u8));
    }
    // Sorted by encoding means strictly increasing packed values.
    let encodings: Vec<u16> = legal.iter().map(|m| EncodedMove::encode(m).0).collect();
    assert!(encodings.windows(2).all(|w| w[0] < w[1]));
}

#[test]
fn encode_packs_squares_and_promotion() {
    // e2 = 12, e4 = 28.
    let e2e4 = LegalMove { from: Some(12), to: 28, promotion: None };
    let e = EncodedMove::encode(&e2e4);
    assert_eq!(e.0, 12 | (28 << 6));
    assert_eq!(e.from_sq(), 12);
    assert_eq!(e.to_sq(), 28);
    assert_eq!(e.promotion(), None);

    // a7a8=Q: a7 = 48, a8 = 56, queen = 5.
    let promo = LegalMove { from: Some(48), to: 56, promotion: Some(Role::Queen) };
    let p = EncodedMove::encode(&promo);
    assert_eq!(p.0, 48 | (56 << 6) | (5 << 12));
    assert_eq!(p.from_sq(), 48);
    assert_eq!(p.to_sq(), 56);
    assert_eq!(p.promotion(), Some(Role::Queen));
    let k = EncodedMove::encode(&LegalMove { from: Some(63), to: 0, promotion: Some(Role::Knight) });
    assert_eq!(k.promotion(), Some(Role::Knight));
    assert_eq!(EncodedMove(7 << 12).promotion(), None);
}

#[test]
fn resolve_finds_the_legal_move() {
    let pos = Chess::default();
    let e2e4 = LegalMove { from: Some(12), to: 28, promotion: None };
    assert_eq!(EncodedMove::encode(&e2e4).resolve(&pos), Some(e2e4));
    // e2e5 is not legal from the start.
    let e2e5 = EncodedMove(12 | (36 << 6));
    assert_eq!(e2e5.resolve(&pos), None);
    for mv in pos.legal_moves() {
        assert_eq!(EncodedMove::encode(&mv).resolve(&pos), Some(mv));
    }
}

#[test]
fn canonical_index_of_an_illegal_move_is_none() {
    let pos = Chess::default();
    let e2e5 = LegalMove { from: Some(12), to: 36, promotion: None };
    assert_eq!(canonical_index(&pos, &e2e5), None);
    // Nb1-a3 (1 -> 16) packs smallest, so it comes first; a2a3 (8 -> 16) next.
    let b1a3 = LegalMove { from: Some(1), to: 16, promotion: None };
    let a2a3 = LegalMove { from: Some(8), to: 16, promotion: None };
    assert_eq!(canonical_legal(&pos)[0], b1a3);
    assert_eq!(canonical_index(&pos, &b1a3), Some(0));
    assert_eq!(canonical_index(&pos, &a2a3), Some(1));
}

#[test]
fn start_position_fen_and_hash() {
    let pos = Chess::default();
    assert_eq!(pos.fen(), START_FEN);
    assert_eq!(position_hash(&pos), 0x463b96181691fc9c);
    assert!(Chess::from_fen("not a fen").is_none());
    let same = Chess::from_fen(START_FEN).unwrap();
    assert_eq!(position_hash(&same), 0x463b96181691fc9c);
}

#[test]
fn playing_moves_changes_the_position() {
    let pos = Chess::default();
    let after = pos.play_uci("e2e4").unwrap();
    assert_eq!(after.fen(), "rnbqkbnr/pppppppp/8/8/4P3/8/PPPP1PPP/RNBQKBNR b KQkq - 0 1");
    assert!(!after.white_to_move());
    assert!(pos.play_uci("e2e5").is_none());
    assert!(pos.play_uci("zz").is_none());
    assert_ne!(position_hash(&after), position_hash(&pos));
    let mut mate = Chess::default();
    for u in ["f2f3", "e7e5", "g2g4", "d8h4"] {
        mate = mate.play_uci(u).unwrap();
    }
    assert!(mate.is_checkmate());
    assert!(mate.white_to_move());
}

#[test]
fn canonical_packings_ascend_after_moves() {
    let mut pos = Chess::default();
    for u in ["e2e4", "d7d5", "e4d5", "g8f6"] {
        pos = pos.play_uci(u).unwrap();
    }
    let legal = canonical_legal(&pos);
    assert_eq!(legal.len(), pos.legal_moves().len());
    let encodings: Vec<u16> = legal.iter().map(|m| EncodedMove::encode(m).0).collect();
    assert!(encodings.windows(2).all(|w| w[0] < w[1]));
    for (i, mv) in legal.iter().enumerate() {
        assert_eq!(canonical_index(&pos, mv), Some(i as u8));
    }
}

#[test]
fn turn_field_decides_the_side_to_move() {
    let black = Chess::from_fen("rnbqkbnr/pppppppp/8/8/4P3/8/PPPP1PPP/RNBQKBNR_b_KQkq_-_0_1").unwrap();
    assert!(!black.white_to_move());
    let white = Chess::from_fen("rnbqkbnr/pppppppp/8/8/8/8/PPPPPPPP/RNBQKBNR").unwrap();
    assert!(white.white_to_move());
    let spaced = Chess::from_fen("  rnbqkbnr/pppppppp/8/8/4P3/8/PPPP1PPP/RNBQKBNR   b KQkq - 0 1").unwrap();
    assert!(!spaced.white_to_move());
}
