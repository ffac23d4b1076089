use known_chess::book::{Book, BookBuilder};
use known_chess::chess::Chess;
use known_chess::mv::{EncodedMove, LegalMove};
use known_chess::serve::{
    answer_lookup, match_game, parse_game, prepare_identify, ExplorerBody, ExplorerGame,
    ExplorerMove, ExplorerPlayer, IdentifyError, LookupError,
};
use known_chess::zobrist::position_hash;

const START: &str = "rnbqkbnr/pppppppp/8/8/8/8/PPPPPPPP/RNBQKBNR w KQkq - 0 1";

#[test]
fn lookup_answers_with_uci_san_and_total() {
    let start = position_hash(&Chess::default());
    let e2e4 = EncodedMove::encode(&LegalMove { from: Some(12), to: 28, promotion: None });
    let g1f3 = EncodedMove::encode(&LegalMove { from: Some(6), to: 21, promotion: None });
    let mut b = BookBuilder::new();
    b.record(start, e2e4);
    b.record(start, e2e4);
    b.record(start, g1f3);
    b.record(start, EncodedMove(12 | (36 << 6)));
    let bytes = b.into_bytes();
    let book = Book::open(bytes.as_slice()).unwrap();
    let answer = answer_lookup(&book, START).unwrap();
    assert_eq!(answer.total, 4);
    assert_eq!(answer.moves.len(), 2);
    assert_eq!(answer.moves[0].uci, "e2e4");
    assert_eq!(answer.moves[0].san, "e4");
    assert_eq!(answer.moves[0].count, 2);
    assert_eq!(answer.moves[1].uci, "g1f3");
    assert_eq!(answer.moves[1].san, "Nf3");

    let other = answer_lookup(&book, "8/8/8/8/8/8/8/K6k w - - 0 1").unwrap();
    assert_eq!(other.total, 0);
    assert!(other.moves.is_empty());
}

#[test]
fn lookup_rejects_bad_fen() {
    let bytes = BookBuilder::new().into_bytes();
    let book = Book::open(bytes.as_slice()).unwrap();
    assert_eq!(answer_lookup(&book, "hello").err(), Some(LookupError::InvalidFen));
    assert_eq!(
        answer_lookup(&book, "8/8/8/8/8/8/8/8 w - - 0 1").err(),
        Some(LookupError::IllegalPosition)
    );
}

fn ucis(moves: &[&str]) -> Vec<String> {
    moves.iter().map(|m| m.to_string()).collect()
}

#[test]
fn identify_query_for_a_line() {
    assert_eq!(prepare_identify(&[]).err(), Some(IdentifyError::BadLength));
    let long: Vec<String> = vec!["e2e4".to_string(); 1025];
    assert_eq!(prepare_identify(&long).err(), Some(IdentifyError::BadLength));

    let q = prepare_identify(&ucis(&["e2e4", "e7e5"])).unwrap();
    assert_eq!(q.fen, "rnbqkbnr/pppppppp/8/8/4P3/8/PPPP1PPP/RNBQKBNR b KQkq - 0 1");
    assert_eq!(q.target, "e7e5");
    assert_eq!(q.winner, None);

    let q = prepare_identify(&ucis(&["f2f3", "e7e5", "g2g4", "d8h4"])).unwrap();
    assert_eq!(q.target, "d8h4");
    assert_eq!(q.winner, Some("black".to_string()));

    let q = prepare_identify(&ucis(&["e2e4"])).unwrap();
    assert_eq!(q.fen, START);
    assert_eq!(q.target, "e2e4");

    assert_eq!(prepare_identify(&ucis(&["e2e5"])).err(), Some(IdentifyError::IllegalMove));
    assert_eq!(
        prepare_identify(&ucis(&["e2e4", "e7e5", "e1e3"])).err(),
        Some(IdentifyError::IllegalMove)
    );
}

#[test]
fn identify_anchors_at_the_explorer_depth() {
    // A knight dance long enough to pass the explorer's depth.
    let dance = ["g1f3", "g8f6", "f3g1", "f6g8"];
    let moves: Vec<String> = (0..60).map(|i| dance[i % 4].to_string()).collect();
    let q = prepare_identify(&moves).unwrap();
    assert_eq!(q.target, moves[49]);
    assert_eq!(q.winner, None);
}

fn player(name: Option<&str>, rating: Option<u64>) -> ExplorerPlayer {
    ExplorerPlayer { name: name.map(str::to_string), rating }
}

fn game(id: Option<&str>, uci: Option<&str>, winner: Option<&str>) -> ExplorerGame {
    ExplorerGame {
        id: id.map(str::to_string),
        uci: uci.map(str::to_string),
        white: player(Some("alice"), Some(1500)),
        black: player(Some("bob"), Some((1u64 << 32) + 7)),
        winner: winner.map(str::to_string),
        speed: Some("blitz".to_string()),
        month: Some("2013-01".to_string()),
    }
}

fn null_game() -> ExplorerGame {
    ExplorerGame {
        id: None,
        uci: None,
        white: player(None, None),
        black: player(None, None),
        winner: None,
        speed: None,
        month: None,
    }
}

#[test]
fn parse_game_needs_id_and_players() {
    let g = parse_game(&game(Some("abc"), None, Some("white")), true).unwrap();
    assert_eq!(g.id, "abc");
    assert_eq!(g.white.name, "alice");
    assert_eq!(g.white.rating, Some(1500));
    assert_eq!(g.black.rating, Some(7));
    assert_eq!(g.winner, Some("white".to_string()));
    assert!(g.exact);
    assert!(parse_game(&null_game(), true).is_none());
    let mut no_black = game(Some("abc"), None, None);
    no_black.black.name = None;
    assert!(parse_game(&no_black, false).is_none());
}

#[test]
fn match_game_prefers_the_move_entry_then_a_single_candidate() {
    let entry = |uci: &str, n: u64, g: ExplorerGame| ExplorerMove {
        uci: Some(uci.to_string()),
        white: Some(n),
        draws: None,
        black: Some(0),
        game: g,
    };
    let body = ExplorerBody {
        moves: Some(vec![entry("d2d4", 1, null_game()), entry("e2e4", 1, game(Some("g1"), None, None))]),
        recent_games: None,
        top_games: None,
    };
    let g = match_game(&body, "e2e4", None).unwrap();
    assert_eq!(g.id, "g1");
    assert!(g.exact);
    assert!(match_game(&body, "c2c4", None).is_none());

    let body = ExplorerBody {
        moves: Some(vec![entry("e2e4", 3, null_game())]),
        recent_games: Some(vec![
            game(Some("r1"), Some("e2e4"), Some("white")),
            game(Some("r2"), Some("d2d4"), Some("black")),
        ]),
        top_games: Some(vec![game(Some("t1"), Some("e2e4"), Some("black"))]),
    };
    let g = match_game(&body, "e2e4", Some("black")).unwrap();
    assert_eq!(g.id, "t1");
    assert!(!g.exact);
    assert_eq!(match_game(&body, "e2e4", Some("white")).unwrap().id, "r1");
    assert!(match_game(&body, "e2e4", None).is_none());

    let body = ExplorerBody {
        moves: Some(vec![entry("e2e4", 2, null_game())]),
        recent_games: Some(vec![
            game(Some("r1"), Some("e2e4"), None),
            game(Some("r2"), Some("e2e4"), None),
        ]),
        top_games: None,
    };
    assert!(match_game(&body, "e2e4", None).is_none());
    let none = ExplorerBody { moves: None, recent_games: None, top_games: None };
    assert!(match_game(&none, "e2e4", None).is_none());
}
