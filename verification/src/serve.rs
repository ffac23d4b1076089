//! The server's decisions: answering a position lookup from the book, and
//! identifying the real game behind a played-out line from the answer of
//! the lichess opening explorer. HTTP, JSON and the explorer request itself
//! live outside this library.
use vstd::prelude::*;
use crate::book::{Book, MoveStat, lookup_in_bounds, lookup_spec};
use crate::chess::{
    Chess, fen_parses, legal_position, legal_moves_of, uci_text, san_text, zobrist_of, after_uci,
    checkmated, white_to_move, turn_field, START_FEN,
};
use crate::mv::{first_match, lemma_first_match_range, resolve_index};
use crate::zobrist::position_hash;

verus! {

/// A known continuation: the move as UCI (for the client engine) and SAN
/// (for display), and how many games played it.
#[derive(Debug)]
pub struct KnownMove {
    pub uci: String,
    pub san: String,
    pub count: u64,
}

/// The answer to a lookup.
#[derive(Debug)]
pub struct LookupAnswer {
    /// Total games that continued from this position (sum of move counts).
    pub total: u64,
    /// Known continuations, most popular first.
    pub moves: Vec<KnownMove>,
}

/// Why a lookup request cannot be answered.
#[derive(Debug, Clone, Copy, PartialEq, Eq, Structural)]
pub enum LookupError {
    /// The request's FEN is not FEN text.
    InvalidFen,
    /// The FEN describes an illegal position.
    IllegalPosition,
    /// The book's entry for the position points outside the book.
    CorruptBook,
}

/// The text of a known move.
pub open spec fn known_text(m: KnownMove) -> (Seq<char>, Seq<char>, u64) {
    (m.uci@, m.san@, m.count)
}

/// The sum of the counts.
pub open spec fn stats_total(stats: Seq<MoveStat>) -> int
    decreases stats.len(),
{
    if stats.len() == 0 {
        0
    } else {
        stats_total(stats.drop_last()) + stats.last().count
    }
}

/// The continuations a lookup reports for `stats` in the position `fen`:
/// each record whose move is legal there, as UCI, SAN and count, in order.
pub open spec fn known_moves(fen: Seq<char>, stats: Seq<MoveStat>) -> Seq<(Seq<char>, Seq<char>, u64)>
    decreases stats.len(),
{
    if stats.len() == 0 {
        Seq::empty()
    } else {
        let rest = known_moves(fen, stats.drop_last());
        match first_match(legal_moves_of(fen), stats.last().mv.0) {
            Some(k) => rest.push((uci_text(fen, k), san_text(fen, k), stats.last().count as u64)),
            None => rest,
        }
    }
}

/// What record `s` reports in the position `fen`: its move as UCI and SAN,
/// with that record's own game count, when the move is legal there.
pub open spec fn record_report(fen: Seq<char>, s: MoveStat) -> Option<(Seq<char>, Seq<char>, u64)> {
    match first_match(legal_moves_of(fen), s.mv.0) {
        Some(k) => Some((uci_text(fen, k), san_text(fen, k), s.count as u64)),
        None => None,
    }
}

/// [`record_report`] in the position `fen`, as a function of the record.
pub open spec fn reporter(fen: Seq<char>) -> spec_fn(MoveStat) -> Option<(Seq<char>, Seq<char>, u64)> {
    |s: MoveStat| record_report(fen, s)
}

/// Whether the move of record `s` is legal in the position `fen`.
pub open spec fn record_is_legal(fen: Seq<char>) -> spec_fn(MoveStat) -> bool {
    |s: MoveStat| first_match(legal_moves_of(fen), s.mv.0) is Some
}

/// A lookup reports, in the book's order, one continuation per record whose
/// move is legal in the position, and nothing for the others; each reported
/// continuation carries the game count of its own record, whatever the
/// records before it hold.
pub proof fn lemma_known_moves_per_record(fen: Seq<char>, stats: Seq<MoveStat>)
    ensures
        known_moves(fen, stats) == stats.filter_map(reporter(fen)),
        known_moves(fen, stats).len() == stats.filter(record_is_legal(fen)).len(),
        forall|j: int|
            0 <= j < known_moves(fen, stats).len() ==> exists|i: int|
                #![trigger stats[i]]
                0 <= i < stats.len() && record_report(fen, stats[i]) == Some(
                    #[trigger] known_moves(fen, stats)[j],
                ),
    decreases stats.len(),
{
    reveal(Seq::filter);
    if stats.len() > 0 {
        let pre = stats.drop_last();
        let s = stats.last();
        lemma_known_moves_per_record(fen, pre);
        let kp = known_moves(fen, pre);
        let kn = known_moves(fen, stats);
        assert forall|j: int| 0 <= j < kp.len() implies exists|i: int|
            #![trigger stats[i]]
            0 <= i < stats.len() && record_report(fen, stats[i]) == Some(#[trigger] kn[j]) by {
            assert(kn[j] == kp[j]);
            let i = choose|i: int|
                #![trigger pre[i]]
                0 <= i < pre.len() && record_report(fen, pre[i]) == Some(kp[j]);
            assert(stats[i] == pre[i]);
        }
        match first_match(legal_moves_of(fen), s.mv.0) {
            Some(k) => {
                assert(kn == kp.push((uci_text(fen, k), san_text(fen, k), s.count as u64)));
                assert(stats[stats.len() - 1] == s);
                assert(kp.push((uci_text(fen, k), san_text(fen, k), s.count as u64))
                    =~= pre.filter_map(reporter(fen)) + seq![(uci_text(fen, k), san_text(fen, k), s.count as u64)]);
                assert(record_is_legal(fen)(s));
                assert(stats.filter(record_is_legal(fen)) == pre.filter(record_is_legal(fen)).push(s));
            },
            None => {
                assert(!record_is_legal(fen)(s));
                assert(stats.filter(record_is_legal(fen)) == pre.filter(record_is_legal(fen)));
            },
        }
    }
}

proof fn lemma_total_bound(stats: Seq<MoveStat>)
    ensures
        0 <= stats_total(stats) <= stats.len() * 0xffff_ffff,
    decreases stats.len(),
{
    if stats.len() > 0 {
        lemma_total_bound(stats.drop_last());
    }
}

/// Answer a lookup for the position `fen`: the book's records for its hash,
/// the total of their counts, and each record whose move is legal in the
/// position as UCI and SAN.
pub fn answer_lookup(book: &Book, fen: &str) -> (r: Result<LookupAnswer, LookupError>)
    ensures
        !fen_parses(fen@) ==> r == Err::<LookupAnswer, LookupError>(LookupError::InvalidFen),
        fen_parses(fen@) && !legal_position(fen@) ==> r == Err::<LookupAnswer, LookupError>(
            LookupError::IllegalPosition,
        ),
        fen_parses(fen@) && legal_position(fen@) ==> {
            let stats = lookup_spec(book.view_bytes(), zobrist_of(fen@));
            if lookup_in_bounds(book.view_bytes(), zobrist_of(fen@)) {
                &&& r is Ok
                &&& r->Ok_0.total == stats_total(stats)
                &&& r->Ok_0.moves@.map_values(|m: KnownMove| known_text(m)) == known_moves(fen@, stats)
                &&& r->Ok_0.moves@.map_values(|m: KnownMove| known_text(m)) == stats.filter_map(reporter(fen@))
            } else {
                r == Err::<LookupAnswer, LookupError>(LookupError::CorruptBook)
            }
        },
{
    if !crate::chess::fen_is_well_formed(fen) {
        return Err(LookupError::InvalidFen);
    }
    let pos = match Chess::from_fen(fen) {
        Some(p) => p,
        None => return Err(LookupError::IllegalPosition),
    };
    let hash = position_hash(&pos);
    let stats = match book.try_lookup(hash) {
        Some(s) => s,
        None => return Err(LookupError::CorruptBook),
    };
    let legal = pos.legal_moves();
    let mut moves: Vec<KnownMove> = Vec::new();
    let mut total: u64 = 0;
    let mut i: usize = 0;
    while i < stats.len()
        invariant
            i <= stats@.len(),
            legal@ == legal_moves_of(fen@),
            pos.fen_view() == fen@,
            stats@.len() <= u16::MAX,
            total == stats_total(stats@.take(i as int)),
            moves@.map_values(|m: KnownMove| known_text(m)) == known_moves(fen@, stats@.take(i as int)),
        decreases stats@.len() - i,
    {
        let stat = stats[i];
        proof {
            assert(stats@.take(i + 1).drop_last() =~= stats@.take(i as int));
            assert(stats@.take(i + 1).last() == stat);
            lemma_total_bound(stats@.take(i as int));
            lemma_first_match_range(legal@, stat.mv.0);
        }
        total = total + stat.count as u64;
        let ghost before = moves@.map_values(|m: KnownMove| known_text(m));
        match resolve_index(stat.mv, &legal) {
            Some(k) => {
                let (uci, san) = pos.move_texts(k);
                moves.push(KnownMove { uci, san, count: stat.count as u64 });
                assert(moves@.map_values(|m: KnownMove| known_text(m)) =~= before.push(
                    (uci_text(fen@, k as int), san_text(fen@, k as int), stat.count as u64),
                ));
            },
            None => {},
        }
        i = i + 1;
    }
    assert(stats@.take(stats@.len() as int) =~= stats@);
    proof {
        lemma_known_moves_per_record(fen@, stats@);
    }
    Ok(LookupAnswer { total, moves })
}

/// Deepest position depth (in plies) the lichess opening explorer indexes;
/// positions after more than this many plies always come back empty.
pub const EXPLORER_MAX_PLY: usize = 49;

/// The position (as FEN) reached by playing the UCI moves `ucis` from `fen`,
/// or `None` when one of them is not legal where it is played.
pub open spec fn replay(fen: Seq<char>, ucis: Seq<Seq<char>>) -> Option<Seq<char>>
    decreases ucis.len(),
{
    if ucis.len() == 0 {
        Some(fen)
    } else {
        match after_uci(fen, ucis[0]) {
            Some(f) => replay(f, ucis.drop_first()),
            None => None,
        }
    }
}

/// The text of each move.
pub open spec fn ucis_text(ucis: Seq<String>) -> Seq<Seq<char>> {
    ucis.map_values(|u: String| u@)
}

/// What the explorer is asked: the anchor position, the move played from it,
/// and the winner of the played-out line (`None` for a draw).
#[derive(Debug)]
pub struct IdentifyQuery {
    pub fen: String,
    pub target: String,
    pub winner: Option<String>,
}

/// Why a line cannot be identified.
#[derive(Debug, Clone, Copy, PartialEq, Eq, Structural)]
pub enum IdentifyError {
    /// The line has no moves, or more than 1024.
    BadLength,
    /// A move of the line is not legal where it is played.
    IllegalMove,
}

/// The ply to anchor the explorer query at: just before the last move, or
/// just before the deepest move the explorer can still see.
pub open spec fn anchor_of(n: int) -> int {
    if n - 1 < EXPLORER_MAX_PLY {
        n - 1
    } else {
        EXPLORER_MAX_PLY as int
    }
}

/// The winner of a finished line: the side not to move when it is
/// checkmate, nobody otherwise.
pub open spec fn winner_of(fen: Seq<char>) -> Option<Seq<char>> {
    if checkmated(fen) {
        if white_to_move(fen) {
            Some("black"@)
        } else {
            Some("white"@)
        }
    } else {
        None
    }
}

/// A checkmated line is won by the side not to move in its final position:
/// White when the position's turn field says Black is to move, Black
/// otherwise; a line that does not end in checkmate has no winner.
pub proof fn lemma_winner_is_side_not_to_move(fen: Seq<char>)
    ensures
        winner_of(fen) is None <==> !checkmated(fen),
        checkmated(fen) && turn_field(fen) == seq!['b'] ==> winner_of(fen) == Some("white"@),
        checkmated(fen) && turn_field(fen) != seq!['b'] ==> winner_of(fen) == Some("black"@),
        "white"@ != "black"@,
{
    reveal_strlit("white");
    reveal_strlit("black");
    assert("white"@[0] != "black"@[0]);
}

/// The text of an optional string.
pub open spec fn opt_text(o: Option<String>) -> Option<Seq<char>> {
    match o {
        Some(s) => Some(s@),
        None => None,
    }
}

fn play_line(start: Chess, ucis: &[String], lo: usize, hi: usize) -> (r: Option<Chess>)
    requires
        lo <= hi <= ucis@.len(),
    ensures
        r is None <==> replay(start.fen_view(), ucis_text(ucis@).subrange(lo as int, hi as int)) is None,
        r matches Some(c) ==> replay(start.fen_view(), ucis_text(ucis@).subrange(lo as int, hi as int))
            == Some(c.fen_view()),
{
    let ghost all = ucis_text(ucis@).subrange(lo as int, hi as int);
    let mut pos = start;
    let mut i = lo;
    while i < hi
        invariant
            lo <= i <= hi,
            hi <= ucis@.len(),
            all == ucis_text(ucis@).subrange(lo as int, hi as int),
            replay(start.fen_view(), all) == replay(pos.fen_view(), ucis_text(ucis@).subrange(i as int, hi as int)),
        decreases hi - i,
    {
        let ghost rest = ucis_text(ucis@).subrange(i as int, hi as int);
        assert(rest[0] == ucis[i as int]@);
        assert(rest.drop_first() =~= ucis_text(ucis@).subrange(i + 1, hi as int));
        match pos.play_uci(ucis[i].as_str()) {
            Some(next) => {
                pos = next;
            },
            None => {
                return None;
            },
        }
        i = i + 1;
    }
    assert(ucis_text(ucis@).subrange(hi as int, hi as int).len() == 0);
    Some(pos)
}

/// Prepare the explorer query for a fully played-out line of UCI moves from
/// the starting position: replay to the anchor, note the move played from
/// there, and play out the rest to find the winner.
pub fn prepare_identify(ucis: &[String]) -> (r: Result<IdentifyQuery, IdentifyError>)
    ensures
        ucis@.len() == 0 || ucis@.len() > 1024 ==> r == Err::<IdentifyQuery, IdentifyError>(
            IdentifyError::BadLength,
        ),
        1 <= ucis@.len() <= 1024 ==> {
            let us = ucis_text(ucis@);
            let a = anchor_of(ucis@.len() as int);
            match replay(START_FEN@, us.take(a)) {
                None => r == Err::<IdentifyQuery, IdentifyError>(IdentifyError::IllegalMove),
                Some(anchor) => match replay(anchor, us.skip(a)) {
                    None => r == Err::<IdentifyQuery, IdentifyError>(IdentifyError::IllegalMove),
                    Some(last) => r matches Ok(q) && q.fen@ == anchor && q.target@ == us[a]
                        && opt_text(q.winner) == winner_of(last),
                },
            }
        },
{
    let n = ucis.len();
    if n == 0 || n > 1024 {
        return Err(IdentifyError::BadLength);
    }
    let anchor = if n - 1 < EXPLORER_MAX_PLY { n - 1 } else { EXPLORER_MAX_PLY };
    let ghost us = ucis_text(ucis@);
    proof {
        assert(us.subrange(0, anchor as int) =~= us.take(anchor as int));
        assert(us.subrange(anchor as int, n as int) =~= us.skip(anchor as int));
    }
    let start = Chess::default();
    let pos = match play_line(start, ucis, 0, anchor) {
        Some(p) => p,
        None => return Err(IdentifyError::IllegalMove),
    };
    let fen = String::from_str(pos.fen());
    let last = match play_line(pos, ucis, anchor, n) {
        Some(p) => p,
        None => return Err(IdentifyError::IllegalMove),
    };
    let winner = if last.is_checkmate() {
        if last.white_to_move() {
            Some(String::from_str("black"))
        } else {
            Some(String::from_str("white"))
        }
    } else {
        None
    };
    Ok(IdentifyQuery { fen, target: ucis[anchor].clone(), winner })
}

/// A player as the explorer reports one (fields absent from the JSON are
/// `None`).
#[derive(Debug)]
pub struct ExplorerPlayer {
    pub name: Option<String>,
    pub rating: Option<u64>,
}

/// A game sample as the explorer reports one (fields absent from the JSON
/// are `None`; a missing or null game has every field `None`).
#[derive(Debug)]
pub struct ExplorerGame {
    pub id: Option<String>,
    pub uci: Option<String>,
    pub white: ExplorerPlayer,
    pub black: ExplorerPlayer,
    pub winner: Option<String>,
    pub speed: Option<String>,
    pub month: Option<String>,
}

/// A move entry of the explorer's answer.
#[derive(Debug)]
pub struct ExplorerMove {
    pub uci: Option<String>,
    pub white: Option<u64>,
    pub draws: Option<u64>,
    pub black: Option<u64>,
    pub game: ExplorerGame,
}

/// The parts of the explorer's answer the identification reads; each list
/// is `None` when the JSON holds no array there.
#[derive(Debug)]
pub struct ExplorerBody {
    pub moves: Option<Vec<ExplorerMove>>,
    pub recent_games: Option<Vec<ExplorerGame>>,
    pub top_games: Option<Vec<ExplorerGame>>,
}

/// A player of an identified game.
#[derive(Debug)]
pub struct SourcePlayer {
    pub name: String,
    pub rating: Option<u32>,
}

/// An identified lichess game. It lives at `https://lichess.org/{id}`.
#[derive(Debug)]
pub struct SourceGame {
    pub id: String,
    pub white: SourcePlayer,
    pub black: SourcePlayer,
    /// "white", "black", or `None` for a draw.
    pub winner: Option<String>,
    pub speed: Option<String>,
    /// Month the game was played, e.g. "2012-12".
    pub month: Option<String>,
    /// False when several games shared the line as deep as the explorer
    /// indexes, so this is the best (result-matching) candidate, not a proof.
    pub exact: bool,
}

/// The game sample names its id and both players.
pub open spec fn game_parses(g: ExplorerGame) -> bool {
    g.id is Some && g.white.name is Some && g.black.name is Some
}

/// A rating as the game reports it: the explorer's number cast to `u32`.
pub open spec fn rating_of(r: Option<u64>) -> Option<u32> {
    match r {
        Some(x) => Some(x as u32),
        None => None,
    }
}

/// `r` is the source game read from sample `g`, marked `exact` or not.
pub open spec fn is_game_of(r: SourceGame, g: ExplorerGame, exact: bool) -> bool {
    &&& Some(r.id@) == opt_text(g.id)
    &&& Some(r.white.name@) == opt_text(g.white.name)
    &&& r.white.rating == rating_of(g.white.rating)
    &&& Some(r.black.name@) == opt_text(g.black.name)
    &&& r.black.rating == rating_of(g.black.rating)
    &&& opt_text(r.winner) == opt_text(g.winner)
    &&& opt_text(r.speed) == opt_text(g.speed)
    &&& opt_text(r.month) == opt_text(g.month)
    &&& r.exact == exact
}

fn copy_text(o: &Option<String>) -> (r: Option<String>)
    ensures
        opt_text(r) == opt_text(*o),
{
    match o {
        Some(s) => Some(s.clone()),
        None => None,
    }
}

fn read_player(p: &ExplorerPlayer) -> (r: Option<SourcePlayer>)
    ensures
        r is Some <==> p.name is Some,
        r matches Some(x) ==> Some(x.name@) == opt_text(p.name) && x.rating == rating_of(p.rating),
{
    let name = match &p.name {
        Some(n) => n.clone(),
        None => return None,
    };
    let rating = match p.rating {
        Some(x) => Some(x as u32),
        None => None,
    };
    Some(SourcePlayer { name, rating })
}

/// Read a source game out of an explorer game sample.
pub fn parse_game(g: &ExplorerGame, exact: bool) -> (r: Option<SourceGame>)
    ensures
        r is Some <==> game_parses(*g),
        r matches Some(x) ==> is_game_of(x, *g, exact),
{
    let id = match &g.id {
        Some(i) => i.clone(),
        None => return None,
    };
    let white = match read_player(&g.white) {
        Some(p) => p,
        None => return None,
    };
    let black = match read_player(&g.black) {
        Some(p) => p,
        None => return None,
    };
    Some(SourceGame {
        id,
        white,
        black,
        winner: copy_text(&g.winner),
        speed: copy_text(&g.speed),
        month: copy_text(&g.month),
        exact,
    })
}

/// The index of the first move entry played as `target`, if any.
pub open spec fn entry_for(moves: Seq<ExplorerMove>, target: Seq<char>) -> Option<int>
    decreases moves.len(),
{
    if moves.len() == 0 {
        None
    } else if opt_text(moves[0].uci) == Some(target) {
        Some(0)
    } else {
        match entry_for(moves.drop_first(), target) {
            Some(i) => Some(i + 1),
            None => None,
        }
    }
}

/// How many games the explorer counts for a move entry.
pub open spec fn entry_games(m: ExplorerMove) -> int {
    (match m.white {
        Some(x) => x as int,
        None => 0,
    }) + (match m.draws {
        Some(x) => x as int,
        None => 0,
    }) + (match m.black {
        Some(x) => x as int,
        None => 0,
    })
}

/// The explorer's game count for a move entry adds up its White wins,
/// draws and Black wins: with none of them reported it counts no games, and
/// each reported count adds its number of games.
pub proof fn lemma_entry_games_sum(m: ExplorerMove, x: u64)
    ensures
        entry_games(ExplorerMove { white: None, draws: None, black: None, ..m }) == 0,
        entry_games(ExplorerMove { white: Some(x), ..m }) == entry_games(ExplorerMove { white: None, ..m }) + x,
        entry_games(ExplorerMove { draws: Some(x), ..m }) == entry_games(ExplorerMove { draws: None, ..m }) + x,
        entry_games(ExplorerMove { black: Some(x), ..m }) == entry_games(ExplorerMove { black: None, ..m }) + x,
{
}

/// The samples that played `target`, name their game, and ended as the line
/// did.
pub open spec fn candidates(gs: Seq<ExplorerGame>, target: Seq<char>, winner: Option<Seq<char>>) -> Seq<ExplorerGame>
    decreases gs.len(),
{
    if gs.len() == 0 {
        Seq::empty()
    } else {
        let rest = candidates(gs.drop_last(), target, winner);
        let g = gs.last();
        if opt_text(g.uci) == Some(target) && game_parses(g) && opt_text(g.winner) == winner {
            rest.push(g)
        } else {
            rest
        }
    }
}

/// The recent and then the top game samples, each when present.
pub open spec fn samples(body: ExplorerBody) -> Seq<ExplorerGame> {
    (match body.recent_games {
        Some(v) => v@,
        None => Seq::empty(),
    }) + (match body.top_games {
        Some(v) => v@,
        None => Seq::empty(),
    })
}

proof fn lemma_entry_for_range(moves: Seq<ExplorerMove>, target: Seq<char>)
    ensures
        entry_for(moves, target) matches Some(i) ==> 0 <= i < moves.len(),
    decreases moves.len(),
{
    if moves.len() > 0 {
        lemma_entry_for_range(moves.drop_first(), target);
    }
}

proof fn lemma_entry_for(moves: Seq<ExplorerMove>, target: Seq<char>, i: int)
    requires
        0 <= i <= moves.len(),
        forall|k: int| 0 <= k < i ==> opt_text(#[trigger] moves[k].uci) != Some(target),
    ensures
        i < moves.len() && opt_text(moves[i].uci) == Some(target) ==> entry_for(moves, target) == Some(i),
        i == moves.len() ==> entry_for(moves, target) is None,
    decreases i,
{
    if i > 0 {
        let d = moves.drop_first();
        assert forall|k: int| 0 <= k < i - 1 implies opt_text(#[trigger] d[k].uci) != Some(target) by {
            assert(d[k] == moves[k + 1]);
        }
        lemma_entry_for(d, target, i - 1);
        if i < moves.len() {
            assert(d[i - 1] == moves[i]);
        }
    }
}

fn text_is(o: &Option<String>, t: &str) -> (r: bool)
    ensures
        r == (opt_text(*o) == Some(t@)),
{
    match o {
        Some(s) => crate::text::str_eq(s.as_str(), t),
        None => false,
    }
}

fn same_text(a: &Option<String>, b: Option<&str>) -> (r: bool)
    ensures
        r == (opt_text(*a) == match b {
            Some(t) => Some(t@),
            None => None::<Seq<char>>,
        }),
{
    match (a, b) {
        (Some(s), Some(t)) => crate::text::str_eq(s.as_str(), t),
        (None, None) => true,
        _ => false,
    }
}

fn add_candidates(
    out: &mut Vec<SourceGame>,
    ghost_seen: Ghost<Seq<ExplorerGame>>,
    gs: &Vec<ExplorerGame>,
    target: &str,
    winner: Option<&str>,
    exact: bool,
)
    requires
        old(out)@.len() == candidates(ghost_seen@, target@, match winner { Some(t) => Some(t@), None => None::<Seq<char>> }).len(),
        forall|k: int| 0 <= k < old(out)@.len() ==> is_game_of(#[trigger] old(out)@[k], candidates(ghost_seen@, target@, match winner { Some(t) => Some(t@), None => None::<Seq<char>> })[k], exact),
    ensures
        final(out)@.len() == candidates(ghost_seen@ + gs@, target@, match winner { Some(t) => Some(t@), None => None::<Seq<char>> }).len(),
        forall|k: int| 0 <= k < final(out)@.len() ==> is_game_of(#[trigger] final(out)@[k], candidates(ghost_seen@ + gs@, target@, match winner { Some(t) => Some(t@), None => None::<Seq<char>> })[k], exact),
{
    let ghost w = match winner { Some(t) => Some(t@), None => None::<Seq<char>> };
    let mut i: usize = 0;
    while i < gs.len()
        invariant
            i <= gs@.len(),
            w == match winner { Some(t) => Some(t@), None => None::<Seq<char>> },
            out@.len() == candidates(ghost_seen@ + gs@.take(i as int), target@, w).len(),
            forall|k: int| 0 <= k < out@.len() ==> is_game_of(#[trigger] out@[k], candidates(ghost_seen@ + gs@.take(i as int), target@, w)[k], exact),
        decreases gs@.len() - i,
    {
        let g = &gs[i];
        let ghost prev = ghost_seen@ + gs@.take(i as int);
        let ghost next = ghost_seen@ + gs@.take(i + 1);
        assert(next.drop_last() =~= prev);
        assert(next.last() == *g);
        if text_is(&g.uci, target) && same_text(&g.winner, winner) {
            match parse_game(g, exact) {
                Some(x) => {
                    out.push(x);
                },
                None => {},
            }
        }
        i = i + 1;
    }
    assert(gs@.take(gs@.len() as int) =~= gs@);
}

/// Whether the game counts of the move entry played as `target` add up
/// within a `u64`, as [`match_game`] needs.
pub fn games_fit(body: &ExplorerBody, target: &str) -> (r: bool)
    ensures
        r == (body.moves matches Some(v) ==> (entry_for(v@, target@) matches Some(i) ==> entry_games(
            v@[i],
        ) <= u64::MAX)),
{
    let moves = match &body.moves {
        Some(v) => v,
        None => return true,
    };
    let mut i: usize = 0;
    while i < moves.len()
        invariant
            i <= moves@.len(),
            forall|k: int| 0 <= k < i ==> opt_text(#[trigger] moves@[k].uci) != Some(target@),
        ensures
            i <= moves@.len(),
            forall|k: int| 0 <= k < i ==> opt_text(#[trigger] moves@[k].uci) != Some(target@),
            i < moves@.len() ==> opt_text(moves@[i as int].uci) == Some(target@),
        decreases moves@.len() - i,
    {
        if text_is(&moves[i].uci, target) {
            break;
        }
        i = i + 1;
    }
    proof {
        lemma_entry_for(moves@, target@, i as int);
    }
    if i == moves.len() {
        return true;
    }
    let m = &moves[i];
    let w: u64 = match m.white { Some(x) => x, None => 0 };
    let d: u64 = match m.draws { Some(x) => x, None => 0 };
    let b: u64 = match m.black { Some(x) => x, None => 0 };
    match w.checked_add(d) {
        Some(wd) => wd.checked_add(b).is_some(),
        None => false,
    }
}

/// Pick the source game out of an explorer answer: the move entry matching
/// `target` carries the game outright when it names one; otherwise the
/// recent and top game samples that played `target` and ended as the line
/// did (`winner`) are the candidates, and a single one is the answer.
pub fn match_game(body: &ExplorerBody, target: &str, winner: Option<&str>) -> (r: Option<SourceGame>)
    requires
        body.moves matches Some(v) ==> (entry_for(v@, target@) matches Some(i) ==> entry_games(
            v@[i],
        ) <= u64::MAX),
    ensures
        body.moves is None ==> r is None,
        body.moves matches Some(v) ==> match entry_for(v@, target@) {
            None => r is None,
            Some(i) => {
                let m = v@[i];
                let exact = entry_games(m) == 1;
                if game_parses(m.game) {
                    r matches Some(x) && is_game_of(x, m.game, exact)
                } else {
                    let cs = candidates(samples(*body), target@, match winner { Some(t) => Some(t@), None => None::<Seq<char>> });
                    if cs.len() == 1 {
                        r matches Some(x) && is_game_of(x, cs[0], exact)
                    } else {
                        r is None
                    }
                }
            },
        },
{
    let moves = match &body.moves {
        Some(v) => v,
        None => return None,
    };
    let mut i: usize = 0;
    while i < moves.len()
        invariant
            i <= moves@.len(),
            forall|k: int| 0 <= k < i ==> opt_text(#[trigger] moves@[k].uci) != Some(target@),
        ensures
            i <= moves@.len(),
            forall|k: int| 0 <= k < i ==> opt_text(#[trigger] moves@[k].uci) != Some(target@),
            i < moves@.len() ==> opt_text(moves@[i as int].uci) == Some(target@),
        decreases moves@.len() - i,
    {
        if text_is(&moves[i].uci, target) {
            break;
        }
        i = i + 1;
    }
    proof {
        lemma_entry_for(moves@, target@, i as int);
        lemma_entry_for_range(moves@, target@);
    }
    if i == moves.len() {
        return None;
    }
    let m = &moves[i];
    assert(entry_games(moves@[i as int]) <= u64::MAX);
    let w: u64 = match m.white { Some(x) => x, None => 0 };
    let d: u64 = match m.draws { Some(x) => x, None => 0 };
    let b: u64 = match m.black { Some(x) => x, None => 0 };
    let exact = w + d + b == 1;
    assert(body.moves.unwrap()@ == moves@);
    assert(entry_for(moves@, target@) == Some(i as int));
    assert(exact == (entry_games(moves@[i as int]) == 1));
    match parse_game(&m.game, exact) {
        Some(x) => return Some(x),
        None => {},
    }
    let mut cands: Vec<SourceGame> = Vec::new();
    let empty: Vec<ExplorerGame> = Vec::new();
    let recent = match &body.recent_games { Some(v) => v, None => &empty };
    let top = match &body.top_games { Some(v) => v, None => &empty };
    let ghost w0 = match winner { Some(t) => Some(t@), None => None::<Seq<char>> };
    assert(candidates(Seq::<ExplorerGame>::empty(), target@, w0).len() == 0);
    add_candidates(&mut cands, Ghost(Seq::<ExplorerGame>::empty()), recent, target, winner, exact);
    assert(Seq::<ExplorerGame>::empty() + recent@ =~= recent@);
    add_candidates(&mut cands, Ghost(recent@), top, target, winner, exact);
    assert(recent@ + top@ =~= samples(*body));
    if cands.len() == 1 {
        let ghost c0 = cands@[0];
        let r = cands.pop();
        assert(r == Some(c0));
        r
    } else {
        None
    }
}

} // verus!
