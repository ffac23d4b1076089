//! Chess positions, held by their FEN text. Move generation and hashing are
//! the `shakmaty` crate's work; this module hands its results over as plain
//! values.
use vstd::prelude::*;
use shakmaty::Position;
use shakmaty::zobrist::ZobristHash;
use crate::mv::{LegalMove, role_of_bits, bits_to_role, packs_distinctly, encode_spec, lemma_encode_decode};

verus! {

/// Whether `fen` parses, with standard castling, to a legal standard chess
/// position (as `shakmaty` judges it).
pub uninterp spec fn legal_position(fen: Seq<char>) -> bool;

/// The 64-bit Zobrist hash `shakmaty` computes for the position `fen`
/// describes, folding in the en passant square only when a capture there is
/// legal.
pub uninterp spec fn zobrist_of(fen: Seq<char>) -> u64;

/// A standard chess position.
pub struct Chess {
    fen: String,
}

/// The FEN of the standard starting position.
pub const START_FEN: &'static str = "rnbqkbnr/pppppppp/8/8/8/8/PPPPPPPP/RNBQKBNR w KQkq - 0 1";

/// `shakmaty::fen::Fen::from_position` of `shakmaty::Chess::default()`,
/// written out. The contract claims that this is [`START_FEN`] and that it
/// parses back to a legal position.
#[verifier::external_body]
fn start_fen() -> (r: String)
    ensures
        r@ == START_FEN@,
        legal_position(r@),
{
    shakmaty::fen::Fen::from_position(&shakmaty::Chess::default(), shakmaty::EnPassantMode::Legal)
        .to_string()
}

/// `shakmaty::fen::Fen::from_ascii` then `into_position::<shakmaty::Chess>`
/// with standard castling: whether both succeed is [`legal_position`].
#[verifier::external_body]
fn fen_is_legal(fen: &str) -> (r: bool)
    ensures
        r == legal_position(fen@),
{
    match shakmaty::fen::Fen::from_ascii(fen.as_bytes()) {
        Ok(f) => f.into_position::<shakmaty::Chess>(shakmaty::CastlingMode::Standard).is_ok(),
        Err(_) => false,
    }
}

/// A move as `shakmaty` reports it: origin square, destination square and
/// promotion role, each as its number (squares 0..64 from a1; roles 1..=6
/// from pawn to king).
pub type RawMove = (Option<u8>, u8, Option<u8>);

/// The legal moves `shakmaty` generates for the position `fen` describes, in
/// its generation order.
pub uninterp spec fn raw_moves_of(fen: Seq<char>) -> Seq<RawMove>;

/// `shakmaty::Position::legal_moves` of the position `fen` describes, each
/// move's `from()`, `to()` and `promotion()` cast to numbers: the result is
/// [`raw_moves_of`]. Every square is below 64 (`shakmaty::Square` has 64
/// values), every role number is in 1..=6 (`shakmaty::Role`'s discriminants),
/// every move has an origin square (standard chess generates no piece
/// drops; only Crazyhouse does), and no two moves share origin, destination
/// and promotion (standard move generation lists each move once, and a
/// castling move, written king square to rook square, never coincides with
/// a king step, which cannot land on its own rook).
#[verifier::external_body]
fn fen_legal_moves(fen: &str) -> (r: Vec<RawMove>)
    requires
        legal_position(fen@),
    ensures
        r@ == raw_moves_of(fen@),
        r@.no_duplicates(),
        forall|i: int| 0 <= i < r@.len() ==> {
            let m = #[trigger] r@[i];
            &&& m.0 is Some && m.0.unwrap() < 64
            &&& m.1 < 64
            &&& m.2 matches Some(p) ==> 1 <= p <= 6
        },
{
    let pos: shakmaty::Chess = shakmaty::fen::Fen::from_ascii(fen.as_bytes())
        .unwrap()
        .into_position(shakmaty::CastlingMode::Standard)
        .unwrap();
    pos.legal_moves()
        .into_iter()
        .map(|m| (m.from().map(|s| s as u8), m.to() as u8, m.promotion().map(|r| r as u8)))
        .collect()
}

/// A raw move as a [`LegalMove`].
pub open spec fn legal_move_of_raw(m: RawMove) -> LegalMove {
    LegalMove {
        from: m.0,
        to: m.1,
        promotion: match m.2 {
            Some(p) => role_of_bits(p as u16),
            None => None,
        },
    }
}

/// The legal moves of the position `fen` describes, in `shakmaty`'s order.
pub open spec fn legal_moves_of(fen: Seq<char>) -> Seq<LegalMove> {
    raw_moves_of(fen).map_values(|m: RawMove| legal_move_of_raw(m))
}

/// `shakmaty::zobrist::ZobristHash::zobrist_hash::<Zobrist64>` with
/// `EnPassantMode::Legal` of the position `fen` describes: the result is
/// [`zobrist_of`].
#[verifier::external_body]
fn fen_zobrist(fen: &str) -> (r: u64)
    requires
        legal_position(fen@),
    ensures
        r == zobrist_of(fen@),
{
    let pos: shakmaty::Chess = shakmaty::fen::Fen::from_ascii(fen.as_bytes())
        .unwrap()
        .into_position(shakmaty::CastlingMode::Standard)
        .unwrap();
    let shakmaty::zobrist::Zobrist64(h) = pos.zobrist_hash(shakmaty::EnPassantMode::Legal);
    h
}

/// Whether `shakmaty::fen::Fen::from_ascii` accepts `fen` as FEN text.
pub uninterp spec fn fen_parses(fen: Seq<char>) -> bool;

/// `shakmaty::fen::Fen::from_ascii`: whether it succeeds is [`fen_parses`].
#[verifier::external_body]
fn fen_syntax_ok(fen: &str) -> (r: bool)
    ensures
        r == fen_parses(fen@),
{
    shakmaty::fen::Fen::from_ascii(fen.as_bytes()).is_ok()
}

/// The FEN, as `shakmaty` writes it, of the position after the move written
/// in UCI as `uci` is played in the position `fen`; `None` when `uci` is not
/// UCI text or not a legal move there.
pub uninterp spec fn after_uci(fen: Seq<char>, uci: Seq<char>) -> Option<Seq<char>>;

/// `shakmaty::uci::UciMove` parsing, `UciMove::to_move` and
/// `Position::play` in the position `fen`, then `Fen::from_position` of the
/// result: the result is [`after_uci`]. The contract also claims that the FEN
/// written for the new position parses back to a legal position (a legal
/// move from a legal position reaches a legal position).
#[verifier::external_body]
fn play_uci_fen(fen: &str, uci: &str) -> (r: Option<String>)
    requires
        legal_position(fen@),
    ensures
        r is None <==> after_uci(fen@, uci@) is None,
        r matches Some(f) ==> after_uci(fen@, uci@) == Some(f@) && legal_position(f@),
{
    let pos: shakmaty::Chess = shakmaty::fen::Fen::from_ascii(fen.as_bytes())
        .unwrap()
        .into_position(shakmaty::CastlingMode::Standard)
        .unwrap();
    let mv = uci.parse::<shakmaty::uci::UciMove>().ok()?.to_move(&pos).ok()?;
    let next = pos.play(mv).ok()?;
    Some(shakmaty::fen::Fen::from_position(&next, shakmaty::EnPassantMode::Legal).to_string())
}

/// Whether the side to move in the position `fen` is checkmated.
pub uninterp spec fn checkmated(fen: Seq<char>) -> bool;

/// `shakmaty::Position::is_checkmate` of the position `fen`: the result is
/// [`checkmated`].
#[verifier::external_body]
fn fen_is_checkmate(fen: &str) -> (r: bool)
    requires
        legal_position(fen@),
    ensures
        r == checkmated(fen@),
{
    let pos: shakmaty::Chess = shakmaty::fen::Fen::from_ascii(fen.as_bytes())
        .unwrap()
        .into_position(shakmaty::CastlingMode::Standard)
        .unwrap();
    pos.is_checkmate()
}

/// Whether `c` separates FEN fields (`shakmaty` accepts a space or an
/// underscore).
pub open spec fn fen_sep(c: char) -> bool {
    c == ' ' || c == '_'
}

/// The first index at or after `i` that holds no separator.
pub open spec fn skip_seps(s: Seq<char>, i: nat) -> nat
    decreases s.len() - i,
{
    if i < s.len() && fen_sep(s[i as int]) {
        skip_seps(s, i + 1)
    } else {
        i
    }
}

/// The end of the field that starts at `i`.
pub open spec fn field_end(s: Seq<char>, i: nat) -> nat
    decreases s.len() - i,
{
    if i < s.len() && !fen_sep(s[i as int]) {
        field_end(s, i + 1)
    } else {
        i
    }
}

/// The second field of `fen`, which names the side to move (empty when
/// the FEN stops after the board).
pub open spec fn turn_field(fen: Seq<char>) -> Seq<char> {
    let board_end = field_end(fen, skip_seps(fen, 0));
    let start = skip_seps(fen, board_end);
    fen.subrange(start as int, field_end(fen, start) as int)
}

/// Whether White is to move in the position `fen`: its turn field is not
/// `b` (`shakmaty` reads `w` or a missing field as White).
pub open spec fn white_to_move(fen: Seq<char>) -> bool {
    turn_field(fen) != seq!['b']
}

/// `shakmaty::Position::turn` of the position `fen`, as "is White". The
/// contract claims what `Fen::from_ascii` does with the turn field: after
/// the board field, the next field among those split at spaces and
/// underscores is `b` for Black and `w` or absent for White.
#[verifier::external_body]
fn fen_white_to_move(fen: &str) -> (r: bool)
    requires
        legal_position(fen@),
    ensures
        r == white_to_move(fen@),
{
    let pos: shakmaty::Chess = shakmaty::fen::Fen::from_ascii(fen.as_bytes())
        .unwrap()
        .into_position(shakmaty::CastlingMode::Standard)
        .unwrap();
    pos.turn().is_white()
}

/// The UCI text (standard castling notation) of legal move `i` of the
/// position `fen`, in `shakmaty`'s generation order.
pub uninterp spec fn uci_text(fen: Seq<char>, i: int) -> Seq<char>;

/// `shakmaty::Move::to_uci` with standard castling, written out, of legal
/// move `i` of the position `fen`: the result is [`uci_text`].
#[verifier::external_body]
fn move_uci(fen: &str, i: usize) -> (r: String)
    requires
        legal_position(fen@),
        i < raw_moves_of(fen@).len(),
    ensures
        r@ == uci_text(fen@, i as int),
{
    let pos: shakmaty::Chess = shakmaty::fen::Fen::from_ascii(fen.as_bytes())
        .unwrap()
        .into_position(shakmaty::CastlingMode::Standard)
        .unwrap();
    pos.legal_moves()[i].to_uci(shakmaty::CastlingMode::Standard).to_string()
}

/// The SAN text, with check or mate suffix, of legal move `i` of the
/// position `fen`, in `shakmaty`'s generation order.
pub uninterp spec fn san_text(fen: Seq<char>, i: int) -> Seq<char>;

/// `shakmaty::san::SanPlus::from_move`, written out, of legal move `i` of
/// the position `fen`: the result is [`san_text`].
#[verifier::external_body]
fn move_san(fen: &str, i: usize) -> (r: String)
    requires
        legal_position(fen@),
        i < raw_moves_of(fen@).len(),
    ensures
        r@ == san_text(fen@, i as int),
{
    let pos: shakmaty::Chess = shakmaty::fen::Fen::from_ascii(fen.as_bytes())
        .unwrap()
        .into_position(shakmaty::CastlingMode::Standard)
        .unwrap();
    let m = pos.legal_moves()[i];
    shakmaty::san::SanPlus::from_move(pos, m).to_string()
}

/// Whether `fen` is FEN text (the position it describes may still be
/// illegal).
pub fn fen_is_well_formed(fen: &str) -> (r: bool)
    ensures
        r == fen_parses(fen@),
{
    fen_syntax_ok(fen)
}

impl Chess {
    #[verifier::type_invariant]
    spec fn inv(&self) -> bool {
        legal_position(self.fen@)
    }

    /// The FEN text the position was built from.
    pub closed spec fn fen_view(&self) -> Seq<char> {
        self.fen@
    }

    /// The position a FEN describes, when it is a legal standard position.
    pub fn from_fen(fen: &str) -> (r: Option<Chess>)
        ensures
            r is Some <==> legal_position(fen@),
            r matches Some(c) ==> c.fen_view() == fen@,
    {
        if fen_is_legal(fen) {
            Some(Chess { fen: fen.to_owned() })
        } else {
            None
        }
    }

    /// The position's FEN text.
    pub fn fen(&self) -> (s: &str)
        ensures
            s@ == self.fen_view(),
    {
        self.fen.as_str()
    }

    /// The legal moves of the position, in `shakmaty`'s order.
    pub fn legal_moves(&self) -> (r: Vec<LegalMove>)
        ensures
            r@ == legal_moves_of(self.fen_view()),
            forall|i: int| 0 <= i < r@.len() ==> crate::mv::encodable(#[trigger] r@[i]),
            packs_distinctly(r@),
    {
        proof {
            use_type_invariant(self);
        }
        let raw = fen_legal_moves(self.fen.as_str());
        let mut out: Vec<LegalMove> = Vec::new();
        let mut i: usize = 0;
        while i < raw.len()
            invariant
                i <= raw@.len(),
                raw@ == raw_moves_of(self.fen_view()),
                forall|k: int| 0 <= k < raw@.len() ==> {
                    let m = #[trigger] raw@[k];
                    &&& m.0 is Some && m.0.unwrap() < 64
                    &&& m.1 < 64
                    &&& m.2 matches Some(p) ==> 1 <= p <= 6
                },
                out@ == raw@.take(i as int).map_values(|m: RawMove| legal_move_of_raw(m)),
            decreases raw@.len() - i,
        {
            let (from, to, promo) = raw[i];
            let promotion = match promo {
                Some(p) => bits_to_role(p as u16),
                None => None,
            };
            out.push(LegalMove { from, to, promotion });
            assert(out@ =~= raw@.take(i + 1).map_values(|m: RawMove| legal_move_of_raw(m)));
            i = i + 1;
        }
        assert(raw@.take(raw@.len() as int) =~= raw@);
        assert forall|a: int, b: int| 0 <= a < out@.len() && 0 <= b < out@.len() && a != b implies
            encode_spec(#[trigger] out@[a]) != encode_spec(#[trigger] out@[b]) by {
            lemma_encode_decode(out@[a]);
            lemma_encode_decode(out@[b]);
            assert(raw@[a] != raw@[b]);
            if out@[a] == out@[b] {
                let (fa, ta, pa) = raw@[a];
                let (fb, tb, pb) = raw@[b];
                assert(fa == fb && ta == tb);
                assert(pa == pb);
            }
        }
        out
    }

    /// The position's Zobrist hash.
    pub fn zobrist(&self) -> (h: u64)
        ensures
            h == zobrist_of(self.fen_view()),
    {
        proof {
            use_type_invariant(self);
        }
        fen_zobrist(self.fen.as_str())
    }

    /// The position after playing the UCI move `uci`, if it is legal here.
    pub fn play_uci(&self, uci: &str) -> (r: Option<Chess>)
        ensures
            r is None <==> after_uci(self.fen_view(), uci@) is None,
            r matches Some(c) ==> after_uci(self.fen_view(), uci@) == Some(c.fen_view()),
    {
        proof {
            use_type_invariant(self);
        }
        match play_uci_fen(self.fen.as_str(), uci) {
            Some(f) => Some(Chess { fen: f }),
            None => None,
        }
    }

    /// Whether the side to move is checkmated.
    pub fn is_checkmate(&self) -> (r: bool)
        ensures
            r == checkmated(self.fen_view()),
    {
        proof {
            use_type_invariant(self);
        }
        fen_is_checkmate(self.fen.as_str())
    }

    /// Whether White is to move.
    pub fn white_to_move(&self) -> (r: bool)
        ensures
            r == white_to_move(self.fen_view()),
    {
        proof {
            use_type_invariant(self);
        }
        fen_white_to_move(self.fen.as_str())
    }

    /// The UCI and SAN text of legal move `i`, in generation order.
    pub fn move_texts(&self, i: usize) -> (r: (String, String))
        requires
            i < legal_moves_of(self.fen_view()).len(),
        ensures
            r.0@ == uci_text(self.fen_view(), i as int),
            r.1@ == san_text(self.fen_view(), i as int),
    {
        proof {
            use_type_invariant(self);
        }
        (move_uci(self.fen.as_str(), i), move_san(self.fen.as_str(), i))
    }
}

impl Default for Chess {
    /// The standard starting position.
    fn default() -> (c: Self)
        ensures
            c.fen_view() == START_FEN@,
    {
        Chess { fen: start_fen() }
    }
}

} // verus!
