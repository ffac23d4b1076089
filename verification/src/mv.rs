//! Compact move encoding.
//!
//! A move is packed into a `u16` as `from | to << 6 | promotion << 12`:
//! `from`/`to` are 0..64 square indices (6 bits each), `promotion` is 0 (none)
//! or a piece role number (3 bits).
//!
//! Castling and en-passant flags are deliberately not encoded. The consumer
//! always has the full position in hand, so an [`EncodedMove`] is resolved
//! back to a concrete move by matching it against the position's legal
//! moves.
use vstd::prelude::*;
use crate::chess::{Chess, legal_moves_of};
use crate::sort::{pairs_ordered, lex_before, sort_pairs};

verus! {

/// A chess piece kind.
#[derive(Debug, Clone, Copy, PartialEq, Eq, Hash, Structural)]
pub enum Role {
    Pawn,
    Knight,
    Bishop,
    Rook,
    Queen,
    King,
}

/// A move as the library sees it: its origin square (absent only for a
/// piece drop), its destination square, and the piece it promotes to.
/// Squares are numbered 0..64 from a1 to h8. A castling move goes from the
/// king's square to the rook's.
#[derive(Debug, Clone, Copy, PartialEq, Eq, Hash, Structural)]
pub struct LegalMove {
    pub from: Option<u8>,
    pub to: u8,
    pub promotion: Option<Role>,
}

/// A move packed into 16 bits. See the module docs for the layout.
#[derive(Debug, Clone, Copy, PartialEq, Eq, Hash, Structural)]
pub struct EncodedMove(pub u16);

/// The 3-bit number of a role.
pub open spec fn role_bits(role: Role) -> u8 {
    match role {
        Role::Pawn => 1,
        Role::Knight => 2,
        Role::Bishop => 3,
        Role::Rook => 4,
        Role::Queen => 5,
        Role::King => 6,
    }
}

/// The role a 3-bit number stands for, if any.
pub open spec fn role_of_bits(bits: u16) -> Option<Role> {
    if bits == 1 {
        Some(Role::Pawn)
    } else if bits == 2 {
        Some(Role::Knight)
    } else if bits == 3 {
        Some(Role::Bishop)
    } else if bits == 4 {
        Some(Role::Rook)
    } else if bits == 5 {
        Some(Role::Queen)
    } else if bits == 6 {
        Some(Role::King)
    } else {
        None
    }
}

/// The promotion field of a move: 0, or the promoted role's number.
pub open spec fn promotion_bits(p: Option<Role>) -> int {
    match p {
        Some(r) => role_bits(r) as int,
        None => 0,
    }
}

/// A move the packing applies to: it has an origin, and both squares are
/// on the board.
pub open spec fn encodable(m: LegalMove) -> bool {
    &&& m.from is Some
    &&& m.from.unwrap() < 64
    &&& m.to < 64
}

/// No two of `legal` pack to the same value.
pub open spec fn packs_distinctly(legal: Seq<LegalMove>) -> bool {
    forall|a: int, b: int|
        0 <= a < legal.len() && 0 <= b < legal.len() && a != b ==> encode_spec(#[trigger] legal[a])
            != encode_spec(#[trigger] legal[b])
}

/// The packed value of a move.
pub open spec fn encode_spec(m: LegalMove) -> u16 {
    (m.from.unwrap() + 64 * m.to + 4096 * promotion_bits(m.promotion)) as u16
}

fn role_to_bits(role: Role) -> (b: u8)
    ensures
        b == role_bits(role),
{
    match role {
        Role::Pawn => 1,
        Role::Knight => 2,
        Role::Bishop => 3,
        Role::Rook => 4,
        Role::Queen => 5,
        Role::King => 6,
    }
}

pub(crate) fn bits_to_role(bits: u16) -> (r: Option<Role>)
    ensures
        r == role_of_bits(bits),
{
    match bits {
        1 => Some(Role::Pawn),
        2 => Some(Role::Knight),
        3 => Some(Role::Bishop),
        4 => Some(Role::Rook),
        5 => Some(Role::Queen),
        6 => Some(Role::King),
        _ => None,
    }
}

impl EncodedMove {
    /// Pack a move.
    pub fn encode(mv: &LegalMove) -> (e: EncodedMove)
        requires
            encodable(*mv),
        ensures
            e.0 == encode_spec(*mv),
    {
        let from: u8 = match mv.from {
            Some(f) => f,
            None => 0,
        };
        let to = mv.to;
        let promo: u8 = match mv.promotion {
            Some(r) => role_to_bits(r),
            None => 0,
        };
        let f = from as u16;
        let t = to as u16;
        let p = promo as u16;
        assert(f | (t << 6) | (p << 12) == f + 64 * t + 4096 * p) by (bit_vector)
            requires
                f < 64,
                t < 64,
                p < 8,
        ;
        EncodedMove(f | (t << 6) | (p << 12))
    }

    /// The origin square (bits 0..6).
    pub fn from_sq(self) -> (s: u8)
        ensures
            s == self.0 % 64,
    {
        let x = self.0;
        assert(x & 0x3f == x % 64) by (bit_vector);
        (x & 0x3f) as u8
    }

    /// The destination square (bits 6..12).
    pub fn to_sq(self) -> (s: u8)
        ensures
            s == (self.0 / 64) % 64,
    {
        let x = self.0;
        assert((x >> 6) & 0x3f == (x / 64) % 64) by (bit_vector);
        ((x >> 6) & 0x3f) as u8
    }

    /// The promotion role (bits 12..15), if any.
    pub fn promotion(self) -> (r: Option<Role>)
        ensures
            r == role_of_bits(((self.0 / 4096) % 8) as u16),
    {
        let x = self.0;
        assert((x >> 12) & 0x7 == (x / 4096) % 8) by (bit_vector);
        bits_to_role((x >> 12) & 0x7)
    }
}

/// The move an encoding reads back as, given whether it had an origin.
pub open spec fn decode_spec(e: u16) -> LegalMove {
    LegalMove {
        from: Some((e % 64) as u8),
        to: ((e / 64) % 64) as u8,
        promotion: role_of_bits(((e / 4096) % 8) as u16),
    }
}

/// Unpacking a packed move gives the move back.
pub proof fn lemma_encode_decode(m: LegalMove)
    requires
        encodable(m),
    ensures
        decode_spec(encode_spec(m)) == m,
{
    let f = m.from.unwrap() as int;
    let t = m.to as int;
    let p = promotion_bits(m.promotion);
    let x = f + 64 * t + 4096 * p;
    assert(0 <= p < 8);
    assert(x < 65536);
    assert(x % 64 == f) by (nonlinear_arith)
        requires
            x == f + 64 * t + 4096 * p,
            0 <= f < 64,
            0 <= t < 64,
            0 <= p < 8,
    ;
    assert(x / 64 == t + 64 * p) by (nonlinear_arith)
        requires
            x == f + 64 * t + 4096 * p,
            0 <= f < 64,
            0 <= t < 64,
            0 <= p < 8,
    ;
    assert((t + 64 * p) % 64 == t) by (nonlinear_arith)
        requires
            0 <= t < 64,
            0 <= p < 8,
    ;
    assert(x / 4096 == p) by (nonlinear_arith)
        requires
            x == f + 64 * t + 4096 * p,
            0 <= f < 64,
            0 <= t < 64,
            0 <= p < 8,
    ;
    match m.promotion {
        Some(r) => {},
        None => {},
    }
}

/// `ks` is the stable sort of `legal` by packed move: each key pairs a
/// move's packing with its index in `legal`, every index occurs, and the
/// keys ascend by packing, ties by index.
pub open spec fn canonical_pairs(legal: Seq<LegalMove>, ks: Seq<(u16, usize)>) -> bool {
    &&& pairs_ordered(ks)
    &&& forall|j: int| 0 <= j < ks.len() ==> (#[trigger] ks[j]).1 < legal.len() && ks[j].0 == encode_spec(legal[ks[j].1 as int])
    &&& forall|i: int| 0 <= i < legal.len() ==> #[trigger] keys_index(ks, i)
}

/// Some key of `ks` carries index `i`.
pub open spec fn keys_index(ks: Seq<(u16, usize)>, i: int) -> bool {
    exists|j: int| 0 <= j < ks.len() && ks[j].1 == i
}

/// The keys of the canonical ordering of `legal`.
pub open spec fn canonical_keys(legal: Seq<LegalMove>) -> Seq<(u16, usize)> {
    choose|ks: Seq<(u16, usize)>| canonical_pairs(legal, ks)
}

/// The canonical ordering of moves: sorted ascending by their packing, ties
/// in generation order. Move indexes in a book refer to this ordering.
pub open spec fn canonical_order(legal: Seq<LegalMove>) -> Seq<LegalMove> {
    canonical_keys(legal).map_values(|k: (u16, usize)| legal[k.1 as int])
}

/// The packings of the canonical ordering, ascending.
pub open spec fn canonical_encodings(legal: Seq<LegalMove>) -> Seq<u16> {
    canonical_keys(legal).map_values(|k: (u16, usize)| k.0)
}

/// Two canonical key sequences of the same moves are the same.
pub proof fn lemma_canonical_pairs_unique(legal: Seq<LegalMove>, a: Seq<(u16, usize)>, b: Seq<(u16, usize)>)
    requires
        canonical_pairs(legal, a),
        canonical_pairs(legal, b),
    ensures
        a == b,
    decreases a.len(),
{
    if a.len() == 0 {
        if b.len() > 0 {
            assert(keys_index(a, b[0].1 as int));
        }
        assert(a =~= b);
    } else if b.len() == 0 {
        assert(keys_index(b, a[0].1 as int));
    } else {
        let x = a[0];
        let y = b[0];
        assert(keys_index(a, y.1 as int));
        assert(keys_index(b, x.1 as int));
        if x != y {
            let i = choose|i: int| 0 <= i < a.len() && a[i].1 == y.1;
            let j = choose|j: int| 0 <= j < b.len() && b[j].1 == x.1;
            assert(a[i] == y);
            assert(b[j] == x);
            if i > 0 {
                assert(lex_before(x, y));
            }
            if j > 0 {
                assert(lex_before(y, x));
            }
        }
        let rest = legal;
        let ta = a.drop_first();
        let tb = b.drop_first();
        // The tails are the canonical keys of the moves other than x's.
        assert forall|i: int, k: int| 0 <= i < k < ta.len() implies lex_before(ta[i], ta[k]) by {
            assert(ta[i] == a[i + 1] && ta[k] == a[k + 1]);
        }
        assert forall|i: int, k: int| 0 <= i < k < tb.len() implies lex_before(tb[i], tb[k]) by {
            assert(tb[i] == b[i + 1] && tb[k] == b[k + 1]);
        }
        assert forall|i: int| 0 <= i < ta.len() implies (#[trigger] ta[i]).1 != x.1 by {
            assert(ta[i] == a[i + 1]);
            assert(lex_before(a[0], a[i + 1]));
        }
        assert forall|i: int| 0 <= i < tb.len() implies (#[trigger] tb[i]).1 != x.1 by {
            assert(tb[i] == b[i + 1]);
            assert(lex_before(b[0], b[i + 1]));
        }
        assert forall|v: (u16, usize)| ta.contains(v) <==> tb.contains(v) by {
            if ta.contains(v) {
                let i = choose|i: int| 0 <= i < ta.len() && ta[i] == v;
                assert(a[i + 1] == v);
                assert(keys_index(b, v.1 as int));
                let j = choose|j: int| 0 <= j < b.len() && b[j].1 == v.1;
                assert(b[j] == v);
                assert(j != 0);
                assert(tb[j - 1] == v);
            }
            if tb.contains(v) {
                let i = choose|i: int| 0 <= i < tb.len() && tb[i] == v;
                assert(b[i + 1] == v);
                assert(keys_index(a, v.1 as int));
                let j = choose|j: int| 0 <= j < a.len() && a[j].1 == v.1;
                assert(a[j] == v);
                assert(j != 0);
                assert(ta[j - 1] == v);
            }
        }
        lemma_sorted_same_members(ta, tb);
        assert(a =~= b) by {
            assert forall|i: int| 0 <= i < a.len() implies a[i] == b[i] by {
                if i > 0 {
                    assert(a[i] == ta[i - 1] && b[i] == tb[i - 1]);
                }
            }
        }
    }
}

/// Two strictly ascending key sequences with the same members are equal.
pub proof fn lemma_sorted_same_members(a: Seq<(u16, usize)>, b: Seq<(u16, usize)>)
    requires
        pairs_ordered(a),
        pairs_ordered(b),
        forall|v: (u16, usize)| a.contains(v) <==> b.contains(v),
    ensures
        a == b,
    decreases a.len(),
{
    if a.len() == 0 {
        if b.len() > 0 {
            assert(b.contains(b[0]));
        }
        assert(a =~= b);
    } else if b.len() == 0 {
        assert(a.contains(a[0]));
    } else {
        assert(a.contains(a[0]));
        assert(b.contains(b[0]));
        let i = choose|i: int| 0 <= i < b.len() && b[i] == a[0];
        let j = choose|j: int| 0 <= j < a.len() && a[j] == b[0];
        if i > 0 {
            assert(lex_before(b[0], b[i]));
            if j > 0 {
                assert(lex_before(a[0], a[j]));
            }
        }
        if j > 0 {
            assert(lex_before(a[0], a[j]));
        }
        assert(a[0] == b[0]);
        let ta = a.drop_first();
        let tb = b.drop_first();
        assert forall|x: int, y: int| 0 <= x < y < ta.len() implies lex_before(ta[x], ta[y]) by {
            assert(ta[x] == a[x + 1] && ta[y] == a[y + 1]);
        }
        assert forall|x: int, y: int| 0 <= x < y < tb.len() implies lex_before(tb[x], tb[y]) by {
            assert(tb[x] == b[x + 1] && tb[y] == b[y + 1]);
        }
        assert forall|v: (u16, usize)| ta.contains(v) <==> tb.contains(v) by {
            if ta.contains(v) {
                let p = choose|p: int| 0 <= p < ta.len() && ta[p] == v;
                assert(a[p + 1] == v);
                assert(lex_before(a[0], a[p + 1]));
                assert(a.contains(v));
                let q = choose|q: int| 0 <= q < b.len() && b[q] == v;
                assert(q != 0);
                assert(tb[q - 1] == v);
            }
            if tb.contains(v) {
                let p = choose|p: int| 0 <= p < tb.len() && tb[p] == v;
                assert(b[p + 1] == v);
                assert(lex_before(b[0], b[p + 1]));
                assert(b.contains(v));
                let q = choose|q: int| 0 <= q < a.len() && a[q] == v;
                assert(q != 0);
                assert(ta[q - 1] == v);
            }
        }
        lemma_sorted_same_members(ta, tb);
        assert(a =~= b) by {
            assert forall|x: int| 0 <= x < a.len() implies a[x] == b[x] by {
                if x > 0 {
                    assert(a[x] == ta[x - 1] && b[x] == tb[x - 1]);
                }
            }
        }
    }
}

fn sorted_keys(legal: &Vec<LegalMove>) -> (ks: Vec<(u16, usize)>)
    requires
        forall|i: int| 0 <= i < legal@.len() ==> encodable(#[trigger] legal@[i]),
    ensures
        canonical_pairs(legal@, ks@),
        ks@ == canonical_keys(legal@),
{
    let mut keys: Vec<(u16, usize)> = Vec::new();
    let mut i: usize = 0;
    while i < legal.len()
        invariant
            i <= legal@.len(),
            keys@.len() == i,
            forall|i: int| 0 <= i < legal@.len() ==> encodable(#[trigger] legal@[i]),
            forall|k: int| 0 <= k < i ==> (#[trigger] keys@[k]) == (encode_spec(legal@[k]), k as usize),
        decreases legal@.len() - i,
    {
        let e = EncodedMove::encode(&legal[i]);
        keys.push((e.0, i));
        i = i + 1;
    }
    assert(keys@.no_duplicates()) by {
        assert forall|x: int, y: int| 0 <= x < keys@.len() && 0 <= y < keys@.len() && x != y
            implies keys@[x] != keys@[y] by {
            assert(keys@[x].1 == x && keys@[y].1 == y);
        }
    }
    let ks = sort_pairs(keys.as_slice());
    proof {
        assert forall|j: int| 0 <= j < ks@.len() implies (#[trigger] ks@[j]).1 < legal@.len()
            && ks@[j].0 == encode_spec(legal@[ks@[j].1 as int]) by {
            assert(ks@.contains(ks@[j]));
            assert(keys@.contains(ks@[j]));
            let k = choose|k: int| 0 <= k < keys@.len() && keys@[k] == ks@[j];
        }
        assert forall|i: int| 0 <= i < legal@.len() implies #[trigger] keys_index(ks@, i) by {
            assert(keys@[i].1 == i);
            assert(keys@.contains(keys@[i]));
            assert(ks@.contains(keys@[i]));
            let j = choose|j: int| 0 <= j < ks@.len() && ks@[j] == keys@[i];
        }
        assert(canonical_pairs(legal@, ks@));
        lemma_canonical_pairs_unique(legal@, ks@, canonical_keys(legal@));
    }
    ks
}

/// All legal moves of `pos`, sorted by their [`EncodedMove`] packing. The
/// moves of a position pack distinctly, so the packings strictly ascend and
/// the `i`-th move's canonical index is `i`.
///
/// This is the canonical ordering the book's move indexes refer to. It
/// depends only on the packing, never on the move generator's order, so
/// indexes stay stable across generator changes.
pub fn canonical_legal(pos: &Chess) -> (r: Vec<LegalMove>)
    ensures
        r@ == canonical_order(legal_moves_of(pos.fen_view())),
        canonical_pairs(
            legal_moves_of(pos.fen_view()),
            canonical_keys(legal_moves_of(pos.fen_view())),
        ),
        forall|i: int| 0 <= i < r@.len() ==> encodable(#[trigger] r@[i]),
        packs_distinctly(legal_moves_of(pos.fen_view())),
        forall|a: int, b: int| 0 <= a < b < r@.len() ==> encode_spec(#[trigger] r@[a]) < encode_spec(#[trigger] r@[b]),
        forall|i: int| 0 <= i < r@.len() && i < 256 ==> canonical_index_spec(
            legal_moves_of(pos.fen_view()),
            #[trigger] r@[i],
        ) == Some(i as u8),
{
    let legal = pos.legal_moves();
    let ks = sorted_keys(&legal);
    let mut out: Vec<LegalMove> = Vec::new();
    let mut j: usize = 0;
    while j < ks.len()
        invariant
            j <= ks@.len(),
            canonical_pairs(legal@, ks@),
            forall|i: int| 0 <= i < legal@.len() ==> encodable(#[trigger] legal@[i]),
            forall|i: int| 0 <= i < out@.len() ==> encodable(#[trigger] out@[i]),
            out@ == ks@.take(j as int).map_values(|k: (u16, usize)| legal@[k.1 as int]),
        decreases ks@.len() - j,
    {
        let (_, idx) = ks[j];
        assert(ks@[j as int].1 < legal@.len());
        out.push(legal[idx]);
        assert(out@ =~= ks@.take(j + 1).map_values(|k: (u16, usize)| legal@[k.1 as int]));
        j = j + 1;
    }
    assert(ks@.take(ks@.len() as int) =~= ks@);
    proof {
        lemma_canonical_strict(legal@);
        assert forall|a: int, b: int| 0 <= a < b < out@.len() implies encode_spec(#[trigger] out@[a])
            < encode_spec(#[trigger] out@[b]) by {
            assert(canonical_encodings(legal@)[a] < canonical_encodings(legal@)[b]);
        }
        assert forall|i: int| 0 <= i < out@.len() && i < 256 implies canonical_index_spec(
            legal@,
            #[trigger] out@[i],
        ) == Some(i as u8) by {
            lemma_canonical_index_round_trip(legal@, i);
        }
    }
    out
}

/// The position of the first `t` in `es`, if any.
pub open spec fn first_index(es: Seq<u16>, t: u16) -> Option<int>
    decreases es.len(),
{
    if es.len() == 0 {
        None
    } else if es[0] == t {
        Some(0)
    } else {
        match first_index(es.drop_first(), t) {
            Some(i) => Some(i + 1),
            None => None,
        }
    }
}

proof fn lemma_first_index(es: Seq<u16>, t: u16, i: int)
    requires
        0 <= i <= es.len(),
        forall|k: int| 0 <= k < i ==> es[k] != t,
    ensures
        i < es.len() && es[i] == t ==> first_index(es, t) == Some(i),
        i == es.len() ==> first_index(es, t) is None,
    decreases i,
{
    if i > 0 {
        let d = es.drop_first();
        assert forall|k: int| 0 <= k < i - 1 implies d[k] != t by {
            assert(d[k] == es[k + 1]);
        }
        lemma_first_index(d, t, i - 1);
    }
}

/// The canonical index of legal move `mv` in `pos` (see
/// [`canonical_legal`]): where its packing first occurs in the canonical
/// ordering, when that is below 256.
pub open spec fn canonical_index_spec(legal: Seq<LegalMove>, mv: LegalMove) -> Option<u8> {
    match first_index(canonical_encodings(legal), encode_spec(mv)) {
        Some(i) => if i < 256 {
            Some(i as u8)
        } else {
            None
        },
        None => None,
    }
}

/// The canonical index of legal move `mv` in `pos` (see [`canonical_legal`]).
pub fn canonical_index(pos: &Chess, mv: &LegalMove) -> (r: Option<u8>)
    requires
        encodable(*mv),
    ensures
        r == canonical_index_spec(legal_moves_of(pos.fen_view()), *mv),
        packs_distinctly(legal_moves_of(pos.fen_view())),
{
    let target = EncodedMove::encode(mv).0;
    let legal = pos.legal_moves();
    let ks = sorted_keys(&legal);
    let ghost es = canonical_encodings(legal@);
    let mut i: usize = 0;
    while i < ks.len()
        invariant
            i <= ks@.len(),
            legal@ == legal_moves_of(pos.fen_view()),
            packs_distinctly(legal@),
            target == encode_spec(*mv),
            ks@ == canonical_keys(legal@),
            es == canonical_encodings(legal@),
            es.len() == ks@.len(),
            forall|k: int| 0 <= k < i ==> es[k] != target,
        decreases ks@.len() - i,
    {
        assert(es[i as int] == ks@[i as int].0);
        if ks[i].0 == target {
            proof {
                lemma_first_index(es, target, i as int);
            }
            if i < 256 {
                return Some(i as u8);
            } else {
                return None;
            }
        }
        i = i + 1;
    }
    proof {
        lemma_first_index(es, target, i as int);
    }
    None
}

/// Whether legal move `m` is the move `e` packs.
pub open spec fn matches_encoding(m: LegalMove, e: u16) -> bool {
    m.from == Some((e % 64) as u8) && m.to == ((e / 64) % 64) as u8 && m.promotion
        == role_of_bits(((e / 4096) % 8) as u16)
}

/// The index of the first of `legal` that `e` packs, if any.
pub open spec fn first_match(legal: Seq<LegalMove>, e: u16) -> Option<int>
    decreases legal.len(),
{
    if legal.len() == 0 {
        None
    } else if matches_encoding(legal[0], e) {
        Some(0)
    } else {
        match first_match(legal.drop_first(), e) {
            Some(k) => Some(k + 1),
            None => None,
        }
    }
}

/// The first of `legal` that `e` packs, if any.
pub open spec fn resolve_spec(legal: Seq<LegalMove>, e: u16) -> Option<LegalMove> {
    match first_match(legal, e) {
        Some(k) => Some(legal[k]),
        None => None,
    }
}

/// The first match lies inside `legal` and is packed by `e`.
pub proof fn lemma_first_match_range(legal: Seq<LegalMove>, e: u16)
    ensures
        first_match(legal, e) matches Some(k) ==> 0 <= k < legal.len() && matches_encoding(legal[k], e),
    decreases legal.len(),
{
    if legal.len() > 0 && !matches_encoding(legal[0], e) {
        let d = legal.drop_first();
        lemma_first_match_range(d, e);
        if let Some(k) = first_match(d, e) {
            assert(d[k] == legal[k + 1]);
        }
    }
}

proof fn lemma_first_match(legal: Seq<LegalMove>, e: u16, i: int)
    requires
        0 <= i <= legal.len(),
        forall|k: int| 0 <= k < i ==> !matches_encoding(legal[k], e),
    ensures
        i < legal.len() && matches_encoding(legal[i], e) ==> first_match(legal, e) == Some(i),
        i == legal.len() ==> first_match(legal, e) is None,
    decreases i,
{
    if i > 0 {
        let d = legal.drop_first();
        assert forall|k: int| 0 <= k < i - 1 implies !matches_encoding(d[k], e) by {
            assert(d[k] == legal[k + 1]);
        }
        lemma_first_match(d, e, i - 1);
        if i < legal.len() {
            assert(d[i - 1] == legal[i]);
        }
    }
}

/// The index in `legal` of the first move `e` packs, if any.
pub fn resolve_index(e: EncodedMove, legal: &Vec<LegalMove>) -> (r: Option<usize>)
    ensures
        r matches Some(k) ==> first_match(legal@, e.0) == Some(k as int),
        r is None ==> first_match(legal@, e.0) is None,
{
    let from = e.from_sq();
    let to = e.to_sq();
    let promo = e.promotion();
    let mut i: usize = 0;
    while i < legal.len()
        invariant
            i <= legal@.len(),
            from == e.0 % 64,
            to == (e.0 / 64) % 64,
            promo == role_of_bits(((e.0 / 4096) % 8) as u16),
            forall|k: int| 0 <= k < i ==> !matches_encoding(legal@[k], e.0),
        decreases legal@.len() - i,
    {
        let m = legal[i];
        if m.from == Some(from) && m.to == to && m.promotion == promo {
            proof {
                lemma_first_match(legal@, e.0, i as int);
            }
            return Some(i);
        }
        i = i + 1;
    }
    proof {
        lemma_first_match(legal@, e.0, i as int);
    }
    None
}

impl EncodedMove {
    /// Resolve this encoded move against a concrete position, returning the
    /// matching legal move (or `None` if it is not legal here).
    pub fn resolve(self, pos: &Chess) -> (r: Option<LegalMove>)
        ensures
            r == resolve_spec(legal_moves_of(pos.fen_view()), self.0),
    {
        let legal = pos.legal_moves();
        proof {
            lemma_first_match_range(legal@, self.0);
        }
        match resolve_index(self, &legal) {
            Some(k) => Some(legal[k]),
            None => None,
        }
    }
}

/// Resolving the packing of a legal move against its position gives that
/// move back.
pub proof fn lemma_resolve_encoded(legal: Seq<LegalMove>, i: int)
    requires
        0 <= i < legal.len(),
        encodable(legal[i]),
    ensures
        resolve_spec(legal, encode_spec(legal[i])) == Some(legal[i]),
    decreases legal.len(),
{
    let m = legal[i];
    let e = encode_spec(m);
    lemma_encode_decode(m);
    assert(matches_encoding(m, e));
    if matches_encoding(legal[0], e) {
        assert(legal[0] == m);
    } else {
        assert(i > 0);
        let d = legal.drop_first();
        assert(d[i - 1] == m);
        lemma_resolve_encoded(d, i - 1);
        lemma_first_match_range(d, e);
        let k = first_match(d, e).unwrap();
        assert(legal[k + 1] == d[k]);
    }
}

/// When moves pack distinctly, the canonical packings strictly ascend.
proof fn lemma_canonical_strict(legal: Seq<LegalMove>)
    requires
        canonical_pairs(legal, canonical_keys(legal)),
        packs_distinctly(legal),
    ensures
        forall|a: int, b: int| 0 <= a < b < canonical_encodings(legal).len()
            ==> canonical_encodings(legal)[a] < canonical_encodings(legal)[b],
{
    let ks = canonical_keys(legal);
    let es = canonical_encodings(legal);
    assert forall|a: int, b: int| 0 <= a < b < es.len() implies es[a] < es[b] by {
        assert(lex_before(ks[a], ks[b]));
        assert(ks[a].1 < legal.len() && ks[b].1 < legal.len());
        assert(ks[a].0 == encode_spec(legal[ks[a].1 as int]));
        assert(ks[b].0 == encode_spec(legal[ks[b].1 as int]));
    }
}

/// When a position's moves all pack differently, the canonical index of
/// the `i`-th canonical move is `i` (for the first 256 moves).
pub proof fn lemma_canonical_index_round_trip(legal: Seq<LegalMove>, i: int)
    requires
        canonical_pairs(legal, canonical_keys(legal)),
        packs_distinctly(legal),
        0 <= i < canonical_order(legal).len(),
        i < 256,
    ensures
        canonical_index_spec(legal, canonical_order(legal)[i]) == Some(i as u8),
{
    lemma_canonical_strict(legal);
    let ks = canonical_keys(legal);
    let es = canonical_encodings(legal);
    assert(ks[i].1 < legal.len());
    assert(encode_spec(canonical_order(legal)[i]) == es[i]);
    assert forall|k: int| 0 <= k < i implies es[k] != es[i] by {
        assert(es[k] < es[i]);
    }
    lemma_first_index(es, es[i], i);
}

} // verus!
