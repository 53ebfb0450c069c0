//! Moves in coordinate notation, such as "e2e4" or "c7c8q".
use crate::board::Board;
use crate::targets::{iabs, sx, sy};
use crate::types::{
    file_index, rank_index, square_name, square_of_chars, string_push, DecodedMove, Figure, MoveType,
    Piece, Square,
};
use vstd::prelude::*;

verus! {

/// The letter of the piece a move promotes to, if it promotes.
pub open spec fn promo_char(t: MoveType) -> Option<char> {
    match t {
        MoveType::QueenPromo | MoveType::QueenPromoCapture => Some('q'),
        MoveType::RookPromo | MoveType::RookPromoCapture => Some('r'),
        MoveType::BishopPromo | MoveType::BishopPromoCapture => Some('b'),
        MoveType::KnightPromo | MoveType::KnightPromoCapture => Some('n'),
        _ => None,
    }
}

/// The name of a move: from square, to square and the promotion letter.
pub open spec fn move_name(m: DecodedMove) -> Seq<char> {
    square_name(m.from.0 as int) + square_name(m.to.0 as int) + match promo_char(m.mv_type) {
        Some(c) => seq![c],
        None => Seq::empty(),
    }
}

/// The promotion named by letter `c`, as a capture when `capture`.
pub open spec fn promo_of_char(c: char, capture: bool) -> Option<MoveType> {
    if c == 'q' {
        Some(if capture { MoveType::QueenPromoCapture } else { MoveType::QueenPromo })
    } else if c == 'r' {
        Some(if capture { MoveType::RookPromoCapture } else { MoveType::RookPromo })
    } else if c == 'b' {
        Some(if capture { MoveType::BishopPromoCapture } else { MoveType::BishopPromo })
    } else if c == 'n' {
        Some(if capture { MoveType::KnightPromoCapture } else { MoveType::KnightPromo })
    } else {
        None
    }
}

/// The type of a move without promotion from `from` to `to` on `b`: a king moving two files
/// castles, a pawn moving two ranks steps twice, a pawn moving sideways onto an empty square
/// takes en passant, otherwise it captures when the to square is occupied.
pub open spec fn inferred_type(b: Board, from: int, to: int) -> MoveType {
    let piece = b.pieces@[from].spec_piece();
    let capture = b.pieces@[to] != Figure::Empty;
    if piece == Piece::King && iabs(sx(to) - sx(from)) == 2 {
        if sx(to) > sx(from) {
            MoveType::KingCastle
        } else {
            MoveType::QueenCastle
        }
    } else if piece == Piece::Pawn && iabs(sy(to) - sy(from)) == 2 {
        MoveType::DoubleMove
    } else if piece == Piece::Pawn && sx(to) != sx(from) && !capture {
        MoveType::EpCapture
    } else if capture {
        MoveType::Capture
    } else {
        MoveType::Quiet
    }
}

/// The move named by `s` on `b`; `None` unless `s` is two squares and, with five
/// characters, a promotion letter q, r, b or n.
pub open spec fn coords_move(b: Board, s: Seq<char>) -> Option<DecodedMove> {
    if s.len() != 4 && s.len() != 5 {
        None
    } else {
        match (square_of_chars(s[0], s[1]), square_of_chars(s[2], s[3])) {
            (Some(from), Some(to)) => {
                let t = if s.len() == 5 {
                    promo_of_char(s[4], b.pieces@[to] != Figure::Empty)
                } else {
                    Some(inferred_type(b, from, to))
                };
                match t {
                    Some(t) => Some(DecodedMove { from: Square(from as usize), to: Square(to as usize), mv_type: t }),
                    None => None,
                }
            },
            _ => None,
        }
    }
}

fn square_at(a: char, b: char) -> (r: Option<Square>)
    ensures
        r == (match square_of_chars(a, b) {
            Some(v) => Some(Square(v as usize)),
            None => None::<Square>,
        }),
        r matches Some(q) ==> q.valid(),
{
    match (file_index(a), rank_index(b)) {
        (Some(x), Some(y)) => Some(Square(y * 8 + x)),
        _ => None,
    }
}

impl DecodedMove {
    /// The move named by `s` on `board`, or `None` when `s` names none.
    pub fn try_from_coords(s: &str, board: &Board) -> (r: Option<DecodedMove>)
        ensures
            r == coords_move(*board, s@),
            r matches Some(m) ==> m.valid(),
    {
        let n = s.unicode_len();
        if n != 4 && n != 5 {
            return None;
        }
        let from = match square_at(s.get_char(0), s.get_char(1)) {
            Some(q) => q,
            None => return None,
        };
        let to = match square_at(s.get_char(2), s.get_char(3)) {
            Some(q) => q,
            None => return None,
        };
        let capture = board.figures(to) != Figure::Empty;
        let t = if n == 5 {
            let c = s.get_char(4);
            if c == 'q' {
                if capture { MoveType::QueenPromoCapture } else { MoveType::QueenPromo }
            } else if c == 'r' {
                if capture { MoveType::RookPromoCapture } else { MoveType::RookPromo }
            } else if c == 'b' {
                if capture { MoveType::BishopPromoCapture } else { MoveType::BishopPromo }
            } else if c == 'n' {
                if capture { MoveType::KnightPromoCapture } else { MoveType::KnightPromo }
            } else {
                return None;
            }
        } else {
            let piece = board.figures(from).piece();
            let fx = from.x();
            let tx = to.x();
            let fy = from.y();
            let ty = to.y();
            let dx = if tx > fx { tx - fx } else { fx - tx };
            let dy = if ty > fy { ty - fy } else { fy - ty };
            if piece == Piece::King && dx == 2 {
                if tx > fx {
                    MoveType::KingCastle
                } else {
                    MoveType::QueenCastle
                }
            } else if piece == Piece::Pawn && dy == 2 {
                MoveType::DoubleMove
            } else if piece == Piece::Pawn && tx != fx && !capture {
                MoveType::EpCapture
            } else if capture {
                MoveType::Capture
            } else {
                MoveType::Quiet
            }
        };
        Some(DecodedMove { from, to, mv_type: t })
    }

    /// The move named by `s` on `board`; `s` must name one (see `try_from_coords`).
    pub fn from_coords(s: String, board: &Board) -> (r: DecodedMove)
        requires
            coords_move(*board, s@) is Some,
        ensures
            coords_move(*board, s@) == Some(r),
            r.valid(),
    {
        match DecodedMove::try_from_coords(s.as_str(), board) {
            Some(m) => m,
            None => {
                assert(false);
                DecodedMove { from: Square(0), to: Square(0), mv_type: MoveType::Quiet }
            },
        }
    }

    /// The name of the move, such as "e2e4" or "c7c8q".
    pub fn to_coords(&self) -> (r: String)
        requires
            self.valid(),
        ensures
            r@ == move_name(*self),
    {
        let mut s = String::new();
        self.from.push_coords(&mut s);
        self.to.push_coords(&mut s);
        match self.mv_type {
            MoveType::QueenPromo | MoveType::QueenPromoCapture => string_push(&mut s, 'q'),
            MoveType::RookPromo | MoveType::RookPromoCapture => string_push(&mut s, 'r'),
            MoveType::BishopPromo | MoveType::BishopPromoCapture => string_push(&mut s, 'b'),
            MoveType::KnightPromo | MoveType::KnightPromoCapture => string_push(&mut s, 'n'),
            _ => {},
        }
        assert(s@ =~= move_name(*self));
        s
    }
}


/// Reading a move in coordinate notation and writing it again gives the same text.
pub proof fn lemma_coords_roundtrip(b: Board, s: Seq<char>)
    requires
        coords_move(b, s) is Some,
    ensures
        move_name(coords_move(b, s).unwrap()) == s,
{
    let m = coords_move(b, s).unwrap();
    let from = m.from.0 as int;
    let to = m.to.0 as int;
    assert(square_name(from) =~= s.subrange(0, 2));
    assert(square_name(to) =~= s.subrange(2, 4));
    if s.len() == 5 {
        assert(move_name(m) =~= s);
    } else {
        assert(move_name(m) =~= s);
    }
}



/// The two characters naming a square read back as that square.
proof fn lemma_square_name_reads(sq: int)
    requires
        0 <= sq < 64,
    ensures
        square_of_chars(square_name(sq)[0], square_name(sq)[1]) == Some(sq),
{
    let x = sq % 8;
    let y = sq / 8;
    assert(crate::types::file_char(x) as int == 97 + x);
    assert(crate::types::rank_char(y) as int == 49 + y);
}

/// What reading the name of `m` on `b` needs to give `m` back: for a move without
/// promotion, the type that the squares and the pieces on them imply; for a promotion, a
/// capture flag that matches whether the to square is occupied.
spec fn name_fits(b: Board, m: DecodedMove) -> bool {
    match promo_char(m.mv_type) {
        None => inferred_type(b, m.from.0 as int, m.to.0 as int) == m.mv_type,
        Some(_) => m.mv_type.spec_is_capture() == (b.pieces@[m.to.0 as int] != Figure::Empty),
    }
}

proof fn lemma_name_reads(b: Board, m: DecodedMove)
    requires
        m.valid(),
        name_fits(b, m),
    ensures
        coords_move(b, move_name(m)) == Some(m),
{
    let from = m.from.0 as int;
    let to = m.to.0 as int;
    lemma_square_name_reads(from);
    lemma_square_name_reads(to);
    crate::types::lemma_move_type_flags(m.mv_type);
    let s = move_name(m);
    assert(s[0] == square_name(from)[0]);
    assert(s[1] == square_name(from)[1]);
    assert(s[2] == square_name(to)[0]);
    assert(s[3] == square_name(to)[1]);
    match promo_char(m.mv_type) {
        Some(ch) => {
            assert(s.len() == 5);
            assert(s[4] == ch);
        },
        None => {
            assert(s.len() == 4);
        },
    }
}

/// The name of a move read back on `b` gives the move.
pub open spec fn reads_back(b: Board, e: u16) -> bool {
    coords_move(b, move_name(crate::types::spec_decode(e))) == Some(crate::types::spec_decode(e))
}

proof fn lemma_triple_reads(b: Board, f: int, t: int, k: crate::types::MoveType, e: u16)
    requires
        0 <= f < 64,
        0 <= t < 64,
        e == crate::types::spec_encode(f, t, k),
        name_fits(b, DecodedMove { from: Square(f as usize), to: Square(t as usize), mv_type: k }),
    ensures
        reads_back(b, e),
{
    let m = DecodedMove { from: Square(f as usize), to: Square(t as usize), mv_type: k };
    crate::types::lemma_decode_encode(m);
    lemma_name_reads(b, m);
}

/// A king, knight, bishop, rook or queen move of generation reads back.
proof fn lemma_piece_group_reads(b: Board, kind: Piece, froms: Set<int>, allowed: Set<int>, quiets: bool, e: u16)
    requires
        crate::moves::piece_moves(b.pieces@, b.occupied, b.current_color, kind, froms, allowed, quiets).contains(e),
        forall|f: int| #[trigger] froms.contains(f) ==> 0 <= f < 64 && b.pieces@[f].spec_piece() != Piece::Pawn && (
            b.pieces@[f].spec_piece() == Piece::King ==> kind == Piece::King),
    ensures
        reads_back(b, e),
{
    let p = b.pieces@;
    let c = b.current_color;
    let occ = b.occupied;
    let tg = |f: int| crate::masks::attack_set(kind, c, f, occ).intersect(allowed).intersect(
        crate::moves::dest_squares(p, c, quiets),
    );
    let ks = seq![crate::moves::move_kind(quiets)];
    let f = choose|f: int| froms.contains(f) && #[trigger] crate::moves::target_moves(f, tg(f), ks).contains(e);
    let (t, i) = choose|t: int, i: int|
        tg(f).contains(t) && 0 <= i < ks.len() && e == #[trigger] crate::types::spec_encode(f, t, ks[i]);
    assert(froms.contains(f));
    assert(crate::moves::dest_squares(p, c, quiets).contains(t));
    assert(ks[i] == crate::moves::move_kind(quiets));
    if p[f].spec_piece() == Piece::King {
        assert(crate::masks::attack_set(kind, c, f, occ).contains(t));
        assert(crate::targets::king_attacks(f, t));
    }
    lemma_triple_reads(b, f, t, ks[i], e);
}

/// The facts about the pieces a pawn group of generation moves: each from square holds a
/// pawn, the to squares of steps are empty and those of captures hold a piece, and the
/// types fit the way the pawns move.
spec fn pawn_group_fits(
    b: Board,
    how: crate::moves::PawnStep,
    froms: Set<int>,
    mask: Set<int>,
    kinds: Seq<crate::types::MoveType>,
) -> bool {
    let p = b.pieces@;
    &&& forall|f: int| #[trigger] froms.contains(f) ==> 0 <= f < 64 && p[f].spec_piece() == Piece::Pawn
    &&& forall|t: int| #[trigger] mask.contains(t) ==> ((p[t] == Figure::Empty) <==> how != crate::moves::PawnStep::Capture)
    &&& forall|i: int|
        0 <= i < kinds.len() ==> match how {
            crate::moves::PawnStep::Single => #[trigger] kinds[i] == crate::types::MoveType::Quiet || (promo_char(kinds[i]) is Some
                && !kinds[i].spec_is_capture()),
            crate::moves::PawnStep::Double => kinds[i] == crate::types::MoveType::DoubleMove,
            crate::moves::PawnStep::Capture => kinds[i] == crate::types::MoveType::Capture || (promo_char(kinds[i]) is Some
                && kinds[i].spec_is_capture()),
        }
}

proof fn lemma_pawn_group_reads(
    b: Board,
    how: crate::moves::PawnStep,
    froms: Set<int>,
    es: Set<int>,
    mask: Set<int>,
    kinds: Seq<crate::types::MoveType>,
    e: u16,
)
    requires
        crate::moves::gen_moves(froms, crate::moves::pawn_tg(how, b.current_color, es, mask), kinds).contains(e),
        pawn_group_fits(b, how, froms, mask, kinds),
    ensures
        reads_back(b, e),
{
    let c = b.current_color;
    let tg = crate::moves::pawn_tg(how, c, es, mask);
    let f = choose|f: int| froms.contains(f) && #[trigger] crate::moves::target_moves(f, tg(f), kinds).contains(e);
    let (t, i) = choose|t: int, i: int|
        tg(f).contains(t) && 0 <= i < kinds.len() && e == #[trigger] crate::types::spec_encode(f, t, kinds[i]);
    assert(froms.contains(f));
    assert(mask.contains(t));
    let k = kinds[i];
    crate::types::lemma_move_type_flags(k);
    lemma_triple_reads(b, f, t, k, e);
}

/// The squares of `x` hold pieces of `kind` of the side to move.
proof fn lemma_froms_hold(b: Board, kind: Piece, x: Set<int>)
    requires
        kind != Piece::Empty,
        x.subset_of(crate::moves::squares_of(b.pieces@, Figure::spec_new(b.current_color, kind))),
    ensures
        forall|f: int| #[trigger] x.contains(f) ==> 0 <= f < 64 && b.pieces@[f].spec_piece() == kind,
{
    assert forall|f: int| #[trigger] x.contains(f) implies 0 <= f < 64 && b.pieces@[f].spec_piece() == kind by {
        assert(crate::moves::squares_of(b.pieces@, Figure::spec_new(b.current_color, kind)).contains(f));
        b.pieces@[f].lemma_figure_parts(b.current_color, kind);
    }
}

proof fn lemma_pawn_fits(
    b: Board,
    how: crate::moves::PawnStep,
    froms: Set<int>,
    mask: Set<int>,
    kinds: Seq<crate::types::MoveType>,
)
    requires
        froms.subset_of(crate::moves::squares_of(b.pieces@, Figure::spec_new(b.current_color, Piece::Pawn))),
        how != crate::moves::PawnStep::Capture ==> mask.subset_of(crate::moves::dest_squares(b.pieces@, b.current_color, true)),
        how == crate::moves::PawnStep::Capture ==> mask.subset_of(crate::moves::dest_squares(b.pieces@, b.current_color, false)),
        how == crate::moves::PawnStep::Single ==> kinds == seq![crate::types::MoveType::Quiet] || kinds == crate::generator::promos(false),
        how == crate::moves::PawnStep::Double ==> kinds == seq![crate::types::MoveType::DoubleMove],
        how == crate::moves::PawnStep::Capture ==> kinds == seq![crate::types::MoveType::Capture] || kinds == crate::generator::promos(true),
    ensures
        pawn_group_fits(b, how, froms, mask, kinds),
{
    lemma_froms_hold(b, Piece::Pawn, froms);
    assert forall|t: int| #[trigger] mask.contains(t) implies ((b.pieces@[t] == Figure::Empty) <==> how
        != crate::moves::PawnStep::Capture) by {
        if how == crate::moves::PawnStep::Capture {
            assert(crate::moves::dest_squares(b.pieces@, b.current_color, false).contains(t));
        } else {
            assert(crate::moves::dest_squares(b.pieces@, b.current_color, true).contains(t));
        }
    }
    assert forall|i: int| 0 <= i < kinds.len() implies match how {
        crate::moves::PawnStep::Single => #[trigger] kinds[i] == crate::types::MoveType::Quiet || (promo_char(kinds[i]) is Some
            && !kinds[i].spec_is_capture()),
        crate::moves::PawnStep::Double => kinds[i] == crate::types::MoveType::DoubleMove,
        crate::moves::PawnStep::Capture => kinds[i] == crate::types::MoveType::Capture || (promo_char(kinds[i]) is Some
            && kinds[i].spec_is_capture()),
    } by {
        crate::types::lemma_move_type_flags(kinds[i]);
    }
}

/// A castling move or an en passant capture of generation reads back.
proof fn lemma_special_reads(b: Board, quiets: bool, e: u16)
    requires
        b.movegen_ready(),
        names_consistent(b),
        quiets ==> crate::generator::castle_moves(b, b.check_number() as int, b.current_color).contains(e),
        !quiets ==> crate::generator::ep_moves(b, b.current_color, b.hv_pins(), b.diag_pins()).contains(e),
    ensures
        reads_back(b, e),
{
    let c = b.current_color;
    let p = b.pieces@;
    if quiets {
        let base: int = if c == crate::types::Color::White { 0 } else { 56 };
        assert(Figure::WhiteKing.spec_piece() == Piece::King);
        assert(Figure::BlackKing.spec_piece() == Piece::King);
        assert(p[base + 4].spec_piece() == Piece::King);
        if e == crate::types::spec_encode(base + 4, base + 2, crate::types::MoveType::QueenCastle) {
            lemma_triple_reads(b, base + 4, base + 2, crate::types::MoveType::QueenCastle, e);
        } else {
            lemma_triple_reads(b, base + 4, base + 6, crate::types::MoveType::KingCastle, e);
        }
    } else {
        let h = b.hv_pins();
        let d = b.diag_pins();
        let ep = b.ep_target->0;
        let esq = vstd::std_specs::bits::u64_trailing_zeros(ep.0) as int;
        let pawns = crate::moves::squares_of(p, Figure::spec_new(c, Piece::Pawn));
        let from_e = Set::new(|s: int| crate::targets::pawn_attacks(c.spec_opposite(), esq, s));
        let cand = if crate::generator::ep_group(b, c, from_e.intersect(crate::generator::unpinned(pawns, h, d)), esq, ep.0).contains(e) {
            from_e.intersect(crate::generator::unpinned(pawns, h, d))
        } else {
            from_e.intersect(crate::generator::pinned_on(pawns, d, h))
        };
        assert(crate::generator::ep_group(b, c, cand, esq, ep.0).contains(e));
        let s = choose|s: int|
            cand.contains(s) && crate::generator::ep_safe(b, c, s, ep.0, crate::generator::ep_captured(c, ep.0)) && e
                == #[trigger] crate::types::spec_encode(s, esq, crate::types::MoveType::EpCapture);
        assert(crate::targets::pawn_attacks(c.spec_opposite(), esq, s));
        assert(pawns.contains(s));
        p[s].lemma_figure_parts(c, Piece::Pawn);
        lemma_triple_reads(b, s, esq, crate::types::MoveType::EpCapture, e);
    }
}

/// Every move generation produces reads back from its name.
proof fn lemma_generated_read_back(b: Board, quiets: bool, e: u16)
    requires
        b.movegen_ready(),
        names_consistent(b),
        crate::generator::generated_moves(b, quiets).contains(e),
    ensures
        reads_back(b, e),
{
    let p = b.pieces@;
    let c = b.current_color;
    let occ = b.occupied;
    let h = b.hv_pins();
    let d = b.diag_pins();
    let cm = b.checks();
    let k = b.own_king();
    b.lemma_ready_kings_pub();
    let ks = choose|s: int| 0 <= s < 64 && #[trigger] p[s] == Figure::spec_new(c, Piece::King);
    crate::board::lemma_lowest_king_exists(p, c, ks);
    p[k].lemma_figure_parts(c, Piece::King);
    assert(p[k].spec_piece() == Piece::King);
    let king = crate::moves::piece_moves(p, occ, c, Piece::King, set![k], crate::generator::king_safe_squares(p, c), quiets);
    if king.contains(e) {
        lemma_piece_group_reads(b, Piece::King, set![k], crate::generator::king_safe_squares(p, c), quiets, e);
        return;
    }
    let fig = |kd: Piece| Figure::spec_new(c, kd);
    let kn = crate::moves::squares_of(p, fig(Piece::Knight)).difference(h + d);
    let bu = crate::generator::unpinned(crate::moves::squares_of(p, fig(Piece::Bishop)), d, h);
    let bp = crate::generator::pinned_on(crate::moves::squares_of(p, fig(Piece::Bishop)), d, h);
    let ru = crate::generator::unpinned(crate::moves::squares_of(p, fig(Piece::Rook)), h, d);
    let rp = crate::generator::pinned_on(crate::moves::squares_of(p, fig(Piece::Rook)), h, d);
    let qu = crate::generator::unpinned(crate::moves::squares_of(p, fig(Piece::Queen)), h, d);
    let qh = crate::generator::pinned_on(crate::moves::squares_of(p, fig(Piece::Queen)), h, d);
    let qd = crate::generator::pinned_on(crate::moves::squares_of(p, fig(Piece::Queen)), d, h);
    lemma_froms_hold(b, Piece::Knight, kn);
    lemma_froms_hold(b, Piece::Bishop, bu);
    lemma_froms_hold(b, Piece::Bishop, bp);
    lemma_froms_hold(b, Piece::Rook, ru);
    lemma_froms_hold(b, Piece::Rook, rp);
    lemma_froms_hold(b, Piece::Queen, qu);
    lemma_froms_hold(b, Piece::Queen, qh);
    lemma_froms_hold(b, Piece::Queen, qd);
    if crate::generator::pawn_moves(p, c, h, d, cm, quiets).contains(e) {
        lemma_pawn_moves_read_back(b, quiets, e);
    } else if crate::moves::piece_moves(p, occ, c, Piece::Knight, kn, cm, quiets).contains(e) {
        lemma_piece_group_reads(b, Piece::Knight, kn, cm, quiets, e);
    } else if crate::moves::piece_moves(p, occ, c, Piece::Bishop, bu, cm, quiets).contains(e) {
        lemma_piece_group_reads(b, Piece::Bishop, bu, cm, quiets, e);
    } else if crate::moves::piece_moves(p, occ, c, Piece::Bishop, bp, cm.intersect(d), quiets).contains(e) {
        lemma_piece_group_reads(b, Piece::Bishop, bp, cm.intersect(d), quiets, e);
    } else if crate::moves::piece_moves(p, occ, c, Piece::Rook, ru, cm, quiets).contains(e) {
        lemma_piece_group_reads(b, Piece::Rook, ru, cm, quiets, e);
    } else if crate::moves::piece_moves(p, occ, c, Piece::Rook, rp, cm.intersect(h), quiets).contains(e) {
        lemma_piece_group_reads(b, Piece::Rook, rp, cm.intersect(h), quiets, e);
    } else if crate::moves::piece_moves(p, occ, c, Piece::Queen, qu, cm, quiets).contains(e) {
        lemma_piece_group_reads(b, Piece::Queen, qu, cm, quiets, e);
    } else if crate::moves::piece_moves(p, occ, c, Piece::Rook, qh, cm.intersect(h), quiets).contains(e) {
        lemma_piece_group_reads(b, Piece::Rook, qh, cm.intersect(h), quiets, e);
    } else if crate::moves::piece_moves(p, occ, c, Piece::Bishop, qd, cm.intersect(d), quiets).contains(e) {
        lemma_piece_group_reads(b, Piece::Bishop, qd, cm.intersect(d), quiets, e);
    } else {
        lemma_special_reads(b, quiets, e);
    }
}

/// Every pawn move of generation reads back.
proof fn lemma_pawn_moves_read_back(b: Board, quiets: bool, e: u16)
    requires
        crate::generator::pawn_moves(b.pieces@, b.current_color, b.hv_pins(), b.diag_pins(), b.checks(), quiets).contains(e),
    ensures
        reads_back(b, e),
{
    let p = b.pieces@;
    let c = b.current_color;
    let h = b.hv_pins();
    let d = b.diag_pins();
    let cm = b.checks();
    let pawns = crate::moves::squares_of(p, Figure::spec_new(c, Piece::Pawn));
    let normal = pawns.difference(crate::bitboard::bits(crate::generator::promo_row(c)));
    let double = pawns.intersect(crate::bitboard::bits(crate::generator::double_row(c)));
    let promo = pawns.intersect(crate::bitboard::bits(crate::generator::promo_row(c)));
    let es = crate::moves::dest_squares(p, c, true);
    let ns = crate::moves::dest_squares(p, c, false);
    let single = crate::moves::PawnStep::Single;
    let dbl = crate::moves::PawnStep::Double;
    let cap = crate::moves::PawnStep::Capture;
    let quiet = seq![crate::types::MoveType::Quiet];
    let two = seq![crate::types::MoveType::DoubleMove];
    let take = seq![crate::types::MoveType::Capture];
    let un = crate::generator::unpinned(normal, h, d);
    let pnh = crate::generator::pinned_on(normal, h, d);
    let pnd = crate::generator::pinned_on(normal, d, h);
    let ud = crate::generator::unpinned(double, h, d);
    let pd = crate::generator::pinned_on(double, h, d);
    let up = crate::generator::unpinned(promo, h, d);
    let pph = crate::generator::pinned_on(promo, h, d);
    let ppd = crate::generator::pinned_on(promo, d, h);
    if quiets {
        if crate::moves::gen_moves(un, crate::moves::pawn_tg(single, c, es, es.intersect(cm)), quiet).contains(e) {
            lemma_pawn_fits(b, single, un, es.intersect(cm), quiet);
            lemma_pawn_group_reads(b, single, un, es, es.intersect(cm), quiet, e);
        } else if crate::moves::gen_moves(pnh, crate::moves::pawn_tg(single, c, es, es.intersect(cm).intersect(h)), quiet).contains(e) {
            lemma_pawn_fits(b, single, pnh, es.intersect(cm).intersect(h), quiet);
            lemma_pawn_group_reads(b, single, pnh, es, es.intersect(cm).intersect(h), quiet, e);
        } else if crate::moves::gen_moves(ud, crate::moves::pawn_tg(dbl, c, es, es.intersect(cm)), two).contains(e) {
            lemma_pawn_fits(b, dbl, ud, es.intersect(cm), two);
            lemma_pawn_group_reads(b, dbl, ud, es, es.intersect(cm), two, e);
        } else {
            lemma_pawn_fits(b, dbl, pd, es.intersect(cm).intersect(h), two);
            lemma_pawn_group_reads(b, dbl, pd, es, es.intersect(cm).intersect(h), two, e);
        }
    } else {
        if crate::moves::gen_moves(un, crate::moves::pawn_tg(cap, c, es, ns.intersect(cm)), take).contains(e) {
            lemma_pawn_fits(b, cap, un, ns.intersect(cm), take);
            lemma_pawn_group_reads(b, cap, un, es, ns.intersect(cm), take, e);
        } else if crate::moves::gen_moves(pnd, crate::moves::pawn_tg(cap, c, es, ns.intersect(cm).intersect(d)), take).contains(e) {
            lemma_pawn_fits(b, cap, pnd, ns.intersect(cm).intersect(d), take);
            lemma_pawn_group_reads(b, cap, pnd, es, ns.intersect(cm).intersect(d), take, e);
        } else if crate::moves::gen_moves(up, crate::moves::pawn_tg(single, c, es, es.intersect(cm)), crate::generator::promos(false)).contains(e) {
            lemma_pawn_fits(b, single, up, es.intersect(cm), crate::generator::promos(false));
            lemma_pawn_group_reads(b, single, up, es, es.intersect(cm), crate::generator::promos(false), e);
        } else if crate::moves::gen_moves(up, crate::moves::pawn_tg(cap, c, es, ns.intersect(cm)), crate::generator::promos(true)).contains(e) {
            lemma_pawn_fits(b, cap, up, ns.intersect(cm), crate::generator::promos(true));
            lemma_pawn_group_reads(b, cap, up, es, ns.intersect(cm), crate::generator::promos(true), e);
        } else if crate::moves::gen_moves(pph, crate::moves::pawn_tg(single, c, es, es.intersect(cm).intersect(h)), crate::generator::promos(false)).contains(e) {
            lemma_pawn_fits(b, single, pph, es.intersect(cm).intersect(h), crate::generator::promos(false));
            lemma_pawn_group_reads(b, single, pph, es, es.intersect(cm).intersect(h), crate::generator::promos(false), e);
        } else {
            lemma_pawn_fits(b, cap, ppd, ns.intersect(cm).intersect(d), crate::generator::promos(true));
            lemma_pawn_group_reads(b, cap, ppd, es, ns.intersect(cm).intersect(d), crate::generator::promos(true), e);
        }
    }
}

/// The position holds what the names of its moves take for granted: each castling right is
/// kept only with the king on its home square, and the en passant square is empty.
pub open spec fn names_consistent(b: Board) -> bool {
    &&& crate::legality::castle_home(b)
    &&& (b.ep_target matches Some(t) ==> b.pieces@[vstd::std_specs::bits::u64_trailing_zeros(t.0) as int]
        == Figure::Empty)
}

/// Reading the name of a move that generation produces (`e1c1`, `e7e8q`, `e5d6`) gives back
/// that very move, its type included: a king moving two files castles, a pawn moving two
/// ranks steps twice, a pawn moving sideways onto the empty en passant square takes en
/// passant, and a promotion is a capture exactly when the to square is occupied. So a name
/// read on `b` that agrees with a generated move in squares and promotion letter is that
/// move.
pub proof fn lemma_generated_moves_read_back(b: Board, quiets: bool, e: u16, s: Seq<char>)
    requires
        b.movegen_ready(),
        names_consistent(b),
        crate::generator::generated_moves(b, quiets).contains(e),
    ensures
        coords_move(b, move_name(crate::types::spec_decode(e))) == Some(crate::types::spec_decode(e)),
        coords_move(b, s) matches Some(m) ==> (m.from == crate::types::spec_decode(e).from && m.to
            == crate::types::spec_decode(e).to && promo_char(m.mv_type) == promo_char(
            crate::types::spec_decode(e).mv_type,
        ) ==> m == crate::types::spec_decode(e)),
{
    lemma_generated_read_back(b, quiets, e);
    let g = crate::types::spec_decode(e);
    if coords_move(b, s) is Some {
        let m = coords_move(b, s).unwrap();
        lemma_coords_roundtrip(b, s);
        if m.from == g.from && m.to == g.to && promo_char(m.mv_type) == promo_char(g.mv_type) {
            assert(move_name(m) == move_name(g));
        }
    }
}

} // verus!
