//! Move generation for the side to move, piece kind by piece kind.
//!
//! Every generator takes `quiets`: with `true` it appends the quiet moves of its pieces, with
//! `false` the captures and promotions. Pinned pieces only move along their pin, and while
//! the king is in check every move other than a king move lands on the check mask.
use crate::bitboard::{bit_set, bits, board_of, lemma_bit_ops, lemma_board_of_bits, Bit, Bitboard};
use crate::board::{lowest_king_sq, Board};
use crate::masks::{attack_mask, calculate_attackmask};
use crate::move_picker::MoveList;
use crate::moves::{
    dest_board, dest_squares, gen_moves, grows_by, lemma_grows_trans, lemma_piece_moves_disjoint, lemma_union_disjoint,
    pawn_tg, piece_moves, lemma_gen_disjoint_froms, lemma_gen_disjoint_kinds, lemma_pawn_tg_on_board,
    push_moves_of, push_pawn_group, squares_of, PawnStep,
};
use crate::types::{spec_encode, Color, EncodedMove, Figure, MoveType, Piece, Square};
use vstd::prelude::*;

verus! {

/// The squares of figure `fig` not in `a` and not in `b`.
pub open spec fn free_of(p: Seq<Figure>, fig: Figure, a: Bitboard, b: Bitboard) -> Set<int> {
    squares_of(p, fig).difference(bits(a.0)).difference(bits(b.0))
}

/// The squares of figure `fig` in `a` and not in `b`.
pub open spec fn only_in(p: Seq<Figure>, fig: Figure, a: Bitboard, b: Bitboard) -> Set<int> {
    squares_of(p, fig).intersect(bits(a.0)).difference(bits(b.0))
}

proof fn lemma_groups(board: &Board, fig: Figure, figs: u64, a: u64, b: u64)
    requires
        forall|s: int| #[trigger] bit_set(figs, s) == (0 <= s < 64 && board.pieces@[s] == fig),
    ensures
        bits(figs & !a & !b) == squares_of(board.pieces@, fig).difference(bits(a)).difference(bits(b)),
        bits(figs & a & !b) == squares_of(board.pieces@, fig).intersect(bits(a)).difference(bits(b)),
{
    lemma_bit_ops(figs, !a);
    lemma_bit_ops(figs & !a, !b);
    lemma_bit_ops(figs, a);
    lemma_bit_ops(figs & a, !b);
    lemma_bit_ops(a, a);
    lemma_bit_ops(b, b);
    assert(bits(figs & !a & !b) =~= squares_of(board.pieces@, fig).difference(bits(a)).difference(bits(b)));
    assert(bits(figs & a & !b) =~= squares_of(board.pieces@, fig).intersect(bits(a)).difference(bits(b)));
}

/// Knight moves: knights on a pin stay put, the others go to the check mask.
pub fn generate_knight_moves(
    moves: &mut MoveList,
    quiets: bool,
    pinmask: Bitboard,
    friendly: Color,
    board: &Board,
    check_mask: Bitboard,
)
    requires
        board.wf(),
    ensures
        grows_by(*old(moves), *final(moves), piece_moves(board.pieces@, board.occupied, friendly, Piece::Knight,
            squares_of(board.pieces@, Figure::spec_new(friendly, Piece::Knight)).difference(bits(pinmask.0)),
            bits(check_mask.0), quiets)),
{
    let knights = board.figure_bb(friendly, Piece::Knight);
    let froms = knights.0 & !pinmask.0;
    proof {
        lemma_groups(board, Figure::spec_new(friendly, Piece::Knight), knights.0, pinmask.0, 0);
        lemma_bit_ops(knights.0, !pinmask.0);
        lemma_bit_ops(pinmask.0, pinmask.0);
        assert(bits(froms) =~= squares_of(board.pieces@, Figure::spec_new(friendly, Piece::Knight)).difference(bits(pinmask.0)));
    }
    push_moves_of(moves, board, quiets, friendly, Piece::Knight, froms, check_mask.0);
}

/// Bishop moves: free bishops go to the check mask, bishops on a diagonal pin move along it,
/// bishops on an orthogonal pin stay put.
pub fn generate_bishop_moves(
    moves: &mut MoveList,
    quiets: bool,
    hv_pinmask: Bitboard,
    diag_pinmask: Bitboard,
    friendly: Color,
    board: &Board,
    check_mask: Bitboard,
)
    requires
        board.wf(),
    ensures
        grows_by(*old(moves), *final(moves),
            piece_moves(board.pieces@, board.occupied, friendly, Piece::Bishop,
                free_of(board.pieces@, Figure::spec_new(friendly, Piece::Bishop), diag_pinmask, hv_pinmask),
                bits(check_mask.0), quiets)
            + piece_moves(board.pieces@, board.occupied, friendly, Piece::Bishop,
                only_in(board.pieces@, Figure::spec_new(friendly, Piece::Bishop), diag_pinmask, hv_pinmask),
                bits(check_mask.0 & diag_pinmask.0), quiets)),
{
    let ghost start = *moves;
    let bishops = board.figure_bb(friendly, Piece::Bishop);
    let free = bishops.0 & !diag_pinmask.0 & !hv_pinmask.0;
    let pinned = bishops.0 & diag_pinmask.0 & !hv_pinmask.0;
    proof {
        lemma_groups(board, Figure::spec_new(friendly, Piece::Bishop), bishops.0, diag_pinmask.0, hv_pinmask.0);
    }
    push_moves_of(moves, board, quiets, friendly, Piece::Bishop, free, check_mask.0);
    let ghost mid = *moves;
    push_moves_of(moves, board, quiets, friendly, Piece::Bishop, pinned, check_mask.0 & diag_pinmask.0);
    proof {
        lemma_piece_moves_disjoint(board.pieces@, board.occupied, friendly, Piece::Bishop, bits(free), bits(check_mask.0),
            Piece::Bishop, bits(pinned), bits(check_mask.0 & diag_pinmask.0), quiets);
        lemma_grows_trans(start, mid, *moves,
            piece_moves(board.pieces@, board.occupied, friendly, Piece::Bishop, bits(free), bits(check_mask.0), quiets),
            piece_moves(board.pieces@, board.occupied, friendly, Piece::Bishop, bits(pinned), bits(check_mask.0 & diag_pinmask.0), quiets));
    }
}

/// Rook moves: free rooks go to the check mask, rooks on an orthogonal pin move along it,
/// rooks on a diagonal pin stay put.
pub fn generate_rook_moves(
    moves: &mut MoveList,
    quiets: bool,
    hv_pinmask: Bitboard,
    diag_pinmask: Bitboard,
    friendly: Color,
    board: &Board,
    check_mask: Bitboard,
)
    requires
        board.wf(),
    ensures
        grows_by(*old(moves), *final(moves),
            piece_moves(board.pieces@, board.occupied, friendly, Piece::Rook,
                free_of(board.pieces@, Figure::spec_new(friendly, Piece::Rook), hv_pinmask, diag_pinmask),
                bits(check_mask.0), quiets)
            + piece_moves(board.pieces@, board.occupied, friendly, Piece::Rook,
                only_in(board.pieces@, Figure::spec_new(friendly, Piece::Rook), hv_pinmask, diag_pinmask),
                bits(check_mask.0 & hv_pinmask.0), quiets)),
{
    let ghost start = *moves;
    let rooks = board.figure_bb(friendly, Piece::Rook);
    let free = rooks.0 & !hv_pinmask.0 & !diag_pinmask.0;
    let pinned = rooks.0 & hv_pinmask.0 & !diag_pinmask.0;
    proof {
        lemma_groups(board, Figure::spec_new(friendly, Piece::Rook), rooks.0, hv_pinmask.0, diag_pinmask.0);
    }
    push_moves_of(moves, board, quiets, friendly, Piece::Rook, free, check_mask.0);
    let ghost mid = *moves;
    push_moves_of(moves, board, quiets, friendly, Piece::Rook, pinned, check_mask.0 & hv_pinmask.0);
    proof {
        lemma_piece_moves_disjoint(board.pieces@, board.occupied, friendly, Piece::Rook, bits(free), bits(check_mask.0),
            Piece::Rook, bits(pinned), bits(check_mask.0 & hv_pinmask.0), quiets);
        lemma_grows_trans(start, mid, *moves,
            piece_moves(board.pieces@, board.occupied, friendly, Piece::Rook, bits(free), bits(check_mask.0), quiets),
            piece_moves(board.pieces@, board.occupied, friendly, Piece::Rook, bits(pinned), bits(check_mask.0 & hv_pinmask.0), quiets));
    }
}

/// Queen moves: free queens go to the check mask; a queen on an orthogonal pin moves like a
/// rook along it, one on a diagonal pin like a bishop along it.
pub fn generate_queen_moves(
    moves: &mut MoveList,
    quiets: bool,
    hv_pinmask: Bitboard,
    diag_pinmask: Bitboard,
    friendly: Color,
    board: &Board,
    check_mask: Bitboard,
)
    requires
        board.wf(),
    ensures
        grows_by(*old(moves), *final(moves),
            piece_moves(board.pieces@, board.occupied, friendly, Piece::Queen,
                free_of(board.pieces@, Figure::spec_new(friendly, Piece::Queen), hv_pinmask, diag_pinmask),
                bits(check_mask.0), quiets)
            + piece_moves(board.pieces@, board.occupied, friendly, Piece::Rook,
                only_in(board.pieces@, Figure::spec_new(friendly, Piece::Queen), hv_pinmask, diag_pinmask),
                bits(check_mask.0 & hv_pinmask.0), quiets)
            + piece_moves(board.pieces@, board.occupied, friendly, Piece::Bishop,
                only_in(board.pieces@, Figure::spec_new(friendly, Piece::Queen), diag_pinmask, hv_pinmask),
                bits(check_mask.0 & diag_pinmask.0), quiets)),
{
    let ghost start = *moves;
    let queens = board.figure_bb(friendly, Piece::Queen);
    let free = queens.0 & !hv_pinmask.0 & !diag_pinmask.0;
    let hv = queens.0 & hv_pinmask.0 & !diag_pinmask.0;
    let diag = queens.0 & diag_pinmask.0 & !hv_pinmask.0;
    proof {
        lemma_groups(board, Figure::spec_new(friendly, Piece::Queen), queens.0, hv_pinmask.0, diag_pinmask.0);
        lemma_groups(board, Figure::spec_new(friendly, Piece::Queen), queens.0, diag_pinmask.0, hv_pinmask.0);
    }
    push_moves_of(moves, board, quiets, friendly, Piece::Queen, free, check_mask.0);
    let ghost m1 = *moves;
    push_moves_of(moves, board, quiets, friendly, Piece::Rook, hv, check_mask.0 & hv_pinmask.0);
    let ghost m2 = *moves;
    push_moves_of(moves, board, quiets, friendly, Piece::Bishop, diag, check_mask.0 & diag_pinmask.0);
    proof {
        let s1 = piece_moves(board.pieces@, board.occupied, friendly, Piece::Queen, bits(free), bits(check_mask.0), quiets);
        let s2 = piece_moves(board.pieces@, board.occupied, friendly, Piece::Rook, bits(hv), bits(check_mask.0 & hv_pinmask.0), quiets);
        let s3 = piece_moves(board.pieces@, board.occupied, friendly, Piece::Bishop, bits(diag), bits(check_mask.0 & diag_pinmask.0), quiets);
        let p = board.pieces@;
        let occ = board.occupied;
        lemma_piece_moves_disjoint(p, occ, friendly, Piece::Queen, bits(free), bits(check_mask.0), Piece::Rook, bits(hv),
            bits(check_mask.0 & hv_pinmask.0), quiets);
        lemma_piece_moves_disjoint(p, occ, friendly, Piece::Queen, bits(free), bits(check_mask.0), Piece::Bishop, bits(diag),
            bits(check_mask.0 & diag_pinmask.0), quiets);
        lemma_piece_moves_disjoint(p, occ, friendly, Piece::Rook, bits(hv), bits(check_mask.0 & hv_pinmask.0), Piece::Bishop,
            bits(diag), bits(check_mask.0 & diag_pinmask.0), quiets);
        lemma_union_disjoint(s1, s2, s3);
        lemma_grows_trans(start, m1, m2, s1, s2);
        lemma_grows_trans(start, m2, *moves, s1 + s2, s3);
    }
}

/// The occupied squares without the kings of `color`.
pub open spec fn occupied_without_king(p: Seq<Figure>, color: Color) -> u64 {
    board_of(Set::new(|s: int| 0 <= s < 64 && p[s] != Figure::Empty && p[s] != Figure::spec_new(color, Piece::King)))
}

/// The squares the king of `friendly` may step to: those the enemy does not attack once the
/// king has left its square.
pub open spec fn king_safe_squares(p: Seq<Figure>, friendly: Color) -> Set<int> {
    Set::new(
        |t: int| 0 <= t < 64 && !attack_mask(p, occupied_without_king(p, friendly), friendly.spec_opposite(), 0).contains(t),
    )
}

/// King moves to squares the enemy does not attack.
pub fn generate_king_move(moves: &mut MoveList, quiets: bool, friendly: Color, board: &Board)
    requires
        board.wf(),
        board.kings_present(),
    ensures
        grows_by(*old(moves), *final(moves), piece_moves(board.pieces@, board.occupied, friendly, Piece::King,
            set![lowest_king_sq(board.pieces@, friendly)], king_safe_squares(board.pieces@, friendly), quiets)),
{
    let ghost p = board.pieces@;
    let king_bb = board.king(friendly);
    proof {
        Figure::WhiteKing.lemma_figure_parts(friendly, Piece::King);
        if friendly == Color::White {
            let s = choose|s: int| 0 <= s < 64 && #[trigger] p[s] == Figure::WhiteKing;
            assert(p[s] == Figure::spec_new(friendly, Piece::King));
        } else {
            let s = choose|s: int| 0 <= s < 64 && #[trigger] p[s] == Figure::BlackKing;
            assert(p[s] == Figure::spec_new(friendly, Piece::King));
        }
        assert(board.has_king(friendly));
        assert(board.has_king(friendly.spec_opposite())) by {
            if friendly == Color::White {
                let s = choose|s: int| 0 <= s < 64 && #[trigger] p[s] == Figure::BlackKing;
                assert(p[s] == Figure::spec_new(friendly.spec_opposite(), Piece::King));
            } else {
                let s = choose|s: int| 0 <= s < 64 && #[trigger] p[s] == Figure::WhiteKing;
                assert(p[s] == Figure::spec_new(friendly.spec_opposite(), Piece::King));
            }
        }
    }
    let from = board.king_square(friendly);
    let occ = board.occupied();
    let occ_wo = occ.0 & !king_bb.0;
    proof {
        lemma_bit_ops(occ.0, !king_bb.0);
        lemma_bit_ops(king_bb.0, king_bb.0);
        lemma_board_of_bits(occ_wo, Set::new(|s: int| 0 <= s < 64 && p[s] != Figure::Empty && p[s] != Figure::spec_new(friendly, Piece::King)));
    }
    let attackmask = calculate_attackmask(board, Bitboard(occ_wo), friendly.opposite(), None);
    let from_bit = from.to_bit();
    let allowed = !attackmask.0;
    push_moves_of(moves, board, quiets, friendly, Piece::King, from_bit.0, allowed);
    proof {
        lemma_bit_ops(attackmask.0, attackmask.0);
        assert(bits(allowed) =~= king_safe_squares(p, friendly));
        assert(bits(from_bit.0) =~= set![from.0 as int]);
    }
}

/// The rank from which pawns of `color` promote with their next step.
pub open spec fn promo_row(color: Color) -> u64 {
    match color {
        Color::White => 0xFF_0000_0000_0000u64,
        Color::Black => 0xFF00u64,
    }
}

/// The rank from which pawns of `color` may step twice.
pub open spec fn double_row(color: Color) -> u64 {
    match color {
        Color::White => 0xFF00u64,
        Color::Black => 0xFF_0000_0000_0000u64,
    }
}

/// The squares of `x` on no pin.
pub open spec fn unpinned(x: Set<int>, h: Set<int>, d: Set<int>) -> Set<int> {
    x.difference(h).difference(d)
}

/// The squares of `x` on `a` and not on `b`.
pub open spec fn pinned_on(x: Set<int>, a: Set<int>, b: Set<int>) -> Set<int> {
    x.intersect(a).difference(b)
}

/// The four promotions, queen first, as quiet moves (`false`) or captures (`true`).
pub open spec fn promos(capture: bool) -> Seq<MoveType> {
    if capture {
        seq![MoveType::QueenPromoCapture, MoveType::RookPromoCapture, MoveType::BishopPromoCapture, MoveType::KnightPromoCapture]
    } else {
        seq![MoveType::QueenPromo, MoveType::RookPromo, MoveType::BishopPromo, MoveType::KnightPromo]
    }
}

/// The pawn moves of `friendly`: with `quiets`, single and double steps without promotion;
/// otherwise captures and every promotion. `h` and `d` are the orthogonal and diagonal pin
/// masks and `c` the check mask.
pub open spec fn pawn_moves(p: Seq<Figure>, friendly: Color, h: Set<int>, d: Set<int>, c: Set<int>, quiets: bool) -> Set<u16> {
    let pawns = squares_of(p, Figure::spec_new(friendly, Piece::Pawn));
    let normal = pawns.difference(bits(promo_row(friendly)));
    let double = pawns.intersect(bits(double_row(friendly)));
    let promo = pawns.intersect(bits(promo_row(friendly)));
    let e = dest_squares(p, friendly, true);
    let n = dest_squares(p, friendly, false);
    if quiets {
        gen_moves(unpinned(normal, h, d), pawn_tg(PawnStep::Single, friendly, e, e.intersect(c)), seq![MoveType::Quiet])
            + gen_moves(pinned_on(normal, h, d), pawn_tg(PawnStep::Single, friendly, e, e.intersect(c).intersect(h)), seq![MoveType::Quiet])
            + gen_moves(unpinned(double, h, d), pawn_tg(PawnStep::Double, friendly, e, e.intersect(c)), seq![MoveType::DoubleMove])
            + gen_moves(pinned_on(double, h, d), pawn_tg(PawnStep::Double, friendly, e, e.intersect(c).intersect(h)), seq![MoveType::DoubleMove])
    } else {
        gen_moves(unpinned(normal, h, d), pawn_tg(PawnStep::Capture, friendly, e, n.intersect(c)), seq![MoveType::Capture])
            + gen_moves(pinned_on(normal, d, h), pawn_tg(PawnStep::Capture, friendly, e, n.intersect(c).intersect(d)), seq![MoveType::Capture])
            + gen_moves(unpinned(promo, h, d), pawn_tg(PawnStep::Single, friendly, e, e.intersect(c)), promos(false))
            + gen_moves(unpinned(promo, h, d), pawn_tg(PawnStep::Capture, friendly, e, n.intersect(c)), promos(true))
            + gen_moves(pinned_on(promo, h, d), pawn_tg(PawnStep::Single, friendly, e, e.intersect(c).intersect(h)), promos(false))
            + gen_moves(pinned_on(promo, d, h), pawn_tg(PawnStep::Capture, friendly, e, n.intersect(c).intersect(d)), promos(true))
    }
}


/// Pawn moves from disjoint groups of pawns, or of types that never agree, are different.
proof fn lemma_pawn_groups_disjoint(
    x1: u64,
    how1: PawnStep,
    m1: u64,
    ks1: Seq<MoveType>,
    x2: u64,
    how2: PawnStep,
    m2: u64,
    ks2: Seq<MoveType>,
    friendly: Color,
    empty: u64,
)
    requires
        bits(x1).disjoint(bits(x2)) || (forall|i: int, j: int| 0 <= i < ks1.len() && 0 <= j < ks2.len() ==> ks1[i] != ks2[j]),
    ensures
        gen_moves(bits(x1), pawn_tg(how1, friendly, bits(empty), bits(m1)), ks1).disjoint(
            gen_moves(bits(x2), pawn_tg(how2, friendly, bits(empty), bits(m2)), ks2),
        ),
{
    lemma_pawn_tg_on_board(how1, friendly, bits(empty), bits(m1));
    lemma_pawn_tg_on_board(how2, friendly, bits(empty), bits(m2));
    if bits(x1).disjoint(bits(x2)) {
        lemma_gen_disjoint_froms(bits(x1), pawn_tg(how1, friendly, bits(empty), bits(m1)), ks1, bits(x2), pawn_tg(how2, friendly, bits(empty), bits(m2)), ks2);
    } else {
        lemma_gen_disjoint_kinds(bits(x1), pawn_tg(how1, friendly, bits(empty), bits(m1)), ks1, bits(x2), pawn_tg(how2, friendly, bits(empty), bits(m2)), ks2);
    }
}

/// Pawn moves: pawns on an orthogonal pin only step along it, pawns on a diagonal pin only
/// capture along it; every target lies on the check mask.
pub fn generate_pawn_moves(
    moves: &mut MoveList,
    quiets: bool,
    board: &Board,
    friendly: Color,
    hv_pinmask: Bitboard,
    diag_pinmask: Bitboard,
    check_mask: Bitboard,
)
    requires
        board.wf(),
    ensures
        grows_by(*old(moves), *final(moves), pawn_moves(board.pieces@, friendly, bits(hv_pinmask.0), bits(diag_pinmask.0), bits(check_mask.0), quiets)),
{
    let ghost p = board.pieces@;
    let ghost start = *moves;
    let empty = dest_board(board, friendly, true);
    let enemy = dest_board(board, friendly, false);
    let promotion_row: u64 = match friendly {
        Color::White => 0xFF_0000_0000_0000,
        Color::Black => 0xFF00,
    };
    let dbl_row: u64 = match friendly {
        Color::White => 0xFF00,
        Color::Black => 0xFF_0000_0000_0000,
    };
    let h = hv_pinmask.0;
    let d = diag_pinmask.0;
    let c = check_mask.0;
    let all_pawns = board.figure_bb(friendly, Piece::Pawn).0;
    let normal = all_pawns & !promotion_row;
    let double = all_pawns & dbl_row;
    let promo = all_pawns & promotion_row;
    let ghost hs = bits(h);
    let ghost ds = bits(d);
    let ghost cs = bits(c);
    let ghost es = dest_squares(p, friendly, true);
    let ghost ns = dest_squares(p, friendly, false);
    let ghost pawns = squares_of(p, Figure::spec_new(friendly, Piece::Pawn));
    proof {
        lemma_bit_ops(all_pawns, !promotion_row);
        lemma_bit_ops(all_pawns, dbl_row);
        lemma_bit_ops(all_pawns, promotion_row);
        lemma_bit_ops(promotion_row, promotion_row);
        lemma_bit_ops(empty, c);
        lemma_bit_ops(enemy, c);
        lemma_bit_ops(empty & c, h);
        lemma_bit_ops(enemy & c, d);
        assert(bits(normal) =~= pawns.difference(bits(promo_row(friendly))));
        assert(bits(double) =~= pawns.intersect(bits(double_row(friendly))));
        assert(bits(promo) =~= pawns.intersect(bits(promo_row(friendly))));
        assert(bits(empty & c) =~= es.intersect(cs));
        assert(bits(enemy & c) =~= ns.intersect(cs));
        assert(bits(empty & c & h) =~= es.intersect(cs).intersect(hs));
        assert(bits(enemy & c & d) =~= ns.intersect(cs).intersect(ds));
    }
    let np_normal = normal & !h & !d;
    let hv_normal = normal & h & !d;
    let dg_normal = normal & d & !h;
    let np_double = double & !h & !d;
    let hv_double = double & h & !d;
    let np_promo = promo & !h & !d;
    let hv_promo = promo & h & !d;
    let dg_promo = promo & d & !h;
    proof {
        lemma_groups_set(normal, h, d);
        lemma_groups_set(normal, d, h);
        lemma_groups_set(double, h, d);
        lemma_groups_set(promo, h, d);
        lemma_groups_set(promo, d, h);
        assert(bits(np_normal) =~= unpinned(bits(normal), hs, ds));
        assert(bits(np_double) =~= unpinned(bits(double), hs, ds));
        assert(bits(np_promo) =~= unpinned(bits(promo), hs, ds));
    }
    let quiet = [MoveType::Quiet, MoveType::Quiet, MoveType::Quiet, MoveType::Quiet];
    let double_kind = [MoveType::DoubleMove, MoveType::DoubleMove, MoveType::DoubleMove, MoveType::DoubleMove];
    let capture = [MoveType::Capture, MoveType::Capture, MoveType::Capture, MoveType::Capture];
    let promo_quiet = [MoveType::QueenPromo, MoveType::RookPromo, MoveType::BishopPromo, MoveType::KnightPromo];
    let promo_capture = [MoveType::QueenPromoCapture, MoveType::RookPromoCapture, MoveType::BishopPromoCapture, MoveType::KnightPromoCapture];
    proof {
        assert(quiet@.subrange(0, 1) =~= seq![MoveType::Quiet]);
        assert(double_kind@.subrange(0, 1) =~= seq![MoveType::DoubleMove]);
        assert(capture@.subrange(0, 1) =~= seq![MoveType::Capture]);
        assert(promo_quiet@.subrange(0, 4) =~= promos(false));
        assert(promo_capture@.subrange(0, 4) =~= promos(true));
    }
    if quiets {
        push_pawn_group(moves, np_normal, friendly, PawnStep::Single, empty, empty & c, quiet, 1);
        let ghost m1 = *moves;
        push_pawn_group(moves, hv_normal, friendly, PawnStep::Single, empty, empty & c & h, quiet, 1);
        let ghost m2 = *moves;
        push_pawn_group(moves, np_double, friendly, PawnStep::Double, empty, empty & c, double_kind, 1);
        let ghost m3 = *moves;
        push_pawn_group(moves, hv_double, friendly, PawnStep::Double, empty, empty & c & h, double_kind, 1);
        proof {
            let s1 = gen_moves(bits(np_normal), pawn_tg(PawnStep::Single, friendly, bits(empty), bits(empty & c)), seq![MoveType::Quiet]);
            let s2 = gen_moves(bits(hv_normal), pawn_tg(PawnStep::Single, friendly, bits(empty), bits(empty & c & h)), seq![MoveType::Quiet]);
            let s3 = gen_moves(bits(np_double), pawn_tg(PawnStep::Double, friendly, bits(empty), bits(empty & c)), seq![MoveType::DoubleMove]);
            let s4 = gen_moves(bits(hv_double), pawn_tg(PawnStep::Double, friendly, bits(empty), bits(empty & c & h)), seq![MoveType::DoubleMove]);
            let q = seq![MoveType::Quiet];
            let dm = seq![MoveType::DoubleMove];
            lemma_pawn_groups_disjoint(np_normal, PawnStep::Single, empty & c, q, hv_normal, PawnStep::Single, empty & c & h, q, friendly, empty);
            lemma_pawn_groups_disjoint(np_normal, PawnStep::Single, empty & c, q, np_double, PawnStep::Double, empty & c, dm, friendly, empty);
            lemma_pawn_groups_disjoint(hv_normal, PawnStep::Single, empty & c & h, q, np_double, PawnStep::Double, empty & c, dm, friendly, empty);
            lemma_pawn_groups_disjoint(np_normal, PawnStep::Single, empty & c, q, hv_double, PawnStep::Double, empty & c & h, dm, friendly, empty);
            lemma_pawn_groups_disjoint(hv_normal, PawnStep::Single, empty & c & h, q, hv_double, PawnStep::Double, empty & c & h, dm, friendly, empty);
            lemma_pawn_groups_disjoint(np_double, PawnStep::Double, empty & c, dm, hv_double, PawnStep::Double, empty & c & h, dm, friendly, empty);
            lemma_union_disjoint(s1, s2, s3);
            lemma_union_disjoint(s1, s2, s4);
            lemma_union_disjoint(s1 + s2, s3, s4);
            lemma_grows_trans(start, m1, m2, s1, s2);
            lemma_grows_trans(start, m2, m3, s1 + s2, s3);
            lemma_grows_trans(start, m3, *moves, s1 + s2 + s3, s4);
        }
    } else {
        push_pawn_group(moves, np_normal, friendly, PawnStep::Capture, empty, enemy & c, capture, 1);
        let ghost m1 = *moves;
        push_pawn_group(moves, dg_normal, friendly, PawnStep::Capture, empty, enemy & c & d, capture, 1);
        let ghost m2 = *moves;
        push_pawn_group(moves, np_promo, friendly, PawnStep::Single, empty, empty & c, promo_quiet, 4);
        let ghost m3 = *moves;
        push_pawn_group(moves, np_promo, friendly, PawnStep::Capture, empty, enemy & c, promo_capture, 4);
        let ghost m4 = *moves;
        push_pawn_group(moves, hv_promo, friendly, PawnStep::Single, empty, empty & c & h, promo_quiet, 4);
        let ghost m5 = *moves;
        push_pawn_group(moves, dg_promo, friendly, PawnStep::Capture, empty, enemy & c & d, promo_capture, 4);
        proof {
            let s1 = gen_moves(bits(np_normal), pawn_tg(PawnStep::Capture, friendly, bits(empty), bits(enemy & c)), seq![MoveType::Capture]);
            let s2 = gen_moves(bits(dg_normal), pawn_tg(PawnStep::Capture, friendly, bits(empty), bits(enemy & c & d)), seq![MoveType::Capture]);
            let s3 = gen_moves(bits(np_promo), pawn_tg(PawnStep::Single, friendly, bits(empty), bits(empty & c)), promos(false));
            let s4 = gen_moves(bits(np_promo), pawn_tg(PawnStep::Capture, friendly, bits(empty), bits(enemy & c)), promos(true));
            let s5 = gen_moves(bits(hv_promo), pawn_tg(PawnStep::Single, friendly, bits(empty), bits(empty & c & h)), promos(false));
            let s6 = gen_moves(bits(dg_promo), pawn_tg(PawnStep::Capture, friendly, bits(empty), bits(enemy & c & d)), promos(true));
            let cp = seq![MoveType::Capture];
            let pq = promos(false);
            let pc = promos(true);
            let ec = enemy & c;
            let ecd = enemy & c & d;
            let ecq = empty & c;
            let ech = empty & c & h;
            lemma_pawn_groups_disjoint(np_normal, PawnStep::Capture, ec, cp, dg_normal, PawnStep::Capture, ecd, cp, friendly, empty);
            lemma_pawn_groups_disjoint(np_normal, PawnStep::Capture, ec, cp, np_promo, PawnStep::Single, ecq, pq, friendly, empty);
            lemma_pawn_groups_disjoint(dg_normal, PawnStep::Capture, ecd, cp, np_promo, PawnStep::Single, ecq, pq, friendly, empty);
            lemma_pawn_groups_disjoint(np_normal, PawnStep::Capture, ec, cp, np_promo, PawnStep::Capture, ec, pc, friendly, empty);
            lemma_pawn_groups_disjoint(dg_normal, PawnStep::Capture, ecd, cp, np_promo, PawnStep::Capture, ec, pc, friendly, empty);
            lemma_pawn_groups_disjoint(np_promo, PawnStep::Single, ecq, pq, np_promo, PawnStep::Capture, ec, pc, friendly, empty);
            lemma_pawn_groups_disjoint(np_normal, PawnStep::Capture, ec, cp, hv_promo, PawnStep::Single, ech, pq, friendly, empty);
            lemma_pawn_groups_disjoint(dg_normal, PawnStep::Capture, ecd, cp, hv_promo, PawnStep::Single, ech, pq, friendly, empty);
            lemma_pawn_groups_disjoint(np_promo, PawnStep::Single, ecq, pq, hv_promo, PawnStep::Single, ech, pq, friendly, empty);
            lemma_pawn_groups_disjoint(np_promo, PawnStep::Capture, ec, pc, hv_promo, PawnStep::Single, ech, pq, friendly, empty);
            lemma_pawn_groups_disjoint(np_normal, PawnStep::Capture, ec, cp, dg_promo, PawnStep::Capture, ecd, pc, friendly, empty);
            lemma_pawn_groups_disjoint(dg_normal, PawnStep::Capture, ecd, cp, dg_promo, PawnStep::Capture, ecd, pc, friendly, empty);
            lemma_pawn_groups_disjoint(np_promo, PawnStep::Single, ecq, pq, dg_promo, PawnStep::Capture, ecd, pc, friendly, empty);
            lemma_pawn_groups_disjoint(np_promo, PawnStep::Capture, ec, pc, dg_promo, PawnStep::Capture, ecd, pc, friendly, empty);
            lemma_pawn_groups_disjoint(hv_promo, PawnStep::Single, ech, pq, dg_promo, PawnStep::Capture, ecd, pc, friendly, empty);
            lemma_union_disjoint(s1, s2, s3);
            lemma_union_disjoint(s1, s2, s4);
            lemma_union_disjoint(s1 + s2, s3, s4);
            lemma_union_disjoint(s1, s2, s5);
            lemma_union_disjoint(s1 + s2, s3, s5);
            lemma_union_disjoint(s1 + s2 + s3, s4, s5);
            lemma_union_disjoint(s1, s2, s6);
            lemma_union_disjoint(s1 + s2, s3, s6);
            lemma_union_disjoint(s1 + s2 + s3, s4, s6);
            lemma_union_disjoint(s1 + s2 + s3 + s4, s5, s6);
            lemma_grows_trans(start, m1, m2, s1, s2);
            lemma_grows_trans(start, m2, m3, s1 + s2, s3);
            lemma_grows_trans(start, m3, m4, s1 + s2 + s3, s4);
            lemma_grows_trans(start, m4, m5, s1 + s2 + s3 + s4, s5);
            lemma_grows_trans(start, m5, *moves, s1 + s2 + s3 + s4 + s5, s6);
        }
    }
}

proof fn lemma_groups_set(x: u64, a: u64, b: u64)
    ensures
        bits(x & !a & !b) == bits(x).difference(bits(a)).difference(bits(b)),
        bits(x & a & !b) == bits(x).intersect(bits(a)).difference(bits(b)),
{
    lemma_bit_ops(x, !a);
    lemma_bit_ops(x & !a, !b);
    lemma_bit_ops(x, a);
    lemma_bit_ops(x & a, !b);
    lemma_bit_ops(a, a);
    lemma_bit_ops(b, b);
    assert(bits(x & !a & !b) =~= bits(x).difference(bits(a)).difference(bits(b)));
    assert(bits(x & a & !b) =~= bits(x).intersect(bits(a)).difference(bits(b)));
}

/// Squares of `list` that `occ` leaves empty.
pub open spec fn all_empty(occ: u64, list: Seq<int>) -> bool {
    forall|i: int| 0 <= i < list.len() ==> !bit_set(occ, #[trigger] list[i])
}

/// Squares of `list` that the enemy of `friendly` does not attack.
pub open spec fn none_attacked(p: Seq<Figure>, occ: u64, friendly: Color, list: Seq<int>) -> bool {
    forall|i: int| 0 <= i < list.len() ==> !attack_mask(p, occ, friendly.spec_opposite(), 0).contains(#[trigger] list[i])
}

/// The castling moves of `friendly` with `check_counter` pieces giving check: none while in
/// check; otherwise each side whose right is kept, whose squares between king and rook are
/// empty and whose squares the king crosses are not attacked.
pub open spec fn castle_moves(b: Board, check_counter: int, friendly: Color) -> Set<u16> {
    let p = b.pieces@;
    let occ = b.occupied;
    if check_counter != 0 {
        Set::empty()
    } else {
        let (qr, kr, base) = match friendly {
            Color::White => (b.white_queen_castle, b.white_king_castle, 0int),
            Color::Black => (b.black_queen_castle, b.black_king_castle, 56int),
        };
        let queen_side = if qr && all_empty(occ, seq![base + 1, base + 2, base + 3])
            && none_attacked(p, occ, friendly, seq![base + 2, base + 3]) {
            set![spec_encode(base + 4, base + 2, MoveType::QueenCastle)]
        } else {
            Set::empty()
        };
        let king_side = if kr && all_empty(occ, seq![base + 5, base + 6])
            && none_attacked(p, occ, friendly, seq![base + 5, base + 6]) {
            set![spec_encode(base + 4, base + 6, MoveType::KingCastle)]
        } else {
            Set::empty()
        };
        queen_side + king_side
    }
}

fn none_of(x: u64, a: u64, b: u64, c: u64) -> (r: bool)
    requires
        a < 64,
        b < 64,
        c < 64,
    ensures
        r == (!bit_set(x, a as int) && !bit_set(x, b as int) && !bit_set(x, c as int)),
{
    proof {
        crate::bitboard::lemma_single_bit(a);
        crate::bitboard::lemma_single_bit(b);
        crate::bitboard::lemma_single_bit(c);
        lemma_bit_ops(x, 1u64 << a);
        lemma_bit_ops(x, 1u64 << b);
        lemma_bit_ops(x, 1u64 << c);
        crate::bitboard::lemma_zero_iff_no_bits(x & (1u64 << a));
        crate::bitboard::lemma_zero_iff_no_bits(x & (1u64 << b));
        crate::bitboard::lemma_zero_iff_no_bits(x & (1u64 << c));
        assert(bit_set(x & (1u64 << a), a as int) == bit_set(x, a as int));
        assert(bit_set(x & (1u64 << b), b as int) == bit_set(x, b as int));
        assert(bit_set(x & (1u64 << c), c as int) == bit_set(x, c as int));
    }
    x & (1u64 << a) == 0 && x & (1u64 << b) == 0 && x & (1u64 << c) == 0
}

/// Castling moves (quiet moves), queen side first.
pub fn generate_castle_moves(moves: &mut MoveList, check_counter: usize, friendly: Color, board: &Board)
    requires
        board.wf(),
        board.has_king(friendly.spec_opposite()),
    ensures
        grows_by(*old(moves), *final(moves), castle_moves(*board, check_counter as int, friendly)),
{
    let ghost start = *moves;
    if check_counter != 0 {
        proof {
            crate::moves::lemma_grows_refl(*moves);
        }
        return;
    }
    let occupied = board.occupied();
    let attackmask = calculate_attackmask(board, occupied, friendly.opposite(), None);
    let (qr, kr, base): (bool, bool, usize) = match friendly {
        Color::White => (board.white_queen_castle(), board.white_king_castle(), 0),
        Color::Black => (board.black_queen_castle(), board.black_king_castle(), 56),
    };
    let b = base as u64;
    let ghost p = board.pieces@;
    let ghost am = attack_mask(p, board.occupied, friendly.spec_opposite(), 0);
    proof {
        assert(crate::masks::opt_bits(None) == 0u64);
        assert(forall|t: int| #[trigger] bit_set(attackmask.0, t) == am.contains(t));
    }
    let queen_ok = qr && none_of(occupied.0, b + 1, b + 2, b + 3) && none_of(attackmask.0, b + 2, b + 3, b + 3);
    let ghost qset = if queen_ok {
        set![spec_encode(base + 4, base + 2, MoveType::QueenCastle)]
    } else {
        Set::empty()
    };
    if queen_ok {
        let m = EncodedMove::encode(Square(base + 4), Square(base + 2), MoveType::QueenCastle);
        moves.push(m);
        proof {
            if !moves.overflow {
                crate::moves::lemma_moves_in_push(start.items(), crate::move_picker::MoveListMove { score: 0, mv: m });
                assert(crate::moves::moves_in(moves.items()) =~= crate::moves::moves_in(start.items()) + qset);
            }
            assert(moves.items().subrange(0, start.items().len() as int) =~= start.items());
        }
    } else {
        proof {
            crate::moves::lemma_grows_refl(*moves);
        }
    }
    let ghost mid = *moves;
    let king_ok = kr && none_of(occupied.0, b + 5, b + 6, b + 6) && none_of(attackmask.0, b + 5, b + 6, b + 6);
    let ghost kset = if king_ok {
        set![spec_encode(base + 4, base + 6, MoveType::KingCastle)]
    } else {
        Set::empty()
    };
    if king_ok {
        let m = EncodedMove::encode(Square(base + 4), Square(base + 6), MoveType::KingCastle);
        moves.push(m);
        proof {
            if !moves.overflow {
                crate::moves::lemma_moves_in_push(mid.items(), crate::move_picker::MoveListMove { score: 0, mv: m });
                assert(crate::moves::moves_in(moves.items()) =~= crate::moves::moves_in(mid.items()) + kset);
            }
            assert(moves.items().subrange(0, mid.items().len() as int) =~= mid.items());
        }
    } else {
        proof {
            crate::moves::lemma_grows_refl(*moves);
        }
    }
    proof {
        lemma_grows_trans(start, mid, *moves, qset, kset);
        assert(qset + kset =~= castle_moves(*board, check_counter as int, friendly));
    }
}

/// The occupancy after a pawn on `s` takes en passant onto `ep`, removing the pawn on `cap`.
pub open spec fn occupied_after_ep(occ: u64, s: int, cap: u64, ep: u64) -> u64 {
    board_of(bits(occ).remove(s).difference(bits(cap)).union(bits(ep)))
}

/// After the pawn on `s` takes en passant, no king of `friendly` stands on a square the enemy
/// attacks (the taken pawn on `cap` no longer attacking).
pub open spec fn ep_safe(b: Board, friendly: Color, s: int, ep: u64, cap: u64) -> bool {
    let p = b.pieces@;
    forall|k: int|
        #[trigger] squares_of(p, Figure::spec_new(friendly, Piece::King)).contains(k) ==> !attack_mask(
            p,
            occupied_after_ep(b.occupied, s, cap, ep),
            friendly.spec_opposite(),
            cap,
        ).contains(k)
}

/// The square of the pawn taken en passant onto the squares of `ep`.
pub open spec fn ep_captured(friendly: Color, ep: u64) -> u64 {
    match friendly {
        Color::White => ep >> 8u64,
        Color::Black => ep << 8u64,
    }
}

/// En passant captures onto `e` by the pawns on the squares of `cand` that leave the king safe.
pub open spec fn ep_group(b: Board, friendly: Color, cand: Set<int>, e: int, ep: u64) -> Set<u16> {
    Set::new(
        |m: u16|
            exists|s: int|
                cand.contains(s) && ep_safe(b, friendly, s, ep, ep_captured(friendly, ep)) && m == #[trigger] spec_encode(
                    s,
                    e,
                    MoveType::EpCapture,
                ),
    )
}

/// The en passant captures of `friendly`: by pawns on no pin, and by pawns on a diagonal pin
/// when the taken pawn lies on the diagonal pin mask; only those after which the king is not
/// attacked.
pub open spec fn ep_moves(b: Board, friendly: Color, h: Set<int>, d: Set<int>) -> Set<u16> {
    match b.ep_target {
        None => Set::empty(),
        Some(ep) => {
            let e = vstd::std_specs::bits::u64_trailing_zeros(ep.0) as int;
            let p = b.pieces@;
            let pawns = squares_of(p, Figure::spec_new(friendly, Piece::Pawn));
            let from_e = Set::new(|s: int| crate::targets::pawn_attacks(friendly.spec_opposite(), e, s));
            let cap = ep_captured(friendly, ep.0);
            ep_group(b, friendly, from_e.intersect(unpinned(pawns, h, d)), e, ep.0) + if d.intersect(bits(cap)) != Set::<int>::empty() {
                ep_group(b, friendly, from_e.intersect(pinned_on(pawns, d, h)), e, ep.0)
            } else {
                Set::empty()
            }
        },
    }
}

fn push_ep_group(moves: &mut MoveList, board: &Board, friendly: Color, cand: u64, e: usize, ep: u64)
    requires
        board.wf(),
        board.has_king(friendly.spec_opposite()),
        e < 64,
    ensures
        grows_by(*old(moves), *final(moves), ep_group(*board, friendly, bits(cand), e as int, ep)),
{
    let ghost start = *moves;
    let ghost p = board.pieces@;
    let cap = match friendly {
        Color::White => ep >> 8u64,
        Color::Black => ep << 8u64,
    };
    let occ = board.occupied().0;
    let king = board.king(friendly).0;
    let enemy = friendly.opposite();
    let mut rem = cand;
    proof {
        crate::moves::lemma_grows_refl(*moves);
        assert(ep_group(*board, friendly, bits(cand).difference(bits(rem)), e as int, ep) =~= Set::empty());
    }
    while rem != 0
        invariant
            board.wf(),
            board.has_king(friendly.spec_opposite()),
            e < 64,
            cap == ep_captured(friendly, ep),
            occ == board.occupied,
            enemy == friendly.spec_opposite(),
            p == board.pieces@,
            forall|s: int| #[trigger] bit_set(king, s) == (0 <= s < 64 && p[s] == Figure::spec_new(friendly, Piece::King)),
            forall|a: int| #[trigger] bit_set(rem, a) ==> bit_set(cand, a),
            grows_by(start, *moves, ep_group(*board, friendly, bits(cand).difference(bits(rem)), e as int, ep)),
        decreases rem,
    {
        proof {
            crate::bitboard::lemma_pop_lsb(rem);
        }
        let s = rem.trailing_zeros() as usize;
        let ghost before = *moves;
        let sbit = Square(s).to_bit().0;
        let occ_after = (occ & !sbit & !cap) | ep;
        proof {
            lemma_bit_ops(occ, !sbit);
            lemma_bit_ops(occ & !sbit, !cap);
            lemma_bit_ops(occ & !sbit & !cap, ep);
            lemma_bit_ops(sbit, sbit);
            lemma_bit_ops(cap, cap);
            lemma_board_of_bits(occ_after, bits(occ).remove(s as int).difference(bits(cap)).union(bits(ep)));
        }
        let am = calculate_attackmask(board, Bitboard(occ_after), enemy, Some(Bitboard(cap)));
        let safe = am.0 & king == 0;
        let ghost add = if safe {
            set![spec_encode(s as int, e as int, MoveType::EpCapture)]
        } else {
            Set::empty()
        };
        proof {
            lemma_bit_ops(am.0, king);
            crate::bitboard::lemma_zero_iff_no_bits(am.0 & king);
            assert(crate::masks::opt_bits(Some(Bitboard(cap))) == cap);
            if safe {
                assert forall|k: int| #[trigger] squares_of(p, Figure::spec_new(friendly, Piece::King)).contains(k) implies !attack_mask(
                    p, occupied_after_ep(board.occupied, s as int, cap, ep), friendly.spec_opposite(), cap).contains(k) by {
                    assert(bit_set(king, k));
                    assert(!bit_set(am.0 & king, k));
                }
                assert(ep_safe(*board, friendly, s as int, ep, cap));
            } else {
                let k = choose|k: int| bit_set(am.0 & king, k);
                assert(squares_of(p, Figure::spec_new(friendly, Piece::King)).contains(k));
                assert(!ep_safe(*board, friendly, s as int, ep, cap));
            }
        }
        if safe {
            let m = EncodedMove::encode(Square(s), Square(e), MoveType::EpCapture);
            moves.push(m);
            proof {
                if !moves.overflow {
                    crate::moves::lemma_moves_in_push(before.items(), crate::move_picker::MoveListMove { score: 0, mv: m });
                    assert(crate::moves::moves_in(moves.items()) =~= crate::moves::moves_in(before.items()) + add);
                }
                assert(moves.items().subrange(0, before.items().len() as int) =~= before.items());
            }
        } else {
            proof {
                crate::moves::lemma_grows_refl(*moves);
                assert(Set::<u16>::empty() =~= add);
            }
        }
        let next = rem & (rem - 1);
        proof {
            let done_old = bits(cand).difference(bits(rem));
            let done_new = bits(cand).difference(bits(next));
            assert(done_new =~= done_old.insert(s as int));
            lemma_grows_trans(start, before, *moves, ep_group(*board, friendly, done_old, e as int, ep), add);
            let g_old = ep_group(*board, friendly, done_old, e as int, ep);
            let g_new = ep_group(*board, friendly, done_new, e as int, ep);
            assert forall|m: u16| g_new.contains(m) == (g_old + add).contains(m) by {
                if g_new.contains(m) {
                    let x = choose|x: int| done_new.contains(x) && ep_safe(*board, friendly, x, ep, ep_captured(friendly, ep)) && m == #[trigger] spec_encode(x, e as int, MoveType::EpCapture);
                    if x != s as int {
                        assert(g_old.contains(m));
                    }
                }
                if g_old.contains(m) {
                    let x = choose|x: int| done_old.contains(x) && ep_safe(*board, friendly, x, ep, ep_captured(friendly, ep)) && m == #[trigger] spec_encode(x, e as int, MoveType::EpCapture);
                    assert(done_new.contains(x));
                }
                if add.contains(m) {
                    assert(done_new.contains(s as int));
                }
            }
            assert(g_new =~= g_old + add);
        }
        rem = next;
    }
    proof {
        crate::bitboard::lemma_zero_iff_no_bits(rem);
        assert(bits(cand).difference(bits(rem)) =~= bits(cand));
    }
}

/// En passant captures (never quiet moves).
pub fn generate_ep_moves(
    board: &Board,
    moves: &mut MoveList,
    friendly: Color,
    hv_pinmask: Bitboard,
    diag_pinmask: Bitboard,
)
    requires
        board.wf(),
        board.has_king(friendly.spec_opposite()),
        board.ep_target matches Some(b) ==> b.0 != 0,
    ensures
        grows_by(*old(moves), *final(moves), ep_moves(*board, friendly, bits(hv_pinmask.0), bits(diag_pinmask.0))),
{
    let ghost start = *moves;
    let ghost p = board.pieces@;
    match board.ep_target() {
        None => {
            proof {
                crate::moves::lemma_grows_refl(*moves);
            }
        },
        Some(ep_bit) => {
            let e = ep_bit.lowest() as usize;
            let cap = match friendly {
                Color::White => ep_bit.0 >> 8u64,
                Color::Black => ep_bit.0 << 8u64,
            };
            let h = hv_pinmask.0;
            let d = diag_pinmask.0;
            let all_pawns = board.figure_bb(friendly, Piece::Pawn).0;
            let from_e = crate::targets::pawn_attack_targets(friendly.opposite(), Square(e)).0;
            let np = from_e & (all_pawns & !h & !d);
            let ghost pawns = squares_of(p, Figure::spec_new(friendly, Piece::Pawn));
            let ghost from_set = Set::new(|s: int| crate::targets::pawn_attacks(friendly.spec_opposite(), e as int, s));
            proof {
                lemma_groups_set(all_pawns, h, d);
                lemma_groups_set(all_pawns, d, h);
                assert(bits(all_pawns) =~= pawns);
                lemma_bit_ops(from_e, all_pawns & !h & !d);
                lemma_bit_ops(from_e, all_pawns & d & !h);
                assert(bits(np) =~= from_set.intersect(unpinned(pawns, bits(h), bits(d))));
            }
            push_ep_group(moves, board, friendly, np, e, ep_bit.0);
            let ghost mid = *moves;
            let ghost s1 = ep_group(*board, friendly, bits(np), e as int, ep_bit.0);
            proof {
                lemma_bit_ops(d, cap);
                crate::bitboard::lemma_zero_iff_no_bits(d & cap);
                if d & cap != 0 {
                    let i = choose|i: int| bit_set(d & cap, i);
                    assert(bits(d).intersect(bits(cap)).contains(i));
                } else {
                    assert forall|i: int| !bits(d).intersect(bits(cap)).contains(i) by {
                        assert(!bit_set(d & cap, i));
                    }
                    assert(bits(d).intersect(bits(cap)) =~= Set::<int>::empty());
                }
            }
            if d & cap != 0 {
                let dg = from_e & (all_pawns & d & !h);
                proof {
                    assert(bits(dg) =~= from_set.intersect(pinned_on(pawns, bits(d), bits(h))));
                }
                push_ep_group(moves, board, friendly, dg, e, ep_bit.0);
                proof {
                    lemma_grows_trans(start, mid, *moves, s1, ep_group(*board, friendly, bits(dg), e as int, ep_bit.0));
                }
            } else {
                proof {
                    crate::moves::lemma_grows_refl(*moves);
                    lemma_grows_trans(start, mid, *moves, s1, Set::empty());
                    assert(s1 + Set::<u16>::empty() =~= s1);
                }
            }
        },
    }
}

impl Board {
    /// Move generation needs each side's king and an en passant target that names a square.
    pub open spec fn movegen_ready(&self) -> bool {
        &&& self.wf()
        &&& self.kings_present()
        &&& (self.ep_target matches Some(b) ==> b.0 != 0)
    }

    /// The square of the king of the side to move.
    pub open spec fn own_king(&self) -> int {
        lowest_king_sq(self.pieces@, self.current_color)
    }

    /// The orthogonal pin mask of the side to move.
    pub open spec fn hv_pins(&self) -> Set<int> {
        crate::masks::rays_to(crate::masks::pinners(self.pieces@, self.occupied, self.current_color, self.own_king(), true), self.own_king())
    }

    /// The diagonal pin mask of the side to move.
    pub open spec fn diag_pins(&self) -> Set<int> {
        crate::masks::rays_to(crate::masks::pinners(self.pieces@, self.occupied, self.current_color, self.own_king(), false), self.own_king())
    }

    /// The check mask of the side to move.
    pub open spec fn checks(&self) -> Set<int> {
        crate::masks::check_mask(self.pieces@, self.occupied, self.current_color, self.own_king())
    }

    /// The number of pieces giving check to the side to move.
    pub open spec fn check_number(&self) -> nat {
        crate::masks::check_count(self.pieces@, self.occupied, self.current_color, self.own_king())
    }

    proof fn lemma_ready_kings(&self)
        requires
            self.movegen_ready(),
        ensures
            self.has_king(Color::White),
            self.has_king(Color::Black),
            self.has_king(self.current_color),
            self.has_king(self.current_color.spec_opposite()),
    {
        let p = self.pieces@;
        let s = choose|s: int| 0 <= s < 64 && #[trigger] p[s] == Figure::WhiteKing;
        assert(p[s] == Figure::spec_new(Color::White, Piece::King));
        let t = choose|s: int| 0 <= s < 64 && #[trigger] p[s] == Figure::BlackKing;
        assert(p[t] == Figure::spec_new(Color::Black, Piece::King));
    }

    /// Both kings present gives each side a king.
    pub proof fn lemma_ready_kings_any(&self)
        requires
            self.kings_present(),
        ensures
            self.has_king(Color::White),
            self.has_king(Color::Black),
    {
        let p = self.pieces@;
        let s = choose|s: int| 0 <= s < 64 && #[trigger] p[s] == Figure::WhiteKing;
        assert(p[s] == Figure::spec_new(Color::White, Piece::King));
        let t = choose|s: int| 0 <= s < 64 && #[trigger] p[s] == Figure::BlackKing;
        assert(p[t] == Figure::spec_new(Color::Black, Piece::King));
    }

    pub proof fn lemma_ready_kings_pub(&self)
        requires
            self.movegen_ready(),
        ensures
            self.has_king(Color::White),
            self.has_king(Color::Black),
            self.has_king(self.current_color),
            self.has_king(self.current_color.spec_opposite()),
    {
        self.lemma_ready_kings();
    }

    /// The orthogonal and the diagonal pin mask of the side to move.
    pub fn get_pinmasks(&self) -> (r: (Bitboard, Bitboard))
        requires
            self.movegen_ready(),
        ensures
            bits(r.0.0) == self.hv_pins(),
            bits(r.1.0) == self.diag_pins(),
    {
        proof {
            self.lemma_ready_kings();
        }
        crate::masks::generate_pin_masks(self)
    }

    /// The check mask of the side to move.
    pub fn get_checkmask(&self) -> (r: Bitboard)
        requires
            self.movegen_ready(),
        ensures
            bits(r.0) == self.checks(),
    {
        proof {
            self.lemma_ready_kings();
        }
        crate::masks::calc_check_mask(self).0
    }

    /// The number of pieces giving check to the side to move.
    pub fn get_check_counter(&self) -> (r: usize)
        requires
            self.movegen_ready(),
        ensures
            r == self.check_number(),
    {
        proof {
            self.lemma_ready_kings();
        }
        crate::masks::calc_check_mask(self).1
    }

    /// The squares the opponent of the side to move attacks.
    pub fn get_attackmask(&self) -> (r: Bitboard)
        requires
            self.movegen_ready(),
        ensures
            bits(r.0) == attack_mask(self.pieces@, self.occupied, self.current_color.spec_opposite(), 0),
    {
        proof {
            self.lemma_ready_kings();
        }
        let occ = self.occupied();
        calculate_attackmask(self, occ, self.current_color().opposite(), None)
    }

    /// Whether the side to move is in check.
    pub fn is_in_check(&self) -> (r: bool)
        requires
            self.movegen_ready(),
        ensures
            r == (self.check_number() != 0),
    {
        self.get_check_counter() != 0
    }
}

/// The moves `generate_moves` appends: with `quiets` the quiet moves, otherwise the
/// captures, promotions and en passant captures. In double check only the king moves.
pub open spec fn generated_moves(b: Board, quiets: bool) -> Set<u16> {
    let p = b.pieces@;
    let occ = b.occupied;
    let c = b.current_color;
    let h = b.hv_pins();
    let d = b.diag_pins();
    let cm = b.checks();
    let king = piece_moves(p, occ, c, Piece::King, set![b.own_king()], king_safe_squares(p, c), quiets);
    if b.check_number() == 2 {
        king
    } else {
        let fig = |k: Piece| Figure::spec_new(c, k);
        pawn_moves(p, c, h, d, cm, quiets)
            + piece_moves(p, occ, c, Piece::Knight, squares_of(p, fig(Piece::Knight)).difference(h + d), cm, quiets)
            + piece_moves(p, occ, c, Piece::Bishop, unpinned(squares_of(p, fig(Piece::Bishop)), d, h), cm, quiets)
            + piece_moves(p, occ, c, Piece::Bishop, pinned_on(squares_of(p, fig(Piece::Bishop)), d, h), cm.intersect(d), quiets)
            + piece_moves(p, occ, c, Piece::Rook, unpinned(squares_of(p, fig(Piece::Rook)), h, d), cm, quiets)
            + piece_moves(p, occ, c, Piece::Rook, pinned_on(squares_of(p, fig(Piece::Rook)), h, d), cm.intersect(h), quiets)
            + piece_moves(p, occ, c, Piece::Queen, unpinned(squares_of(p, fig(Piece::Queen)), h, d), cm, quiets)
            + piece_moves(p, occ, c, Piece::Rook, pinned_on(squares_of(p, fig(Piece::Queen)), h, d), cm.intersect(h), quiets)
            + piece_moves(p, occ, c, Piece::Bishop, pinned_on(squares_of(p, fig(Piece::Queen)), d, h), cm.intersect(d), quiets)
            + king
            + if quiets {
                castle_moves(b, b.check_number() as int, c)
            } else {
                ep_moves(b, c, h, d)
            }
    }
}


/// Every move of `s` starts on a square of `sq`.
pub open spec fn from_in(s: Set<u16>, sq: Set<int>) -> bool {
    forall|e: u16| s.contains(e) ==> sq.contains(crate::types::spec_decode(e).from.0 as int)
}

/// Every move of `s` has a type of `ts`.
pub open spec fn type_in(s: Set<u16>, ts: Set<MoveType>) -> bool {
    forall|e: u16| s.contains(e) ==> ts.contains(crate::types::spec_decode(e).mv_type)
}

/// Piece moves start on their from squares and are quiet moves or captures.
proof fn lemma_piece_moves_from(p: Seq<Figure>, occ: u64, c: Color, k: Piece, froms: Set<int>, allowed: Set<int>, quiets: bool, within: Set<int>)
    requires
        froms.subset_of(within),
        forall|f: int| within.contains(f) ==> 0 <= f < 64,
    ensures
        from_in(piece_moves(p, occ, c, k, froms, allowed, quiets), within),
        type_in(piece_moves(p, occ, c, k, froms, allowed, quiets), set![MoveType::Quiet, MoveType::Capture]),
{
    let tg = |f: int| crate::masks::attack_set(k, c, f, occ).intersect(allowed).intersect(dest_squares(p, c, quiets));
    let ks = seq![crate::moves::move_kind(quiets)];
    assert forall|e: u16| piece_moves(p, occ, c, k, froms, allowed, quiets).contains(e) implies within.contains(
        crate::types::spec_decode(e).from.0 as int,
    ) && set![MoveType::Quiet, MoveType::Capture].contains(crate::types::spec_decode(e).mv_type) by {
        let f = choose|f: int| froms.contains(f) && #[trigger] crate::moves::target_moves(f, tg(f), ks).contains(e);
        let (t, i) = choose|t: int, i: int| tg(f).contains(t) && 0 <= i < ks.len() && e == #[trigger] spec_encode(f, t, ks[i]);
        assert(dest_squares(p, c, quiets).contains(t));
        crate::types::lemma_decode_encode(crate::types::DecodedMove { from: Square(f as usize), to: Square(t as usize), mv_type: ks[i] });
    }
}

/// Pawn moves of one group start on its pawns and have its types.
proof fn lemma_pawn_group_from(froms: Set<int>, how: PawnStep, c: Color, es: Set<int>, mask: Set<int>, ks: Seq<MoveType>, within: Set<int>, ts: Set<MoveType>)
    requires
        froms.subset_of(within),
        forall|f: int| within.contains(f) ==> 0 <= f < 64,
        forall|i: int| 0 <= i < ks.len() ==> ts.contains(#[trigger] ks[i]),
    ensures
        from_in(gen_moves(froms, pawn_tg(how, c, es, mask), ks), within),
        type_in(gen_moves(froms, pawn_tg(how, c, es, mask), ks), ts),
{
    let tg = pawn_tg(how, c, es, mask);
    assert forall|e: u16| gen_moves(froms, tg, ks).contains(e) implies within.contains(crate::types::spec_decode(e).from.0 as int)
        && ts.contains(crate::types::spec_decode(e).mv_type) by {
        let f = choose|f: int| froms.contains(f) && #[trigger] crate::moves::target_moves(f, tg(f), ks).contains(e);
        let (t, i) = choose|t: int, i: int| tg(f).contains(t) && 0 <= i < ks.len() && e == #[trigger] spec_encode(f, t, ks[i]);
        crate::types::lemma_decode_encode(crate::types::DecodedMove { from: Square(f as usize), to: Square(t as usize), mv_type: ks[i] });
    }
}

/// The types of pawn moves other than en passant captures.
pub open spec fn pawn_types() -> Set<MoveType> {
    set![
        MoveType::Quiet,
        MoveType::DoubleMove,
        MoveType::Capture,
        MoveType::QueenPromo,
        MoveType::RookPromo,
        MoveType::BishopPromo,
        MoveType::KnightPromo,
        MoveType::QueenPromoCapture,
        MoveType::RookPromoCapture,
        MoveType::BishopPromoCapture,
        MoveType::KnightPromoCapture
    ]
}

/// Pawn moves start on pawns of the side and have pawn types.
proof fn lemma_pawn_moves_from(p: Seq<Figure>, c: Color, h: Set<int>, d: Set<int>, cm: Set<int>, quiets: bool)
    ensures
        from_in(pawn_moves(p, c, h, d, cm, quiets), squares_of(p, Figure::spec_new(c, Piece::Pawn))),
        type_in(pawn_moves(p, c, h, d, cm, quiets), pawn_types()),
{
    let pawns = squares_of(p, Figure::spec_new(c, Piece::Pawn));
    let normal = pawns.difference(bits(promo_row(c)));
    let double = pawns.intersect(bits(double_row(c)));
    let promo = pawns.intersect(bits(promo_row(c)));
    let es = dest_squares(p, c, true);
    let ns = dest_squares(p, c, false);
    let ts = pawn_types();
    let qs = seq![MoveType::Quiet];
    let ds = seq![MoveType::DoubleMove];
    let cs = seq![MoveType::Capture];
    assert(forall|i: int| 0 <= i < promos(false).len() ==> ts.contains(#[trigger] promos(false)[i]));
    assert(forall|i: int| 0 <= i < promos(true).len() ==> ts.contains(#[trigger] promos(true)[i]));
    assert(forall|i: int| 0 <= i < qs.len() ==> ts.contains(#[trigger] qs[i]));
    assert(forall|i: int| 0 <= i < ds.len() ==> ts.contains(#[trigger] ds[i]));
    assert(forall|i: int| 0 <= i < cs.len() ==> ts.contains(#[trigger] cs[i]));
    lemma_pawn_group_from(unpinned(normal, h, d), PawnStep::Single, c, es, es.intersect(cm), qs, pawns, ts);
    lemma_pawn_group_from(pinned_on(normal, h, d), PawnStep::Single, c, es, es.intersect(cm).intersect(h), qs, pawns, ts);
    lemma_pawn_group_from(unpinned(double, h, d), PawnStep::Double, c, es, es.intersect(cm), ds, pawns, ts);
    lemma_pawn_group_from(pinned_on(double, h, d), PawnStep::Double, c, es, es.intersect(cm).intersect(h), ds, pawns, ts);
    lemma_pawn_group_from(unpinned(normal, h, d), PawnStep::Capture, c, es, ns.intersect(cm), cs, pawns, ts);
    lemma_pawn_group_from(pinned_on(normal, d, h), PawnStep::Capture, c, es, ns.intersect(cm).intersect(d), cs, pawns, ts);
    lemma_pawn_group_from(unpinned(promo, h, d), PawnStep::Single, c, es, es.intersect(cm), promos(false), pawns, ts);
    lemma_pawn_group_from(unpinned(promo, h, d), PawnStep::Capture, c, es, ns.intersect(cm), promos(true), pawns, ts);
    lemma_pawn_group_from(pinned_on(promo, h, d), PawnStep::Single, c, es, es.intersect(cm).intersect(h), promos(false), pawns, ts);
    lemma_pawn_group_from(pinned_on(promo, d, h), PawnStep::Capture, c, es, ns.intersect(cm).intersect(d), promos(true), pawns, ts);
}

/// Castling moves are castling moves.
proof fn lemma_castle_types(b: Board, check_counter: int, c: Color)
    ensures
        type_in(castle_moves(b, check_counter, c), set![MoveType::KingCastle, MoveType::QueenCastle]),
{
    let base: int = if c == Color::White { 0 } else { 56 };
    crate::types::lemma_decode_encode(crate::types::DecodedMove { from: Square((base + 4) as usize), to: Square((base + 2) as usize), mv_type: MoveType::QueenCastle });
    crate::types::lemma_decode_encode(crate::types::DecodedMove { from: Square((base + 4) as usize), to: Square((base + 6) as usize), mv_type: MoveType::KingCastle });
}

/// En passant generation produces en passant captures only.
pub proof fn lemma_ep_types(b: Board, h: Set<int>, d: Set<int>)
    ensures
        type_in(ep_moves(b, b.current_color, h, d), set![MoveType::EpCapture]),
{
    assert forall|e: u16| ep_moves(b, b.current_color, h, d).contains(e) implies set![MoveType::EpCapture].contains(
        crate::types::spec_decode(e).mv_type,
    ) by {
        let c = b.current_color;
        let ep = b.ep_target->0;
        let esq = vstd::std_specs::bits::u64_trailing_zeros(ep.0) as int;
        let p = b.pieces@;
        let pawns = squares_of(p, Figure::spec_new(c, Piece::Pawn));
        let from_e = Set::new(|s: int| crate::targets::pawn_attacks(c.spec_opposite(), esq, s));
        let cand = if ep_group(b, c, from_e.intersect(unpinned(pawns, h, d)), esq, ep.0).contains(e) {
            from_e.intersect(unpinned(pawns, h, d))
        } else {
            from_e.intersect(pinned_on(pawns, d, h))
        };
        assert(ep_group(b, c, cand, esq, ep.0).contains(e));
        let s = choose|s: int| cand.contains(s) && ep_safe(b, c, s, ep.0, ep_captured(c, ep.0)) && e == #[trigger] spec_encode(s, esq, MoveType::EpCapture);
        vstd::std_specs::bits::axiom_u64_trailing_zeros(ep.0);
        assert(crate::targets::pawn_attacks(c.spec_opposite(), esq, s));
        crate::types::lemma_decode_encode(crate::types::DecodedMove { from: Square(s as usize), to: Square(esq as usize), mv_type: MoveType::EpCapture });
    }
}

/// The types of the moves of the quiet phase of generation; the other phase produces
/// captures, promotions and en passant captures only.
pub open spec fn quiet_types() -> Set<MoveType> {
    set![MoveType::Quiet, MoveType::DoubleMove, MoveType::KingCastle, MoveType::QueenCastle]
}

/// The pawn move types of one phase of generation.
pub open spec fn pawn_kinds(quiets: bool) -> Set<MoveType> {
    if quiets {
        set![MoveType::Quiet, MoveType::DoubleMove]
    } else {
        pawn_types().difference(set![MoveType::Quiet, MoveType::DoubleMove])
    }
}

/// Piece moves of one phase all have that phase's type.
proof fn lemma_piece_moves_kind(p: Seq<Figure>, occ: u64, c: Color, k: Piece, froms: Set<int>, allowed: Set<int>, quiets: bool)
    requires
        forall|f: int| froms.contains(f) ==> 0 <= f < 64,
    ensures
        type_in(piece_moves(p, occ, c, k, froms, allowed, quiets), set![crate::moves::move_kind(quiets)]),
{
    let tg = |f: int| crate::masks::attack_set(k, c, f, occ).intersect(allowed).intersect(dest_squares(p, c, quiets));
    let ks = seq![crate::moves::move_kind(quiets)];
    assert forall|e: u16| piece_moves(p, occ, c, k, froms, allowed, quiets).contains(e) implies set![crate::moves::move_kind(
        quiets,
    )].contains(crate::types::spec_decode(e).mv_type) by {
        let f = choose|f: int| froms.contains(f) && #[trigger] crate::moves::target_moves(f, tg(f), ks).contains(e);
        let (t, i) = choose|t: int, i: int| tg(f).contains(t) && 0 <= i < ks.len() && e == #[trigger] spec_encode(f, t, ks[i]);
        crate::types::lemma_decode_encode(crate::types::DecodedMove { from: Square(f as usize), to: Square(t as usize), mv_type: ks[i] });
    }
}

/// Pawn moves of one phase all have that phase's pawn types.
proof fn lemma_pawn_moves_kinds(p: Seq<Figure>, c: Color, h: Set<int>, d: Set<int>, cm: Set<int>, quiets: bool)
    ensures
        type_in(pawn_moves(p, c, h, d, cm, quiets), pawn_kinds(quiets)),
{
    let pawns = squares_of(p, Figure::spec_new(c, Piece::Pawn));
    let normal = pawns.difference(bits(promo_row(c)));
    let double = pawns.intersect(bits(double_row(c)));
    let promo = pawns.intersect(bits(promo_row(c)));
    let es = dest_squares(p, c, true);
    let ns = dest_squares(p, c, false);
    let ts = pawn_kinds(quiets);
    let qs = seq![MoveType::Quiet];
    let ds = seq![MoveType::DoubleMove];
    let cs = seq![MoveType::Capture];
    if quiets {
        assert(forall|i: int| 0 <= i < qs.len() ==> ts.contains(#[trigger] qs[i]));
        assert(forall|i: int| 0 <= i < ds.len() ==> ts.contains(#[trigger] ds[i]));
        lemma_pawn_group_from(unpinned(normal, h, d), PawnStep::Single, c, es, es.intersect(cm), qs, pawns, ts);
        lemma_pawn_group_from(pinned_on(normal, h, d), PawnStep::Single, c, es, es.intersect(cm).intersect(h), qs, pawns, ts);
        lemma_pawn_group_from(unpinned(double, h, d), PawnStep::Double, c, es, es.intersect(cm), ds, pawns, ts);
        lemma_pawn_group_from(pinned_on(double, h, d), PawnStep::Double, c, es, es.intersect(cm).intersect(h), ds, pawns, ts);
    } else {
        assert(forall|i: int| 0 <= i < promos(false).len() ==> ts.contains(#[trigger] promos(false)[i]));
        assert(forall|i: int| 0 <= i < promos(true).len() ==> ts.contains(#[trigger] promos(true)[i]));
        assert(forall|i: int| 0 <= i < cs.len() ==> ts.contains(#[trigger] cs[i]));
        lemma_pawn_group_from(unpinned(normal, h, d), PawnStep::Capture, c, es, ns.intersect(cm), cs, pawns, ts);
        lemma_pawn_group_from(pinned_on(normal, d, h), PawnStep::Capture, c, es, ns.intersect(cm).intersect(d), cs, pawns, ts);
        lemma_pawn_group_from(unpinned(promo, h, d), PawnStep::Single, c, es, es.intersect(cm), promos(false), pawns, ts);
        lemma_pawn_group_from(unpinned(promo, h, d), PawnStep::Capture, c, es, ns.intersect(cm), promos(true), pawns, ts);
        lemma_pawn_group_from(pinned_on(promo, h, d), PawnStep::Single, c, es, es.intersect(cm).intersect(h), promos(false), pawns, ts);
        lemma_pawn_group_from(pinned_on(promo, d, h), PawnStep::Capture, c, es, ns.intersect(cm).intersect(d), promos(true), pawns, ts);
    }
}

/// Every move of the quiet phase has a quiet type, and no move of the other phase has one:
/// the two phases never produce the same move.
pub proof fn lemma_generated_phase_types(b: Board, quiets: bool)
    requires
        b.movegen_ready(),
    ensures
        forall|e: u16| #[trigger] generated_moves(b, quiets).contains(e)
            ==> quiet_types().contains(crate::types::spec_decode(e).mv_type) == quiets,
        generated_moves(b, false).disjoint(generated_moves(b, true)),
{
    assert forall|q: bool| type_in(generated_moves(b, q), if q { quiet_types() } else { quiet_types().complement() }) by {
        let p = b.pieces@;
        let occ = b.occupied;
        let c = b.current_color;
        let h = b.hv_pins();
        let d = b.diag_pins();
        let cm = b.checks();
        let fig = |k: Piece| Figure::spec_new(c, k);
        let ts = if q { quiet_types() } else { quiet_types().complement() };
        b.lemma_ready_kings();
        crate::board::lemma_lowest_king_exists(p, c, choose|s: int| 0 <= s < 64 && #[trigger] p[s] == Figure::spec_new(c, Piece::King));
        lemma_piece_moves_kind(p, occ, c, Piece::King, set![b.own_king()], king_safe_squares(p, c), q);
        lemma_pawn_moves_kinds(p, c, h, d, cm, q);
        lemma_piece_moves_kind(p, occ, c, Piece::Knight, squares_of(p, fig(Piece::Knight)).difference(h + d), cm, q);
        lemma_piece_moves_kind(p, occ, c, Piece::Bishop, unpinned(squares_of(p, fig(Piece::Bishop)), d, h), cm, q);
        lemma_piece_moves_kind(p, occ, c, Piece::Bishop, pinned_on(squares_of(p, fig(Piece::Bishop)), d, h), cm.intersect(d), q);
        lemma_piece_moves_kind(p, occ, c, Piece::Rook, unpinned(squares_of(p, fig(Piece::Rook)), h, d), cm, q);
        lemma_piece_moves_kind(p, occ, c, Piece::Rook, pinned_on(squares_of(p, fig(Piece::Rook)), h, d), cm.intersect(h), q);
        lemma_piece_moves_kind(p, occ, c, Piece::Queen, unpinned(squares_of(p, fig(Piece::Queen)), h, d), cm, q);
        lemma_piece_moves_kind(p, occ, c, Piece::Rook, pinned_on(squares_of(p, fig(Piece::Queen)), h, d), cm.intersect(h), q);
        lemma_piece_moves_kind(p, occ, c, Piece::Bishop, pinned_on(squares_of(p, fig(Piece::Queen)), d, h), cm.intersect(d), q);
        if q {
            lemma_castle_types(b, b.check_number() as int, c);
        } else {
            lemma_ep_types(b, h, d);
        }
        assert forall|e: u16| generated_moves(b, q).contains(e) implies ts.contains(crate::types::spec_decode(e).mv_type) by {
        }
    }
    assert(type_in(generated_moves(b, true), quiet_types()));
    assert(type_in(generated_moves(b, false), quiet_types().complement()));
}

/// Squares holding two different kinds of pieces of one side are different squares.
proof fn lemma_own_squares_disjoint(p: Seq<Figure>, c: Color, a: Piece, b: Piece)
    requires
        a != b,
        a != Piece::Empty,
        b != Piece::Empty,
    ensures
        squares_of(p, Figure::spec_new(c, a)).disjoint(squares_of(p, Figure::spec_new(c, b))),
{
    Figure::Empty.lemma_figure_parts(c, a);
    Figure::Empty.lemma_figure_parts(c, b);
}

/// Parts of generation that start on squares of different pieces, or that have types that
/// never agree, share no move.
proof fn lemma_parts_disjoint(
    s1: Set<u16>, s2: Set<u16>, s3: Set<u16>, s4: Set<u16>, s5: Set<u16>, s6: Set<u16>, s7: Set<u16>,
    a1: Set<int>, a2: Set<int>, a3: Set<int>, a4: Set<int>, a5: Set<int>, a6: Set<int>,
    t1: Set<MoveType>, t2: Set<MoveType>, t7: Set<MoveType>,
)
    requires
        from_in(s1, a1), from_in(s2, a2), from_in(s3, a3), from_in(s4, a4), from_in(s5, a5), from_in(s6, a6),
        a1.disjoint(a2), a1.disjoint(a3), a1.disjoint(a4), a1.disjoint(a5), a1.disjoint(a6),
        a2.disjoint(a3), a2.disjoint(a4), a2.disjoint(a5), a2.disjoint(a6),
        a3.disjoint(a4), a3.disjoint(a5), a3.disjoint(a6),
        a4.disjoint(a5), a4.disjoint(a6),
        a5.disjoint(a6),
        type_in(s1, t1), type_in(s2, t2), type_in(s3, t2), type_in(s4, t2), type_in(s5, t2), type_in(s6, t2), type_in(s7, t7),
        t1.disjoint(t7), t2.disjoint(t7),
    ensures
        s1.disjoint(s2),
        (s1 + s2).disjoint(s3),
        (s1 + s2 + s3).disjoint(s4),
        (s1 + s2 + s3 + s4).disjoint(s5),
        (s1 + s2 + s3 + s4 + s5).disjoint(s6),
        (s1 + s2 + s3 + s4 + s5 + s6).disjoint(s7),
{
}

impl Board {
    /// Appends the quiet moves (`quiets`) or the captures, promotions and en passant
    /// captures of the side to move to `moves`.
    pub fn generate_moves(&self, quiets: bool, moves: &mut MoveList)
        requires
            self.movegen_ready(),
        ensures
            grows_by(*old(moves), *final(moves), generated_moves(*self, quiets)),
    {
        let ghost start = *moves;
        let ghost p = self.pieces@;
        proof {
            self.lemma_ready_kings();
        }
        let friendly = self.current_color();
        let (hv, diag) = self.get_pinmasks();
        let pinmask = Bitboard(hv.0 | diag.0);
        let check_counter = self.get_check_counter();
        let check_mask = self.get_checkmask();
        if check_counter == 2 {
            generate_king_move(moves, quiets, friendly, self);
            return;
        }
        let ghost h = bits(hv.0);
        let ghost d = bits(diag.0);
        let ghost cm = bits(check_mask.0);
        proof {
            lemma_bit_ops(hv.0, diag.0);
            lemma_bit_ops(check_mask.0, diag.0);
            lemma_bit_ops(check_mask.0, hv.0);
            assert(bits(pinmask.0) =~= h + d);
            assert(bits(check_mask.0 & diag.0) =~= cm.intersect(d));
            assert(bits(check_mask.0 & hv.0) =~= cm.intersect(h));
        }
        generate_pawn_moves(moves, quiets, self, friendly, hv, diag, check_mask);
        let ghost m1 = *moves;
        generate_knight_moves(moves, quiets, pinmask, friendly, self, check_mask);
        let ghost m2 = *moves;
        generate_bishop_moves(moves, quiets, hv, diag, friendly, self, check_mask);
        let ghost m3 = *moves;
        generate_rook_moves(moves, quiets, hv, diag, friendly, self, check_mask);
        let ghost m4 = *moves;
        generate_queen_moves(moves, quiets, hv, diag, friendly, self, check_mask);
        let ghost m5 = *moves;
        generate_king_move(moves, quiets, friendly, self);
        let ghost m6 = *moves;
        if quiets {
            generate_castle_moves(moves, check_counter, friendly, self);
        } else {
            generate_ep_moves(self, moves, friendly, hv, diag);
        }
        proof {
            let occ = self.occupied;
            let fig = |k: Piece| Figure::spec_new(friendly, k);
            let s1 = pawn_moves(p, friendly, h, d, cm, quiets);
            let s2 = piece_moves(p, occ, friendly, Piece::Knight, squares_of(p, fig(Piece::Knight)).difference(bits(pinmask.0)), cm, quiets);
            let s3 = piece_moves(p, occ, friendly, Piece::Bishop, free_of(p, fig(Piece::Bishop), diag, hv), cm, quiets)
                + piece_moves(p, occ, friendly, Piece::Bishop, only_in(p, fig(Piece::Bishop), diag, hv), bits(check_mask.0 & diag.0), quiets);
            let s4 = piece_moves(p, occ, friendly, Piece::Rook, free_of(p, fig(Piece::Rook), hv, diag), cm, quiets)
                + piece_moves(p, occ, friendly, Piece::Rook, only_in(p, fig(Piece::Rook), hv, diag), bits(check_mask.0 & hv.0), quiets);
            let s5 = piece_moves(p, occ, friendly, Piece::Queen, free_of(p, fig(Piece::Queen), hv, diag), cm, quiets)
                + piece_moves(p, occ, friendly, Piece::Rook, only_in(p, fig(Piece::Queen), hv, diag), bits(check_mask.0 & hv.0), quiets)
                + piece_moves(p, occ, friendly, Piece::Bishop, only_in(p, fig(Piece::Queen), diag, hv), bits(check_mask.0 & diag.0), quiets);
            let s6 = piece_moves(p, occ, friendly, Piece::King, set![lowest_king_sq(p, friendly)], king_safe_squares(p, friendly), quiets);
            let s7 = if quiets {
                castle_moves(*self, check_counter as int, friendly)
            } else {
                ep_moves(*self, friendly, h, d)
            };
            let qc = set![MoveType::Quiet, MoveType::Capture];
            let sq = |k: Piece| squares_of(p, fig(k));
            let k = lowest_king_sq(p, friendly);
            crate::board::lemma_lowest_king_exists(p, friendly, choose|s: int| 0 <= s < 64 && #[trigger] p[s] == Figure::spec_new(friendly, Piece::King));
            lemma_pawn_moves_from(p, friendly, h, d, cm, quiets);
            lemma_piece_moves_from(p, occ, friendly, Piece::Knight, squares_of(p, fig(Piece::Knight)).difference(bits(pinmask.0)), cm, quiets, sq(Piece::Knight));
            lemma_piece_moves_from(p, occ, friendly, Piece::Bishop, free_of(p, fig(Piece::Bishop), diag, hv), cm, quiets, sq(Piece::Bishop));
            lemma_piece_moves_from(p, occ, friendly, Piece::Bishop, only_in(p, fig(Piece::Bishop), diag, hv), bits(check_mask.0 & diag.0), quiets, sq(Piece::Bishop));
            lemma_piece_moves_from(p, occ, friendly, Piece::Rook, free_of(p, fig(Piece::Rook), hv, diag), cm, quiets, sq(Piece::Rook));
            lemma_piece_moves_from(p, occ, friendly, Piece::Rook, only_in(p, fig(Piece::Rook), hv, diag), bits(check_mask.0 & hv.0), quiets, sq(Piece::Rook));
            lemma_piece_moves_from(p, occ, friendly, Piece::Queen, free_of(p, fig(Piece::Queen), hv, diag), cm, quiets, sq(Piece::Queen));
            lemma_piece_moves_from(p, occ, friendly, Piece::Rook, only_in(p, fig(Piece::Queen), hv, diag), bits(check_mask.0 & hv.0), quiets, sq(Piece::Queen));
            lemma_piece_moves_from(p, occ, friendly, Piece::Bishop, only_in(p, fig(Piece::Queen), diag, hv), bits(check_mask.0 & diag.0), quiets, sq(Piece::Queen));
            lemma_piece_moves_from(p, occ, friendly, Piece::King, set![k], king_safe_squares(p, friendly), quiets, sq(Piece::King));
            if quiets {
                lemma_castle_types(*self, check_counter as int, friendly);
            } else {
                lemma_ep_types(*self, h, d);
            }
            let t7 = if quiets {
                set![MoveType::KingCastle, MoveType::QueenCastle]
            } else {
                set![MoveType::EpCapture]
            };
            assert forall|a: Piece, bb: Piece| a != bb && a != Piece::Empty && bb != Piece::Empty implies #[trigger] sq(a).disjoint(#[trigger] sq(bb)) by {
                lemma_own_squares_disjoint(p, friendly, a, bb);
            }
            lemma_parts_disjoint(s1, s2, s3, s4, s5, s6, s7,
                sq(Piece::Pawn), sq(Piece::Knight), sq(Piece::Bishop), sq(Piece::Rook), sq(Piece::Queen), sq(Piece::King),
                pawn_types(), qc, t7);
            lemma_grows_trans(start, m1, m2, s1, s2);
            lemma_grows_trans(start, m2, m3, s1 + s2, s3);
            lemma_grows_trans(start, m3, m4, s1 + s2 + s3, s4);
            lemma_grows_trans(start, m4, m5, s1 + s2 + s3 + s4, s5);
            lemma_grows_trans(start, m5, m6, s1 + s2 + s3 + s4 + s5, s6);
            lemma_grows_trans(start, m6, *moves, s1 + s2 + s3 + s4 + s5 + s6, s7);
            assert(s1 + s2 + s3 + s4 + s5 + s6 + s7 =~= generated_moves(*self, quiets));
        }
    }

    /// All moves of the side to move: captures and promotions first, then quiet moves,
    /// piece kind by piece kind. Meant for tests and perft.
    pub fn generate_all_moves(&self) -> (r: MoveList)
        requires
            self.movegen_ready(),
        ensures
            !r.overflow ==> crate::moves::moves_in(r.items()) == generated_moves(*self, false) + generated_moves(*self, true),
            crate::moves::moves_in(r.items()).subset_of(generated_moves(*self, false) + generated_moves(*self, true)),
            crate::moves::no_repeats(r.items()),
            r.overflow ==> r.items().len() >= 218,
    {
        let mut moves = MoveList::new();
        self.generate_moves(false, &mut moves);
        let ghost mid = moves;
        self.generate_moves(true, &mut moves);
        proof {
            lemma_generated_phase_types(*self, false);
            let s = moves.items();
            let n = mid.items().len();
            assert forall|i: int, j: int| 0 <= i < j < s.len() implies #[trigger] s[i].mv.0 != #[trigger] s[j].mv.0 by {
                if j < n {
                    assert(s[i] == mid.items()[i]);
                    assert(s[j] == mid.items()[j]);
                } else if i < n {
                    assert(s[i] == mid.items()[i]);
                    assert(generated_moves(*self, false).contains(mid.items()[i].mv.0));
                    assert(generated_moves(*self, true).contains(s[j].mv.0));
                }
            }
            assert(crate::moves::moves_in(Seq::<crate::move_picker::MoveListMove>::empty()) =~= Set::<u16>::empty());
            assert(Set::<u16>::empty() + generated_moves(*self, false) =~= generated_moves(*self, false));
        }
        moves
    }
}

/// Every move that generation can produce, castling aside, moves a piece of the side to
/// move to another square; a capture other than en passant takes an enemy piece other than
/// the king, and an en passant capture is made by a pawn.
pub open spec fn sound_move(b: Board, e: u16) -> bool {
    let d = crate::types::spec_decode(e);
    let p = b.pieces@;
    let c = b.current_color;
    let f = p[d.from.0 as int];
    let t = p[d.to.0 as int];
    ||| d.mv_type == MoveType::KingCastle
    ||| d.mv_type == MoveType::QueenCastle
    ||| {
        &&& f != Figure::Empty
        &&& f.spec_color() == c
        &&& d.from != d.to
        &&& (d.mv_type.spec_is_capture() && d.mv_type != MoveType::EpCapture) ==> (t != Figure::Empty
            && t.spec_color() == c.spec_opposite() && t.spec_piece() != Piece::King)
        &&& d.mv_type == MoveType::EpCapture ==> f.spec_piece() == Piece::Pawn
    }
}

/// The facts `sound_move` asks of a move from `f` to `to` of kind `k`.
pub open spec fn sound_parts(b: Board, f: int, to: int, k: MoveType) -> bool {
    let p = b.pieces@;
    let c = b.current_color;
    &&& 0 <= f < 64
    &&& 0 <= to < 64
    &&& p[f] != Figure::Empty
    &&& p[f].spec_color() == c
    &&& f != to
    &&& (k.spec_is_capture() && k != MoveType::EpCapture) ==> (p[to] != Figure::Empty
        && p[to].spec_color() == c.spec_opposite() && p[to].spec_piece() != Piece::King)
    &&& k == MoveType::EpCapture ==> p[f].spec_piece() == Piece::Pawn
}

proof fn lemma_sound_parts(b: Board, f: int, to: int, k: MoveType)
    requires
        sound_parts(b, f, to, k),
    ensures
        sound_move(b, spec_encode(f, to, k)),
{
    crate::types::lemma_decode_encode(crate::types::DecodedMove { from: Square(f as usize), to: Square(to as usize), mv_type: k });
}

proof fn lemma_gen_sound(b: Board, froms: Set<int>, tg: spec_fn(int) -> Set<int>, ks: Seq<MoveType>, e: u16)
    requires
        gen_moves(froms, tg, ks).contains(e),
        forall|f: int, to: int, i: int|
            froms.contains(f) && #[trigger] tg(f).contains(to) && 0 <= i < ks.len() ==> sound_parts(b, f, to, #[trigger] ks[i]),
    ensures
        sound_move(b, e),
{
    let f = choose|f: int| froms.contains(f) && #[trigger] crate::moves::target_moves(f, tg(f), ks).contains(e);
    let (to, i) = choose|to: int, i: int| tg(f).contains(to) && 0 <= i < ks.len() && e == #[trigger] spec_encode(f, to, ks[i]);
    lemma_sound_parts(b, f, to, ks[i]);
}

proof fn lemma_piece_moves_sound(b: Board, kind: Piece, froms: Set<int>, allowed: Set<int>, quiets: bool, e: u16)
    requires
        b.wf(),
        piece_moves(b.pieces@, b.occupied, b.current_color, kind, froms, allowed, quiets).contains(e),
        forall|f: int| froms.contains(f) ==> 0 <= f < 64 && b.pieces@[f] != Figure::Empty && b.pieces@[f].spec_color() == b.current_color,
    ensures
        sound_move(b, e),
{
    let p = b.pieces@;
    let c = b.current_color;
    let tg = |f: int| crate::masks::attack_set(kind, c, f, b.occupied).intersect(allowed).intersect(dest_squares(p, c, quiets));
    let ks = seq![crate::moves::move_kind(quiets)];
    assert forall|f: int, to: int, i: int|
        froms.contains(f) && #[trigger] tg(f).contains(to) && 0 <= i < ks.len() implies sound_parts(b, f, to, #[trigger] ks[i]) by {
        assert(dest_squares(p, c, quiets).contains(to));
        assert(ks[i] == crate::moves::move_kind(quiets));
        crate::types::lemma_move_type_flags(ks[i]);
        if quiets {
            assert(p[to] == Figure::Empty);
        }
        assert(f != to);
    }
    lemma_gen_sound(b, froms, tg, ks, e);
}

proof fn lemma_pawn_group_sound(b: Board, how: PawnStep, froms: Set<int>, mask: Set<int>, ks: Seq<MoveType>, e: u16)
    requires
        gen_moves(froms, pawn_tg(how, b.current_color, dest_squares(b.pieces@, b.current_color, true), mask), ks).contains(e),
        forall|f: int| froms.contains(f) ==> 0 <= f < 64 && b.pieces@[f] == Figure::spec_new(b.current_color, Piece::Pawn),
        (forall|t: int| mask.contains(t) ==> dest_squares(b.pieces@, b.current_color, true).contains(t))
            || (forall|t: int| mask.contains(t) ==> dest_squares(b.pieces@, b.current_color, false).contains(t)),
        forall|i: int| 0 <= i < ks.len() ==> (#[trigger] ks[i]).spec_is_capture() ==> (ks[i] != MoveType::EpCapture
            && forall|t: int| mask.contains(t) ==> dest_squares(b.pieces@, b.current_color, false).contains(t)),
    ensures
        sound_move(b, e),
{
    let p = b.pieces@;
    let c = b.current_color;
    let tg = pawn_tg(how, c, dest_squares(p, c, true), mask);
    assert forall|f: int, to: int, i: int|
        froms.contains(f) && #[trigger] tg(f).contains(to) && 0 <= i < ks.len() implies sound_parts(b, f, to, #[trigger] ks[i]) by {
        p[f].lemma_figure_parts(c, Piece::Pawn);
        assert(mask.contains(to));
        assert(dest_squares(p, c, true).contains(to) || dest_squares(p, c, false).contains(to));
        if ks[i].spec_is_capture() {
            assert(dest_squares(p, c, false).contains(to));
        }
        assert(f != to);
    }
    lemma_gen_sound(b, froms, tg, ks, e);
}

proof fn lemma_own_squares(b: Board, kind: Piece, x: Set<int>)
    requires
        kind != Piece::Empty,
        x.subset_of(squares_of(b.pieces@, Figure::spec_new(b.current_color, kind))),
    ensures
        forall|f: int| x.contains(f) ==> 0 <= f < 64 && b.pieces@[f] != Figure::Empty && b.pieces@[f].spec_color() == b.current_color,
{
    assert forall|f: int| x.contains(f) implies 0 <= f < 64 && b.pieces@[f] != Figure::Empty && b.pieces@[f].spec_color() == b.current_color by {
        assert(squares_of(b.pieces@, Figure::spec_new(b.current_color, kind)).contains(f));
        b.pieces@[f].lemma_figure_parts(b.current_color, kind);
    }
}

proof fn lemma_pawn_moves_sound(b: Board, quiets: bool, e: u16)
    requires
        b.wf(),
        pawn_moves(b.pieces@, b.current_color, b.hv_pins(), b.diag_pins(), b.checks(), quiets).contains(e),
    ensures
        sound_move(b, e),
{
    let p = b.pieces@;
    let c = b.current_color;
    let h = b.hv_pins();
    let d = b.diag_pins();
    let cm = b.checks();
    let pawns = squares_of(p, Figure::spec_new(c, Piece::Pawn));
    let normal = pawns.difference(bits(promo_row(c)));
    let double = pawns.intersect(bits(double_row(c)));
    let promo = pawns.intersect(bits(promo_row(c)));
    let es = dest_squares(p, c, true);
    let ns = dest_squares(p, c, false);
    crate::types::lemma_move_type_flags(MoveType::Quiet);
    crate::types::lemma_move_type_flags(MoveType::DoubleMove);
    crate::types::lemma_move_type_flags(MoveType::Capture);
    crate::types::lemma_move_type_flags(MoveType::QueenPromo);
    crate::types::lemma_move_type_flags(MoveType::RookPromo);
    crate::types::lemma_move_type_flags(MoveType::BishopPromo);
    crate::types::lemma_move_type_flags(MoveType::KnightPromo);
    crate::types::lemma_move_type_flags(MoveType::QueenPromoCapture);
    crate::types::lemma_move_type_flags(MoveType::RookPromoCapture);
    crate::types::lemma_move_type_flags(MoveType::BishopPromoCapture);
    crate::types::lemma_move_type_flags(MoveType::KnightPromoCapture);
    assert forall|x: Set<int>| x.subset_of(pawns) implies (forall|f: int| x.contains(f) ==> 0 <= f < 64 && #[trigger] p[f] == Figure::spec_new(c, Piece::Pawn)) by {
        assert forall|f: int| x.contains(f) implies 0 <= f < 64 && #[trigger] p[f] == Figure::spec_new(c, Piece::Pawn) by {
            assert(pawns.contains(f));
        }
    }
    let qs = seq![MoveType::Quiet];
    let ds = seq![MoveType::DoubleMove];
    let cs = seq![MoveType::Capture];
    if quiets {
        if gen_moves(unpinned(normal, h, d), pawn_tg(PawnStep::Single, c, es, es.intersect(cm)), qs).contains(e) {
            lemma_pawn_group_sound(b, PawnStep::Single, unpinned(normal, h, d), es.intersect(cm), qs, e);
        } else if gen_moves(pinned_on(normal, h, d), pawn_tg(PawnStep::Single, c, es, es.intersect(cm).intersect(h)), qs).contains(e) {
            lemma_pawn_group_sound(b, PawnStep::Single, pinned_on(normal, h, d), es.intersect(cm).intersect(h), qs, e);
        } else if gen_moves(unpinned(double, h, d), pawn_tg(PawnStep::Double, c, es, es.intersect(cm)), ds).contains(e) {
            lemma_pawn_group_sound(b, PawnStep::Double, unpinned(double, h, d), es.intersect(cm), ds, e);
        } else {
            lemma_pawn_group_sound(b, PawnStep::Double, pinned_on(double, h, d), es.intersect(cm).intersect(h), ds, e);
        }
    } else {
        if gen_moves(unpinned(normal, h, d), pawn_tg(PawnStep::Capture, c, es, ns.intersect(cm)), cs).contains(e) {
            lemma_pawn_group_sound(b, PawnStep::Capture, unpinned(normal, h, d), ns.intersect(cm), cs, e);
        } else if gen_moves(pinned_on(normal, d, h), pawn_tg(PawnStep::Capture, c, es, ns.intersect(cm).intersect(d)), cs).contains(e) {
            lemma_pawn_group_sound(b, PawnStep::Capture, pinned_on(normal, d, h), ns.intersect(cm).intersect(d), cs, e);
        } else if gen_moves(unpinned(promo, h, d), pawn_tg(PawnStep::Single, c, es, es.intersect(cm)), promos(false)).contains(e) {
            lemma_pawn_group_sound(b, PawnStep::Single, unpinned(promo, h, d), es.intersect(cm), promos(false), e);
        } else if gen_moves(unpinned(promo, h, d), pawn_tg(PawnStep::Capture, c, es, ns.intersect(cm)), promos(true)).contains(e) {
            lemma_pawn_group_sound(b, PawnStep::Capture, unpinned(promo, h, d), ns.intersect(cm), promos(true), e);
        } else if gen_moves(pinned_on(promo, h, d), pawn_tg(PawnStep::Single, c, es, es.intersect(cm).intersect(h)), promos(false)).contains(e) {
            lemma_pawn_group_sound(b, PawnStep::Single, pinned_on(promo, h, d), es.intersect(cm).intersect(h), promos(false), e);
        } else {
            lemma_pawn_group_sound(b, PawnStep::Capture, pinned_on(promo, d, h), ns.intersect(cm).intersect(d), promos(true), e);
        }
    }
}

proof fn lemma_ep_sound(b: Board, e: u16)
    requires
        b.movegen_ready(),
        ep_moves(b, b.current_color, b.hv_pins(), b.diag_pins()).contains(e),
    ensures
        sound_move(b, e),
{
    let p = b.pieces@;
    let c = b.current_color;
    let ep = b.ep_target->0;
    vstd::std_specs::bits::axiom_u64_trailing_zeros(ep.0);
    let esq = vstd::std_specs::bits::u64_trailing_zeros(ep.0) as int;
    let pawns = squares_of(p, Figure::spec_new(c, Piece::Pawn));
    let from_e = Set::new(|s: int| crate::targets::pawn_attacks(c.spec_opposite(), esq, s));
    let h = b.hv_pins();
    let d = b.diag_pins();
    let cand = if ep_group(b, c, from_e.intersect(unpinned(pawns, h, d)), esq, ep.0).contains(e) {
        from_e.intersect(unpinned(pawns, h, d))
    } else {
        from_e.intersect(pinned_on(pawns, d, h))
    };
    assert(ep_group(b, c, cand, esq, ep.0).contains(e));
    let s = choose|s: int| cand.contains(s) && ep_safe(b, c, s, ep.0, ep_captured(c, ep.0)) && e == #[trigger] spec_encode(s, esq, MoveType::EpCapture);
    assert(pawns.contains(s));
    p[s].lemma_figure_parts(c, Piece::Pawn);
    crate::types::lemma_move_type_flags(MoveType::EpCapture);
    lemma_sound_parts(b, s, esq, MoveType::EpCapture);
}

/// Every move `generate_moves` appends, castling aside, moves a piece of the side to move
/// to another square; a capture other than en passant takes an enemy piece other than the
/// king, and an en passant capture is made by a pawn.
pub proof fn lemma_generated_sound(b: Board, quiets: bool, e: u16)
    requires
        b.movegen_ready(),
        generated_moves(b, quiets).contains(e),
    ensures
        sound_move(b, e),
{
    let p = b.pieces@;
    let c = b.current_color;
    let occ = b.occupied;
    let h = b.hv_pins();
    let d = b.diag_pins();
    let cm = b.checks();
    let k = b.own_king();
    b.lemma_ready_kings();
    let ks = choose|s: int| 0 <= s < 64 && #[trigger] p[s] == Figure::spec_new(c, Piece::King);
    crate::board::lemma_lowest_king_exists(p, c, ks);
    lemma_own_squares(b, Piece::King, set![k]);
    let king = piece_moves(p, occ, c, Piece::King, set![k], king_safe_squares(p, c), quiets);
    if king.contains(e) {
        lemma_piece_moves_sound(b, Piece::King, set![k], king_safe_squares(p, c), quiets, e);
        return;
    }
    assert(b.check_number() != 2);
    let fig = |kd: Piece| Figure::spec_new(c, kd);
    lemma_own_squares(b, Piece::Knight, squares_of(p, fig(Piece::Knight)).difference(h + d));
    lemma_own_squares(b, Piece::Bishop, unpinned(squares_of(p, fig(Piece::Bishop)), d, h));
    lemma_own_squares(b, Piece::Bishop, pinned_on(squares_of(p, fig(Piece::Bishop)), d, h));
    lemma_own_squares(b, Piece::Rook, unpinned(squares_of(p, fig(Piece::Rook)), h, d));
    lemma_own_squares(b, Piece::Rook, pinned_on(squares_of(p, fig(Piece::Rook)), h, d));
    lemma_own_squares(b, Piece::Queen, unpinned(squares_of(p, fig(Piece::Queen)), h, d));
    lemma_own_squares(b, Piece::Queen, pinned_on(squares_of(p, fig(Piece::Queen)), h, d));
    lemma_own_squares(b, Piece::Queen, pinned_on(squares_of(p, fig(Piece::Queen)), d, h));
    if pawn_moves(p, c, h, d, cm, quiets).contains(e) {
        lemma_pawn_moves_sound(b, quiets, e);
    } else if piece_moves(p, occ, c, Piece::Knight, squares_of(p, fig(Piece::Knight)).difference(h + d), cm, quiets).contains(e) {
        lemma_piece_moves_sound(b, Piece::Knight, squares_of(p, fig(Piece::Knight)).difference(h + d), cm, quiets, e);
    } else if piece_moves(p, occ, c, Piece::Bishop, unpinned(squares_of(p, fig(Piece::Bishop)), d, h), cm, quiets).contains(e) {
        lemma_piece_moves_sound(b, Piece::Bishop, unpinned(squares_of(p, fig(Piece::Bishop)), d, h), cm, quiets, e);
    } else if piece_moves(p, occ, c, Piece::Bishop, pinned_on(squares_of(p, fig(Piece::Bishop)), d, h), cm.intersect(d), quiets).contains(e) {
        lemma_piece_moves_sound(b, Piece::Bishop, pinned_on(squares_of(p, fig(Piece::Bishop)), d, h), cm.intersect(d), quiets, e);
    } else if piece_moves(p, occ, c, Piece::Rook, unpinned(squares_of(p, fig(Piece::Rook)), h, d), cm, quiets).contains(e) {
        lemma_piece_moves_sound(b, Piece::Rook, unpinned(squares_of(p, fig(Piece::Rook)), h, d), cm, quiets, e);
    } else if piece_moves(p, occ, c, Piece::Rook, pinned_on(squares_of(p, fig(Piece::Rook)), h, d), cm.intersect(h), quiets).contains(e) {
        lemma_piece_moves_sound(b, Piece::Rook, pinned_on(squares_of(p, fig(Piece::Rook)), h, d), cm.intersect(h), quiets, e);
    } else if piece_moves(p, occ, c, Piece::Queen, unpinned(squares_of(p, fig(Piece::Queen)), h, d), cm, quiets).contains(e) {
        lemma_piece_moves_sound(b, Piece::Queen, unpinned(squares_of(p, fig(Piece::Queen)), h, d), cm, quiets, e);
    } else if piece_moves(p, occ, c, Piece::Rook, pinned_on(squares_of(p, fig(Piece::Queen)), h, d), cm.intersect(h), quiets).contains(e) {
        lemma_piece_moves_sound(b, Piece::Rook, pinned_on(squares_of(p, fig(Piece::Queen)), h, d), cm.intersect(h), quiets, e);
    } else if piece_moves(p, occ, c, Piece::Bishop, pinned_on(squares_of(p, fig(Piece::Queen)), d, h), cm.intersect(d), quiets).contains(e) {
        lemma_piece_moves_sound(b, Piece::Bishop, pinned_on(squares_of(p, fig(Piece::Queen)), d, h), cm.intersect(d), quiets, e);
    } else if quiets {
        let cs = castle_moves(b, b.check_number() as int, c);
        assert(cs.contains(e));
        let base: int = if c == Color::White { 0 } else { 56 };
        if e == spec_encode(base + 4, base + 2, MoveType::QueenCastle) {
            crate::types::lemma_decode_encode(crate::types::DecodedMove { from: Square((base + 4) as usize), to: Square((base + 2) as usize), mv_type: MoveType::QueenCastle });
        } else {
            crate::types::lemma_decode_encode(crate::types::DecodedMove { from: Square((base + 4) as usize), to: Square((base + 6) as usize), mv_type: MoveType::KingCastle });
        }
    } else {
        lemma_ep_sound(b, e);
    }
}

/// Generation depends on the position alone, not on the move history.
pub proof fn lemma_generated_same_state(b1: Board, b2: Board, quiets: bool)
    requires
        b1.state() == b2.state(),
    ensures
        generated_moves(b1, quiets) == generated_moves(b2, quiets),
        b1.hv_pins() == b2.hv_pins(),
        b1.diag_pins() == b2.diag_pins(),
        b1.checks() == b2.checks(),
        b1.check_number() == b2.check_number(),
{
    assert(b1.pieces == b2.pieces);
    assert(b1.occupied == b2.occupied);
    assert(castle_moves(b1, b1.check_number() as int, b1.current_color) == castle_moves(b2, b2.check_number() as int, b2.current_color));
    assert(ep_moves(b1, b1.current_color, b1.hv_pins(), b1.diag_pins()) =~= ep_moves(b2, b2.current_color, b2.hv_pins(), b2.diag_pins()));
}

} // verus!
