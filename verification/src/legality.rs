//! Generation and the legality test agree: every move generation produces, en passant
//! captures aside, is one `is_legal` accepts.
use crate::bitboard::{bit_set, bits, board_of};
use crate::board::{is_lowest_king, lowest_king_sq, Board};
use crate::targets::{bishop_set, iabs, on_board, ray, rook_set, sx, sy};
use crate::generator::{
    castle_moves, generated_moves, king_safe_squares, pawn_moves, pinned_on, promo_row, double_row, promos,
    unpinned,
};
use crate::is_legal::{direction, legal, MoveDirection};
use crate::masks::attack_set;
use crate::moves::{
    dest_squares, gen_moves, move_kind, pawn_step, pawn_tg, piece_moves, squares_of, target_moves, PawnStep,
};
use crate::types::{
    lemma_decode_encode, lemma_move_type_flags, spec_decode, spec_encode, DecodedMove, Figure, MoveType,
    Piece, Square,
};
use vstd::prelude::*;

verus! {

/// `t` is the square `k` steps of (dx, dy) away from (x, y), on the board.
pub open spec fn at_step(x: int, y: int, dx: int, dy: int, k: int, t: int) -> bool {
    1 <= k && on_board(x + k * dx, y + k * dy) && t == (y + k * dy) * 8 + (x + k * dx)
}

/// A square on a ray lies a whole number of steps away from its start.
proof fn lemma_ray_steps(x: int, y: int, dx: int, dy: int, occ: u64, fuel: nat, t: int)
    requires
        ray(x, y, dx, dy, occ, fuel).contains(t),
        -1 <= dx <= 1,
        -1 <= dy <= 1,
    ensures
        exists|k: int| #[trigger] at_step(x, y, dx, dy, k, t),
    decreases fuel,
{
    let s = (y + dy) * 8 + (x + dx);
    if bit_set(occ, s) || t == s {
        assert(at_step(x, y, dx, dy, 1, t));
    } else {
        lemma_ray_steps(x + dx, y + dy, dx, dy, occ, (fuel - 1) as nat, t);
        let k = choose|k: int| #[trigger] at_step(x + dx, y + dy, dx, dy, k, t);
        assert((k + 1) * dx == k * dx + dx) by (nonlinear_arith);
        assert((k + 1) * dy == k * dy + dy) by (nonlinear_arith);
        assert(at_step(x, y, dx, dy, k + 1, t));
    }
}

/// The file and rank of a square given by its coordinates.
proof fn lemma_coords(t: int, x: int, y: int)
    requires
        on_board(x, y),
        t == y * 8 + x,
    ensures
        sx(t) == x,
        sy(t) == y,
        0 <= t < 64,
{
}

/// A rook on `f` attacks along a rank or a file.
pub proof fn lemma_rook_direction(f: int, occ: u64, t: int)
    requires
        0 <= f < 64,
        rook_set(f, occ).contains(t),
    ensures
        direction(f, t) == MoveDirection::HV,
        0 <= t < 64,
{
    let x = sx(f);
    let y = sy(f);
    if ray(x, y, 0, 1, occ, 8).contains(t) {
        lemma_ray_steps(x, y, 0, 1, occ, 8, t);
        let k = choose|k: int| #[trigger] at_step(x, y, 0, 1, k, t);
        lemma_coords(t, x, y + k);
    } else if ray(x, y, 1, 0, occ, 8).contains(t) {
        lemma_ray_steps(x, y, 1, 0, occ, 8, t);
        let k = choose|k: int| #[trigger] at_step(x, y, 1, 0, k, t);
        lemma_coords(t, x + k, y);
    } else if ray(x, y, -1, 0, occ, 8).contains(t) {
        lemma_ray_steps(x, y, -1, 0, occ, 8, t);
        let k = choose|k: int| #[trigger] at_step(x, y, -1, 0, k, t);
        lemma_coords(t, x - k, y);
    } else {
        lemma_ray_steps(x, y, 0, -1, occ, 8, t);
        let k = choose|k: int| #[trigger] at_step(x, y, 0, -1, k, t);
        lemma_coords(t, x, y - k);
    }
}

/// A bishop on `f` attacks along a diagonal.
pub proof fn lemma_bishop_direction(f: int, occ: u64, t: int)
    requires
        0 <= f < 64,
        bishop_set(f, occ).contains(t),
    ensures
        direction(f, t) == MoveDirection::Diag,
        0 <= t < 64,
{
    let x = sx(f);
    let y = sy(f);
    if ray(x, y, 1, 1, occ, 8).contains(t) {
        lemma_ray_steps(x, y, 1, 1, occ, 8, t);
        let k = choose|k: int| #[trigger] at_step(x, y, 1, 1, k, t);
        lemma_coords(t, x + k, y + k);
    } else if ray(x, y, -1, 1, occ, 8).contains(t) {
        lemma_ray_steps(x, y, -1, 1, occ, 8, t);
        let k = choose|k: int| #[trigger] at_step(x, y, -1, 1, k, t);
        lemma_coords(t, x - k, y + k);
    } else if ray(x, y, 1, -1, occ, 8).contains(t) {
        lemma_ray_steps(x, y, 1, -1, occ, 8, t);
        let k = choose|k: int| #[trigger] at_step(x, y, 1, -1, k, t);
        lemma_coords(t, x + k, y - k);
    } else {
        lemma_ray_steps(x, y, -1, -1, occ, 8, t);
        let k = choose|k: int| #[trigger] at_step(x, y, -1, -1, k, t);
        lemma_coords(t, x - k, y - k);
    }
}


/// A segment stops before its end square.
proof fn lemma_segment_excludes_end(x: int, y: int, ux: int, uy: int, bx: int, by: int, fuel: nat, t: int)
    requires
        crate::targets::segment(x, y, ux, uy, bx, by, fuel).contains(t),
        on_board(bx, by),
    ensures
        t != by * 8 + bx,
    decreases fuel,
{
    let s = (y + uy) * 8 + (x + ux);
    if t == s {
        lemma_coords(s, x + ux, y + uy);
        lemma_coords(by * 8 + bx, bx, by);
    } else {
        lemma_segment_excludes_end(x + ux, y + uy, ux, uy, bx, by, (fuel - 1) as nat, t);
    }
}

/// The king of the side to move is on no pin mask of its own.
pub proof fn lemma_king_not_pinned(b: Board)
    requires
        b.movegen_ready(),
    ensures
        0 <= b.own_king() < 64,
        b.pieces@[b.own_king()] == Figure::spec_new(b.current_color, Piece::King),
        !b.hv_pins().contains(b.own_king()),
        !b.diag_pins().contains(b.own_king()),
{
    let p = b.pieces@;
    let c = b.current_color;
    b.lemma_ready_kings_pub();
    let s = choose|s: int| 0 <= s < 64 && #[trigger] p[s] == Figure::spec_new(c, Piece::King);
    crate::board::lemma_lowest_king_exists(p, c, s);
    let k = b.own_king();
    assert(is_lowest_king(p, c, k));
    lemma_coords(k, sx(k), sy(k));
    assert forall|rook: bool| !crate::masks::rays_to(crate::masks::pinners(p, b.occupied, c, k, rook), k).contains(k) by {
        let pins = crate::masks::pinners(p, b.occupied, c, k, rook);
        if crate::masks::rays_to(pins, k).contains(k) {
            let a = choose|a: int| pins.contains(a) && #[trigger] crate::masks::on_ray_to(a, k, k);
            let e = c.spec_opposite();
            let kind = if rook { Piece::Rook } else { Piece::Bishop };
            assert(p[a] == Figure::spec_new(e, kind) || p[a] == Figure::spec_new(e, Piece::Queen));
            if a == k {
                p[a].lemma_figure_parts(c, Piece::King);
                p[a].lemma_figure_parts(e, kind);
                p[a].lemma_figure_parts(e, Piece::Queen);
            } else {
                let sb = crate::targets::between_set(a, k);
                assert(sb.contains(k));
                assert(crate::targets::aligned(a, k));
                lemma_segment_excludes_end(
                    sx(a),
                    sy(a),
                    crate::targets::isign(sx(k) - sx(a)),
                    crate::targets::isign(sy(k) - sy(a)),
                    sx(k),
                    sy(k),
                    8,
                    k,
                );
            }
        }
    }
}

/// The side to move has a single king.
pub open spec fn single_king(b: Board) -> bool {
    forall|s: int| 0 <= s < 64 && #[trigger] b.pieces@[s] == Figure::spec_new(b.current_color, Piece::King) ==> s == b.own_king()
}

/// With a single king, the occupied squares without it are the occupied squares less its
/// square.
proof fn lemma_occupied_without_single_king(b: Board)
    requires
        b.movegen_ready(),
        single_king(b),
    ensures
        crate::generator::occupied_without_king(b.pieces@, b.current_color) == board_of(bits(b.occupied).remove(b.own_king())),
{
    let p = b.pieces@;
    let c = b.current_color;
    let k = b.own_king();
    lemma_king_not_pinned(b);
    let a = Set::new(|s: int| 0 <= s < 64 && p[s] != Figure::Empty && p[s] != Figure::spec_new(c, Piece::King));
    let o = bits(b.occupied).remove(k);
    assert forall|s: int| a.contains(s) <==> o.contains(s) by {
        if 0 <= s < 64 {
            assert(bit_set(b.occupied, s) <==> p[s] != Figure::Empty);
        }
        if s == k {
            assert(p[s] == Figure::spec_new(c, Piece::King));
        }
    }
    assert(a =~= o);
}


/// A move of a knight, bishop, rook or queen that generation produces is legal: `kind` is
/// the attack pattern the moves follow (a queen on a pin moves as a rook or a bishop along
/// it), `actual` the piece on the from squares.
proof fn lemma_piece_moves_legal(
    b: Board,
    kind: Piece,
    actual: Piece,
    froms: Set<int>,
    allowed: Set<int>,
    quiets: bool,
    e: u16,
)
    requires
        b.movegen_ready(),
        b.check_number() < 2,
        piece_moves(b.pieces@, b.occupied, b.current_color, kind, froms, allowed, quiets).contains(e),
        forall|f: int| froms.contains(f) ==> 0 <= f < 64 && b.pieces@[f] == Figure::spec_new(b.current_color, actual),
        (kind == actual && (kind == Piece::Knight || kind == Piece::Bishop || kind == Piece::Rook || kind
            == Piece::Queen)) || (actual == Piece::Queen && (kind == Piece::Rook || kind == Piece::Bishop)),
        allowed.subset_of(b.checks()),
        forall|f: int| froms.contains(f) && b.diag_pins().contains(f) ==> kind == Piece::Bishop && allowed.subset_of(b.diag_pins()),
        forall|f: int| froms.contains(f) && b.hv_pins().contains(f) ==> kind == Piece::Rook && allowed.subset_of(b.hv_pins()),
    ensures
        legal(b, spec_decode(e)),
{
    let p = b.pieces@;
    let c = b.current_color;
    let occ = b.occupied;
    let tg = |f: int| attack_set(kind, c, f, occ).intersect(allowed).intersect(dest_squares(p, c, quiets));
    let ks = seq![move_kind(quiets)];
    let f = choose|f: int| froms.contains(f) && #[trigger] target_moves(f, tg(f), ks).contains(e);
    let (to, i) = choose|to: int, i: int| tg(f).contains(to) && 0 <= i < ks.len() && e == #[trigger] spec_encode(f, to, ks[i]);
    let t = move_kind(quiets);
    assert(ks[i] == t);
    assert(dest_squares(p, c, quiets).contains(to));
    let mv = DecodedMove { from: Square(f as usize), to: Square(to as usize), mv_type: t };
    lemma_decode_encode(mv);
    assert(spec_decode(e) == mv);
    lemma_move_type_flags(t);
    p[f].lemma_figure_parts(c, actual);
    p[to].lemma_figure_parts(c.spec_opposite(), Piece::King);
    assert(Figure::Empty.spec_piece() == Piece::Empty);
    if kind == Piece::Bishop {
        lemma_bishop_direction(f, occ, to);
    } else if kind == Piece::Rook {
        lemma_rook_direction(f, occ, to);
    } else if kind == Piece::Queen {
        if bishop_set(f, occ).contains(to) {
            lemma_bishop_direction(f, occ, to);
        } else {
            lemma_rook_direction(f, occ, to);
        }
    }
    assert(allowed.contains(to));
    assert(b.checks().contains(to));
    assert(crate::is_legal::pseudo_legal(b, mv));
    assert(crate::is_legal::reaches(b, mv));
}


/// A king move (not castling) that generation produces is legal when the side to move has
/// a single king.
proof fn lemma_king_moves_legal(b: Board, quiets: bool, e: u16)
    requires
        b.movegen_ready(),
        single_king(b),
        piece_moves(
            b.pieces@,
            b.occupied,
            b.current_color,
            Piece::King,
            set![b.own_king()],
            king_safe_squares(b.pieces@, b.current_color),
            quiets,
        ).contains(e),
    ensures
        legal(b, spec_decode(e)),
{
    let p = b.pieces@;
    let c = b.current_color;
    let occ = b.occupied;
    let k = b.own_king();
    lemma_king_not_pinned(b);
    lemma_occupied_without_single_king(b);
    let allowed = king_safe_squares(p, c);
    let tg = |f: int| attack_set(Piece::King, c, f, occ).intersect(allowed).intersect(dest_squares(p, c, quiets));
    let ks = seq![move_kind(quiets)];
    let f = choose|f: int| set![k].contains(f) && #[trigger] target_moves(f, tg(f), ks).contains(e);
    assert(f == k);
    let (to, i) = choose|to: int, i: int| tg(f).contains(to) && 0 <= i < ks.len() && e == #[trigger] spec_encode(f, to, ks[i]);
    let t = move_kind(quiets);
    assert(ks[i] == t);
    assert(dest_squares(p, c, quiets).contains(to));
    let mv = DecodedMove { from: Square(f as usize), to: Square(to as usize), mv_type: t };
    lemma_decode_encode(mv);
    assert(spec_decode(e) == mv);
    lemma_move_type_flags(t);
    p[f].lemma_figure_parts(c, Piece::King);
    p[to].lemma_figure_parts(c.spec_opposite(), Piece::King);
    assert(Figure::Empty.spec_piece() == Piece::Empty);
    assert(crate::targets::king_attacks(f, to));
    assert(direction(f, to) != MoveDirection::Teleport);
    assert(allowed.contains(to));
    assert(crate::is_legal::pseudo_legal(b, mv));
    assert(crate::is_legal::reaches(b, mv));
}

/// Each castling right is kept only with the king of that color on its home square.
pub open spec fn castle_home(b: Board) -> bool {
    &&& (b.white_queen_castle || b.white_king_castle) ==> b.pieces@[4] == Figure::WhiteKing
    &&& (b.black_queen_castle || b.black_king_castle) ==> b.pieces@[60] == Figure::BlackKing
}

/// A castling move that generation produces is legal.
proof fn lemma_castle_legal(b: Board, e: u16)
    requires
        b.movegen_ready(),
        single_king(b),
        castle_home(b),
        castle_moves(b, b.check_number() as int, b.current_color).contains(e),
    ensures
        legal(b, spec_decode(e)),
{
    let p = b.pieces@;
    let c = b.current_color;
    let base: int = if c == crate::types::Color::White { 0 } else { 56 };
    lemma_king_not_pinned(b);
    let home = base + 4;
    p[home].lemma_figure_parts(c, Piece::King);
    assert(p[home] == Figure::spec_new(c, Piece::King));
    assert(home == b.own_king());
    let (to, t) = if e == spec_encode(home, base + 2, MoveType::QueenCastle) {
        (base + 2, MoveType::QueenCastle)
    } else {
        (base + 6, MoveType::KingCastle)
    };
    assert(e == spec_encode(home, to, t));
    let mv = DecodedMove { from: Square(home as usize), to: Square(to as usize), mv_type: t };
    lemma_decode_encode(mv);
    assert(spec_decode(e) == mv);
    lemma_move_type_flags(t);
    assert(!bit_set(b.occupied, to));
    assert(p[to] == Figure::Empty);
    assert(Figure::Empty.spec_piece() == Piece::Empty);
    lemma_coords(home, 4, base / 8);
    lemma_coords(to, to - base, base / 8);
    assert(direction(home, to) == MoveDirection::HV);
    assert(crate::is_legal::pseudo_legal(b, mv));
    assert(crate::is_legal::reaches(b, mv));
}

/// A pawn move of one group that generation produces is legal.
proof fn lemma_pawn_group_legal(
    b: Board,
    how: PawnStep,
    froms: Set<int>,
    mask: Set<int>,
    ks: Seq<MoveType>,
    e: u16,
)
    requires
        b.movegen_ready(),
        b.check_number() < 2,
        gen_moves(froms, pawn_tg(how, b.current_color, dest_squares(b.pieces@, b.current_color, true), mask), ks).contains(e),
        forall|f: int| froms.contains(f) ==> 0 <= f < 64 && b.pieces@[f] == Figure::spec_new(b.current_color, Piece::Pawn),
        mask.subset_of(b.checks()),
        how == PawnStep::Capture ==> mask.subset_of(dest_squares(b.pieces@, b.current_color, false)),
        how != PawnStep::Capture ==> mask.subset_of(dest_squares(b.pieces@, b.current_color, true)),
        how == PawnStep::Single ==> ks == seq![MoveType::Quiet] || ks == promos(false),
        how == PawnStep::Double ==> ks == seq![MoveType::DoubleMove],
        how == PawnStep::Capture ==> ks == seq![MoveType::Capture] || ks == promos(true),
        forall|f: int| froms.contains(f) && b.diag_pins().contains(f) ==> how == PawnStep::Capture && mask.subset_of(b.diag_pins()),
        forall|f: int| froms.contains(f) && b.hv_pins().contains(f) ==> how != PawnStep::Capture && mask.subset_of(b.hv_pins()),
    ensures
        legal(b, spec_decode(e)),
{
    let p = b.pieces@;
    let c = b.current_color;
    let occ = b.occupied;
    let es = dest_squares(p, c, true);
    let tg = pawn_tg(how, c, es, mask);
    let f = choose|f: int| froms.contains(f) && #[trigger] target_moves(f, tg(f), ks).contains(e);
    let (to, i) = choose|to: int, i: int| tg(f).contains(to) && 0 <= i < ks.len() && e == #[trigger] spec_encode(f, to, ks[i]);
    let t = ks[i];
    assert(mask.contains(to));
    assert(0 <= to < 64);
    let mv = DecodedMove { from: Square(f as usize), to: Square(to as usize), mv_type: t };
    lemma_decode_encode(mv);
    assert(spec_decode(e) == mv);
    lemma_move_type_flags(t);
    p[f].lemma_figure_parts(c, Piece::Pawn);
    p[to].lemma_figure_parts(c.spec_opposite(), Piece::King);
    assert(Figure::Empty.spec_piece() == Piece::Empty);
    let x = sx(f);
    let y = sy(f);
    let dir = crate::targets::pawn_dir(c);
    lemma_coords(f, x, y);
    if how == PawnStep::Single {
        assert(to == pawn_step(c, f, 1));
        lemma_coords(to, x, y + dir);
        assert(es.contains(to));
        assert(!bit_set(occ, to));
        assert(ray(x, y, 0, dir, occ, 8).contains(to));
        assert(rook_set(f, occ).contains(to));
    } else if how == PawnStep::Double {
        assert(to == pawn_step(c, f, 2));
        let mid = pawn_step(c, f, 1);
        assert(es.contains(mid));
        lemma_coords(mid, x, y + dir);
        lemma_coords(to, x, y + 2 * dir);
        assert(!bit_set(occ, mid));
        assert(ray(x, y + dir, 0, dir, occ, 7).contains(to));
        assert(ray(x, y, 0, dir, occ, 8).contains(to));
        assert(rook_set(f, occ).contains(to));
    } else {
        assert(crate::targets::pawn_attacks(c, f, to));
        if sx(to) == x + 1 {
            lemma_coords(to, x + 1, y + dir);
            assert(ray(x, y, 1, dir, occ, 8).contains(to));
        } else {
            lemma_coords(to, x - 1, y + dir);
            assert(ray(x, y, -1, dir, occ, 8).contains(to));
        }
        assert(bishop_set(f, occ).contains(to));
    }
    assert(crate::is_legal::pseudo_legal(b, mv));
    assert(crate::is_legal::reaches(b, mv));
}


/// A pawn move that generation produces is legal.
proof fn lemma_pawn_moves_legal(b: Board, quiets: bool, e: u16)
    requires
        b.movegen_ready(),
        b.check_number() < 2,
        pawn_moves(b.pieces@, b.current_color, b.hv_pins(), b.diag_pins(), b.checks(), quiets).contains(e),
    ensures
        legal(b, spec_decode(e)),
{
    let p = b.pieces@;
    let c = b.current_color;
    let h = b.hv_pins();
    let d = b.diag_pins();
    let cm = b.checks();
    let pawns = squares_of(p, Figure::spec_new(c, Piece::Pawn));
    let normal = pawns.difference(bits(promo_row(c)));
    let double = pawns.intersect(bits(double_row(c)));
    let promo = pawns.intersect(bits(promo_row(c)));
    let es = dest_squares(p, c, true);
    let ns = dest_squares(p, c, false);
    assert forall|x: Set<int>| x.subset_of(pawns) implies (forall|f: int| x.contains(f) ==> 0 <= f < 64 && #[trigger] p[f] == Figure::spec_new(c, Piece::Pawn)) by {
        assert forall|f: int| x.contains(f) implies 0 <= f < 64 && #[trigger] p[f] == Figure::spec_new(c, Piece::Pawn) by {
            assert(pawns.contains(f));
        }
    }
    let qs = seq![MoveType::Quiet];
    let ds = seq![MoveType::DoubleMove];
    let cs = seq![MoveType::Capture];
    if quiets {
        if gen_moves(unpinned(normal, h, d), pawn_tg(PawnStep::Single, c, es, es.intersect(cm)), qs).contains(e) {
            lemma_pawn_group_legal(b, PawnStep::Single, unpinned(normal, h, d), es.intersect(cm), qs, e);
        } else if gen_moves(pinned_on(normal, h, d), pawn_tg(PawnStep::Single, c, es, es.intersect(cm).intersect(h)), qs).contains(e) {
            lemma_pawn_group_legal(b, PawnStep::Single, pinned_on(normal, h, d), es.intersect(cm).intersect(h), qs, e);
        } else if gen_moves(unpinned(double, h, d), pawn_tg(PawnStep::Double, c, es, es.intersect(cm)), ds).contains(e) {
            lemma_pawn_group_legal(b, PawnStep::Double, unpinned(double, h, d), es.intersect(cm), ds, e);
        } else {
            lemma_pawn_group_legal(b, PawnStep::Double, pinned_on(double, h, d), es.intersect(cm).intersect(h), ds, e);
        }
    } else {
        if gen_moves(unpinned(normal, h, d), pawn_tg(PawnStep::Capture, c, es, ns.intersect(cm)), cs).contains(e) {
            lemma_pawn_group_legal(b, PawnStep::Capture, unpinned(normal, h, d), ns.intersect(cm), cs, e);
        } else if gen_moves(pinned_on(normal, d, h), pawn_tg(PawnStep::Capture, c, es, ns.intersect(cm).intersect(d)), cs).contains(e) {
            lemma_pawn_group_legal(b, PawnStep::Capture, pinned_on(normal, d, h), ns.intersect(cm).intersect(d), cs, e);
        } else if gen_moves(unpinned(promo, h, d), pawn_tg(PawnStep::Single, c, es, es.intersect(cm)), promos(false)).contains(e) {
            lemma_pawn_group_legal(b, PawnStep::Single, unpinned(promo, h, d), es.intersect(cm), promos(false), e);
        } else if gen_moves(unpinned(promo, h, d), pawn_tg(PawnStep::Capture, c, es, ns.intersect(cm)), promos(true)).contains(e) {
            lemma_pawn_group_legal(b, PawnStep::Capture, unpinned(promo, h, d), ns.intersect(cm), promos(true), e);
        } else if gen_moves(pinned_on(promo, h, d), pawn_tg(PawnStep::Single, c, es, es.intersect(cm).intersect(h)), promos(false)).contains(e) {
            lemma_pawn_group_legal(b, PawnStep::Single, pinned_on(promo, h, d), es.intersect(cm).intersect(h), promos(false), e);
        } else {
            lemma_pawn_group_legal(b, PawnStep::Capture, pinned_on(promo, d, h), ns.intersect(cm).intersect(d), promos(true), e);
        }
    }
}

proof fn lemma_on_figure(p: Seq<Figure>, fig: Figure, x: Set<int>)
    requires
        x.subset_of(squares_of(p, fig)),
    ensures
        forall|f: int| x.contains(f) ==> 0 <= f < 64 && p[f] == fig,
{
    assert forall|f: int| x.contains(f) implies 0 <= f < 64 && p[f] == fig by {
        assert(squares_of(p, fig).contains(f));
    }
}

/// Every move that generation produces, en passant captures aside, is one `is_legal`
/// accepts: when at most two pieces give check, the side to move has a single king and
/// each castling right is kept only with the king on its home square.
pub proof fn lemma_generated_legal(b: Board, quiets: bool, e: u16)
    requires
        b.movegen_ready(),
        b.check_number() <= 2,
        single_king(b),
        castle_home(b),
        generated_moves(b, quiets).contains(e),
        spec_decode(e).mv_type != MoveType::EpCapture,
    ensures
        legal(b, spec_decode(e)),
{
    let p = b.pieces@;
    let c = b.current_color;
    let occ = b.occupied;
    let h = b.hv_pins();
    let d = b.diag_pins();
    let cm = b.checks();
    let k = b.own_king();
    lemma_king_not_pinned(b);
    let king = piece_moves(p, occ, c, Piece::King, set![k], king_safe_squares(p, c), quiets);
    if king.contains(e) {
        lemma_king_moves_legal(b, quiets, e);
        return;
    }
    assert(b.check_number() < 2);
    let fig = |kd: Piece| Figure::spec_new(c, kd);
    let kn = squares_of(p, fig(Piece::Knight));
    let bi = squares_of(p, fig(Piece::Bishop));
    let ro = squares_of(p, fig(Piece::Rook));
    let qu = squares_of(p, fig(Piece::Queen));
    lemma_on_figure(p, fig(Piece::Knight), kn.difference(h + d));
    lemma_on_figure(p, fig(Piece::Bishop), unpinned(bi, d, h));
    lemma_on_figure(p, fig(Piece::Bishop), pinned_on(bi, d, h));
    lemma_on_figure(p, fig(Piece::Rook), unpinned(ro, h, d));
    lemma_on_figure(p, fig(Piece::Rook), pinned_on(ro, h, d));
    lemma_on_figure(p, fig(Piece::Queen), unpinned(qu, h, d));
    lemma_on_figure(p, fig(Piece::Queen), pinned_on(qu, h, d));
    lemma_on_figure(p, fig(Piece::Queen), pinned_on(qu, d, h));
    if pawn_moves(p, c, h, d, cm, quiets).contains(e) {
        lemma_pawn_moves_legal(b, quiets, e);
    } else if piece_moves(p, occ, c, Piece::Knight, kn.difference(h + d), cm, quiets).contains(e) {
        lemma_piece_moves_legal(b, Piece::Knight, Piece::Knight, kn.difference(h + d), cm, quiets, e);
    } else if piece_moves(p, occ, c, Piece::Bishop, unpinned(bi, d, h), cm, quiets).contains(e) {
        lemma_piece_moves_legal(b, Piece::Bishop, Piece::Bishop, unpinned(bi, d, h), cm, quiets, e);
    } else if piece_moves(p, occ, c, Piece::Bishop, pinned_on(bi, d, h), cm.intersect(d), quiets).contains(e) {
        lemma_piece_moves_legal(b, Piece::Bishop, Piece::Bishop, pinned_on(bi, d, h), cm.intersect(d), quiets, e);
    } else if piece_moves(p, occ, c, Piece::Rook, unpinned(ro, h, d), cm, quiets).contains(e) {
        lemma_piece_moves_legal(b, Piece::Rook, Piece::Rook, unpinned(ro, h, d), cm, quiets, e);
    } else if piece_moves(p, occ, c, Piece::Rook, pinned_on(ro, h, d), cm.intersect(h), quiets).contains(e) {
        lemma_piece_moves_legal(b, Piece::Rook, Piece::Rook, pinned_on(ro, h, d), cm.intersect(h), quiets, e);
    } else if piece_moves(p, occ, c, Piece::Queen, unpinned(qu, h, d), cm, quiets).contains(e) {
        lemma_piece_moves_legal(b, Piece::Queen, Piece::Queen, unpinned(qu, h, d), cm, quiets, e);
    } else if piece_moves(p, occ, c, Piece::Rook, pinned_on(qu, h, d), cm.intersect(h), quiets).contains(e) {
        lemma_piece_moves_legal(b, Piece::Rook, Piece::Queen, pinned_on(qu, h, d), cm.intersect(h), quiets, e);
    } else if piece_moves(p, occ, c, Piece::Bishop, pinned_on(qu, d, h), cm.intersect(d), quiets).contains(e) {
        lemma_piece_moves_legal(b, Piece::Bishop, Piece::Queen, pinned_on(qu, d, h), cm.intersect(d), quiets, e);
    } else if quiets {
        lemma_castle_legal(b, e);
    } else {
        let ep = crate::generator::ep_moves(b, c, h, d);
        assert(ep.contains(e));
        lemma_ep_type(b, h, d, e);
    }
}

/// En passant generation produces en passant captures only.
proof fn lemma_ep_type(b: Board, h: Set<int>, d: Set<int>, e: u16)
    requires
        crate::generator::ep_moves(b, b.current_color, h, d).contains(e),
    ensures
        spec_decode(e).mv_type == MoveType::EpCapture,
{
    let c = b.current_color;
    let ep = b.ep_target->0;
    let esq = vstd::std_specs::bits::u64_trailing_zeros(ep.0) as int;
    let p = b.pieces@;
    let pawns = squares_of(p, Figure::spec_new(c, Piece::Pawn));
    let from_e = Set::new(|s: int| crate::targets::pawn_attacks(c.spec_opposite(), esq, s));
    let cand = if crate::generator::ep_group(b, c, from_e.intersect(unpinned(pawns, h, d)), esq, ep.0).contains(e) {
        from_e.intersect(unpinned(pawns, h, d))
    } else {
        from_e.intersect(pinned_on(pawns, d, h))
    };
    assert(crate::generator::ep_group(b, c, cand, esq, ep.0).contains(e));
    let s = choose|s: int|
        cand.contains(s) && crate::generator::ep_safe(b, c, s, ep.0, crate::generator::ep_captured(c, ep.0)) && e
            == #[trigger] spec_encode(s, esq, MoveType::EpCapture);
    assert(0 <= s < 64);
    vstd::std_specs::bits::axiom_u64_trailing_zeros(ep.0);
    assert(crate::targets::pawn_attacks(c.spec_opposite(), esq, s));
    lemma_decode_encode(DecodedMove { from: Square(s as usize), to: Square(esq as usize), mv_type: MoveType::EpCapture });
}


/// The moves generation produces with no pin and no check taken into account: every piece
/// of the side to move may go wherever it attacks, castling is not barred by check; king
/// moves still avoid attacked squares and en passant captures still leave the king safe.
pub open spec fn pseudo_moves(b: Board, quiets: bool) -> Set<u16> {
    let p = b.pieces@;
    let occ = b.occupied;
    let c = b.current_color;
    let none = Set::<int>::empty();
    let all = Set::new(|s: int| 0 <= s < 64);
    let fig = |k: Piece| Figure::spec_new(c, k);
    pawn_moves(p, c, none, none, all, quiets)
        + piece_moves(p, occ, c, Piece::Knight, squares_of(p, fig(Piece::Knight)), all, quiets)
        + piece_moves(p, occ, c, Piece::Bishop, squares_of(p, fig(Piece::Bishop)), all, quiets)
        + piece_moves(p, occ, c, Piece::Rook, squares_of(p, fig(Piece::Rook)), all, quiets)
        + piece_moves(p, occ, c, Piece::Queen, squares_of(p, fig(Piece::Queen)), all, quiets)
        + piece_moves(p, occ, c, Piece::King, set![b.own_king()], king_safe_squares(p, c), quiets)
        + if quiets {
            castle_moves(b, 0, c)
        } else {
            crate::generator::ep_moves(b, c, none, none)
        }
}

/// A legal move of a knight, bishop, rook or queen is one generation produces, in the
/// part for its pin.
proof fn lemma_legal_piece_generated(b: Board, kind: Piece, quiets: bool, e: u16)
    requires
        b.movegen_ready(),
        kind == Piece::Knight || kind == Piece::Bishop || kind == Piece::Rook || kind == Piece::Queen,
        piece_moves(
            b.pieces@,
            b.occupied,
            b.current_color,
            kind,
            squares_of(b.pieces@, Figure::spec_new(b.current_color, kind)),
            Set::new(|s: int| 0 <= s < 64),
            quiets,
        ).contains(e),
        legal(b, spec_decode(e)),
    ensures
        generated_moves(b, quiets).contains(e),
{
    let p = b.pieces@;
    let c = b.current_color;
    let occ = b.occupied;
    let h = b.hv_pins();
    let d = b.diag_pins();
    let cm = b.checks();
    let all = Set::new(|s: int| 0 <= s < 64);
    let own = squares_of(p, Figure::spec_new(c, kind));
    let dest = dest_squares(p, c, quiets);
    let tg = |f: int| attack_set(kind, c, f, occ).intersect(all).intersect(dest);
    let ks = seq![move_kind(quiets)];
    let f = choose|f: int| own.contains(f) && #[trigger] target_moves(f, tg(f), ks).contains(e);
    let (to, i) = choose|to: int, i: int| tg(f).contains(to) && 0 <= i < ks.len() && e == #[trigger] spec_encode(f, to, ks[i]);
    let t = move_kind(quiets);
    assert(ks[i] == t);
    let mv = DecodedMove { from: Square(f as usize), to: Square(to as usize), mv_type: t };
    lemma_decode_encode(mv);
    assert(spec_decode(e) == mv);
    p[f].lemma_figure_parts(c, kind);
    assert(p[f].spec_piece() == kind);
    assert(b.check_number() < 2);
    assert(cm.contains(to));
    let fig = |k: Piece| Figure::spec_new(c, k);
    assert(fig(kind) == Figure::spec_new(c, kind));
    // the part of generation the move belongs to, with its pattern and allowed squares
    let (pat, froms, allowed) = if kind == Piece::Knight {
        (Piece::Knight, own.difference(h + d), cm)
    } else if kind == Piece::Bishop {
        if h.contains(f) {
            lemma_bishop_direction(f, occ, to);
            assert(false);
            (kind, own, cm)
        } else if d.contains(f) {
            (Piece::Bishop, pinned_on(own, d, h), cm.intersect(d))
        } else {
            (Piece::Bishop, unpinned(own, d, h), cm)
        }
    } else if kind == Piece::Rook {
        if d.contains(f) {
            lemma_rook_direction(f, occ, to);
            assert(false);
            (kind, own, cm)
        } else if h.contains(f) {
            (Piece::Rook, pinned_on(own, h, d), cm.intersect(h))
        } else {
            (Piece::Rook, unpinned(own, h, d), cm)
        }
    } else {
        if h.contains(f) && d.contains(f) {
            assert(false);
            (kind, own, cm)
        } else if h.contains(f) {
            (Piece::Rook, pinned_on(own, h, d), cm.intersect(h))
        } else if d.contains(f) {
            (Piece::Bishop, pinned_on(own, d, h), cm.intersect(d))
        } else {
            (Piece::Queen, unpinned(own, h, d), cm)
        }
    };
    let tg2 = |x: int| attack_set(pat, c, x, occ).intersect(allowed).intersect(dest);
    assert(froms.contains(f));
    assert(tg2(f).contains(to));
    assert(target_moves(f, tg2(f), ks).contains(e));
    assert(piece_moves(p, occ, c, pat, froms, allowed, quiets).contains(e));
}


/// A legal pawn move of a group of pseudo moves is one generation produces, in the part for
/// its pin.
proof fn lemma_legal_pawn_group(b: Board, how: PawnStep, x: Set<int>, ks: Seq<MoveType>, e: u16)
    requires
        b.movegen_ready(),
        forall|f: int| x.contains(f) ==> 0 <= f < 64 && b.pieces@[f] == Figure::spec_new(b.current_color, Piece::Pawn),
        gen_moves(
            x,
            pawn_tg(
                how,
                b.current_color,
                dest_squares(b.pieces@, b.current_color, true),
                dest_squares(b.pieces@, b.current_color, how != PawnStep::Capture).intersect(Set::new(|s: int| 0 <= s < 64)),
            ),
            ks,
        ).contains(e),
        legal(b, spec_decode(e)),
        forall|i: int| 0 <= i < ks.len() ==> (#[trigger] ks[i]) != MoveType::EpCapture,
    ensures
        b.check_number() < 2,
        ({
            let c = b.current_color;
            let es = dest_squares(b.pieces@, c, true);
            let ns = dest_squares(b.pieces@, c, false);
            let cm = b.checks();
            let h = b.hv_pins();
            let d = b.diag_pins();
            if how == PawnStep::Capture {
                gen_moves(unpinned(x, h, d), pawn_tg(how, c, es, ns.intersect(cm)), ks).contains(e) || gen_moves(
                    pinned_on(x, d, h),
                    pawn_tg(how, c, es, ns.intersect(cm).intersect(d)),
                    ks,
                ).contains(e)
            } else {
                gen_moves(unpinned(x, h, d), pawn_tg(how, c, es, es.intersect(cm)), ks).contains(e) || gen_moves(
                    pinned_on(x, h, d),
                    pawn_tg(how, c, es, es.intersect(cm).intersect(h)),
                    ks,
                ).contains(e)
            }
        }),
{
    let p = b.pieces@;
    let c = b.current_color;
    let occ = b.occupied;
    let es = dest_squares(p, c, true);
    let ns = dest_squares(p, c, false);
    let cm = b.checks();
    let h = b.hv_pins();
    let d = b.diag_pins();
    let base = dest_squares(p, c, how != PawnStep::Capture).intersect(Set::new(|s: int| 0 <= s < 64));
    let tg = pawn_tg(how, c, es, base);
    let f = choose|f: int| x.contains(f) && #[trigger] target_moves(f, tg(f), ks).contains(e);
    let (to, i) = choose|to: int, i: int| tg(f).contains(to) && 0 <= i < ks.len() && e == #[trigger] spec_encode(f, to, ks[i]);
    let t = ks[i];
    let mv = DecodedMove { from: Square(f as usize), to: Square(to as usize), mv_type: t };
    lemma_decode_encode(mv);
    assert(spec_decode(e) == mv);
    p[f].lemma_figure_parts(c, Piece::Pawn);
    assert(p[f].spec_piece() == Piece::Pawn);
    assert(b.check_number() < 2);
    assert(crate::is_legal::reaches(b, mv));
    let xx = sx(f);
    let y = sy(f);
    let dir = crate::targets::pawn_dir(c);
    lemma_coords(f, xx, y);
    if how == PawnStep::Single {
        lemma_coords(to, xx, y + dir);
    } else if how == PawnStep::Double {
        lemma_coords(to, xx, y + 2 * dir);
    } else {
        if sx(to) == xx + 1 {
            lemma_coords(to, xx + 1, y + dir);
        } else {
            lemma_coords(to, xx - 1, y + dir);
        }
    }
    lemma_move_type_flags(t);
    assert(cm.contains(to));
    if how == PawnStep::Capture {
        assert(direction(f, to) == MoveDirection::Diag);
        assert(!h.contains(f));
        if d.contains(f) {
            let tg2 = pawn_tg(how, c, es, ns.intersect(cm).intersect(d));
            assert(tg2(f).contains(to));
            assert(target_moves(f, tg2(f), ks).contains(e));
        } else {
            let tg2 = pawn_tg(how, c, es, ns.intersect(cm));
            assert(tg2(f).contains(to));
            assert(target_moves(f, tg2(f), ks).contains(e));
        }
    } else {
        assert(direction(f, to) == MoveDirection::HV);
        assert(!d.contains(f));
        if h.contains(f) {
            let tg2 = pawn_tg(how, c, es, es.intersect(cm).intersect(h));
            assert(tg2(f).contains(to));
            assert(target_moves(f, tg2(f), ks).contains(e));
        } else {
            let tg2 = pawn_tg(how, c, es, es.intersect(cm));
            assert(tg2(f).contains(to));
            assert(target_moves(f, tg2(f), ks).contains(e));
        }
    }
}


/// A legal pawn move among the pseudo moves is one generation produces.
proof fn lemma_legal_pawn_generated(b: Board, quiets: bool, e: u16)
    requires
        b.movegen_ready(),
        pawn_moves(b.pieces@, b.current_color, Set::empty(), Set::empty(), Set::new(|s: int| 0 <= s < 64), quiets).contains(e),
        legal(b, spec_decode(e)),
    ensures
        pawn_moves(b.pieces@, b.current_color, b.hv_pins(), b.diag_pins(), b.checks(), quiets).contains(e),
        b.check_number() < 2,
{
    let p = b.pieces@;
    let c = b.current_color;
    let none = Set::<int>::empty();
    let all = Set::new(|s: int| 0 <= s < 64);
    let pawns = squares_of(p, Figure::spec_new(c, Piece::Pawn));
    let normal = pawns.difference(bits(promo_row(c)));
    let double = pawns.intersect(bits(double_row(c)));
    let promo = pawns.intersect(bits(promo_row(c)));
    let es = dest_squares(p, c, true);
    let ns = dest_squares(p, c, false);
    assert(unpinned(normal, none, none) =~= normal);
    assert(unpinned(double, none, none) =~= double);
    assert(unpinned(promo, none, none) =~= promo);
    assert(pinned_on(normal, none, none) =~= none);
    assert(pinned_on(double, none, none) =~= none);
    assert(pinned_on(promo, none, none) =~= none);
    lemma_on_figure(p, Figure::spec_new(c, Piece::Pawn), normal);
    lemma_on_figure(p, Figure::spec_new(c, Piece::Pawn), double);
    lemma_on_figure(p, Figure::spec_new(c, Piece::Pawn), promo);
    let qs = seq![MoveType::Quiet];
    let ds = seq![MoveType::DoubleMove];
    let cs = seq![MoveType::Capture];
    assert(forall|i: int| 0 <= i < qs.len() ==> (#[trigger] qs[i]) != MoveType::EpCapture);
    assert(forall|i: int| 0 <= i < ds.len() ==> (#[trigger] ds[i]) != MoveType::EpCapture);
    assert(forall|i: int| 0 <= i < cs.len() ==> (#[trigger] cs[i]) != MoveType::EpCapture);
    assert(forall|i: int| 0 <= i < promos(false).len() ==> (#[trigger] promos(false)[i]) != MoveType::EpCapture);
    assert(forall|i: int| 0 <= i < promos(true).len() ==> (#[trigger] promos(true)[i]) != MoveType::EpCapture);
    if quiets {
        if gen_moves(normal, pawn_tg(PawnStep::Single, c, es, es.intersect(all)), qs).contains(e) {
            lemma_legal_pawn_group(b, PawnStep::Single, normal, qs, e);
        } else {
            assert(gen_moves(double, pawn_tg(PawnStep::Double, c, es, es.intersect(all)), ds).contains(e));
            lemma_legal_pawn_group(b, PawnStep::Double, double, ds, e);
        }
    } else {
        if gen_moves(normal, pawn_tg(PawnStep::Capture, c, es, ns.intersect(all)), cs).contains(e) {
            lemma_legal_pawn_group(b, PawnStep::Capture, normal, cs, e);
        } else if gen_moves(promo, pawn_tg(PawnStep::Single, c, es, es.intersect(all)), promos(false)).contains(e) {
            lemma_legal_pawn_group(b, PawnStep::Single, promo, promos(false), e);
        } else {
            assert(gen_moves(promo, pawn_tg(PawnStep::Capture, c, es, ns.intersect(all)), promos(true)).contains(e));
            lemma_legal_pawn_group(b, PawnStep::Capture, promo, promos(true), e);
        }
    }
}

/// Among the pseudo moves, en passant captures aside, `is_legal` accepts only moves
/// generation produces, when each castling right is kept only with the king on its home
/// square.
pub proof fn lemma_legal_pseudo_generated(b: Board, quiets: bool, e: u16)
    requires
        b.movegen_ready(),
        castle_home(b),
        pseudo_moves(b, quiets).contains(e),
        spec_decode(e).mv_type != MoveType::EpCapture,
        legal(b, spec_decode(e)),
    ensures
        generated_moves(b, quiets).contains(e),
{
    let p = b.pieces@;
    let c = b.current_color;
    let occ = b.occupied;
    let none = Set::<int>::empty();
    let all = Set::new(|s: int| 0 <= s < 64);
    let fig = |k: Piece| Figure::spec_new(c, k);
    let king = piece_moves(p, occ, c, Piece::King, set![b.own_king()], king_safe_squares(p, c), quiets);
    if king.contains(e) {
        return;
    }
    if pawn_moves(p, c, none, none, all, quiets).contains(e) {
        lemma_legal_pawn_generated(b, quiets, e);
    } else if piece_moves(p, occ, c, Piece::Knight, squares_of(p, fig(Piece::Knight)), all, quiets).contains(e) {
        lemma_legal_piece_generated(b, Piece::Knight, quiets, e);
    } else if piece_moves(p, occ, c, Piece::Bishop, squares_of(p, fig(Piece::Bishop)), all, quiets).contains(e) {
        lemma_legal_piece_generated(b, Piece::Bishop, quiets, e);
    } else if piece_moves(p, occ, c, Piece::Rook, squares_of(p, fig(Piece::Rook)), all, quiets).contains(e) {
        lemma_legal_piece_generated(b, Piece::Rook, quiets, e);
    } else if piece_moves(p, occ, c, Piece::Queen, squares_of(p, fig(Piece::Queen)), all, quiets).contains(e) {
        lemma_legal_piece_generated(b, Piece::Queen, quiets, e);
    } else if quiets {
        let cs = castle_moves(b, 0, c);
        assert(cs.contains(e));
        let base: int = if c == crate::types::Color::White { 0 } else { 56 };
        let (to, t) = if e == spec_encode(base + 4, base + 2, MoveType::QueenCastle) {
            (base + 2, MoveType::QueenCastle)
        } else {
            (base + 6, MoveType::KingCastle)
        };
        let mv = DecodedMove { from: Square((base + 4) as usize), to: Square(to as usize), mv_type: t };
        lemma_decode_encode(mv);
        assert(spec_decode(e) == mv);
        p[base + 4].lemma_figure_parts(c, Piece::King);
        assert(p[base + 4].spec_piece() == Piece::King);
        assert(crate::is_legal::reaches(b, mv));
        assert(b.check_number() == 0);
    } else {
        lemma_ep_type(b, none, none, e);
    }
}


/// Among the moves of `pseudo_moves` (each piece going wherever it attacks, with no pin and
/// no check taken into account), en passant captures aside, `is_legal` accepts exactly
/// those that generation produces: when at most two pieces give check, the side to move
/// has a single king and each castling right is kept only with the king on its home square.
pub proof fn lemma_is_legal_matches_generation(b: Board, quiets: bool, e: u16)
    requires
        b.movegen_ready(),
        b.check_number() <= 2,
        single_king(b),
        castle_home(b),
        pseudo_moves(b, quiets).contains(e),
        spec_decode(e).mv_type != MoveType::EpCapture,
    ensures
        legal(b, spec_decode(e)) <==> generated_moves(b, quiets).contains(e),
{
    if generated_moves(b, quiets).contains(e) {
        lemma_generated_legal(b, quiets, e);
    }
    if legal(b, spec_decode(e)) {
        lemma_legal_pseudo_generated(b, quiets, e);
    }
}

} // verus!
