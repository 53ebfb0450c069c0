//! Checking whether a move (for example one remembered from another position) is legal.
use crate::bitboard::{bit_set, bits, lemma_bit_ops, Bitboard};
use crate::board::Board;
use crate::generator::{all_empty, none_attacked};
use crate::masks::{attack_mask, calculate_attackmask};
use crate::moves::pawn_step;
use crate::targets::{bishop_set, iabs, king_attacks, knight_attacks, pawn_attacks, rook_set, sx, sy};
use crate::types::{Color, DecodedMove, Figure, MoveType, Piece, Square};
use vstd::prelude::*;

verus! {

/// How the to square of a move lies relative to its from square.
#[derive(Clone, Copy, PartialEq, Eq, Structural, Debug)]
pub enum MoveDirection {
    HV,
    Diag,
    Knight,
    Teleport,
}

/// The direction from `from` to `to`: along a rank or file, along a diagonal, a knight's
/// jump, or anything else (staying put included).
pub open spec fn direction(from: int, to: int) -> MoveDirection {
    let dx = iabs(sx(to) - sx(from));
    let dy = iabs(sy(to) - sy(from));
    if (dx == 0 && 1 <= dy <= 7) || (1 <= dx <= 7 && dy == 0) {
        MoveDirection::HV
    } else if dx == dy && 1 <= dx <= 7 {
        MoveDirection::Diag
    } else if (dx == 1 && dy == 2) || (dx == 2 && dy == 1) {
        MoveDirection::Knight
    } else {
        MoveDirection::Teleport
    }
}

impl DecodedMove {
    /// Classifies the move by the relative position of its squares.
    pub fn move_direction(&self) -> (r: MoveDirection)
        requires
            self.valid(),
        ensures
            r == direction(self.from.0 as int, self.to.0 as int),
    {
        let fx = self.from.x();
        let fy = self.from.y();
        let tx = self.to.x();
        let ty = self.to.y();
        let dx = if tx > fx {
            tx - fx
        } else {
            fx - tx
        };
        let dy = if ty > fy {
            ty - fy
        } else {
            fy - ty
        };
        if (dx == 0 && 1 <= dy && dy <= 7) || (1 <= dx && dx <= 7 && dy == 0) {
            MoveDirection::HV
        } else if dx == dy && 1 <= dx && dx <= 7 {
            MoveDirection::Diag
        } else if (dx == 1 && dy == 2) || (dx == 2 && dy == 1) {
            MoveDirection::Knight
        } else {
            MoveDirection::Teleport
        }
    }
}

/// The move is plausible on `b`: not a teleport, a piece of the side to move on its from
/// square, no own piece and no king on its to square, its capture flag matching the to
/// square (en passant aside), and en passant and promotions only by pawns.
pub open spec fn pseudo_legal(b: Board, mv: DecodedMove) -> bool {
    let from_fig = b.pieces@[mv.from.0 as int];
    let to_fig = b.pieces@[mv.to.0 as int];
    let t = mv.mv_type;
    let to_empty = to_fig.spec_piece() == Piece::Empty;
    &&& direction(mv.from.0 as int, mv.to.0 as int) != MoveDirection::Teleport
    &&& from_fig != Figure::Empty
    &&& from_fig.spec_color() == b.current_color
    &&& !(!to_empty && to_fig.spec_color() == b.current_color)
    &&& !(t.spec_is_capture() && to_empty && t != MoveType::EpCapture)
    &&& !(!t.spec_is_capture() && !to_empty && t != MoveType::EpCapture)
    &&& !((t == MoveType::EpCapture || t.spec_is_promotion()) && from_fig.spec_piece() != Piece::Pawn)
    &&& to_fig.spec_piece() != Piece::King
}

/// Castling to `side` is allowed for `c`: the right is kept, the squares between king and
/// rook are empty, and the squares the king crosses are not attacked.
pub open spec fn castling_legal(b: Board, c: Color, side: MoveType) -> bool {
    let (qr, kr, base) = match c {
        Color::White => (b.white_queen_castle, b.white_king_castle, 0int),
        Color::Black => (b.black_queen_castle, b.black_king_castle, 56int),
    };
    let p = b.pieces@;
    let occ = b.occupied;
    ||| (qr && side == MoveType::QueenCastle && all_empty(occ, seq![base + 1, base + 2, base + 3])
        && none_attacked(p, occ, b.current_color, seq![base + 2, base + 3]))
    ||| (kr && side == MoveType::KingCastle && all_empty(occ, seq![base + 5, base + 6])
        && none_attacked(p, occ, b.current_color, seq![base + 5, base + 6]))
}

/// The pawn taken en passant onto the square of `target`: one rank behind it for the side
/// to move, as a bitboard.
pub open spec fn ep_victim_bits(c: Color, target: u64) -> u64 {
    match c.spec_opposite() {
        Color::White => target << 8u64,
        Color::Black => target >> 8u64,
    }
}

/// Whether the piece on the from square of `mv` may go to its to square, given the pins,
/// the check mask and the squares the enemy attacks.
pub open spec fn reaches(b: Board, mv: DecodedMove) -> bool {
    let p = b.pieces@;
    let c = b.current_color;
    let from = mv.from.0 as int;
    let to = mv.to.0 as int;
    let occ = b.occupied;
    let cm = b.checks();
    let d = b.diag_pins();
    let empty = crate::moves::dest_squares(p, c, true);
    let opp = crate::moves::dest_squares(p, c, false);
    let eoo = empty + opp;
    match p[from].spec_piece() {
        Piece::Pawn => match mv.mv_type {
            MoveType::DoubleMove => to == pawn_step(c, from, 2) && 0 <= to < 64 && cm.contains(to)
                && empty.contains(to) && empty.contains(pawn_step(c, from, 1)),
            MoveType::Quiet | MoveType::KnightPromo | MoveType::BishopPromo | MoveType::RookPromo
            | MoveType::QueenPromo => to == pawn_step(c, from, 1) && empty.contains(to) && cm.contains(to),
            MoveType::Capture | MoveType::KnightPromoCapture | MoveType::BishopPromoCapture
            | MoveType::RookPromoCapture | MoveType::QueenPromoCapture => opp.contains(to) && cm.contains(to)
                && pawn_attacks(c, from, to),
            MoveType::EpCapture => match b.ep_target {
                Some(target) => target.0 == (1u64 << (to as u64)) && (cm.contains(to)
                    || cm.intersect(bits(ep_victim_bits(c, target.0))) != Set::<int>::empty())
                    && d.intersect(bits(ep_victim_bits(c, target.0))) == Set::<int>::empty(),
                None => false,
            },
            _ => false,
        },
        Piece::Knight => knight_attacks(from, to) && eoo.contains(to) && cm.contains(to),
        Piece::Bishop => bishop_set(from, occ).contains(to) && eoo.contains(to) && cm.contains(to),
        Piece::Rook => rook_set(from, occ).contains(to) && eoo.contains(to) && cm.contains(to),
        Piece::Queen => (rook_set(from, occ).contains(to) || bishop_set(from, occ).contains(to))
            && eoo.contains(to) && cm.contains(to),
        Piece::King => match mv.mv_type {
            MoveType::Quiet | MoveType::Capture => king_attacks(from, to) && eoo.contains(to)
                && !attack_mask(p, crate::bitboard::board_of(bits(occ).remove(from)), c.spec_opposite(), 0).contains(to),
            MoveType::KingCastle | MoveType::QueenCastle => b.check_number() == 0 && castling_legal(b, c, mv.mv_type),
            _ => false,
        },
        Piece::Empty => false,
    }
}

/// The move is legal on `b`: plausible, along its pin if the piece is pinned, by the king
/// in double check, and the piece reaches its to square.
pub open spec fn legal(b: Board, mv: DecodedMove) -> bool {
    let from = mv.from.0 as int;
    let to = mv.to.0 as int;
    let occ = b.occupied;
    let dir = direction(from, to);
    &&& pseudo_legal(b, mv)
    &&& (b.diag_pins().contains(from) ==> dir == MoveDirection::Diag && bishop_set(from, occ).contains(to)
        && b.diag_pins().contains(to))
    &&& (b.hv_pins().contains(from) ==> dir == MoveDirection::HV && rook_set(from, occ).contains(to)
        && b.hv_pins().contains(to))
    &&& !(b.check_number() >= 2 && b.pieces@[from].spec_piece() != Piece::King)
    &&& reaches(b, mv)
}

fn bit_in(mask: u64, sq: Square) -> (r: bool)
    requires
        sq.valid(),
    ensures
        r == bit_set(mask, sq.0 as int),
{
    let b = sq.to_bit();
    proof {
        lemma_bit_ops(mask, b.0);
        crate::bitboard::lemma_zero_iff_no_bits(mask & b.0);
        assert(bit_set(mask & b.0, sq.0 as int) == bit_set(mask, sq.0 as int));
    }
    mask & b.0 != 0
}

fn none_set(x: u64, a: u64, b: u64, c: u64) -> (r: bool)
    requires
        a < 64,
        b < 64,
        c < 64,
    ensures
        r == (!bit_set(x, a as int) && !bit_set(x, b as int) && !bit_set(x, c as int)),
{
    !bit_in(x, Square(a as usize)) && !bit_in(x, Square(b as usize)) && !bit_in(x, Square(c as usize))
}

impl Board {
    /// Whether `mv` is plausible here (see `pseudo_legal`). Castling is left to `is_legal`.
    pub fn is_pseudo_legal(&self, mv: &DecodedMove) -> (r: bool)
        requires
            mv.valid(),
        ensures
            r == pseudo_legal(*self, *mv),
    {
        let mv_direction = mv.move_direction();
        let current_color = self.current_color();
        let mv_type = mv.mv_type;
        if mv_direction == MoveDirection::Teleport {
            return false;
        }
        let from_figure = self.figures(mv.from);
        let from_piece = from_figure.piece();
        if from_figure == Figure::Empty || from_figure.piece_and_color().1 != current_color {
            return false;
        }
        let (to_piece, to_color) = self.figures(mv.to).piece_and_color();
        let to_is_empty = to_piece == Piece::Empty;
        if to_piece != Piece::Empty && to_color == current_color {
            return false;
        }
        let is_capture = mv_type.is_capture();
        if is_capture && to_is_empty && mv_type != MoveType::EpCapture {
            return false;
        }
        if !is_capture && !to_is_empty && mv_type != MoveType::EpCapture {
            return false;
        }
        if (mv_type == MoveType::EpCapture || mv_type.is_promotion()) && from_piece != Piece::Pawn {
            return false;
        }
        if to_piece == Piece::King {
            return false;
        }
        true
    }

    /// Whether `friendly` may castle to `side` (see `castling_legal`); false for any other
    /// move type.
    fn is_castling_legal(&self, friendly: Color, side: MoveType) -> (r: bool)
        requires
            self.movegen_ready(),
        ensures
            r == castling_legal(*self, friendly, side),
    {
        let occupied = self.occupied();
        let attackmask = self.get_attackmask();
        let (qr, kr, base): (bool, bool, u64) = match friendly {
            Color::White => (self.white_queen_castle(), self.white_king_castle(), 0),
            Color::Black => (self.black_queen_castle(), self.black_king_castle(), 56),
        };
        let ghost am = attack_mask(self.pieces@, self.occupied, self.current_color.spec_opposite(), 0);
        proof {
            assert(forall|t: int| #[trigger] bit_set(attackmask.0, t) == am.contains(t));
        }
        if qr && side == MoveType::QueenCastle && none_set(occupied.0, base + 1, base + 2, base + 3)
            && none_set(attackmask.0, base + 2, base + 3, base + 3) {
            return true;
        }
        if kr && side == MoveType::KingCastle && none_set(occupied.0, base + 5, base + 6, base + 6)
            && none_set(attackmask.0, base + 5, base + 6, base + 6) {
            return true;
        }
        false
    }
}

impl Board {
    /// Whether `mv` is legal here (see `legal`).
    #[verifier::rlimit(60)]
    pub fn is_legal(&self, mv: &DecodedMove) -> (r: bool)
        requires
            self.movegen_ready(),
            mv.valid(),
        ensures
            r == legal(*self, *mv),
    {
        let ghost p = self.pieces@;
        if !self.is_pseudo_legal(mv) {
            return false;
        }
        let to_bit = mv.to.to_bit();
        let from_bit = mv.from.to_bit();
        let from_figure = self.figures(mv.from);
        let occ = self.occupied();
        let rook_targets = crate::targets::get_rook_targets(mv.from, occ);
        let bishop_targets = crate::targets::get_bishop_targets(mv.from, occ);
        let (hv_pinmask, diag_pinmask) = self.get_pinmasks();
        let move_direction = mv.move_direction();
        if bit_in(diag_pinmask.0, mv.from) {
            if move_direction != MoveDirection::Diag {
                return false;
            }
            proof {
                lemma_bit_ops(bishop_targets.0, diag_pinmask.0);
            }
            if !bit_in(bishop_targets.0 & diag_pinmask.0, mv.to) {
                return false;
            }
        }
        if bit_in(hv_pinmask.0, mv.from) {
            if move_direction != MoveDirection::HV {
                return false;
            }
            proof {
                lemma_bit_ops(rook_targets.0, hv_pinmask.0);
            }
            if !bit_in(rook_targets.0 & hv_pinmask.0, mv.to) {
                return false;
            }
        }
        let check_count = self.get_check_counter();
        let checkmask = self.get_checkmask();
        let piece = from_figure.piece();
        if check_count >= 2 && piece != Piece::King {
            return false;
        }
        let color = self.current_color();
        let opponents = crate::moves::dest_board(self, color, false);
        let empty = crate::moves::dest_board(self, color, true);
        let cm = checkmask.0;
        proof {
            lemma_bit_ops(opponents, empty);
            lemma_bit_ops(opponents | empty, cm);
        }
        let eoo_cm = (opponents | empty) & cm;
        let ok = match piece {
            Piece::Pawn => match mv.mv_type {
                MoveType::DoubleMove => {
                    let two = crate::moves::pawn_step_bits(color, mv.from, 2);
                    let one = crate::moves::pawn_step_bits(color, mv.from, 1);
                    proof {
                        lemma_bit_ops(cm, empty);
                        lemma_bit_ops(empty, one);
                        crate::bitboard::lemma_zero_iff_no_bits(empty & one);
                        if two == to_bit.0 {
                            assert(bit_set(two, mv.to.0 as int));
                        }
                        if mv.to.0 as int == pawn_step(color, mv.from.0 as int, 2) {
                            assert forall|i: int| #[trigger] bit_set(two, i) == bit_set(to_bit.0, i) by {}
                            crate::bitboard::lemma_bits_injective(two, to_bit.0);
                        }
                        if empty & one != 0 {
                            let j = choose|j: int| bit_set(empty & one, j);
                            assert(j == pawn_step(color, mv.from.0 as int, 1));
                        }
                        if crate::moves::dest_squares(p, color, true).contains(pawn_step(color, mv.from.0 as int, 1)) {
                            assert(bit_set(empty & one, pawn_step(color, mv.from.0 as int, 1)));
                        }
                    }
                    let r = two == to_bit.0 && bit_in(cm & empty, mv.to) && empty & one != 0;
                    assert(r == reaches(*self, *mv));
                    r
                },
                MoveType::Quiet | MoveType::KnightPromo | MoveType::BishopPromo | MoveType::RookPromo
                | MoveType::QueenPromo => {
                    let one = crate::moves::pawn_step_bits(color, mv.from, 1);
                    proof {
                        lemma_bit_ops(one, empty);
                        lemma_bit_ops(one & empty, cm);
                        let x = one & empty & cm;
                        if x == to_bit.0 {
                            assert(bit_set(x, mv.to.0 as int));
                        }
                        if mv.to.0 as int == pawn_step(color, mv.from.0 as int, 1) && bit_set(empty, mv.to.0 as int) && bit_set(cm, mv.to.0 as int) {
                            assert forall|i: int| #[trigger] bit_set(x, i) == bit_set(to_bit.0, i) by {}
                            crate::bitboard::lemma_bits_injective(x, to_bit.0);
                        }
                    }
                    let r = one & empty & cm == to_bit.0;
                    assert(r == reaches(*self, *mv));
                    r
                },
                MoveType::Capture | MoveType::KnightPromoCapture | MoveType::BishopPromoCapture
                | MoveType::RookPromoCapture | MoveType::QueenPromoCapture => {
                    let w = crate::targets::pawn_attack_targets(color, mv.from).0;
                    proof {
                        lemma_bit_ops(w, opponents);
                        lemma_bit_ops(w & opponents, cm);
                    }
                    let r = bit_in(w & opponents & cm, mv.to);
                    assert(r == reaches(*self, *mv));
                    r
                },
                MoveType::EpCapture => match self.ep_target() {
                    Some(target) => {
                        let victim = match color.opposite() {
                            Color::White => target.0 << 8u64,
                            Color::Black => target.0 >> 8u64,
                        };
                        proof {
                            lemma_bit_ops(cm, victim);
                            lemma_bit_ops(diag_pinmask.0, victim);
                            crate::bitboard::lemma_zero_iff_no_bits(cm & victim);
                            crate::bitboard::lemma_zero_iff_no_bits(diag_pinmask.0 & victim);
                            let cv = checkmask@.intersect(bits(victim));
                            let dv = diag_pinmask@.intersect(bits(victim));
                            if cm & victim == 0 {
                                assert forall|i: int| !cv.contains(i) by {
                                    assert(!bit_set(cm & victim, i));
                                }
                                assert(cv =~= Set::<int>::empty());
                            } else {
                                let i = choose|i: int| bit_set(cm & victim, i);
                                assert(cv.contains(i));
                            }
                            if diag_pinmask.0 & victim == 0 {
                                assert forall|i: int| !dv.contains(i) by {
                                    assert(!bit_set(diag_pinmask.0 & victim, i));
                                }
                                assert(dv =~= Set::<int>::empty());
                            } else {
                                let i = choose|i: int| bit_set(diag_pinmask.0 & victim, i);
                                assert(dv.contains(i));
                            }
                        }
                        let r = target.0 == to_bit.0 && (bit_in(cm, mv.to) || cm & victim != 0) && diag_pinmask.0 & victim == 0;
                        assert(r == reaches(*self, *mv));
                        r
                    },
                    None => false,
                },
                _ => false,
            },
            Piece::Knight => {
                let k = crate::targets::knight_targets(mv.from).0;
                proof {
                    lemma_bit_ops(k, eoo_cm);
                }
                let r = bit_in(k & eoo_cm, mv.to);
                assert(r == reaches(*self, *mv));
                r
            },
            Piece::Bishop => {
                proof {
                    lemma_bit_ops(bishop_targets.0, eoo_cm);
                }
                let r = bit_in(bishop_targets.0 & eoo_cm, mv.to);
                assert(r == reaches(*self, *mv));
                r
            },
            Piece::Rook => {
                proof {
                    lemma_bit_ops(rook_targets.0, eoo_cm);
                }
                let r = bit_in(rook_targets.0 & eoo_cm, mv.to);
                assert(r == reaches(*self, *mv));
                r
            },
            Piece::Queen => {
                proof {
                    lemma_bit_ops(rook_targets.0, eoo_cm);
                    lemma_bit_ops(bishop_targets.0, eoo_cm);
                }
                let r = bit_in(rook_targets.0 & eoo_cm, mv.to) || bit_in(bishop_targets.0 & eoo_cm, mv.to);
                assert(r == reaches(*self, *mv));
                r
            },
            Piece::King => match mv.mv_type {
                MoveType::Quiet | MoveType::Capture => {
                    proof {
                        self.lemma_ready_kings_pub();
                        lemma_bit_ops(occ.0, !from_bit.0);
                        lemma_bit_ops(from_bit.0, from_bit.0);
                        crate::bitboard::lemma_board_of_bits(occ.0 & !from_bit.0, bits(occ.0).remove(mv.from.0 as int));
                    }
                    let attackmask = calculate_attackmask(self, Bitboard(occ.0 & !from_bit.0), color.opposite(), None);
                    let k = crate::targets::king_targets(mv.from).0;
                    proof {
                        assert(crate::masks::opt_bits(None) == 0u64);
                        lemma_bit_ops(opponents | empty, !attackmask.0);
                        lemma_bit_ops(attackmask.0, attackmask.0);
                        lemma_bit_ops(k, (opponents | empty) & !attackmask.0);
                    }
                    let r = bit_in(k & ((opponents | empty) & !attackmask.0), mv.to);
                    assert(r == reaches(*self, *mv));
                    r
                },
                MoveType::KingCastle | MoveType::QueenCastle => {
                    let r = check_count == 0 && self.is_castling_legal(color, mv.mv_type);
                    assert(r == reaches(*self, *mv));
                    r
                },
                _ => false,
            },
            Piece::Empty => false,
        };
        assert(ok == reaches(*self, *mv));
        ok
    }
}

} // verus!
