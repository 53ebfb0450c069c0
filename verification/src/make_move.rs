//! Making and taking back moves.
use crate::bitboard::{bit_set, lemma_single_bit, Bitboard};
use crate::board::{state_wf, Board, UnmakeInfo};
use crate::targets::pawn_dir;
use crate::types::{Color, DecodedMove, Figure, MoveType, Piece, Square};
use vstd::prelude::*;

verus! {

/// The piece a promotion move promotes to.
pub open spec fn promo_piece(t: MoveType) -> Piece {
    match t {
        MoveType::KnightPromo | MoveType::KnightPromoCapture => Piece::Knight,
        MoveType::BishopPromo | MoveType::BishopPromoCapture => Piece::Bishop,
        MoveType::RookPromo | MoveType::RookPromoCapture => Piece::Rook,
        _ => Piece::Queen,
    }
}

/// Rook from and to squares of a castling move of `color`.
pub open spec fn castle_rook(t: MoveType, color: Color) -> (int, int) {
    match (t, color) {
        (MoveType::KingCastle, Color::White) => (7, 5),
        (MoveType::KingCastle, Color::Black) => (63, 61),
        (MoveType::QueenCastle, Color::White) => (0, 3),
        _ => (56, 59),
    }
}

pub open spec fn is_castle(t: MoveType) -> bool {
    t == MoveType::KingCastle || t == MoveType::QueenCastle
}

/// The square of the pawn taken en passant by a pawn of `color` moving to `to`.
pub open spec fn ep_victim(to: int, color: Color) -> int {
    to - 8 * pawn_dir(color)
}

/// The figures after `mv` by `color`: captures the figure on the target square (and the
/// pawn behind it for en passant), moves the figure (promoted for promotions), and for
/// castling moves the rook when its square is occupied and its target square empty.
pub open spec fn pieces_after(p: Seq<Figure>, mv: DecodedMove, color: Color) -> Seq<Figure> {
    let from = mv.from.0 as int;
    let to = mv.to.0 as int;
    let fig = p[from];
    let p1 = p.update(to, Figure::Empty);
    let cap = ep_victim(to, color);
    let p2 = if mv.mv_type == MoveType::EpCapture && 0 <= cap < 64 && cap != from {
        p1.update(cap, Figure::Empty)
    } else {
        p1
    };
    let placed = if mv.mv_type.spec_is_promotion() {
        Figure::spec_new(fig.spec_color(), promo_piece(mv.mv_type))
    } else {
        fig
    };
    let p3 = p2.update(from, Figure::Empty).update(to, placed);
    let (rf, rt) = castle_rook(mv.mv_type, color);
    if is_castle(mv.mv_type) && p3[rf] != Figure::Empty && p3[rt] == Figure::Empty {
        p3.update(rf, Figure::Empty).update(rt, p3[rf])
    } else {
        p3
    }
}

/// Whether `mv` resets the halfmove clock: a pawn move or a capture.
pub open spec fn resets_clock(p: Seq<Figure>, mv: DecodedMove) -> bool {
    p[mv.from.0 as int].spec_piece() == Piece::Pawn || p[mv.to.0 as int] != Figure::Empty
        || mv.mv_type == MoveType::EpCapture
}

impl Board {
    /// Plays `mv` for the side to move. The move is not checked for legality; castling
    /// rights are lost when a king or rook square is left or entered; a double pawn move
    /// sets the en passant target to the square passed.
    pub fn make_move(&mut self, mv: &DecodedMove)
        requires
            old(self).wf(),
            mv.valid(),
            mv.from != mv.to,
            old(self).pieces@[mv.from.0 as int] != Figure::Empty,
            old(self).halfmove_clock < usize::MAX,
            old(self).total_halfmove_counter < usize::MAX,
        ensures
            final(self).wf(),
            final(self).pieces@ == pieces_after(old(self).pieces@, *mv, old(self).current_color),
            final(self).current_color == old(self).current_color.spec_opposite(),
            final(self).white_queen_castle == (old(self).white_queen_castle && mv.from.0 != 0
                && mv.to.0 != 0 && mv.from.0 != 4),
            final(self).white_king_castle == (old(self).white_king_castle && mv.from.0 != 7
                && mv.to.0 != 7 && mv.from.0 != 4),
            final(self).black_queen_castle == (old(self).black_queen_castle && mv.from.0 != 56
                && mv.to.0 != 56 && mv.from.0 != 60),
            final(self).black_king_castle == (old(self).black_king_castle && mv.from.0 != 63
                && mv.to.0 != 63 && mv.from.0 != 60),
            mv.mv_type == MoveType::DoubleMove ==> final(self).ep_target == Some(
                Bitboard(1u64 << (((mv.from.0 + mv.to.0) / 2) as u64)),
            ),
            mv.mv_type != MoveType::DoubleMove ==> final(self).ep_target is None,
            final(self).halfmove_clock == (if resets_clock(old(self).pieces@, *mv) {
                0
            } else {
                old(self).halfmove_clock + 1
            }),
            final(self).total_halfmove_counter == old(self).total_halfmove_counter + 1,
            final(self).history@ == old(self).history@.push(old(self).state()),
            final(self).repetition_stack@ == old(self).repetition_stack@.push(old(self).hash),
    {
        let color = self.current_color;
        let from = mv.from.0;
        let to = mv.to.0;
        let snapshot = UnmakeInfo {
            pieces: self.pieces,
            figure_bbs: self.figure_bbs,
            color_bbs: self.color_bbs,
            occupied: self.occupied,
            current_color: self.current_color,
            white_queen_castle: self.white_queen_castle,
            white_king_castle: self.white_king_castle,
            black_queen_castle: self.black_queen_castle,
            black_king_castle: self.black_king_castle,
            ep_target: self.ep_target,
            halfmove_clock: self.halfmove_clock,
            total_halfmove_counter: self.total_halfmove_counter,
            hash: self.hash,
        };
        proof {
            assert(snapshot == old(self).state());
            assert(state_wf(snapshot));
        }
        let fig = self.pieces[from];
        let resets = fig.piece() == Piece::Pawn || self.pieces[to] != Figure::Empty
            || mv.mv_type == MoveType::EpCapture;
        self.history.push(snapshot);
        self.repetition_stack.push(self.hash);
        proof {
            assert forall|i: int| 0 <= i < self.history@.len() implies state_wf(
                #[trigger] self.history@[i],
            ) by {
                if i < old(self).history@.len() {
                    assert(self.history@[i] == old(self).history@[i]);
                }
            }
        }
        self.move_pieces(mv, color);
        // castling rights, en passant target and side to move
        let wq = self.white_queen_castle && from != 0 && to != 0 && from != 4;
        let wk = self.white_king_castle && from != 7 && to != 7 && from != 4;
        let bq = self.black_queen_castle && from != 56 && to != 56 && from != 60;
        let bk = self.black_king_castle && from != 63 && to != 63 && from != 60;
        let ep = if mv.mv_type == MoveType::DoubleMove {
            let mid = (from + to) / 2;
            proof {
                lemma_single_bit(mid as u64);
            }
            Some(Bitboard(1u64 << (mid as u64)))
        } else {
            None
        };
        self.set_state(color.opposite(), wq, wk, bq, bk, ep);
        if resets {
            self.halfmove_clock = 0;
        } else {
            self.halfmove_clock = self.halfmove_clock + 1;
        }
        self.total_halfmove_counter = self.total_halfmove_counter + 1;
    }

    /// Empties square `sq`.
    fn clear_square(&mut self, sq: usize)
        requires
            old(self).wf(),
            sq < 64,
        ensures
            final(self).wf(),
            final(self).pieces@ == old(self).pieces@.update(sq as int, Figure::Empty),
            final(self).current_color == old(self).current_color,
            final(self).white_queen_castle == old(self).white_queen_castle,
            final(self).white_king_castle == old(self).white_king_castle,
            final(self).black_queen_castle == old(self).black_queen_castle,
            final(self).black_king_castle == old(self).black_king_castle,
            final(self).ep_target == old(self).ep_target,
            final(self).halfmove_clock == old(self).halfmove_clock,
            final(self).total_halfmove_counter == old(self).total_halfmove_counter,
            final(self).history == old(self).history,
            final(self).repetition_stack == old(self).repetition_stack,
    {
        if self.pieces[sq] != Figure::Empty {
            self.remove(sq);
        } else {
            assert(self.pieces@ =~= old(self).pieces@.update(sq as int, Figure::Empty));
        }
    }

    /// Moves the rook of a castling move when its square is occupied and its target empty.
    fn move_castle_rook(&mut self, t: MoveType, color: Color)
        requires
            old(self).wf(),
            is_castle(t),
        ensures
            final(self).wf(),
            ({
                let (rf, rt) = castle_rook(t, color);
                let p = old(self).pieces@;
                final(self).pieces@ == (if p[rf] != Figure::Empty && p[rt] == Figure::Empty {
                    p.update(rf, Figure::Empty).update(rt, p[rf])
                } else {
                    p
                })
            }),
            final(self).current_color == old(self).current_color,
            final(self).white_queen_castle == old(self).white_queen_castle,
            final(self).white_king_castle == old(self).white_king_castle,
            final(self).black_queen_castle == old(self).black_queen_castle,
            final(self).black_king_castle == old(self).black_king_castle,
            final(self).ep_target == old(self).ep_target,
            final(self).halfmove_clock == old(self).halfmove_clock,
            final(self).total_halfmove_counter == old(self).total_halfmove_counter,
            final(self).history == old(self).history,
            final(self).repetition_stack == old(self).repetition_stack,
    {
        let (rf, rt): (usize, usize) = match (t, color) {
            (MoveType::KingCastle, Color::White) => (7, 5),
            (MoveType::KingCastle, Color::Black) => (63, 61),
            (MoveType::QueenCastle, Color::White) => (0, 3),
            _ => (56, 59),
        };
        if self.pieces[rf] != Figure::Empty && self.pieces[rt] == Figure::Empty {
            let rook = self.remove(rf);
            self.put(rt, rook);
        }
    }

    /// The figure a move places on its target square.
    fn placed_figure(fig: Figure, t: MoveType) -> (r: Figure)
        requires
            fig != Figure::Empty,
        ensures
            r == (if t.spec_is_promotion() {
                Figure::spec_new(fig.spec_color(), promo_piece(t))
            } else {
                fig
            }),
            r != Figure::Empty,
    {
        if t.is_promotion() {
            let promo = match t {
                MoveType::KnightPromo | MoveType::KnightPromoCapture => Piece::Knight,
                MoveType::BishopPromo | MoveType::BishopPromoCapture => Piece::Bishop,
                MoveType::RookPromo | MoveType::RookPromoCapture => Piece::Rook,
                _ => Piece::Queen,
            };
            let (_, fc) = fig.piece_and_color();
            Figure::new(fc, promo)
        } else {
            fig
        }
    }

    /// Updates the figures for `mv` played by `color`.
    #[verifier::rlimit(30)]
    fn move_pieces(&mut self, mv: &DecodedMove, color: Color)
        requires
            old(self).wf(),
            mv.valid(),
            mv.from != mv.to,
            old(self).pieces@[mv.from.0 as int] != Figure::Empty,
        ensures
            final(self).wf(),
            final(self).pieces@ == pieces_after(old(self).pieces@, *mv, color),
            final(self).current_color == old(self).current_color,
            final(self).white_queen_castle == old(self).white_queen_castle,
            final(self).white_king_castle == old(self).white_king_castle,
            final(self).black_queen_castle == old(self).black_queen_castle,
            final(self).black_king_castle == old(self).black_king_castle,
            final(self).ep_target == old(self).ep_target,
            final(self).halfmove_clock == old(self).halfmove_clock,
            final(self).total_halfmove_counter == old(self).total_halfmove_counter,
            final(self).history == old(self).history,
            final(self).repetition_stack == old(self).repetition_stack,
    {
        let from = mv.from.0;
        let to = mv.to.0;
        let ghost p0 = self.pieces@;
        let fig = self.pieces[from];
        self.clear_square(to);
        let ghost p1 = self.pieces@;
        if mv.mv_type == MoveType::EpCapture {
            let cap: i64 = match color {
                Color::White => to as i64 - 8,
                Color::Black => to as i64 + 8,
            };
            if 0 <= cap && cap < 64 && cap as usize != from {
                self.clear_square(cap as usize);
            }
        }
        let ghost p2 = self.pieces@;
        assert(p2 == (if mv.mv_type == MoveType::EpCapture && 0 <= ep_victim(to as int, color) < 64
            && ep_victim(to as int, color) != from {
            p1.update(ep_victim(to as int, color), Figure::Empty)
        } else {
            p1
        }));
        self.remove(from);
        let placed = Self::placed_figure(fig, mv.mv_type);
        self.put(to, placed);
        let ghost p3 = self.pieces@;
        if mv.mv_type == MoveType::KingCastle || mv.mv_type == MoveType::QueenCastle {
            self.move_castle_rook(mv.mv_type, color);
        }
        proof {
            assert(self.pieces@ =~= pieces_after(p0, *mv, color));
        }
    }

    /// Takes back the last move made.
    pub fn unmake_move(&mut self)
        requires
            old(self).wf(),
            old(self).history@.len() > 0,
        ensures
            final(self).wf(),
            final(self).state() == old(self).history@.last(),
            final(self).history@ == old(self).history@.drop_last(),
            final(self).repetition_stack@ == (if old(self).repetition_stack@.len() > 0 {
                old(self).repetition_stack@.drop_last()
            } else {
                old(self).repetition_stack@
            }),
    {
        let st = self.history.pop().unwrap();
        if self.repetition_stack.len() > 0 {
            self.repetition_stack.pop();
        }
        self.pieces = st.pieces;
        self.figure_bbs = st.figure_bbs;
        self.color_bbs = st.color_bbs;
        self.occupied = st.occupied;
        self.current_color = st.current_color;
        self.white_queen_castle = st.white_queen_castle;
        self.white_king_castle = st.white_king_castle;
        self.black_queen_castle = st.black_queen_castle;
        self.black_king_castle = st.black_king_castle;
        self.ep_target = st.ep_target;
        self.halfmove_clock = st.halfmove_clock;
        self.total_halfmove_counter = st.total_halfmove_counter;
        self.hash = st.hash;
        proof {
            assert(st == old(self).history@[old(self).history@.len() - 1]);
            assert(state_wf(st));
            assert forall|s: int, f: int|
                0 <= s < 64 && 0 <= f < 12 implies (#[trigger] bit_set(self.figure_bbs@[f], s) <==> #[trigger] self.pieces@[s].idx()
                    == f) by {
                assert(bit_set(st.figure_bbs@[f], s) <==> st.pieces@[s].idx() == f);
            }
            assert forall|s: int| 0 <= s < 64 implies (#[trigger] bit_set(self.color_bbs@[0], s) <==> (self.pieces@[s]
                != Figure::Empty && self.pieces@[s].idx() % 2 == 0)) by {
                assert(bit_set(st.color_bbs@[0], s) <==> (st.pieces@[s] != Figure::Empty
                    && st.pieces@[s].idx() % 2 == 0));
            }
            assert forall|s: int| 0 <= s < 64 implies (#[trigger] bit_set(self.color_bbs@[1], s) <==> (self.pieces@[s]
                != Figure::Empty && self.pieces@[s].idx() % 2 == 1)) by {
                assert(bit_set(st.color_bbs@[1], s) <==> (st.pieces@[s] != Figure::Empty
                    && st.pieces@[s].idx() % 2 == 1));
            }
            assert forall|s: int| 0 <= s < 64 implies (#[trigger] bit_set(self.occupied, s) <==> self.pieces@[s]
                != Figure::Empty) by {
                assert(bit_set(st.occupied, s) <==> st.pieces@[s] != Figure::Empty);
            }
            assert forall|i: int| 0 <= i < self.history@.len() implies state_wf(
                #[trigger] self.history@[i],
            ) by {
                assert(self.history@[i] == old(self).history@[i]);
            }
        }
    }
}

/// Making a move and taking it back restores the position and the move history.
pub proof fn lemma_make_unmake(before: Board, after_make: Board, after_unmake: Board)
    requires
        after_make.history@ == before.history@.push(before.state()),
        after_unmake.state() == after_make.history@.last(),
        after_unmake.history@ == after_make.history@.drop_last(),
    ensures
        after_unmake.state() == before.state(),
        after_unmake.history@ == before.history@,
{
    assert(after_make.history@.drop_last() =~= before.history@);
}

} // verus!
