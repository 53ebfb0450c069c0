//! Ordering scores for the moves of a list: MVV-LVA for captures, promotion bonuses.
use crate::board::Board;
use crate::generator::sound_move;
use crate::move_picker::{MoveList, MoveListMove};
use crate::move_scoring::{calculate_mvv_lva_score, spec_mvv_lva};
use crate::types::{spec_decode, DecodedMove, Figure, MoveType, Piece};
use vstd::prelude::*;

verus! {

/// Added to every capture so that captures come before quiet promotions.
pub const CAPTURE_BONUS: i32 = 1024;

/// The piece index (pawn 0 ... king 5) of the figure on `s`.
pub open spec fn piece_on(b: Board, s: int) -> int {
    b.pieces@[s].idx() / 2
}

/// The piece index a promotion type promotes to.
pub open spec fn promo_index(t: MoveType) -> int {
    match t {
        MoveType::QueenPromo | MoveType::QueenPromoCapture => 4,
        MoveType::RookPromo | MoveType::RookPromoCapture => 3,
        MoveType::BishopPromo | MoveType::BishopPromoCapture => 2,
        _ => 1,
    }
}

/// The ordering score of a move: MVV-LVA plus the capture bonus for captures (a pawn taken
/// en passant), plus the value of a pawn capturing the promotion piece for promotions;
/// 0 for other moves.
pub open spec fn move_score(b: Board, d: DecodedMove) -> int {
    let attacker = piece_on(b, d.from.0 as int);
    let victim = piece_on(b, d.to.0 as int);
    match d.mv_type {
        MoveType::Capture => spec_mvv_lva(victim, attacker) + CAPTURE_BONUS,
        MoveType::EpCapture => spec_mvv_lva(0, attacker) + CAPTURE_BONUS,
        MoveType::QueenPromoCapture | MoveType::RookPromoCapture | MoveType::BishopPromoCapture
        | MoveType::KnightPromoCapture => spec_mvv_lva(victim, attacker) + CAPTURE_BONUS
            + spec_mvv_lva(promo_index(d.mv_type), 0),
        MoveType::QueenPromo | MoveType::RookPromo | MoveType::BishopPromo | MoveType::KnightPromo =>
            spec_mvv_lva(promo_index(d.mv_type), 0),
        _ => 0,
    }
}

/// Every move of the list passes `sound_move` on `b`.
pub open spec fn sound_list(b: Board, s: Seq<MoveListMove>) -> bool {
    forall|i: int| 0 <= i < s.len() ==> sound_move(b, (#[trigger] s[i]).mv.0)
}

fn piece_index_at(board: &Board, s: usize) -> (r: usize)
    requires
        s < 64,
        board.pieces@[s as int] != Figure::Empty,
    ensures
        r == piece_on(*board, s as int),
        r < 6,
{
    board.figures(crate::types::Square(s)).index() / 2
}

fn score_of(board: &Board, e: crate::types::EncodedMove) -> (r: i32)
    requires
        sound_move(*board, e.0),
    ensures
        r == move_score(*board, spec_decode(e.0)),
{
    let mv = e.decode();
    proof {
        crate::types::lemma_move_type_flags(mv.mv_type);
    }
    let from = mv.from.0;
    let to = mv.to.0;
    match mv.mv_type {
        MoveType::Capture => {
            calculate_mvv_lva_score(piece_index_at(board, to), piece_index_at(board, from)) + CAPTURE_BONUS
        },
        MoveType::EpCapture => calculate_mvv_lva_score(0, piece_index_at(board, from)) + CAPTURE_BONUS,
        MoveType::QueenPromoCapture => calculate_mvv_lva_score(piece_index_at(board, to), piece_index_at(board, from))
            + CAPTURE_BONUS + calculate_mvv_lva_score(4, 0),
        MoveType::RookPromoCapture => calculate_mvv_lva_score(piece_index_at(board, to), piece_index_at(board, from))
            + CAPTURE_BONUS + calculate_mvv_lva_score(3, 0),
        MoveType::BishopPromoCapture => calculate_mvv_lva_score(piece_index_at(board, to), piece_index_at(board, from))
            + CAPTURE_BONUS + calculate_mvv_lva_score(2, 0),
        MoveType::KnightPromoCapture => calculate_mvv_lva_score(piece_index_at(board, to), piece_index_at(board, from))
            + CAPTURE_BONUS + calculate_mvv_lva_score(1, 0),
        MoveType::QueenPromo => calculate_mvv_lva_score(4, 0),
        MoveType::RookPromo => calculate_mvv_lva_score(3, 0),
        MoveType::BishopPromo => calculate_mvv_lva_score(2, 0),
        MoveType::KnightPromo => calculate_mvv_lva_score(1, 0),
        _ => 0,
    }
}

/// Scores every move of the list by `move_score`: a pawn taking a queen comes before a rook
/// taking a queen.
pub fn mvv_lva(move_list: &mut MoveList, board: &Board)
    requires
        sound_list(*board, old(move_list).items()),
    ensures
        final(move_list).items().len() == old(move_list).items().len(),
        final(move_list).overflow == old(move_list).overflow,
        forall|i: int| 0 <= i < old(move_list).items().len() ==> (#[trigger] final(move_list).items()[i]).mv
            == old(move_list).items()[i].mv && final(move_list).items()[i].score == move_score(*board, spec_decode(old(move_list).items()[i].mv.0)),
{
    let ghost start = move_list.items();
    let n = move_list.len();
    let mut i: usize = 0;
    while i < n
        invariant
            n == start.len(),
            i <= n,
            move_list.items().len() == n,
            move_list.overflow == old(move_list).overflow,
            start == old(move_list).items(),
            sound_list(*board, start),
            forall|j: int| 0 <= j < n ==> (#[trigger] move_list.items()[j]).mv == start[j].mv,
            forall|j: int| 0 <= j < i ==> (#[trigger] move_list.items()[j]).score == move_score(*board, spec_decode(start[j].mv.0)),
        decreases n - i,
    {
        let entry = move_list.get(i);
        proof {
            assert(sound_move(*board, start[i as int].mv.0));
        }
        let score = score_of(board, entry.mv);
        move_list.set_score(i, score);
        i = i + 1;
    }
}

} // verus!
