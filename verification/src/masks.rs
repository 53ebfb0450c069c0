//! Attack masks, the check mask and the pin masks of a position.
use crate::bitboard::{
    bit_set, bits, lemma_bit_ops, lemma_pop_lsb, lemma_popcount_len, lemma_zero_iff_no_bits, Bit,
    Bitboard,
};
use crate::board::{is_lowest_king, Board};
use crate::targets::{
    bishop_set, get_bishop_targets, get_rook_targets, king_attacks, king_targets, knight_attacks,
    knight_targets, pawn_attack_targets, pawn_attacks, rook_set,
};
use crate::types::{Color, Figure, Piece, Square};
use vstd::prelude::*;

verus! {

/// Squares a `kind` piece of `color` on `s` attacks when `occ` is occupied.
pub open spec fn attack_set(kind: Piece, color: Color, s: int, occ: u64) -> Set<int> {
    match kind {
        Piece::Pawn => Set::new(|t: int| pawn_attacks(color, s, t)),
        Piece::Knight => Set::new(|t: int| knight_attacks(s, t)),
        Piece::Bishop => bishop_set(s, occ),
        Piece::Rook => rook_set(s, occ),
        Piece::Queen => bishop_set(s, occ) + rook_set(s, occ),
        Piece::King => Set::new(|t: int| king_attacks(s, t)),
        Piece::Empty => Set::empty(),
    }
}

/// Squares attacked by `kind` pieces of `color` standing on the squares of `b`.
pub open spec fn attacks_from_squares(b: u64, kind: Piece, color: Color, occ: u64) -> Set<int> {
    Set::new(
        |t: int| exists|s: int| bit_set(b, s) && #[trigger] attack_set(kind, color, s, occ).contains(t),
    )
}

/// The piece on `s` is of `color` and attacks `t`, with `occ` occupied. Pawns on the squares of
/// `removed` are left out; of several kings of one color only the lowest counts.
pub open spec fn attacks_square(
    p: Seq<Figure>,
    occ: u64,
    color: Color,
    removed: u64,
    s: int,
    t: int,
) -> bool {
    &&& 0 <= s < 64
    &&& p[s] != Figure::Empty
    &&& p[s].spec_color() == color
    &&& match p[s].spec_piece() {
        Piece::Pawn => !bit_set(removed, s) && pawn_attacks(color, s, t),
        Piece::King => is_lowest_king(p, color, s) && king_attacks(s, t),
        k => attack_set(k, color, s, occ).contains(t),
    }
}

/// The squares that pieces of `color` attack.
pub open spec fn attack_mask(p: Seq<Figure>, occ: u64, color: Color, removed: u64) -> Set<int> {
    Set::new(|t: int| exists|s: int| #[trigger] attacks_square(p, occ, color, removed, s, t))
}

/// Leaving pawns out only takes attacks away: the mask with pawns removed is part of the
/// full mask, and it differs only by squares some removed pawn attacks.
pub proof fn lemma_removed_pawns_subset(p: Seq<Figure>, occ: u64, color: Color, removed: u64)
    ensures
        attack_mask(p, occ, color, removed).subset_of(attack_mask(p, occ, color, 0)),
        forall|t: int| #[trigger] attack_mask(p, occ, color, 0).contains(t) && !attack_mask(p, occ, color, removed).contains(t)
            ==> exists|s: int| bit_set(removed, s) && 0 <= s < 64 && p[s] == Figure::spec_new(color, crate::types::Piece::Pawn)
                && pawn_attacks(color, s, t),
{
    assert forall|s: int| !#[trigger] bit_set(0u64, s) by {
        if 0 <= s < 64 {
            let u = s as u64;
            assert((0u64 >> u) & 1u64 == 0u64) by (bit_vector);
        }
    }
    assert forall|t: int| attack_mask(p, occ, color, removed).contains(t) implies attack_mask(p, occ, color, 0).contains(t) by {
        let s = choose|s: int| #[trigger] attacks_square(p, occ, color, removed, s, t);
        assert(attacks_square(p, occ, color, 0, s, t));
    }
    assert forall|t: int| #[trigger] attack_mask(p, occ, color, 0).contains(t) && !attack_mask(p, occ, color, removed).contains(t)
        implies exists|s: int| bit_set(removed, s) && 0 <= s < 64 && p[s] == Figure::spec_new(color, crate::types::Piece::Pawn)
            && pawn_attacks(color, s, t) by {
        let s = choose|s: int| #[trigger] attacks_square(p, occ, color, 0, s, t);
        assert(!attacks_square(p, occ, color, removed, s, t));
        p[s].lemma_figure_parts(color, crate::types::Piece::Pawn);
    }
}

/// The bits of an optional single-square board; none for `None`.
pub open spec fn opt_bits(b: Option<Bit>) -> u64 {
    match b {
        Some(x) => x.0,
        None => 0,
    }
}

/// Squares a `kind` piece of `color` on `square` attacks with `occupied` blocking.
pub fn piece_attacks(kind: Piece, color: Color, square: Square, occupied: Bitboard) -> (r: Bitboard)
    requires
        square.valid(),
    ensures
        bits(r.0) == attack_set(kind, color, square.0 as int, occupied.0),
{
    let ghost s = square.0 as int;
    match kind {
        Piece::Pawn => {
            let r = pawn_attack_targets(color, square);
            assert(bits(r.0) =~= attack_set(kind, color, s, occupied.0));
            r
        },
        Piece::Knight => {
            let r = knight_targets(square);
            assert(bits(r.0) =~= attack_set(kind, color, s, occupied.0));
            r
        },
        Piece::Bishop => get_bishop_targets(square, occupied),
        Piece::Rook => get_rook_targets(square, occupied),
        Piece::Queen => {
            let a = get_bishop_targets(square, occupied);
            let b = get_rook_targets(square, occupied);
            proof {
                lemma_bit_ops(a.0, b.0);
                assert(bits(a.0 | b.0) =~= bits(a.0) + bits(b.0));
            }
            Bitboard(a.0 | b.0)
        },
        Piece::King => {
            let r = king_targets(square);
            assert(bits(r.0) =~= attack_set(kind, color, s, occupied.0));
            r
        },
        Piece::Empty => {
            proof {
                lemma_zero_iff_no_bits(0);
                assert(bits(0) =~= attack_set(kind, color, s, occupied.0));
            }
            Bitboard(0)
        },
    }
}

/// Squares attacked by `kind` pieces of `color` on the squares of `from`.
pub fn attacks_of_squares(from: Bitboard, kind: Piece, color: Color, occupied: Bitboard) -> (r:
    Bitboard)
    ensures
        bits(r.0) == attacks_from_squares(from.0, kind, color, occupied.0),
{
    let mut rem: u64 = from.0;
    let mut acc: u64 = 0;
    proof {
        lemma_zero_iff_no_bits(0);
        assert(bits(acc) =~= Set::new(
            |t: int|
                exists|s: int|
                    bit_set(from.0, s) && !bit_set(rem, s) && #[trigger] attack_set(
                        kind,
                        color,
                        s,
                        occupied.0,
                    ).contains(t),
        ));
    }
    while rem != 0
        invariant
            forall|s: int| #[trigger] bit_set(rem, s) ==> bit_set(from.0, s),
            bits(acc) == Set::new(
                |t: int|
                    exists|s: int|
                        bit_set(from.0, s) && !bit_set(rem, s) && #[trigger] attack_set(
                            kind,
                            color,
                            s,
                            occupied.0,
                        ).contains(t),
            ),
        decreases rem,
    {
        proof {
            lemma_pop_lsb(rem);
        }
        let sq = rem.trailing_zeros();
        let a = piece_attacks(kind, color, Square(sq as usize), occupied);
        let next = rem & (rem - 1);
        proof {
            lemma_bit_ops(acc, a.0);
            let lhs = bits(acc | a.0);
            let rhs = Set::new(
                |t: int|
                    exists|s: int|
                        bit_set(from.0, s) && !bit_set(next, s) && #[trigger] attack_set(
                            kind,
                            color,
                            s,
                            occupied.0,
                        ).contains(t),
            );
            assert forall|t: int| lhs.contains(t) == rhs.contains(t) by {
                assert(lhs.contains(t) == (bit_set(acc, t) || bit_set(a.0, t)));
                if bit_set(a.0, t) {
                    assert(bits(a.0).contains(t));
                    assert(bit_set(from.0, sq as int) && !bit_set(next, sq as int)
                        && attack_set(kind, color, sq as int, occupied.0).contains(t));
                    assert(rhs.contains(t));
                }
                if bit_set(acc, t) {
                    assert(bits(acc).contains(t));
                    let s = choose|s: int|
                        bit_set(from.0, s) && !bit_set(rem, s) && #[trigger] attack_set(
                            kind,
                            color,
                            s,
                            occupied.0,
                        ).contains(t);
                    assert(!bit_set(next, s));
                    assert(rhs.contains(t));
                }
                if rhs.contains(t) {
                    let s = choose|s: int|
                        bit_set(from.0, s) && !bit_set(next, s) && #[trigger] attack_set(
                            kind,
                            color,
                            s,
                            occupied.0,
                        ).contains(t);
                    if s == sq as int {
                        assert(bits(a.0).contains(t));
                    } else {
                        assert(!bit_set(rem, s));
                        assert(bits(acc).contains(t));
                    }
                }
            }
            assert(lhs =~= rhs);
        }
        acc = acc | a.0;
        rem = next;
    }
    proof {
        lemma_zero_iff_no_bits(rem);
        assert(bits(acc) =~= attacks_from_squares(from.0, kind, color, occupied.0));
    }
    Bitboard(acc)
}

/// The squares that pieces of `attacker` attack with `occupied` blocking. A pawn on
/// `removed_pawn` is left out (it was just taken en passant).
pub fn calculate_attackmask(
    board: &Board,
    occupied: Bitboard,
    attacker: Color,
    removed_pawn: Option<Bit>,
) -> (r: Bitboard)
    requires
        board.wf(),
        board.has_king(attacker),
    ensures
        bits(r.0) == attack_mask(board.pieces@, occupied.0, attacker, opt_bits(removed_pawn)),
{
    let ghost p = board.pieces@;
    let ghost removed = opt_bits(removed_pawn);
    let all_pawns = board.figure_bb(attacker, Piece::Pawn);
    let pawns = match removed_pawn {
        Some(bit) => Bitboard(all_pawns.0 & !bit.0),
        None => all_pawns,
    };
    proof {
        lemma_bit_ops(all_pawns.0, !removed);
        lemma_bit_ops(removed, removed);
        lemma_zero_iff_no_bits(0);
        assert forall|s: int| #[trigger] bit_set(pawns.0, s) == (bit_set(all_pawns.0, s) && !bit_set(removed, s)) by {}
    }
    let knights = board.figure_bb(attacker, Piece::Knight);
    let bishops = board.figure_bb(attacker, Piece::Bishop);
    let rooks = board.figure_bb(attacker, Piece::Rook);
    let queens = board.figure_bb(attacker, Piece::Queen);
    let bq = Bitboard(bishops.0 | queens.0);
    let rq = Bitboard(rooks.0 | queens.0);
    proof {
        lemma_bit_ops(bishops.0, queens.0);
        lemma_bit_ops(rooks.0, queens.0);
    }
    let king = board.king_square(attacker);
    let a1 = attacks_of_squares(pawns, Piece::Pawn, attacker, occupied);
    let a2 = attacks_of_squares(knights, Piece::Knight, attacker, occupied);
    let a3 = attacks_of_squares(bq, Piece::Bishop, attacker, occupied);
    let a4 = attacks_of_squares(rq, Piece::Rook, attacker, occupied);
    let a5 = piece_attacks(Piece::King, attacker, king, occupied);
    let r = a1.0 | a2.0 | a3.0 | a4.0 | a5.0;
    proof {
        lemma_bit_ops(a1.0, a2.0);
        lemma_bit_ops(a1.0 | a2.0, a3.0);
        lemma_bit_ops(a1.0 | a2.0 | a3.0, a4.0);
        lemma_bit_ops(a1.0 | a2.0 | a3.0 | a4.0, a5.0);
        let m = attack_mask(p, occupied.0, attacker, removed);
        assert forall|t: int| bits(r).contains(t) implies m.contains(t) by {
            if bit_set(a1.0, t) {
                assert(bits(a1.0).contains(t));
                let s = choose|s: int| bit_set(pawns.0, s) && #[trigger] attack_set(Piece::Pawn, attacker, s, occupied.0).contains(t);
                p[s].lemma_figure_parts(attacker, Piece::Pawn);
                assert(attacks_square(p, occupied.0, attacker, removed, s, t));
            } else if bit_set(a2.0, t) {
                assert(bits(a2.0).contains(t));
                let s = choose|s: int| bit_set(knights.0, s) && #[trigger] attack_set(Piece::Knight, attacker, s, occupied.0).contains(t);
                p[s].lemma_figure_parts(attacker, Piece::Knight);
                assert(attacks_square(p, occupied.0, attacker, removed, s, t));
            } else if bit_set(a3.0, t) {
                assert(bits(a3.0).contains(t));
                let s = choose|s: int| bit_set(bq.0, s) && #[trigger] attack_set(Piece::Bishop, attacker, s, occupied.0).contains(t);
                p[s].lemma_figure_parts(attacker, Piece::Bishop);
                p[s].lemma_figure_parts(attacker, Piece::Queen);
                assert(attacks_square(p, occupied.0, attacker, removed, s, t));
            } else if bit_set(a4.0, t) {
                assert(bits(a4.0).contains(t));
                let s = choose|s: int| bit_set(rq.0, s) && #[trigger] attack_set(Piece::Rook, attacker, s, occupied.0).contains(t);
                p[s].lemma_figure_parts(attacker, Piece::Rook);
                p[s].lemma_figure_parts(attacker, Piece::Queen);
                assert(attacks_square(p, occupied.0, attacker, removed, s, t));
            } else {
                assert(bits(a5.0).contains(t));
                p[king.0 as int].lemma_figure_parts(attacker, Piece::King);
                assert(attacks_square(p, occupied.0, attacker, removed, king.0 as int, t));
            }
        }
        assert forall|t: int| m.contains(t) implies bits(r).contains(t) by {
            let s = choose|s: int| #[trigger] attacks_square(p, occupied.0, attacker, removed, s, t);
            p[s].lemma_figure_parts(attacker, p[s].spec_piece());
            match p[s].spec_piece() {
                Piece::Pawn => {
                    assert(bit_set(pawns.0, s));
                    assert(attack_set(Piece::Pawn, attacker, s, occupied.0).contains(t));
                    assert(attacks_from_squares(pawns.0, Piece::Pawn, attacker, occupied.0).contains(t));
                },
                Piece::Knight => {
                    assert(bit_set(knights.0, s));
                    assert(attack_set(Piece::Knight, attacker, s, occupied.0).contains(t));
                    assert(attacks_from_squares(knights.0, Piece::Knight, attacker, occupied.0).contains(t));
                },
                Piece::Bishop => {
                    assert(bit_set(bq.0, s));
                    assert(attack_set(Piece::Bishop, attacker, s, occupied.0).contains(t));
                    assert(attacks_from_squares(bq.0, Piece::Bishop, attacker, occupied.0).contains(t));
                },
                Piece::Rook => {
                    assert(bit_set(rq.0, s));
                    assert(attack_set(Piece::Rook, attacker, s, occupied.0).contains(t));
                    assert(attacks_from_squares(rq.0, Piece::Rook, attacker, occupied.0).contains(t));
                },
                Piece::Queen => {
                    assert(bit_set(bq.0, s));
                    assert(bit_set(rq.0, s));
                    if bishop_set(s, occupied.0).contains(t) {
                        assert(attack_set(Piece::Bishop, attacker, s, occupied.0).contains(t));
                        assert(attacks_from_squares(bq.0, Piece::Bishop, attacker, occupied.0).contains(t));
                    } else {
                        assert(attack_set(Piece::Rook, attacker, s, occupied.0).contains(t));
                        assert(attacks_from_squares(rq.0, Piece::Rook, attacker, occupied.0).contains(t));
                    }
                },
                Piece::King => {
                    if s < king.0 as int {
                        assert(p[s] != Figure::spec_new(attacker, Piece::King));
                    }
                    if (king.0 as int) < s {
                        assert(p[king.0 as int] != Figure::spec_new(attacker, Piece::King));
                    }
                    assert(s == king.0 as int);
                    assert(bits(a5.0).contains(t));
                },
                Piece::Empty => {},
            }
        }
        assert(bits(r) =~= m);
    }
    Bitboard(r)
}

/// The color of figure index `figure`: even indices are white.
pub open spec fn figure_color(figure: int) -> Color {
    if figure % 2 == 0 {
        Color::White
    } else {
        Color::Black
    }
}

/// The squares that pieces of figure index `figure` attack.
pub open spec fn figure_attacks(p: Seq<Figure>, occ: u64, figure: int, removed: u64) -> Set<int> {
    Set::new(
        |t: int|
            exists|s: int|
                p[s].idx() == figure && #[trigger] attacks_square(
                    p,
                    occ,
                    figure_color(figure),
                    removed,
                    s,
                    t,
                ),
    )
}

/// The squares that pieces of figure index `figure` attack, own pieces' squares left out.
pub open spec fn figure_attack_mask(p: Seq<Figure>, occ: u64, figure: int, removed: u64) -> Set<int> {
    Set::new(
        |t: int|
            figure_attacks(p, occ, figure, removed).contains(t) && !(p[t] != Figure::Empty
                && p[t].spec_color() == figure_color(figure)),
    )
}

/// The squares that pieces of figure index `figure` (0 to 11) attack with `occupied` blocking,
/// without the squares of their own color. A pawn on `removed_pawn` is left out.
pub fn calculate_attackmask_by_figure(
    board: &Board,
    occupied: Bitboard,
    figure: usize,
    removed_pawn: Option<Bit>,
) -> (r: Bitboard)
    requires
        board.wf(),
        figure < 12,
        figure >= 10 ==> board.has_king(figure_color(figure as int)),
    ensures
        bits(r.0) == figure_attack_mask(board.pieces@, occupied.0, figure as int, opt_bits(removed_pawn)),
{
    let ghost p = board.pieces@;
    let ghost removed = opt_bits(removed_pawn);
    let color = Color::from_usize(figure);
    let kind = Piece::from_index(figure / 2);
    assert(color == figure_color(figure as int));
    let own = board.color_bbs(color);
    let ghost raw = figure_attacks(p, occupied.0, figure as int, removed);
    let attacks = if figure >= 10 {
        let king = board.king_square(color);
        let a = piece_attacks(Piece::King, color, king, occupied);
        proof {
            assert forall|t: int| bits(a.0).contains(t) == raw.contains(t) by {
                p[king.0 as int].lemma_figure_parts(color, Piece::King);
                if bits(a.0).contains(t) {
                    assert(attacks_square(p, occupied.0, color, removed, king.0 as int, t));
                }
                if raw.contains(t) {
                    let s = choose|s: int|
                        p[s].idx() == figure && #[trigger] attacks_square(p, occupied.0, color, removed, s, t);
                    p[s].lemma_figure_parts(color, Piece::King);
                    if s < king.0 as int {
                        assert(p[s] != Figure::spec_new(color, Piece::King));
                    }
                    if (king.0 as int) < s {
                        assert(p[king.0 as int] != Figure::spec_new(color, Piece::King));
                    }
                }
            }
            assert(bits(a.0) =~= raw);
        }
        a
    } else {
        let figs = board.figure_bb_by_index(figure);
        let from = if figure < 2 {
            match removed_pawn {
                Some(bit) => Bitboard(figs.0 & !bit.0),
                None => figs,
            }
        } else {
            figs
        };
        proof {
            lemma_bit_ops(figs.0, !removed);
            lemma_bit_ops(removed, removed);
            lemma_zero_iff_no_bits(0);
            assert forall|s: int| #[trigger] bit_set(from.0, s) == (bit_set(figs.0, s) && (figure < 2
                ==> !bit_set(removed, s))) by {}
        }
        let a = attacks_of_squares(from, kind, color, occupied);
        proof {
            assert forall|t: int| bits(a.0).contains(t) == raw.contains(t) by {
                if bits(a.0).contains(t) {
                    let s = choose|s: int|
                        bit_set(from.0, s) && #[trigger] attack_set(kind, color, s, occupied.0).contains(t);
                    p[s].lemma_figure_parts(color, kind);
                    assert(attacks_square(p, occupied.0, color, removed, s, t));
                }
                if raw.contains(t) {
                    let s = choose|s: int|
                        p[s].idx() == figure && #[trigger] attacks_square(p, occupied.0, color, removed, s, t);
                    p[s].lemma_figure_parts(color, kind);
                    assert(bit_set(from.0, s));
                    assert(attack_set(kind, color, s, occupied.0).contains(t));
                }
            }
            assert(bits(a.0) =~= raw);
        }
        a
    };
    let r = attacks.0 & !own.0;
    proof {
        lemma_bit_ops(attacks.0, !own.0);
        lemma_bit_ops(own.0, own.0);
        assert(bits(r) =~= figure_attack_mask(p, occupied.0, figure as int, removed));
    }
    Bitboard(r)
}

/// Enemy pawns and knights that attack the king of `color` on `k`.
pub open spec fn leaper_checkers(p: Seq<Figure>, color: Color, k: int) -> Set<int> {
    let e = color.spec_opposite();
    Set::new(
        |s: int|
            0 <= s < 64 && ((pawn_attacks(color, k, s) && p[s] == Figure::spec_new(e, Piece::Pawn))
                || (knight_attacks(k, s) && p[s] == Figure::spec_new(e, Piece::Knight))),
    )
}

/// Enemy bishops, rooks and queens that attack the king of `color` on `k` along an open line.
pub open spec fn slider_checkers(p: Seq<Figure>, occ: u64, color: Color, k: int) -> Set<int> {
    let e = color.spec_opposite();
    Set::new(
        |s: int|
            (bishop_set(k, occ).contains(s) && (p[s] == Figure::spec_new(e, Piece::Bishop) || p[s]
                == Figure::spec_new(e, Piece::Queen))) || (rook_set(k, occ).contains(s) && (p[s]
                == Figure::spec_new(e, Piece::Rook) || p[s] == Figure::spec_new(e, Piece::Queen))),
    )
}

/// The squares a move must land on to answer the checks against the king of `color` on `k`:
/// the checking pieces and the squares between a sliding checker and the king; every
/// square when there is no check.
pub open spec fn check_mask(p: Seq<Figure>, occ: u64, color: Color, k: int) -> Set<int> {
    let l = leaper_checkers(p, color, k);
    let sl = slider_checkers(p, occ, color, k);
    if l == Set::<int>::empty() && sl == Set::<int>::empty() {
        Set::new(|s: int| 0 <= s < 64)
    } else {
        l + sl + Set::new(
            |t: int| exists|a: int| sl.contains(a) && #[trigger] crate::targets::between_set(k, a).contains(t),
        )
    }
}

/// The number of pieces giving check to the king of `color` on `k`.
pub open spec fn check_count(p: Seq<Figure>, occ: u64, color: Color, k: int) -> nat {
    leaper_checkers(p, color, k).len() + slider_checkers(p, occ, color, k).len()
}

/// The check mask and the number of checking pieces for the side to move.
/// The mask holds every square when the side to move is not in check.
pub fn calc_check_mask(board: &Board) -> (r: (Bitboard, usize))
    requires
        board.wf(),
        board.has_king(board.current_color),
    ensures
        bits(r.0.0) == check_mask(
            board.pieces@,
            board.occupied,
            board.current_color,
            crate::board::lowest_king_sq(board.pieces@, board.current_color),
        ),
        r.1 == check_count(
            board.pieces@,
            board.occupied,
            board.current_color,
            crate::board::lowest_king_sq(board.pieces@, board.current_color),
        ),
{
    let ghost p = board.pieces@;
    let friendly = board.current_color();
    let enemy = friendly.opposite();
    let occ = board.occupied();
    let king = board.king_square(friendly);
    let ghost k = king.0 as int;
    let enemy_pawns = board.figure_bb(enemy, Piece::Pawn);
    let enemy_knights = board.figure_bb(enemy, Piece::Knight);
    let enemy_bishops = board.figure_bb(enemy, Piece::Bishop);
    let enemy_rooks = board.figure_bb(enemy, Piece::Rook);
    let enemy_queens = board.figure_bb(enemy, Piece::Queen);
    let pt = pawn_attack_targets(friendly, king);
    let nt = knight_targets(king);
    let bt = get_bishop_targets(king, occ);
    let rt = get_rook_targets(king, occ);
    let leapers = (pt.0 & enemy_pawns.0) | (nt.0 & enemy_knights.0);
    let sliders = (bt.0 & (enemy_bishops.0 | enemy_queens.0)) | (rt.0 & (enemy_rooks.0
        | enemy_queens.0));
    let ghost l = leaper_checkers(p, friendly, k);
    let ghost sl = slider_checkers(p, board.occupied, friendly, k);
    proof {
        lemma_bit_ops(pt.0, enemy_pawns.0);
        lemma_bit_ops(nt.0, enemy_knights.0);
        lemma_bit_ops(pt.0 & enemy_pawns.0, nt.0 & enemy_knights.0);
        lemma_bit_ops(enemy_bishops.0, enemy_queens.0);
        lemma_bit_ops(enemy_rooks.0, enemy_queens.0);
        lemma_bit_ops(bt.0, enemy_bishops.0 | enemy_queens.0);
        lemma_bit_ops(rt.0, enemy_rooks.0 | enemy_queens.0);
        lemma_bit_ops(bt.0 & (enemy_bishops.0 | enemy_queens.0), rt.0 & (enemy_rooks.0 | enemy_queens.0));
        lemma_bit_ops(leapers, sliders);
        assert(bits(leapers) =~= l);
        assert forall|s: int| bits(sliders).contains(s) == sl.contains(s) by {
            assert(bits(bt.0).contains(s) == bishop_set(k, occ.0).contains(s));
            assert(bits(rt.0).contains(s) == rook_set(k, occ.0).contains(s));
        }
        assert(bits(sliders) =~= sl);
        lemma_popcount_len(leapers);
        lemma_popcount_len(sliders);
        lemma_zero_iff_no_bits(leapers | sliders);
        lemma_zero_iff_no_bits(0);
    }
    if leapers | sliders == 0 {
        proof {
            assert forall|s: int| !l.contains(s) by {
                assert(!bit_set(leapers | sliders, s));
            }
            assert forall|s: int| !sl.contains(s) by {
                assert(!bit_set(leapers | sliders, s));
            }
            assert(l =~= Set::<int>::empty());
            assert(sl =~= Set::<int>::empty());
            assert(bits(0xffff_ffff_ffff_ffffu64) =~= Set::new(|s: int| 0 <= s < 64)) by {
                assert forall|s: int| 0 <= s < 64 implies bit_set(0xffff_ffff_ffff_ffffu64, s) by {
                    let ss = s as u64;
                    assert((0xffff_ffff_ffff_ffffu64 >> ss) & 1u64 == 1u64) by (bit_vector)
                        requires ss < 64;
                }
            }
        }
        return (Bitboard(0xffff_ffff_ffff_ffff), 0);
    }
    proof {
        crate::bitboard::lemma_count_bits_below_le(leapers, 64);
        crate::bitboard::lemma_count_bits_below_le(sliders, 64);
        let i = choose|i: int| bit_set(leapers | sliders, i);
        if bit_set(leapers, i) {
            assert(l.contains(i));
        } else {
            assert(sl.contains(i));
        }
    }
    let count = crate::bitboard::count_ones(leapers) as usize + crate::bitboard::count_ones(sliders) as usize;
    let mut rem: u64 = sliders;
    let mut acc: u64 = leapers | sliders;
    while rem != 0
        invariant
            king.valid(),
            king.0 as int == k,
            forall|a: int| #[trigger] bit_set(rem, a) ==> bit_set(sliders, a),
            bits(sliders) == sl,
            bits(acc) == l + sl + Set::new(
                |t: int|
                    exists|a: int|
                        bit_set(sliders, a) && !bit_set(rem, a) && #[trigger] crate::targets::between_set(
                            k,
                            a,
                        ).contains(t),
            ),
        decreases rem,
    {
        proof {
            lemma_pop_lsb(rem);
        }
        let a = rem.trailing_zeros();
        let b = crate::targets::in_between(king, Square(a as usize));
        let next = rem & (rem - 1);
        proof {
            lemma_bit_ops(acc, b.0);
            let old_rest = Set::new(
                |t: int|
                    exists|x: int|
                        bit_set(sliders, x) && !bit_set(rem, x) && #[trigger] crate::targets::between_set(
                            k,
                            x,
                        ).contains(t),
            );
            let new_rest = Set::new(
                |t: int|
                    exists|x: int|
                        bit_set(sliders, x) && !bit_set(next, x) && #[trigger] crate::targets::between_set(
                            k,
                            x,
                        ).contains(t),
            );
            assert forall|t: int| new_rest.contains(t) == (old_rest.contains(t) || bits(b.0).contains(t)) by {
                if bits(b.0).contains(t) {
                    assert(bit_set(sliders, a as int) && !bit_set(next, a as int)
                        && crate::targets::between_set(k, a as int).contains(t));
                }
                if old_rest.contains(t) {
                    let x = choose|x: int|
                        bit_set(sliders, x) && !bit_set(rem, x) && #[trigger] crate::targets::between_set(
                            k,
                            x,
                        ).contains(t);
                    assert(!bit_set(next, x));
                }
                if new_rest.contains(t) {
                    let x = choose|x: int|
                        bit_set(sliders, x) && !bit_set(next, x) && #[trigger] crate::targets::between_set(
                            k,
                            x,
                        ).contains(t);
                    if x != a as int {
                        assert(!bit_set(rem, x));
                    }
                }
            }
            assert forall|t: int| bits(acc | b.0).contains(t) == (l + sl + new_rest).contains(t) by {
                assert(bits(acc | b.0).contains(t) == (bits(acc).contains(t) || bits(b.0).contains(t)));
            }
            assert(bits(acc | b.0) =~= l + sl + new_rest);
        }
        acc = acc | b.0;
        rem = next;
    }
    proof {
        lemma_zero_iff_no_bits(rem);
        assert(bits(acc) =~= check_mask(p, board.occupied, friendly, k));
    }
    (Bitboard(acc), count)
}

/// The board of `occ` with the squares of `lift` toggled.
pub open spec fn toggled(occ: u64, lift: Set<int>) -> u64 {
    crate::bitboard::board_of(Set::new(|i: int| bit_set(occ, i) != lift.contains(i)))
}

/// Squares a slider on `sq` (a rook when `rook`, else a bishop) sees once the pieces of
/// `blockers` it hits are lifted, without the squares it saw before.
pub open spec fn xray_set(rook: bool, sq: int, occ: u64, blockers: u64) -> Set<int> {
    let t = if rook { rook_set(sq, occ) } else { bishop_set(sq, occ) };
    let lifted = toggled(occ, t.intersect(bits(blockers)));
    let t2 = if rook { rook_set(sq, lifted) } else { bishop_set(sq, lifted) };
    t.difference(t2) + t2.difference(t)
}

fn xray_targets(rook: bool, square: Square, occ: Bitboard, blockers: Bitboard) -> (r: Bitboard)
    requires
        square.valid(),
    ensures
        bits(r.0) == xray_set(rook, square.0 as int, occ.0, blockers.0),
{
    let t = if rook {
        get_rook_targets(square, occ)
    } else {
        get_bishop_targets(square, occ)
    };
    let lifted = occ.0 ^ (t.0 & blockers.0);
    proof {
        lemma_bit_ops(t.0, blockers.0);
        lemma_bit_ops(occ.0, t.0 & blockers.0);
        let f = Set::new(|i: int| bit_set(occ.0, i) != bits(t.0).intersect(bits(blockers.0)).contains(i));
        assert forall|i: int| #[trigger] bit_set(lifted, i) == (0 <= i < 64 && f.contains(i)) by {}
        crate::bitboard::lemma_board_of_bits(lifted, f);
    }
    let t2 = if rook {
        get_rook_targets(square, Bitboard(lifted))
    } else {
        get_bishop_targets(square, Bitboard(lifted))
    };
    proof {
        lemma_bit_ops(t.0, t2.0);
        assert(bits(t.0 ^ t2.0) =~= xray_set(rook, square.0 as int, occ.0, blockers.0));
    }
    Bitboard(t.0 ^ t2.0)
}

/// Squares a rook on `square` sees through the pieces of `blockers` it hits first.
fn get_rook_xray_targets(square: Square, occ: Bitboard, blockers: Bitboard) -> (r: Bitboard)
    requires
        square.valid(),
    ensures
        bits(r.0) == xray_set(true, square.0 as int, occ.0, blockers.0),
{
    xray_targets(true, square, occ, blockers)
}

/// Squares a bishop on `square` sees through the pieces of `blockers` it hits first.
fn get_bishop_xray_targets(square: Square, occ: Bitboard, blockers: Bitboard) -> (r: Bitboard)
    requires
        square.valid(),
    ensures
        bits(r.0) == xray_set(false, square.0 as int, occ.0, blockers.0),
{
    xray_targets(false, square, occ, blockers)
}

/// The squares of the pieces of `color`.
pub open spec fn color_board(p: Seq<Figure>, color: Color) -> u64 {
    crate::bitboard::board_of(Set::new(|s: int| p[s] != Figure::Empty && p[s].spec_color() == color))
}

/// Enemy sliders (rooks and queens when `rook`, else bishops and queens) that would attack the
/// king of `color` on `k` if one friendly piece in between were lifted.
pub open spec fn pinners(p: Seq<Figure>, occ: u64, color: Color, k: int, rook: bool) -> Set<int> {
    let e = color.spec_opposite();
    let kind = if rook { Piece::Rook } else { Piece::Bishop };
    xray_set(rook, k, occ, color_board(p, color)).filter(
        |s: int| p[s] == Figure::spec_new(e, kind) || p[s] == Figure::spec_new(e, Piece::Queen),
    )
}

/// `t` is `a` or lies between `a` and `k`.
pub open spec fn on_ray_to(a: int, k: int, t: int) -> bool {
    t == a || crate::targets::between_set(a, k).contains(t)
}

/// Each square of `from` together with the squares between it and `k`.
pub open spec fn rays_to(from: Set<int>, k: int) -> Set<int> {
    Set::new(|t: int| exists|a: int| from.contains(a) && #[trigger] on_ray_to(a, k, t))
}

fn rays_to_king(sliders: u64, king: Square) -> (r: u64)
    requires
        king.valid(),
    ensures
        bits(r) == rays_to(bits(sliders), king.0 as int),
{
    let ghost k = king.0 as int;
    let mut rem: u64 = sliders;
    let mut acc: u64 = 0;
    proof {
        lemma_zero_iff_no_bits(0);
        assert(bits(acc) =~= rays_to(bits(sliders).difference(bits(rem)), k));
    }
    while rem != 0
        invariant
            king.valid(),
            king.0 as int == k,
            forall|a: int| #[trigger] bit_set(rem, a) ==> bit_set(sliders, a),
            bits(acc) == rays_to(bits(sliders).difference(bits(rem)), k),
        decreases rem,
    {
        proof {
            lemma_pop_lsb(rem);
        }
        let a = rem.trailing_zeros();
        let b = crate::targets::in_between(Square(a as usize), king);
        let next = rem & (rem - 1);
        let add = b.0 | (1u64 << (a as u64));
        proof {
            crate::bitboard::lemma_single_bit(a as u64);
            lemma_bit_ops(b.0, 1u64 << (a as u64));
            lemma_bit_ops(acc, add);
            let old_from = bits(sliders).difference(bits(rem));
            let new_from = bits(sliders).difference(bits(next));
            assert(new_from =~= old_from.insert(a as int));
            assert forall|t: int| bits(acc | add).contains(t) == rays_to(new_from, k).contains(t) by {
                if bit_set(add, t) {
                    assert(new_from.contains(a as int) && on_ray_to(a as int, k, t));
                }
                if rays_to(old_from, k).contains(t) {
                    let x = choose|x: int| old_from.contains(x) && #[trigger] on_ray_to(x, k, t);
                    assert(new_from.contains(x));
                }
                if rays_to(new_from, k).contains(t) {
                    let x = choose|x: int| new_from.contains(x) && #[trigger] on_ray_to(x, k, t);
                    if x != a as int {
                        assert(old_from.contains(x));
                        assert(rays_to(old_from, k).contains(t));
                    } else {
                        assert(bit_set(add, t));
                    }
                }
            }
            assert(bits(acc | add) =~= rays_to(new_from, k));
        }
        acc = acc | add;
        rem = next;
    }
    proof {
        lemma_zero_iff_no_bits(rem);
        assert(bits(sliders).difference(bits(rem)) =~= bits(sliders));
    }
    acc
}

/// The squares of orthogonal pins (first) and diagonal pins (second) against the king of
/// the side to move: each pinning piece and the squares between it and the king.
pub fn generate_pin_masks(board: &Board) -> (r: (Bitboard, Bitboard))
    requires
        board.wf(),
        board.has_king(board.current_color),
    ensures
        bits(r.0.0) == rays_to(
            pinners(
                board.pieces@,
                board.occupied,
                board.current_color,
                crate::board::lowest_king_sq(board.pieces@, board.current_color),
                true,
            ),
            crate::board::lowest_king_sq(board.pieces@, board.current_color),
        ),
        bits(r.1.0) == rays_to(
            pinners(
                board.pieces@,
                board.occupied,
                board.current_color,
                crate::board::lowest_king_sq(board.pieces@, board.current_color),
                false,
            ),
            crate::board::lowest_king_sq(board.pieces@, board.current_color),
        ),
{
    let ghost p = board.pieces@;
    let friendly = board.current_color();
    let enemy = friendly.opposite();
    let king = board.king_square(friendly);
    let occ = board.occupied();
    let friendly_bb = board.color_bbs(friendly);
    proof {
        crate::bitboard::lemma_board_of_bits(
            friendly_bb.0,
            Set::new(|s: int| p[s] != Figure::Empty && p[s].spec_color() == friendly),
        );
    }
    let er = board.figure_bb(enemy, Piece::Rook);
    let eb = board.figure_bb(enemy, Piece::Bishop);
    let eq = board.figure_bb(enemy, Piece::Queen);
    let enemy_rq = er.0 | eq.0;
    let enemy_bq = eb.0 | eq.0;
    let xr = get_rook_xray_targets(king, occ, friendly_bb);
    let xb = get_bishop_xray_targets(king, occ, friendly_bb);
    let hv = xr.0 & enemy_rq;
    let diag = xb.0 & enemy_bq;
    proof {
        lemma_bit_ops(er.0, eq.0);
        lemma_bit_ops(eb.0, eq.0);
        lemma_bit_ops(xr.0, enemy_rq);
        lemma_bit_ops(xb.0, enemy_bq);
        assert(bits(hv) =~= pinners(p, board.occupied, friendly, king.0 as int, true));
        assert(bits(diag) =~= pinners(p, board.occupied, friendly, king.0 as int, false));
    }
    let pin_hv = rays_to_king(hv, king);
    let pin_diag = rays_to_king(diag, king);
    (Bitboard(pin_hv), Bitboard(pin_diag))
}

/// The row or column `v` clamped to the board.
pub open spec fn clamp7(v: int) -> int {
    if v < 0 {
        0
    } else if v > 7 {
        7
    } else {
        v
    }
}

/// `v` is `c` or a neighbour of `c`, clamped to the board.
pub open spec fn near(v: int, c: int) -> bool {
    v == c || v == clamp7(c - 1) || v == clamp7(c + 1)
}

/// The 3x3 block of squares around the king on (`kx`, `ky`), clamped to the board.
pub open spec fn king_block(kx: int, ky: int, s: int) -> bool {
    0 <= s < 64 && near(crate::targets::sx(s), kx) && near(crate::targets::sy(s), ky)
}

/// The king zone: the block around the king and the same block one rank toward the center.
pub open spec fn king_zone(k: int) -> Set<int> {
    let kx = crate::targets::sx(k);
    let ky = crate::targets::sy(k);
    Set::new(
        |s: int|
            0 <= s < 64 && (king_block(kx, ky, s) || (if ky <= 3 {
                king_block(kx, ky, s - 8)
            } else {
                king_block(kx, ky, s + 8)
            })),
    )
}

fn near_exec(v: usize, c: usize) -> (r: bool)
    requires
        v < 8,
        c < 8,
    ensures
        r == near(v as int, c as int),
{
    let lo = if c == 0 {
        0
    } else {
        c - 1
    };
    let hi = if c == 7 {
        7
    } else {
        c + 1
    };
    v == c || v == lo || v == hi
}

fn in_block(kx: usize, ky: usize, s: i64) -> (r: bool)
    requires
        kx < 8,
        ky < 8,
        -8 <= s < 72,
    ensures
        r == king_block(kx as int, ky as int, s as int),
{
    if s < 0 || s >= 64 {
        return false;
    }
    let u = s as usize;
    near_exec(u % 8, kx) && near_exec(u / 8, ky)
}

/// The king zone of `color`: the squares around its king and the same squares one rank
/// toward the center of the board.
pub fn king_safety_mask(board: &Board, color: Color) -> (r: Bitboard)
    requires
        board.wf(),
        board.has_king(color),
    ensures
        bits(r.0) == king_zone(crate::board::lowest_king_sq(board.pieces@, color)),
{
    let king = board.king_square(color);
    let kx = king.0 % 8;
    let ky = king.0 / 8;
    let ghost zone = king_zone(king.0 as int);
    let mut mask: u64 = 0;
    let mut i: u64 = 0;
    proof {
        lemma_zero_iff_no_bits(0);
    }
    while i < 64
        invariant
            i <= 64,
            kx < 8,
            ky < 8,
            kx == crate::targets::sx(king.0 as int),
            ky == crate::targets::sy(king.0 as int),
            zone == king_zone(king.0 as int),
            forall|j: int| #[trigger] bit_set(mask, j) == (0 <= j < i && zone.contains(j)),
        decreases 64 - i,
    {
        let s = i as i64;
        let shifted = if ky <= 3 {
            s - 8
        } else {
            s + 8
        };
        let inside = in_block(kx, ky, s) || in_block(kx, ky, shifted);
        if inside {
            proof {
                crate::bitboard::lemma_single_bit(i);
                lemma_bit_ops(mask, 1u64 << i);
            }
            mask = mask | (1u64 << i);
        }
        i = i + 1;
    }
    proof {
        assert(bits(mask) =~= zone);
    }
    Bitboard(mask)
}

/// The squares of pieces of `color` that attack `to`: leapers by their own pattern, sliders
/// seen from `to` along open lines.
pub open spec fn attackers_to(p: Seq<Figure>, occ: u64, color: Color, to: int) -> Set<int> {
    Set::new(
        |s: int|
            0 <= s < 64 && p[s] != Figure::Empty && p[s].spec_color() == color && match p[s].spec_piece() {
                Piece::Pawn => pawn_attacks(color, s, to),
                Piece::Knight => knight_attacks(s, to),
                Piece::King => king_attacks(s, to),
                Piece::Bishop => bishop_set(to, occ).contains(s),
                Piece::Rook => rook_set(to, occ).contains(s),
                Piece::Queen => bishop_set(to, occ).contains(s) || rook_set(to, occ).contains(s),
                Piece::Empty => false,
            },
    )
}

impl Board {
    /// The squares of all pieces of `attacker` that attack `to`.
    pub fn get_all_attackers_to(&self, to: Square, attacker: Color) -> (r: Bitboard)
        requires
            self.wf(),
            to.valid(),
        ensures
            bits(r.0) == attackers_to(self.pieces@, self.occupied, attacker, to.0 as int),
    {
        let ghost p = self.pieces@;
        let occ = self.occupied();
        let pawns = self.figure_bb(attacker, Piece::Pawn).0;
        let knights = self.figure_bb(attacker, Piece::Knight).0;
        let kings = self.figure_bb(attacker, Piece::King).0;
        let bb = self.figure_bb(attacker, Piece::Bishop).0;
        let qq = self.figure_bb(attacker, Piece::Queen).0;
        let rr = self.figure_bb(attacker, Piece::Rook).0;
        let bq = bb | qq;
        let rq = rr | qq;
        let pt = pawn_attack_targets(attacker.opposite(), to).0;
        let nt = knight_targets(to).0;
        let kt = king_targets(to).0;
        let bt = get_bishop_targets(to, occ).0;
        let rt = get_rook_targets(to, occ).0;
        let r = (pt & pawns) | (nt & knights) | (kt & kings) | (bt & bq) | (rt & rq);
        proof {
            lemma_bit_ops(bb, qq);
            lemma_bit_ops(rr, qq);
            lemma_bit_ops(pt, pawns);
            lemma_bit_ops(nt, knights);
            lemma_bit_ops(kt, kings);
            lemma_bit_ops(bt, bq);
            lemma_bit_ops(rt, rq);
            lemma_bit_ops(pt & pawns, nt & knights);
            lemma_bit_ops((pt & pawns) | (nt & knights), kt & kings);
            lemma_bit_ops((pt & pawns) | (nt & knights) | (kt & kings), bt & bq);
            lemma_bit_ops((pt & pawns) | (nt & knights) | (kt & kings) | (bt & bq), rt & rq);
            let a = attackers_to(p, occ.0, attacker, to.0 as int);
            assert forall|s: int| bits(r).contains(s) == a.contains(s) by {
                if 0 <= s < 64 {
                    p[s].lemma_figure_parts(attacker, p[s].spec_piece());
                    p[s].lemma_figure_parts(attacker, Piece::Pawn);
                    p[s].lemma_figure_parts(attacker, Piece::Knight);
                    p[s].lemma_figure_parts(attacker, Piece::King);
                    p[s].lemma_figure_parts(attacker, Piece::Bishop);
                    p[s].lemma_figure_parts(attacker, Piece::Rook);
                    p[s].lemma_figure_parts(attacker, Piece::Queen);
                    assert(bits(bt).contains(s) == bishop_set(to.0 as int, occ.0).contains(s));
                    assert(bits(rt).contains(s) == rook_set(to.0 as int, occ.0).contains(s));
                }
            }
            assert(bits(r) =~= a);
        }
        Bitboard(r)
    }
}

} // verus!
