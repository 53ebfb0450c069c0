//! Static evaluation: tapered piece-square tables plus mobility, rooks on open files, pawn
//! structure, the bishop pair, king safety and the side to move's initiative.
use crate::bitboard::{bit_set, bits, lemma_bit_ops, lemma_popcount_len, Bitboard};
use crate::board::{lowest_king_sq, Board};
use crate::eval_tables::{
    eg_base, eg_base_table, eg_king_safety, eg_king_safety_table, eg_passed, eg_passed_table, mg_base,
    mg_base_table, mg_king_safety, mg_king_safety_table, mg_passed, mg_passed_table,
};
use crate::masks::{calculate_attackmask_by_figure, figure_attack_mask, king_safety_mask, king_zone};
use crate::moves::squares_of;
use crate::targets::{iabs, sx, sy};
use crate::types::{Color, Figure, Piece, Square};
use vstd::prelude::*;

verus! {

/// The sum of `f(s)` over `s` below `n`.
pub open spec fn sum_to(f: spec_fn(int) -> int, n: nat) -> int
    decreases n,
{
    if n == 0 {
        0
    } else {
        sum_to(f, (n - 1) as nat) + f(n - 1)
    }
}

pub proof fn lemma_sum_bound(f: spec_fn(int) -> int, n: nat, k: int)
    requires
        forall|s: int| 0 <= s < n ==> -k <= #[trigger] f(s) <= k,
    ensures
        -k * n <= sum_to(f, n) <= k * n,
    decreases n,
{
    if n > 0 {
        lemma_sum_bound(f, (n - 1) as nat, k);
        assert(-k * n == -k * (n - 1) - k) by (nonlinear_arith);
        assert(k * n == k * (n - 1) + k) by (nonlinear_arith);
    }
}

/// Middlegame material value of a piece index.
pub open spec fn mg_piece_value(piece: int) -> int {
    seq![82int, 337, 365, 477, 1025, 0][piece]
}

/// Endgame material value of a piece index.
pub open spec fn eg_piece_value(piece: int) -> int {
    seq![94int, 281, 297, 512, 936, 0][piece]
}

/// The square seen from the other side of the board: a1 and a8 swap, e4 and e5 swap.
pub open spec fn flip(sq: int) -> int {
    (7 - sq / 8) * 8 + sq % 8
}

/// The piece-square value of figure index `fig` on `sq`: material plus the offset, the
/// tables being laid out from black's side.
pub open spec fn pst(mg: bool, fig: int, sq: int) -> int {
    let piece = fig / 2;
    let at = piece * 64 + if fig % 2 == 0 {
        flip(sq)
    } else {
        sq
    };
    if mg {
        mg_piece_value(piece) + mg_base_table()[at]
    } else {
        eg_piece_value(piece) + eg_base_table()[at]
    }
}

/// In the endgame table every pawn file rises from the second to the seventh rank: the
/// row one step from promotion beats every row from the pawn's start up to its sixth rank.
proof fn lemma_eg_pawn_rows()
    ensures
        forall|x: int, r: int|
            0 <= x < 8 && 1 <= r <= 5 ==> eg_base_table()[8 + x] > #[trigger] eg_base_table()[(7 - r) * 8 + x],
{
    assert(eg_base_table()[8] == 178);
    assert(eg_base_table()[9] == 173);
    assert(eg_base_table()[10] == 158);
    assert(eg_base_table()[11] == 134);
    assert(eg_base_table()[12] == 147);
    assert(eg_base_table()[13] == 132);
    assert(eg_base_table()[14] == 165);
    assert(eg_base_table()[15] == 187);
    assert(eg_base_table()[16] == 94);
    assert(eg_base_table()[17] == 100);
    assert(eg_base_table()[18] == 85);
    assert(eg_base_table()[19] == 67);
    assert(eg_base_table()[20] == 56);
    assert(eg_base_table()[21] == 53);
    assert(eg_base_table()[22] == 82);
    assert(eg_base_table()[23] == 84);
    assert(eg_base_table()[24] == 32);
    assert(eg_base_table()[25] == 24);
    assert(eg_base_table()[26] == 13);
    assert(eg_base_table()[27] == 5);
    assert(eg_base_table()[28] == -2);
    assert(eg_base_table()[29] == 4);
    assert(eg_base_table()[30] == 17);
    assert(eg_base_table()[31] == 17);
    assert(eg_base_table()[32] == 13);
    assert(eg_base_table()[33] == 9);
    assert(eg_base_table()[34] == -3);
    assert(eg_base_table()[35] == -7);
    assert(eg_base_table()[36] == -7);
    assert(eg_base_table()[37] == -8);
    assert(eg_base_table()[38] == 3);
    assert(eg_base_table()[39] == -1);
    assert(eg_base_table()[40] == 4);
    assert(eg_base_table()[41] == 7);
    assert(eg_base_table()[42] == -6);
    assert(eg_base_table()[43] == 1);
    assert(eg_base_table()[44] == 0);
    assert(eg_base_table()[45] == -5);
    assert(eg_base_table()[46] == -1);
    assert(eg_base_table()[47] == -8);
    assert(eg_base_table()[48] == 13);
    assert(eg_base_table()[49] == 8);
    assert(eg_base_table()[50] == 8);
    assert(eg_base_table()[51] == 10);
    assert(eg_base_table()[52] == 13);
    assert(eg_base_table()[53] == 0);
    assert(eg_base_table()[54] == 2);
    assert(eg_base_table()[55] == -7);
}

/// The piece-square values are the same for both colours seen from their own side, and
/// are read from the side of the piece's owner: a piece and the same piece of the other
/// colour on the mirrored square score alike, and in the endgame a pawn one step from
/// promotion is worth more than the same pawn on any rank from its start to its sixth
/// rank (for white the seventh rank is the seventh row, `48 + x`; for black the second row).
pub proof fn lemma_pst_sides(mg: bool, fig: int, sq: int, x: int, r: int)
    ensures
        0 <= fig < 12 && 0 <= sq < 64 ==> pst(mg, fig, sq) == pst(
            mg,
            if fig % 2 == 0 { fig + 1 } else { fig - 1 },
            flip(sq),
        ),
        0 <= x < 8 && 1 <= r <= 5 ==> pst(false, Figure::WhitePawn.idx(), 48 + x) > pst(
            false,
            Figure::WhitePawn.idx(),
            8 * r + x,
        ),
        0 <= x < 8 && 1 <= r <= 5 ==> pst(false, Figure::BlackPawn.idx(), 8 + x) > pst(
            false,
            Figure::BlackPawn.idx(),
            8 * (7 - r) + x,
        ),
{
    lemma_eg_pawn_rows();
    if 0 <= x < 8 && 1 <= r <= 5 {
        assert(flip(48 + x) == 8 + x);
        assert(flip(8 * r + x) == (7 - r) * 8 + x);
        assert(eg_base_table()[8 + x] > eg_base_table()[(7 - r) * 8 + x]);
    }
}

/// How much a figure index weighs in the game phase.
pub open spec fn phase_inc(fig: int) -> int {
    seq![0int, 0, 1, 1, 1, 1, 2, 2, 4, 4, 0, 0][fig]
}

/// The phase weight of all pieces at the start.
pub const TOTAL_PHASE: i32 = 24;

/// Bonus for the side to move.
pub const INITIATIVE: i32 = 15;

/// Penalty per pawn more than one on a file.
pub const DOUBLED_PAWN_PENALTY: i32 = -10;

/// Middlegame bonus of a rook on a file without pawns.
pub const ROOK_OPEN_FILE_BONUS: i32 = 25;

/// No pawn of either color stands on file `x`.
pub open spec fn open_file(p: Seq<Figure>, x: int) -> bool {
    forall|t: int| 0 <= t < 64 && sx(t) == x ==> p[t] != Figure::WhitePawn && p[t] != Figure::BlackPawn
}

/// Material, position and open file score of the piece on `s` for color index `c`.
pub open spec fn square_score(p: Seq<Figure>, mg: bool, c: int, s: int) -> int {
    let f = p[s];
    if f != Figure::Empty && f.idx() % 2 == c {
        pst(mg, f.idx(), s) + if mg && f.spec_piece() == Piece::Rook && open_file(p, sx(s)) {
            ROOK_OPEN_FILE_BONUS as int
        } else {
            0
        }
    } else {
        0
    }
}

/// The game phase weight of the piece on `s`.
pub open spec fn square_phase(p: Seq<Figure>, s: int) -> int {
    if p[s] != Figure::Empty {
        phase_inc(p[s].idx())
    } else {
        0
    }
}

/// Mobility weights by piece index, middlegame then endgame.
pub open spec fn mobility_coeff(mg: bool, piece: int) -> int {
    if mg {
        seq![0int, 5, 3, 2, 1, 0][piece]
    } else {
        seq![0int, 5, 3, 4, 1, 0][piece]
    }
}

/// Weight of a piece index reaching the enemy king zone.
pub open spec fn attack_value(mg: bool, piece: int) -> int {
    if mg {
        seq![0int, 2, 2, 3, 5, 0][piece]
    } else {
        seq![0int, 2, 2, 4, 6, 0][piece]
    }
}

/// Weight of a piece index covering its own king zone.
pub open spec fn defend_value(mg: bool, piece: int) -> int {
    if mg {
        seq![0int, 1, 1, 2, 4, 0][piece]
    } else {
        seq![0int, 1, 1, 3, 5, 0][piece]
    }
}

/// The squares a figure index may move to (own pieces excluded) with nothing taken off.
pub open spec fn mobility_squares(b: Board, fig: int) -> Set<int> {
    figure_attack_mask(b.pieces@, b.occupied, fig, 0)
}

/// The mobility score of color index `c`.
pub open spec fn mobility(b: Board, mg: bool, c: int) -> int {
    sum_to(
        |f: int|
            if 0 <= f < 12 && f % 2 == c {
                mobility_coeff(mg, f / 2) * mobility_squares(b, f).len()
            } else {
                0
            },
        12,
    )
}

/// The king zone of color index `c` as counted by the king safety: its pieces' reach.
pub open spec fn zone_count(zone: Set<int>, mov: Set<int>) -> int {
    zone.intersect(mov).len() as int
}

/// The squares of each movement board.
pub open spec fn mov_sets(m: Seq<Bitboard>) -> Seq<Set<int>> {
    Seq::new(m.len(), |i: int| bits(m[i].0))
}

/// The contribution of figure index `i` to the king danger level of color index `c`:
/// a knight, bishop, rook or queen of `c` reaching the king zone adds its defence weight
/// per square, one of the other color subtracts its attack weight per square.
pub open spec fn safety_term(zone: Set<int>, movs: Seq<Set<int>>, mg: bool, c: int, i: int) -> int {
    if 2 <= i <= 9 {
        if i % 2 == c {
            zone_count(zone, movs[i]) * defend_value(mg, i / 2)
        } else {
            -zone_count(zone, movs[i]) * attack_value(mg, i / 2)
        }
    } else {
        0
    }
}

pub open spec fn safety_terms(zone: Set<int>, movs: Seq<Set<int>>, mg: bool, c: int) -> spec_fn(int) -> int {
    |i: int| safety_term(zone, movs, mg, c, i)
}

/// The king danger level of color index `c`, from the movement boards `movs`.
pub open spec fn safety_level(zone: Set<int>, movs: Seq<Set<int>>, mg: bool, c: int) -> int {
    sum_to(safety_terms(zone, movs, mg, c), 10)
}

/// The sign of `x`: 1, 0 or -1.
pub open spec fn signum(x: int) -> int {
    if x > 0 {
        1
    } else if x < 0 {
        -1
    } else {
        0
    }
}

/// The king safety score of a side from its middlegame and endgame danger levels: the
/// sign of the level times the table entry for the middlegame level, at most 99.
pub open spec fn safety_score(mg_level: int, level: int, mg: bool) -> int {
    let at = if iabs(mg_level) > 99 {
        99
    } else {
        iabs(mg_level)
    };
    signum(level) * if mg {
        mg_king_safety_table()[at]
    } else {
        eg_king_safety_table()[at]
    }
}

/// The squares of the board as a 64-bit set: file `x`.
pub open spec fn file_squares(x: int) -> Set<int> {
    Set::new(|s: int| 0 <= s < 64 && sx(s) == x)
}

/// The squares of file `x`.
fn file_bits(x: usize) -> (r: u64)
    requires
        x < 8,
    ensures
        bits(r) == file_squares(x as int),
{
    let mut acc: u64 = 0;
    let mut y: usize = 0;
    proof {
        crate::bitboard::lemma_zero_iff_no_bits(0);
    }
    while y < 8
        invariant
            x < 8,
            y <= 8,
            forall|s: int| #[trigger] bit_set(acc, s) == (0 <= s < 64 && sx(s) == x && sy(s) < y),
        decreases 8 - y,
    {
        let s = (y * 8 + x) as u64;
        proof {
            crate::bitboard::lemma_single_bit(s);
            lemma_bit_ops(acc, 1u64 << s);
        }
        acc = acc | (1u64 << s);
        y = y + 1;
    }
    assert(bits(acc) =~= file_squares(x as int));
    acc
}

impl Board {
    /// The squares of the files without pawns of either color.
    pub fn open_files(&self) -> (r: Bitboard)
        requires
            self.wf(),
        ensures
            bits(r.0) == Set::new(|s: int| 0 <= s < 64 && open_file(self.pieces@, sx(s))),
    {
        let ghost p = self.pieces@;
        let wp = self.figure_bb(Color::White, Piece::Pawn).0;
        let bp = self.figure_bb(Color::Black, Piece::Pawn).0;
        let pawns = wp | bp;
        proof {
            lemma_bit_ops(wp, bp);
            crate::bitboard::lemma_zero_iff_no_bits(0);
        }
        let mut open: u64 = 0;
        let mut x: usize = 0;
        while x < 8
            invariant
                x <= 8,
                forall|s: int| #[trigger] bit_set(pawns, s) == (0 <= s < 64 && (p[s] == Figure::WhitePawn || p[s] == Figure::BlackPawn)),
                forall|s: int| #[trigger] bit_set(open, s) == (0 <= s < 64 && sx(s) < x && open_file(p, sx(s))),
            decreases 8 - x,
        {
            let f = file_bits(x);
            let both = f & pawns;
            proof {
                lemma_bit_ops(f, pawns);
                lemma_bit_ops(open, f);
                crate::bitboard::lemma_zero_iff_no_bits(both);
                assert(both == 0 <==> open_file(p, x as int)) by {
                    if both != 0 {
                        let t = choose|t: int| bit_set(both, t);
                        assert(bits(f).contains(t));
                    }
                    if !open_file(p, x as int) {
                        let t = choose|t: int| 0 <= t < 64 && sx(t) == x && !(p[t] != Figure::WhitePawn && p[t] != Figure::BlackPawn);
                        assert(bits(f).contains(t));
                        assert(bit_set(both, t));
                    }
                }
            }
            if both == 0 {
                open = open | f;
            }
            proof {
                assert forall|s: int| #[trigger] bit_set(open, s) == (0 <= s < 64 && sx(s) < x + 1 && open_file(p, sx(s))) by {
                    assert(bits(f).contains(s) == (0 <= s < 64 && sx(s) == x));
                }
            }
            x = x + 1;
        }
        let r = Bitboard(open);
        assert(bits(r.0) =~= Set::new(|s: int| 0 <= s < 64 && open_file(self.pieces@, sx(s))));
        r
    }

    /// The mobility of figure index `figure`: the number of squares it may move to, own
    /// pieces excluded. Its attack board is kept in `figure_movements` for the king safety.
    pub fn calculate_piece_mobility(&self, figure: usize, figure_movements: &mut [Bitboard; 12]) -> (r: i32)
        requires
            self.wf(),
            figure < 12,
            figure >= 10 ==> self.has_king(crate::masks::figure_color(figure as int)),
        ensures
            r == mobility_squares(*self, figure as int).len(),
            0 <= r <= 64,
            final(figure_movements)@ == old(figure_movements)@.update(figure as int, final(figure_movements)@[figure as int]),
            bits(final(figure_movements)@[figure as int].0) == mobility_squares(*self, figure as int),
    {
        let occ = self.occupied();
        let attackmask = calculate_attackmask_by_figure(self, occ, figure, None);
        figure_movements[figure] = attackmask;
        let own = self.color_bbs(Color::from_usize(figure));
        let movable = attackmask.0 & !own.0;
        proof {
            assert(crate::masks::opt_bits(None) == 0u64);
            lemma_bit_ops(attackmask.0, !own.0);
            lemma_bit_ops(own.0, own.0);
            assert(bits(movable) =~= bits(attackmask.0));
            lemma_popcount_len(movable);
            crate::bitboard::lemma_count_bits_below_le(movable, 64);
        }
        Bitboard(movable).get_count() as i32
    }
}

/// The king zone of the color with index `c`.
pub open spec fn zone_of(b: Board, c: int) -> Set<int> {
    king_zone(lowest_king_sq(b.pieces@, if c == 0 { Color::White } else { Color::Black }))
}

fn zone_hits(zone: u64, mov: Bitboard) -> (r: i16)
    ensures
        r == zone_count(bits(zone), bits(mov.0)),
        0 <= r <= 64,
{
    let both = zone & mov.0;
    proof {
        lemma_bit_ops(zone, mov.0);
        assert(bits(both) =~= bits(zone).intersect(bits(mov.0)));
        lemma_popcount_len(both);
        crate::bitboard::lemma_count_bits_below_le(both, 64);
    }
    Bitboard(both).get_count() as i16
}

fn safety_from(level: i16, mg_level: i16, mg: bool) -> (r: i16)
    requires
        -4000 <= level <= 4000,
        -4000 <= mg_level <= 4000,
    ensures
        r == safety_score(mg_level as int, level as int, mg),
{
    let a = if mg_level < 0 { -mg_level } else { mg_level };
    let at = if a > 99 { 99 } else { a } as usize;
    let v = if mg {
        mg_king_safety(at) as i16
    } else {
        eg_king_safety(at) as i16
    };
    if level > 0 {
        v
    } else if level < 0 {
        -v
    } else {
        0
    }
}

impl Board {
    /// The king safety scores, middlegame then endgame, of white then black, from the
    /// movement boards of the figures (each figure's reach plus its own squares).
    pub fn king_safety(&self, figure_movements: &[Bitboard; 12]) -> (r: ([i16; 2], [i16; 2]))
        requires
            self.wf(),
            self.kings_present(),
        ensures
            forall|c: int| 0 <= c < 2 ==> r.0@[c] == safety_score(
                safety_level(zone_of(*self, c), mov_sets(figure_movements@), true, c),
                safety_level(zone_of(*self, c), mov_sets(figure_movements@), true, c),
                true,
            ),
            forall|c: int| 0 <= c < 2 ==> r.1@[c] == safety_score(
                safety_level(zone_of(*self, c), mov_sets(figure_movements@), true, c),
                safety_level(zone_of(*self, c), mov_sets(figure_movements@), false, c),
                false,
            ),
    {
        proof {
            self.lemma_ready_kings_any();
        }
        let zw = king_safety_mask(self, Color::White).0;
        let zb = king_safety_mask(self, Color::Black).0;
        let ghost movs = mov_sets(figure_movements@);
        let ghost z0 = zone_of(*self, 0);
        let ghost z1 = zone_of(*self, 1);
        assert(bits(zw) == z0);
        assert(bits(zb) == z1);
        let mut mg0: i16 = 0;
        let mut mg1: i16 = 0;
        let mut eg0: i16 = 0;
        let mut eg1: i16 = 0;
        let mut i: usize = 2;
        proof {
            reveal_with_fuel(sum_to, 3);
            assert(sum_to(safety_terms(z0, movs, true, 0), 2) == 0);
            assert(sum_to(safety_terms(z1, movs, true, 1), 2) == 0);
            assert(sum_to(safety_terms(z0, movs, false, 0), 2) == 0);
            assert(sum_to(safety_terms(z1, movs, false, 1), 2) == 0);
        }
        while i <= 9
            invariant
                2 <= i <= 10,
                movs == mov_sets(figure_movements@),
                bits(zw) == z0,
                bits(zb) == z1,
                mg0 == sum_to(safety_terms(z0, movs, true, 0), i as nat),
                mg1 == sum_to(safety_terms(z1, movs, true, 1), i as nat),
                eg0 == sum_to(safety_terms(z0, movs, false, 0), i as nat),
                eg1 == sum_to(safety_terms(z1, movs, false, 1), i as nat),
                -400 * i <= mg0 <= 400 * i,
                -400 * i <= mg1 <= 400 * i,
                -400 * i <= eg0 <= 400 * i,
                -400 * i <= eg1 <= 400 * i,
            decreases 10 - i,
        {
            let h0 = zone_hits(zw, figure_movements[i]);
            let h1 = zone_hits(zb, figure_movements[i]);
            let piece = i / 2;
            let att_mg: i16 = if piece == 1 || piece == 2 { 2 } else if piece == 3 { 3 } else { 5 };
            let att_eg: i16 = if piece == 1 || piece == 2 { 2 } else if piece == 3 { 4 } else { 6 };
            let def_mg: i16 = if piece == 1 || piece == 2 { 1 } else if piece == 3 { 2 } else { 4 };
            let def_eg: i16 = if piece == 1 || piece == 2 { 1 } else if piece == 3 { 3 } else { 5 };
            proof {
                assert(att_mg == attack_value(true, piece as int));
                assert(att_eg == attack_value(false, piece as int));
                assert(def_mg == defend_value(true, piece as int));
                assert(def_eg == defend_value(false, piece as int));
            }
            if i % 2 == 0 {
                mg0 = mg0 + h0 * def_mg;
                eg0 = eg0 + h0 * def_eg;
                mg1 = mg1 - h1 * att_mg;
                eg1 = eg1 - h1 * att_eg;
            } else {
                mg1 = mg1 + h1 * def_mg;
                eg1 = eg1 + h1 * def_eg;
                mg0 = mg0 - h0 * att_mg;
                eg0 = eg0 - h0 * att_eg;
            }
            i = i + 1;
        }
        let mgs = [safety_from(mg0, mg0, true), safety_from(mg1, mg1, true)];
        let egs = [safety_from(eg0, mg0, false), safety_from(eg1, mg1, false)];
        (mgs, egs)
    }
}

/// The pawn figure of color index `c`.
pub open spec fn pawn_of(c: int) -> Figure {
    if c == 0 {
        Figure::WhitePawn
    } else {
        Figure::BlackPawn
    }
}

/// No enemy pawn stands ahead of the pawn of color index `c` on `s`, on its own or a
/// neighbouring file.
pub open spec fn is_passed(p: Seq<Figure>, c: int, s: int) -> bool {
    forall|t: int|
        0 <= t < 64 && p[t] == pawn_of(1 - c) ==> !(iabs(sx(t) - sx(s)) <= 1 && (if c == 0 {
            sy(t) > sy(s)
        } else {
            sy(t) < sy(s)
        }))
}

/// No pawn of color index `c` stands on the files beside `s`; on the a- and h-file the
/// pawn's own file counts as a neighbour.
pub open spec fn is_isolated(p: Seq<Figure>, c: int, s: int) -> bool {
    forall|t: int|
        0 <= t < 64 && p[t] == pawn_of(c) ==> !(sx(t) == crate::masks::clamp7(sx(s) - 1) || sx(t)
            == crate::masks::clamp7(sx(s) + 1))
}

/// The passed pawn bonus and isolated pawn penalty of the piece on `s` for color index `c`.
pub open spec fn pawn_term(p: Seq<Figure>, mg: bool, c: int, s: int) -> int {
    if p[s] == pawn_of(c) {
        let at = if c == 0 {
            flip(s)
        } else {
            s
        };
        (if is_passed(p, c, s) {
            if mg {
                mg_passed_table()[at]
            } else {
                eg_passed_table()[at]
            }
        } else {
            0
        }) + (if is_isolated(p, c, s) {
            if mg {
                -23int
            } else {
                -13int
            }
        } else {
            0
        })
    } else {
        0
    }
}

pub open spec fn pawn_terms(p: Seq<Figure>, mg: bool, c: int) -> spec_fn(int) -> int {
    |s: int| pawn_term(p, mg, c, s)
}

/// The number of pawns of color index `c` on file `x`.
pub open spec fn file_pawns(p: Seq<Figure>, c: int, x: int) -> int {
    Set::new(|t: int| 0 <= t < 64 && sx(t) == x && p[t] == pawn_of(c)).len() as int
}

/// The doubled pawn penalty of color index `c`: per file, the pawns beyond the first.
pub open spec fn doubled_penalty(p: Seq<Figure>, c: int) -> int {
    sum_to(
        |x: int|
            DOUBLED_PAWN_PENALTY * (if file_pawns(p, c, x) > 0 {
                file_pawns(p, c, x) - 1
            } else {
                0
            }),
        8,
    )
}

fn pawn_at(board: &Board, t: usize, c: usize) -> (r: bool)
    requires
        t < 64,
        c < 2,
    ensures
        r == (board.pieces@[t as int] == pawn_of(c as int)),
{
    let f = board.pieces[t];
    if c == 0 {
        f == Figure::WhitePawn
    } else {
        f == Figure::BlackPawn
    }
}

impl Board {
    /// The passed pawn bonus, middlegame then endgame, of the pawn of color index `c` on
    /// `sq`; nothing unless it is passed.
    fn passed_pawn_bonus(&self, sq: Square, c: usize) -> (r: [i16; 2])
        requires
            sq.valid(),
            c < 2,
        ensures
            r@[0] == (if is_passed(self.pieces@, c as int, sq.0 as int) {
                mg_passed_table()[if c == 0 { flip(sq.0 as int) } else { sq.0 as int }]
            } else {
                0
            }),
            r@[1] == (if is_passed(self.pieces@, c as int, sq.0 as int) {
                eg_passed_table()[if c == 0 { flip(sq.0 as int) } else { sq.0 as int }]
            } else {
                0
            }),
            0 <= r@[0] <= 20,
            0 <= r@[1] <= 90,
    {
        let ghost p = self.pieces@;
        let x = sq.0 % 8;
        let y = sq.0 / 8;
        let mut t: usize = 0;
        let mut passed = true;
        while t < 64
            invariant
                t <= 64,
                c < 2,
                x == sx(sq.0 as int),
                y == sy(sq.0 as int),
                passed == (forall|u: int|
                    0 <= u < t && p[u] == pawn_of(1 - c) ==> !(iabs(sx(u) - sx(sq.0 as int)) <= 1 && (if c == 0 {
                        sy(u) > sy(sq.0 as int)
                    } else {
                        sy(u) < sy(sq.0 as int)
                    }))),
                p == self.pieces@,
            decreases 64 - t,
        {
            if pawn_at(self, t, 1 - c) {
                let tx = t % 8;
                let ty = t / 8;
                let dx = if tx > x { tx - x } else { x - tx };
                let ahead = if c == 0 { ty > y } else { ty < y };
                if dx <= 1 && ahead {
                    passed = false;
                }
            }
            t = t + 1;
        }
        let at = if c == 0 { (7 - y) * 8 + x } else { sq.0 };
        if passed {
            let m = mg_passed(at) as i16;
            let e = eg_passed(at) as i16;
            [m, e]
        } else {
            [0, 0]
        }
    }

    /// The isolated pawn penalty, middlegame then endgame, of the pawn of color index `c`
    /// on `sq`; nothing unless it is isolated.
    fn isolated_pawn_penalty(&self, sq: Square, c: usize) -> (r: [i16; 2])
        requires
            sq.valid(),
            c < 2,
        ensures
            r@[0] == (if is_isolated(self.pieces@, c as int, sq.0 as int) { -23int } else { 0 }),
            r@[1] == (if is_isolated(self.pieces@, c as int, sq.0 as int) { -13int } else { 0 }),
    {
        let ghost p = self.pieces@;
        let x = sq.0 % 8;
        let left = if x == 0 { 0 } else { x - 1 };
        let right = if x == 7 { 7 } else { x + 1 };
        let mut t: usize = 0;
        let mut isolated = true;
        while t < 64
            invariant
                t <= 64,
                c < 2,
                left == crate::masks::clamp7(sx(sq.0 as int) - 1),
                right == crate::masks::clamp7(sx(sq.0 as int) + 1),
                isolated == (forall|u: int|
                    0 <= u < t && p[u] == pawn_of(c as int) ==> !(sx(u) == left || sx(u) == right)),
                p == self.pieces@,
            decreases 64 - t,
        {
            let hit = pawn_at(self, t, c) && (t % 8 == left || t % 8 == right);
            if hit {
                isolated = false;
            }
            proof {
                assert(hit == (p[t as int] == pawn_of(c as int) && (sx(t as int) == left || sx(t as int) == right)));
            }
            t = t + 1;
        }
        if isolated {
            [-23, -13]
        } else {
            [0, 0]
        }
    }

    /// Passed pawn bonuses plus isolated pawn penalties: middlegame scores of white and
    /// black, then endgame scores.
    pub fn pawn_structure(&self) -> (r: ([i16; 2], [i16; 2]))
        ensures
            forall|c: int| 0 <= c < 2 ==> r.0@[c] == sum_to(pawn_terms(self.pieces@, true, c), 64),
            forall|c: int| 0 <= c < 2 ==> r.1@[c] == sum_to(pawn_terms(self.pieces@, false, c), 64),
            forall|c: int| 0 <= c < 2 ==> -1472 <= #[trigger] r.0@[c] <= 1280,
            forall|c: int| 0 <= c < 2 ==> -832 <= #[trigger] r.1@[c] <= 5760,
    {
        let ghost p = self.pieces@;
        let mut mg: [i16; 2] = [0, 0];
        let mut eg: [i16; 2] = [0, 0];
        let mut c: usize = 0;
        while c < 2
            invariant
                c <= 2,
                p == self.pieces@,
                forall|d: int| 0 <= d < c ==> mg@[d] == sum_to(pawn_terms(p, true, d), 64),
                forall|d: int| 0 <= d < c ==> eg@[d] == sum_to(pawn_terms(p, false, d), 64),
                forall|d: int| 0 <= d < c ==> -1472 <= #[trigger] mg@[d] <= 1280,
                forall|d: int| 0 <= d < c ==> -832 <= #[trigger] eg@[d] <= 5760,
            decreases 2 - c,
        {
            let mut m: i16 = 0;
            let mut e: i16 = 0;
            let mut s: usize = 0;
            while s < 64
                invariant
                    s <= 64,
                    c < 2,
                    p == self.pieces@,
                    m == sum_to(pawn_terms(p, true, c as int), s as nat),
                    e == sum_to(pawn_terms(p, false, c as int), s as nat),
                    -23 * s <= m <= 20 * s,
                    -13 * s <= e <= 90 * s,
                decreases 64 - s,
            {
                if pawn_at(self, s, c) {
                    let bonus = self.passed_pawn_bonus(Square(s), c);
                    let penalty = self.isolated_pawn_penalty(Square(s), c);
                    m = m + bonus[0] + penalty[0];
                    e = e + bonus[1] + penalty[1];
                }
                s = s + 1;
            }
            mg[c] = m;
            eg[c] = e;
            c = c + 1;
        }
        (mg, eg)
    }

    /// The doubled pawn penalties of white and black.
    pub fn doubled_pawn_penalties(&self) -> (r: [i32; 2])
        requires
            self.wf(),
        ensures
            forall|c: int| 0 <= c < 2 ==> r@[c] == doubled_penalty(self.pieces@, c),
            forall|c: int| 0 <= c < 2 ==> -640 <= #[trigger] r@[c] <= 0,
    {
        let ghost p = self.pieces@;
        let mut penalties: [i32; 2] = [0, 0];
        let mut c: usize = 0;
        while c < 2
            invariant
                c <= 2,
                self.wf(),
                p == self.pieces@,
                forall|d: int| 0 <= d < c ==> penalties@[d] == doubled_penalty(p, d),
                forall|d: int| 0 <= d < c ==> -640 <= #[trigger] penalties@[d] <= 0,
            decreases 2 - c,
        {
            let pawns = self.figure_bb_by_index(c).0;
            let mut total: i32 = 0;
            let mut x: usize = 0;
            while x < 8
                invariant
                    x <= 8,
                    c < 2,
                    p == self.pieces@,
                    forall|t: int| #[trigger] bit_set(pawns, t) == (0 <= t < 64 && p[t].idx() == c),
                    total == sum_to(
                        |x: int|
                            DOUBLED_PAWN_PENALTY * (if file_pawns(p, c as int, x) > 0 {
                                file_pawns(p, c as int, x) - 1
                            } else {
                                0
                            }),
                        x as nat,
                    ),
                    -80 * x <= total <= 0,
                decreases 8 - x,
            {
                let f = file_bits(x);
                let on_file = f & pawns;
                proof {
                    lemma_bit_ops(f, pawns);
                    lemma_popcount_len(on_file);
                    crate::bitboard::lemma_count_bits_below_le(on_file, 64);
                    assert forall|t: int| bits(on_file).contains(t) == (0 <= t < 64 && sx(t) == x && p[t] == pawn_of(c as int)) by {
                        assert(bits(f).contains(t) == file_squares(x as int).contains(t));
                        if 0 <= t < 64 {
                            p[t].lemma_idx_roundtrip();
                        }
                    }
                    assert(bits(on_file) =~= Set::new(|t: int| 0 <= t < 64 && sx(t) == x && p[t] == pawn_of(c as int)));
                    assert(bits(on_file).len() <= 8) by {
                        lemma_popcount_len(f);
                        assert(file_squares(x as int) =~= bits(f));
                        lemma_file_len(x as int);
                        assert(bits(on_file).subset_of(file_squares(x as int)));
                        vstd::set_lib::lemma_len_subset(bits(on_file), file_squares(x as int));
                    }
                }
                let n = Bitboard(on_file).get_count() as i32;
                if n > 0 {
                    total = total + DOUBLED_PAWN_PENALTY * (n - 1);
                }
                x = x + 1;
            }
            penalties[c] = total;
            c = c + 1;
        }
        penalties
    }

    /// The bishop pair bonuses: middlegame scores of white and black, then endgame scores.
    fn bishop_pair_boni(&self) -> (r: ([i16; 2], [i16; 2]))
        requires
            self.wf(),
        ensures
            forall|c: int| 0 <= c < 2 ==> r.0@[c] == 15 * (bishop_count(self.pieces@, c) / 2),
            forall|c: int| 0 <= c < 2 ==> r.1@[c] == 25 * (bishop_count(self.pieces@, c) / 2),
            forall|c: int| 0 <= c < 2 ==> 0 <= #[trigger] r.0@[c] <= 480 && 0 <= r.1@[c] <= 800,
    {
        let w = self.figure_bb(Color::White, Piece::Bishop).0;
        let b = self.figure_bb(Color::Black, Piece::Bishop).0;
        proof {
            lemma_popcount_len(w);
            lemma_popcount_len(b);
            crate::bitboard::lemma_count_bits_below_le(w, 64);
            crate::bitboard::lemma_count_bits_below_le(b, 64);
            assert(bits(w) =~= squares_of(self.pieces@, Figure::WhiteBishop));
            assert(bits(b) =~= squares_of(self.pieces@, Figure::BlackBishop));
        }
        let nw = Bitboard(w).get_count() as i16;
        let nb = Bitboard(b).get_count() as i16;
        ([15 * (nw / 2), 15 * (nb / 2)], [25 * (nw / 2), 25 * (nb / 2)])
    }
}

/// The number of bishops of color index `c`.
pub open spec fn bishop_count(p: Seq<Figure>, c: int) -> int {
    squares_of(p, if c == 0 { Figure::WhiteBishop } else { Figure::BlackBishop }).len() as int
}

proof fn lemma_file_len(x: int)
    requires
        0 <= x < 8,
    ensures
        file_squares(x).len() == 8,
{
    let f = file_squares(x);
    assert(f =~= set![x, x + 8, x + 16, x + 24, x + 32, x + 40, x + 48, x + 56]);
}

pub open spec fn square_scores(p: Seq<Figure>, mg: bool, c: int) -> spec_fn(int) -> int {
    |s: int| square_score(p, mg, c, s)
}

pub open spec fn square_phases(p: Seq<Figure>) -> spec_fn(int) -> int {
    |s: int| square_phase(p, s)
}

pub open spec fn mobility_terms(b: Board, mg: bool, c: int) -> spec_fn(int) -> int {
    |f: int|
        if 0 <= f < 12 && f % 2 == c {
            mobility_coeff(mg, f / 2) * mobility_squares(b, f).len()
        } else {
            0
        }
}

/// The squares a figure index reaches, own pieces excluded, plus its own squares.
pub open spec fn movements(b: Board) -> Seq<Set<int>> {
    Seq::new(12, |i: int| mobility_squares(b, i) + squares_of(b.pieces@, Figure::of_idx(i)))
}

/// Middlegame (`mg`) or endgame score of color index `c` before the tapering: pieces on
/// their squares, rooks on open files, mobility, pawn structure, the bishop pair and king
/// safety.
pub open spec fn side_score(b: Board, mg: bool, c: int) -> int {
    let p = b.pieces@;
    let level_mg = safety_level(zone_of(b, c), movements(b), true, c);
    let level = safety_level(zone_of(b, c), movements(b), mg, c);
    sum_to(square_scores(p, mg, c), 64) + sum_to(mobility_terms(b, mg, c), 12) + sum_to(pawn_terms(p, mg, c), 64)
        + (if mg { 15int } else { 25int }) * (bishop_count(p, c) / 2) + safety_score(level_mg, level, mg)
}

/// The game phase, 0 at the start and 256 with only kings and pawns left (negative when
/// promotions added material): `(phase * 256 + 12) / 24` rounded toward zero.
pub open spec fn game_phase(p: Seq<Figure>) -> int {
    let phase = TOTAL_PHASE - sum_to(square_phases(p), 64);
    crate::move_scoring::trunc_div(phase * 256 + TOTAL_PHASE / 2, TOTAL_PHASE as int)
}

/// The evaluation reads the position only, not the move history.
pub proof fn lemma_evaluation_state(b1: Board, b2: Board)
    requires
        b1.state() == b2.state(),
    ensures
        evaluation(b1) == evaluation(b2),
{
    assert(b1.pieces == b2.pieces);
    assert(b1.pieces@ == b2.pieces@);
    assert(movements(b1) =~= movements(b2));
    assert forall|mg: bool, c: int| #[trigger] side_score(b1, mg, c) == side_score(b2, mg, c) by {
        assert(mobility_terms(b1, mg, c) =~= mobility_terms(b2, mg, c));
        assert(zone_of(b1, c) == zone_of(b2, c));
    }
}

/// The evaluation from the side to move's view: the middlegame and endgame scores of white
/// minus black, with the initiative for the side to move, tapered by the game phase and
/// rounded down, plus the doubled pawn penalties.
pub open spec fn evaluation(b: Board) -> int {
    let p = b.pieces@;
    let mult = if b.current_color == Color::White { 1int } else { -1int };
    let mg_score = side_score(b, true, 0) - side_score(b, true, 1) + mult * INITIATIVE;
    let eg_score = side_score(b, false, 0) - side_score(b, false, 1) + mult * INITIATIVE;
    let gp = game_phase(p);
    let score = (mg_score * (256 - gp) + eg_score * gp) / 256 + doubled_penalty(p, 0) - doubled_penalty(p, 1);
    score * mult
}

fn mobility_weight(mg: bool, piece: usize) -> (r: i32)
    requires
        piece < 6,
    ensures
        r == mobility_coeff(mg, piece as int),
        0 <= r <= 5,
{
    if piece == 0 || piece == 5 {
        0
    } else if piece == 1 {
        5
    } else if piece == 2 {
        3
    } else if piece == 3 {
        if mg { 2 } else { 4 }
    } else {
        1
    }
}

fn piece_square_value(mg: bool, fig: usize, sq: usize) -> (r: i32)
    requires
        fig < 12,
        sq < 64,
    ensures
        r == pst(mg, fig as int, sq as int),
        -167 <= r <= 1212,
{
    let piece = fig / 2;
    let at = piece * 64 + if fig % 2 == 0 { (7 - sq / 8) * 8 + sq % 8 } else { sq };
    let mgv: [i32; 6] = [82, 337, 365, 477, 1025, 0];
    let egv: [i32; 6] = [94, 281, 297, 512, 936, 0];
    assert(forall|j: int| 0 <= j < 6 ==> mgv@[j] as int == #[trigger] mg_piece_value(j));
    assert(forall|j: int| 0 <= j < 6 ==> egv@[j] as int == #[trigger] eg_piece_value(j));
    if mg {
        mgv[piece] + mg_base(at)
    } else {
        egv[piece] + eg_base(at)
    }
}

fn phase_weight(fig: usize) -> (r: i32)
    requires
        fig < 12,
    ensures
        r == phase_inc(fig as int),
        0 <= r <= 4,
{
    let w: [i32; 12] = [0, 0, 1, 1, 1, 1, 2, 2, 4, 4, 0, 0];
    assert(forall|j: int| 0 <= j < 12 ==> w@[j] as int == #[trigger] phase_inc(j));
    w[fig]
}

fn floor_div_256(x: i64) -> (r: i64)
    requires
        -0x1_0000_0000_0000 <= x <= 0x1_0000_0000_0000,
    ensures
        r == x / 256,
{
    if x >= 0 {
        x / 256
    } else {
        let n = -x;
        let q = n / 256;
        if q * 256 == n {
            -q
        } else {
            -q - 1
        }
    }
}

impl Board {
    /// The evaluation of the position in centipawns, positive when the side to move stands
    /// better (see `evaluation`).
    #[verifier::rlimit(80)]
    pub fn evaluate(&self) -> (r: i32)
        requires
            self.wf(),
            self.kings_present(),
        ensures
            r == evaluation(*self),
            -4_200_000 <= r <= 4_200_000,
    {
        let ghost p = self.pieces@;
        let ghost b = *self;
        proof {
            self.lemma_ready_kings_any();
        }
        let open = self.open_files();
        let mut mg: [i64; 2] = [0, 0];
        let mut eg: [i64; 2] = [0, 0];
        let mut used_phase: i64 = 0;
        let mut s: usize = 0;
        while s < 64
            invariant
                s <= 64,
                p == self.pieces@,
                bits(open.0) == Set::new(|t: int| 0 <= t < 64 && open_file(p, sx(t))),
                forall|c: int| 0 <= c < 2 ==> mg@[c] == sum_to(square_scores(p, true, c), s as nat),
                forall|c: int| 0 <= c < 2 ==> eg@[c] == sum_to(square_scores(p, false, c), s as nat),
                forall|c: int| 0 <= c < 2 ==> -167 * s <= #[trigger] mg@[c] <= 1237 * s,
                forall|c: int| 0 <= c < 2 ==> -167 * s <= #[trigger] eg@[c] <= 1237 * s,
                used_phase == sum_to(square_phases(p), s as nat),
                0 <= used_phase <= 4 * s,
            decreases 64 - s,
        {
            let f = self.pieces[s];
            if f != Figure::Empty {
                let i = f.index();
                let c = i % 2;
                proof {
                    f.lemma_idx_roundtrip();
                }
                let mut m = piece_square_value(true, i, s) as i64;
                let e = piece_square_value(false, i, s) as i64;
                let rook = f.piece() == Piece::Rook;
                let sbit = Square(s).to_bit().0;
                let on_open = open.0 & sbit != 0;
                proof {
                    lemma_bit_ops(open.0, sbit);
                    crate::bitboard::lemma_zero_iff_no_bits(open.0 & sbit);
                    if on_open {
                        let t = choose|t: int| bit_set(open.0 & sbit, t);
                        assert(t == s);
                        assert(bits(open.0).contains(s as int));
                    }
                    if open_file(p, sx(s as int)) {
                        assert(bits(open.0).contains(s as int));
                        assert(bit_set(open.0 & sbit, s as int));
                    }
                }
                if rook && on_open {
                    m = m + 25;
                }
                mg[c] = mg[c] + m;
                eg[c] = eg[c] + e;
                used_phase = used_phase + phase_weight(i) as i64;
            }
            s = s + 1;
        }
        let mut movs: [Bitboard; 12] = [Bitboard(0); 12];
        let mut mob_mg: [i64; 2] = [0, 0];
        let mut mob_eg: [i64; 2] = [0, 0];
        let mut i: usize = 0;
        while i < 12
            invariant
                i <= 12,
                self.wf(),
                self.has_king(Color::White),
                self.has_king(Color::Black),
                p == self.pieces@,
                b == *self,
                forall|c: int| 0 <= c < 2 ==> mob_mg@[c] == sum_to(mobility_terms(b, true, c), i as nat),
                forall|c: int| 0 <= c < 2 ==> mob_eg@[c] == sum_to(mobility_terms(b, false, c), i as nat),
                forall|c: int| 0 <= c < 2 ==> 0 <= #[trigger] mob_mg@[c] <= 320 * i,
                forall|c: int| 0 <= c < 2 ==> 0 <= #[trigger] mob_eg@[c] <= 320 * i,
                forall|j: int| 0 <= j < i ==> bits((#[trigger] movs@[j]).0) == movements(b)[j],
            decreases 12 - i,
        {
            proof {
                assert(i >= 10 ==> self.has_king(crate::masks::figure_color(i as int)));
            }
            let ghost before = movs@;
            let m = self.calculate_piece_mobility(i, &mut movs) as i64;
            let reach = movs[i];
            let own = self.figure_bb_by_index(i);
            movs[i] = Bitboard(reach.0 | own.0);
            proof {
                lemma_bit_ops(reach.0, own.0);
                assert forall|t: int| 0 <= t < 64 implies (p[t].idx() == i) == (p[t] == Figure::of_idx(i as int)) by {
                    p[t].lemma_idx_roundtrip();
                }
                assert(bits(movs@[i as int].0) =~= movements(b)[i as int]);
                assert forall|j: int| 0 <= j < i + 1 implies bits((#[trigger] movs@[j]).0) == movements(b)[j] by {
                    if j < i {
                        assert(movs@[j] == before[j]);
                    }
                }
            }
            let c = i % 2;
            let wm = mobility_weight(true, i / 2) as i64;
            let we = mobility_weight(false, i / 2) as i64;
            assert(0 <= wm * m <= 320 && 0 <= we * m <= 320) by (nonlinear_arith)
                requires
                    0 <= wm <= 5,
                    0 <= we <= 5,
                    0 <= m <= 64,
            ;
            mob_mg[c] = mob_mg[c] + wm * m;
            mob_eg[c] = mob_eg[c] + we * m;
            i = i + 1;
        }
        proof {
            assert(mov_sets(movs@) =~= movements(b));
        }
        let (ps_mg, ps_eg) = self.pawn_structure();
        let (bp_mg, bp_eg) = self.bishop_pair_boni();
        let (ks_mg, ks_eg) = self.king_safety(&movs);
        let doubled = self.doubled_pawn_penalties();
        let mult: i64 = match self.current_color() {
            Color::White => 1,
            Color::Black => -1,
        };
        let side_mg0 = mg[0] + mob_mg[0] + ps_mg[0] as i64 + bp_mg[0] as i64 + ks_mg[0] as i64;
        let side_mg1 = mg[1] + mob_mg[1] + ps_mg[1] as i64 + bp_mg[1] as i64 + ks_mg[1] as i64;
        let side_eg0 = eg[0] + mob_eg[0] + ps_eg[0] as i64 + bp_eg[0] as i64 + ks_eg[0] as i64;
        let side_eg1 = eg[1] + mob_eg[1] + ps_eg[1] as i64 + bp_eg[1] as i64 + ks_eg[1] as i64;
        let mg_score = side_mg0 - side_mg1 + mult * 15;
        let eg_score = side_eg0 - side_eg1 + mult * 15;
        let phase = 24 - used_phase;
        let n = phase * 256 + 12;
        let gp = if n >= 0 { n / 24 } else { -((-n) / 24) };
        assert(-2475 <= gp <= 257);
        assert(-200000 <= mg_score <= 200000);
        assert(-200000 <= eg_score <= 200000);
        assert(-200000 * 2800 <= mg_score * (256 - gp) <= 200000 * 2800) by (nonlinear_arith)
            requires
                -200000 <= mg_score <= 200000,
                0 <= 256 - gp <= 2800,
        ;
        assert(-200000 * 2500 <= eg_score * gp <= 200000 * 2500) by (nonlinear_arith)
            requires
                -200000 <= eg_score <= 200000,
                -2500 <= gp <= 2500,
        ;
        let x = mg_score * (256 - gp) + eg_score * gp;
        let score = floor_div_256(x) + doubled[0] as i64 - doubled[1] as i64;
        (score * mult) as i32
    }
}

} // verus!
