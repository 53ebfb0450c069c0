//! Counting the leaf positions of the move tree (perft), to test move generation.
use crate::board::{state_wf, Board, UnmakeInfo};
use crate::move_picker::MoveList;
use crate::types::{DecodedMove, EncodedMove, Figure, MoveType, Piece};
use rayon::iter::{IntoParallelIterator, ParallelIterator};
use vstd::prelude::*;

verus! {

/// The position `c` is the one `make_move` of `mv` leaves after `st`.
pub open spec fn state_made(st: UnmakeInfo, mv: DecodedMove, c: UnmakeInfo) -> bool {
    &&& state_wf(c)
    &&& c.pieces@ == crate::make_move::pieces_after(st.pieces@, mv, st.current_color)
    &&& c.current_color == st.current_color.spec_opposite()
    &&& c.white_queen_castle == (st.white_queen_castle && mv.from.0 != 0 && mv.to.0 != 0 && mv.from.0 != 4)
    &&& c.white_king_castle == (st.white_king_castle && mv.from.0 != 7 && mv.to.0 != 7 && mv.from.0 != 4)
    &&& c.black_queen_castle == (st.black_queen_castle && mv.from.0 != 56 && mv.to.0 != 56 && mv.from.0 != 60)
    &&& c.black_king_castle == (st.black_king_castle && mv.from.0 != 63 && mv.to.0 != 63 && mv.from.0 != 60)
    &&& c.ep_target == (if mv.mv_type == MoveType::DoubleMove {
        Some(crate::bitboard::Bitboard(1u64 << (((mv.from.0 + mv.to.0) / 2) as u64)))
    } else {
        None
    })
    &&& c.halfmove_clock == (if crate::make_move::resets_clock(st.pieces@, mv) {
        0
    } else {
        st.halfmove_clock + 1
    })
    &&& c.total_halfmove_counter == st.total_halfmove_counter + 1
}

/// The position after playing move `e` in `st`.
pub open spec fn child_state(st: UnmakeInfo, e: u16) -> UnmakeInfo {
    choose|c: UnmakeInfo| state_made(st, crate::types::spec_decode(e), c)
}

/// A board holding position `st` (its move history plays no part in generation).
pub open spec fn board_at(st: UnmakeInfo) -> Board {
    Board {
        pieces: st.pieces,
        figure_bbs: st.figure_bbs,
        color_bbs: st.color_bbs,
        occupied: st.occupied,
        current_color: st.current_color,
        white_queen_castle: st.white_queen_castle,
        white_king_castle: st.white_king_castle,
        black_queen_castle: st.black_queen_castle,
        black_king_castle: st.black_king_castle,
        ep_target: st.ep_target,
        halfmove_clock: st.halfmove_clock,
        total_halfmove_counter: st.total_halfmove_counter,
        hash: st.hash,
        history: vstd::pervasive::arbitrary(),
        repetition_stack: vstd::pervasive::arbitrary(),
    }
}

/// Both kings stand on the board.
pub open spec fn kings_on(p: Seq<Figure>) -> bool {
    &&& exists|s: int| 0 <= s < 64 && #[trigger] p[s] == Figure::WhiteKing
    &&& exists|s: int| 0 <= s < 64 && #[trigger] p[s] == Figure::BlackKing
}

/// Perft plays move `e` in `st`: `make_move` accepts it (a piece on its from square,
/// distinct squares, counters below their limit) and both kings remain.
pub open spec fn playable(st: UnmakeInfo, e: u16) -> bool {
    let d = crate::types::spec_decode(e);
    &&& d.from != d.to
    &&& st.pieces@[d.from.0 as int] != Figure::Empty
    &&& st.halfmove_clock < usize::MAX
    &&& st.total_halfmove_counter < usize::MAX
    &&& kings_on(crate::make_move::pieces_after(st.pieces@, d, st.current_color))
}

/// The leaf count below move `e` of `st`, `d` plies deep in all: 0 for a move perft
/// does not play.
pub open spec fn move_count(st: UnmakeInfo, d: nat, e: u16) -> nat
    decreases d, 0nat,
{
    if d >= 1 && playable(st, e) {
        perft_count(child_state(st, e), (d - 1) as nat)
    } else {
        0
    }
}

/// The number of leaf positions `d` plies below `st`: 1 at depth 0, the number of moves
/// generation produces at depth 1, and beyond that the leaf counts below the moves perft
/// plays, added up.
pub open spec fn perft_count(st: UnmakeInfo, d: nat) -> nat
    decreases d, 65538nat,
{
    if d == 0 {
        1
    } else if d == 1 {
        crate::search::all_moves(board_at(st)).len()
    } else {
        children_count(st, d, 65536)
    }
}

/// The leaf counts below the generated moves of `st` numbered below `n`, added up.
pub open spec fn children_count(st: UnmakeInfo, d: nat, n: int) -> nat
    decreases d, 65537nat, n,
{
    if n <= 0 || d == 0 {
        0
    } else {
        children_count(st, d, n - 1) + (if crate::search::all_moves(board_at(st)).contains((n - 1) as u16) {
            move_count(st, d, (n - 1) as u16)
        } else {
            0
        })
    }
}

/// No position within `d` plies of `st` (along the moves perft plays) has so many moves
/// that they do not fit in a move list.
pub open spec fn fits(st: UnmakeInfo, d: nat) -> bool
    decreases d, 65538nat,
{
    d == 0 || (crate::search::all_moves(board_at(st)).len() < 218 && children_fit(st, d, 65536))
}

/// `fits` below each generated move of `st` numbered below `n`.
pub open spec fn children_fit(st: UnmakeInfo, d: nat, n: int) -> bool
    decreases d, 65537nat, n,
{
    if n <= 0 || d == 0 {
        true
    } else {
        children_fit(st, d, n - 1) && (crate::search::all_moves(board_at(st)).contains((n - 1) as u16) ==> move_fits(
            st,
            d,
            (n - 1) as u16,
        ))
    }
}

/// `fits` below move `e` of `st`.
pub open spec fn move_fits(st: UnmakeInfo, d: nat, e: u16) -> bool
    decreases d, 0nat,
{
    d >= 1 && playable(st, e) ==> fits(child_state(st, e), (d - 1) as nat)
}

/// `f` added up over the members of `s` below `n`.
pub open spec fn range_sum(s: Set<u16>, f: spec_fn(u16) -> nat, n: int) -> nat
    decreases n,
{
    if n <= 0 {
        0
    } else {
        range_sum(s, f, n - 1) + (if s.contains((n - 1) as u16) {
            f((n - 1) as u16)
        } else {
            0
        })
    }
}

/// `f` added up over the entries of `q`.
pub open spec fn seq_sum(q: Seq<u16>, f: spec_fn(u16) -> nat) -> nat
    decreases q.len(),
{
    if q.len() == 0 {
        0
    } else {
        seq_sum(q.drop_last(), f) + f(q.last())
    }
}

/// Taking a member out of `s` takes its term out of the sum.
proof fn lemma_range_sum_remove(s: Set<u16>, f: spec_fn(u16) -> nat, n: int, x: u16)
    requires
        s.contains(x),
        n <= 65536,
    ensures
        range_sum(s, f, n) == range_sum(s.remove(x), f, n) + (if (x as int) < n {
            f(x)
        } else {
            0
        }),
    decreases n,
{
    if n > 0 {
        lemma_range_sum_remove(s, f, n - 1, x);
        if (n - 1) as u16 == x {
            assert(x as int == n - 1);
        }
    }
}

/// A sequence without repeats adds up to the sum over its members.
proof fn lemma_seq_sum_range(q: Seq<u16>, f: spec_fn(u16) -> nat)
    requires
        forall|i: int, j: int| 0 <= i < j < q.len() ==> q[i] != q[j],
    ensures
        seq_sum(q, f) == range_sum(q.to_set(), f, 65536),
    decreases q.len(),
{
    if q.len() == 0 {
        assert(q.to_set() =~= Set::<u16>::empty());
        lemma_range_sum_empty(f, 65536);
    } else {
        let r = q.drop_last();
        let x = q.last();
        lemma_seq_sum_range(r, f);
        assert(q.to_set().contains(x)) by {
            assert(q[q.len() - 1] == x);
        }
        lemma_range_sum_remove(q.to_set(), f, 65536, x);
        assert(q.to_set().remove(x) =~= r.to_set()) by {
            assert forall|e: u16| q.to_set().remove(x).contains(e) == r.to_set().contains(e) by {
                if r.to_set().contains(e) {
                    let i = choose|i: int| 0 <= i < r.len() && r[i] == e;
                    assert(q[i] == e);
                    assert(q[i] != q[q.len() - 1]);
                }
                if q.to_set().remove(x).contains(e) {
                    let i = choose|i: int| 0 <= i < q.len() && q[i] == e;
                    assert(i != q.len() - 1);
                    assert(r[i] == e);
                }
            }
        }
    }
}

proof fn lemma_range_sum_empty(f: spec_fn(u16) -> nat, n: int)
    ensures
        range_sum(Set::<u16>::empty(), f, n) == 0,
    decreases n,
{
    if n > 0 {
        lemma_range_sum_empty(f, n - 1);
    }
}

/// The perft count beyond one ply is the sum, over the generated moves, of the counts one
/// ply less deep below the moves perft plays (`move_count`).
pub proof fn lemma_children_count_sum(st: UnmakeInfo, d: nat, n: int)
    requires
        d >= 1,
    ensures
        children_count(st, d, n) == range_sum(
            crate::search::all_moves(board_at(st)),
            |e: u16| move_count(st, d, e),
            n,
        ),
    decreases n,
{
    if n > 0 {
        lemma_children_count_sum(st, d, n - 1);
    }
}

/// Below every generated move of a position that fits, the positions fit too.
pub proof fn lemma_children_fit(st: UnmakeInfo, d: nat, n: int, e: u16)
    requires
        children_fit(st, d, n),
        (e as int) < n,
        crate::search::all_moves(board_at(st)).contains(e),
    ensures
        move_fits(st, d, e),
    decreases n,
{
    if n > 0 && (e as int) < n - 1 {
        lemma_children_fit(st, d, n - 1, e);
    }
}

/// Generation reads the position only, not the move history.
pub proof fn lemma_same_moves(b1: Board, b2: Board)
    requires
        b1.state() == b2.state(),
    ensures
        crate::search::all_moves(b1) == crate::search::all_moves(b2),
{
    assert(b1.pieces == b2.pieces);
    assert(b1.pieces@ == b2.pieces@);
    assert(crate::generator::generated_moves(b1, false) == crate::generator::generated_moves(b2, false));
    assert(crate::generator::generated_moves(b1, true) == crate::generator::generated_moves(b2, true));
}

/// `make_move` leaves one position only: two positions it may leave are equal.
pub proof fn lemma_state_made_unique(st: UnmakeInfo, mv: DecodedMove, c1: UnmakeInfo, c2: UnmakeInfo)
    requires
        state_made(st, mv, c1),
        state_made(st, mv, c2),
    ensures
        c1 == c2,
{
    broadcast use vstd::array::group_array_axioms;
    assert(c1.pieces@ =~= c2.pieces@);
    assert(c1.pieces == c2.pieces);
    assert forall|f: int| 0 <= f < 12 implies c1.figure_bbs@[f] == c2.figure_bbs@[f] by {
        assert forall|i: int| #[trigger] crate::bitboard::bit_set(c1.figure_bbs@[f], i) == crate::bitboard::bit_set(c2.figure_bbs@[f], i) by {
            if 0 <= i < 64 {
                assert(crate::bitboard::bit_set(c1.figure_bbs@[f], i) <==> c1.pieces@[i].idx() == f);
                assert(crate::bitboard::bit_set(c2.figure_bbs@[f], i) <==> c2.pieces@[i].idx() == f);
            }
        }
        crate::bitboard::lemma_bits_injective(c1.figure_bbs@[f], c2.figure_bbs@[f]);
    }
    assert(c1.figure_bbs@ =~= c2.figure_bbs@);
    assert(c1.figure_bbs == c2.figure_bbs);
    assert forall|k: int| 0 <= k < 2 implies c1.color_bbs@[k] == c2.color_bbs@[k] by {
        assert forall|i: int| #[trigger] crate::bitboard::bit_set(c1.color_bbs@[k], i) == crate::bitboard::bit_set(c2.color_bbs@[k], i) by {
            if 0 <= i < 64 {
                if k == 0 {
                    assert(crate::bitboard::bit_set(c1.color_bbs@[0], i) == crate::bitboard::bit_set(c2.color_bbs@[0], i));
                } else {
                    assert(crate::bitboard::bit_set(c1.color_bbs@[1], i) == crate::bitboard::bit_set(c2.color_bbs@[1], i));
                }
            }
        }
        crate::bitboard::lemma_bits_injective(c1.color_bbs@[k], c2.color_bbs@[k]);
    }
    assert(c1.color_bbs@ =~= c2.color_bbs@);
    assert(c1.color_bbs == c2.color_bbs);
    assert forall|i: int| #[trigger] crate::bitboard::bit_set(c1.occupied, i) == crate::bitboard::bit_set(c2.occupied, i) by {
        if 0 <= i < 64 {
            assert(crate::bitboard::bit_set(c1.occupied, i) == crate::bitboard::bit_set(c2.occupied, i));
        }
    }
    crate::bitboard::lemma_bits_injective(c1.occupied, c2.occupied);
}

impl Board {
    /// Whether move generation can run here (see `movegen_ready`, the board being well formed).
    pub fn is_ready(&self) -> (r: bool)
        requires
            self.wf(),
        ensures
            r == self.movegen_ready(),
    {
        let w = self.king(crate::types::Color::White).0;
        let b = self.king(crate::types::Color::Black).0;
        proof {
            crate::bitboard::lemma_zero_iff_no_bits(w);
            crate::bitboard::lemma_zero_iff_no_bits(b);
            Figure::WhiteKing.lemma_figure_parts(crate::types::Color::White, Piece::King);
            Figure::BlackKing.lemma_figure_parts(crate::types::Color::Black, Piece::King);
            if w != 0 {
                let s = choose|s: int| crate::bitboard::bit_set(w, s);
                assert(self.pieces@[s] == Figure::WhiteKing);
            }
            if b != 0 {
                let s = choose|s: int| crate::bitboard::bit_set(b, s);
                assert(self.pieces@[s] == Figure::BlackKing);
            }
            if self.kings_present() {
                let s = choose|s: int| 0 <= s < 64 && #[trigger] self.pieces@[s] == Figure::WhiteKing;
                assert(crate::bitboard::bit_set(w, s));
                let t = choose|s: int| 0 <= s < 64 && #[trigger] self.pieces@[s] == Figure::BlackKing;
                assert(crate::bitboard::bit_set(b, t));
            }
        }
        let ep_ok = match self.ep_target() {
            Some(bit) => bit.0 != 0,
            None => true,
        };
        w != 0 && b != 0 && ep_ok
    }

    /// Whether `make_move` accepts `mv` here: a piece on its from square, distinct squares
    /// and move counters below their limit.
    pub fn can_make(&self, mv: &DecodedMove) -> (r: bool)
        requires
            mv.valid(),
        ensures
            r == (mv.from != mv.to && self.pieces@[mv.from.0 as int] != Figure::Empty
                && self.halfmove_clock < usize::MAX && self.total_halfmove_counter < usize::MAX),
    {
        mv.from.0 != mv.to.0 && self.figures(mv.from) != Figure::Empty && self.halfmove_clock()
            < usize::MAX && self.total_halfmove_counter() < usize::MAX
    }

    /// Plays the `i`-th move of `moves`, counts the leaves `depth - 1` plies below it, and
    /// takes the move back. Counts nothing for a move that cannot be played.
    #[verifier::spinoff_prover]
    #[verifier::rlimit(40)]
    fn perft_child(&mut self, moves: &MoveList, i: usize, depth: usize, hash_check: bool) -> (r: usize)
        requires
            old(self).movegen_ready(),
            i < moves.items().len(),
            depth >= 1,
        ensures
            final(self).movegen_ready(),
            final(self).state() == old(self).state(),
            final(self).history@ == old(self).history@,
            final(self).repetition_stack@ == old(self).repetition_stack@,
            fits(old(self).state(), depth as nat) && crate::search::all_moves(*old(self)).contains(
                moves.items()[i as int].mv.0,
            ) ==> r == capped(move_count(old(self).state(), depth as nat, moves.items()[i as int].mv.0)),
        decreases depth, 0nat,
    {
        let ghost before = *self;
        let ghost st = self.state();
        let ghost e = moves.items()[i as int].mv.0;
        let mv = moves.get(i).mv.decode();
        if !self.can_make(&mv) {
            return 0;
        }
        self.make_move(&mv);
        proof {
            assert(state_made(st, mv, self.state()));
            lemma_state_made_unique(st, mv, self.state(), child_state(st, e));
            let mid = ((mv.from.0 + mv.to.0) / 2) as u64;
            crate::bitboard::lemma_single_bit(mid);
        }
        if hash_check {
            let kept = self.hash();
            let fresh = self.generate_hash();
            assert(kept == fresh);
        }
        let n = if self.is_ready() {
            r_perft(self, depth - 1)
        } else {
            0
        };
        proof {
            if fits(st, depth as nat) && crate::search::all_moves(before).contains(e) {
                assert(crate::search::all_moves(board_at(st)) == crate::search::all_moves(before));
                lemma_children_fit(st, depth as nat, 65536, e);
            }
        }
        self.unmake_move();
        proof {
            assert(self.history@ =~= before.history@);
            assert(self.repetition_stack@ =~= before.repetition_stack@);
            assert(self.state() == before.state());
            assert(self.pieces == before.pieces);
        }
        n
    }
}

/// A count, or `usize::MAX` when it is larger.
pub open spec fn capped(x: nat) -> nat {
    if x > usize::MAX {
        usize::MAX as nat
    } else {
        x
    }
}

/// The moves of a list, in order.
pub open spec fn list_moves(items: Seq<crate::move_picker::MoveListMove>) -> Seq<u16> {
    Seq::new(items.len(), |k: int| items[k].mv.0)
}

/// When the moves of a position fit in a list, `generate_all_moves` lists each of them,
/// once.
pub proof fn lemma_full_list(b: Board, r: MoveList)
    requires
        !r.overflow ==> crate::moves::moves_in(r.items()) == crate::search::all_moves(b),
        crate::moves::moves_in(r.items()).subset_of(crate::search::all_moves(b)),
        crate::moves::no_repeats(r.items()),
        r.overflow ==> r.items().len() >= 218,
        crate::search::all_moves(b).len() < 218,
    ensures
        !r.overflow,
        list_moves(r.items()).to_set() == crate::search::all_moves(b),
        crate::search::all_moves(b).finite(),
        forall|i: int, j: int| 0 <= i < j < list_moves(r.items()).len() ==> list_moves(r.items())[i] != list_moves(r.items())[j],
{
    let items = r.items();
    let all = crate::search::all_moves(b);
    crate::moves::lemma_no_repeats_len(items);
    broadcast use vstd::set_lib::full_set_properties;
    assert(Set::<u16>::full().finite());
    vstd::set_lib::lemma_set_subset_finite(Set::<u16>::full(), all);
    if r.overflow {
        vstd::set_lib::lemma_len_subset(crate::moves::moves_in(items), all);
    }
    let q = list_moves(items);
    assert(q.to_set() =~= crate::moves::moves_in(items)) by {
        assert forall|e: u16| q.to_set().contains(e) == crate::moves::moves_in(items).contains(e) by {
            if crate::moves::moves_in(items).contains(e) {
                let k = choose|k: int| 0 <= k < items.len() && (#[trigger] items[k]).mv.0 == e;
                assert(q[k] == e);
            }
            if q.to_set().contains(e) {
                let k = choose|k: int| 0 <= k < q.len() && q[k] == e;
                assert(items[k].mv.0 == e);
            }
        }
    }
    assert forall|i: int, j: int| 0 <= i < j < q.len() implies q[i] != q[j] by {
        assert(items[i].mv.0 != items[j].mv.0);
    }
}

/// The number of leaf positions `depth` plies below `board`, counting each generated move
/// (moves that cannot be played count nothing): `perft_count`, when the moves of every
/// position on the way fit in a move list, and `usize::MAX` when that is larger. One ply
/// deep that is the number of moves generation produces. The board is left as it was.
pub fn r_perft(board: &mut Board, depth: usize) -> (r: usize)
    requires
        old(board).movegen_ready(),
    ensures
        final(board).movegen_ready(),
        final(board).state() == old(board).state(),
        final(board).history@ == old(board).history@,
        final(board).repetition_stack@ == old(board).repetition_stack@,
        depth == 0 ==> r == 1,
        depth == 1 && r < 218 ==> r == crate::search::all_moves(*old(board)).len(),
        fits(old(board).state(), depth as nat) ==> r == capped(perft_count(old(board).state(), depth as nat)),
    decreases depth, 1nat,
{
    if depth == 0 {
        return 1;
    }
    let ghost st = board.state();
    let moves = board.generate_all_moves();
    proof {
        assert(crate::search::all_moves(board_at(st)) == crate::search::all_moves(*board));
        if fits(st, depth as nat) {
            lemma_full_list(*board, moves);
        }
    }
    if depth == 1 {
        proof {
            crate::moves::lemma_no_repeats_len(moves.items());
        }
        return moves.len();
    }
    let ghost start = *board;
    let ghost q = list_moves(moves.items());
    let ghost f = |e: u16| move_count(st, depth as nat, e);
    let mut nodes: usize = 0;
    let mut i: usize = 0;
    while i < moves.len()
        invariant
            depth >= 2,
            board.movegen_ready(),
            board.state() == start.state(),
            board.history@ == start.history@,
            board.repetition_stack@ == start.repetition_stack@,
            st == start.state(),
            q == list_moves(moves.items()),
            i <= moves.items().len(),
            f == (|e: u16| move_count(st, depth as nat, e)),
            crate::search::all_moves(board_at(st)) == crate::search::all_moves(start),
            fits(st, depth as nat) ==> list_moves(moves.items()).to_set() == crate::search::all_moves(start),
            fits(st, depth as nat) ==> nodes == capped(seq_sum(q.take(i as int), f)),
        decreases moves.items().len() - i,
    {
        let n = board.perft_child(&moves, i, depth, false);
        proof {
            if fits(st, depth as nat) {
                assert(q.to_set().contains(q[i as int]));
                assert(q.take(i + 1).drop_last() =~= q.take(i as int));
                assert(q.take(i + 1).last() == q[i as int]);
            }
        }
        nodes = nodes.saturating_add(n);
        i = i + 1;
    }
    proof {
        if fits(st, depth as nat) {
            assert(q.take(q.len() as int) =~= q);
            lemma_seq_sum_range(q, f);
            lemma_children_count_sum(st, depth as nat, 65536);
        }
    }
    nodes
}

/// The moves of `q` that perft plays in `st`, in their order.
pub open spec fn playable_moves(st: UnmakeInfo, q: Seq<u16>) -> Seq<u16>
    decreases q.len(),
{
    if q.len() == 0 {
        seq![]
    } else if playable(st, q.last()) {
        playable_moves(st, q.drop_last()).push(q.last())
    } else {
        playable_moves(st, q.drop_last())
    }
}

/// The positions after each move of `ms` in `st`.
pub open spec fn child_states(st: UnmakeInfo, ms: Seq<u16>) -> Seq<UnmakeInfo> {
    Seq::new(ms.len(), |k: int| child_state(st, ms[k]))
}

/// The leaf counts `d` plies below each position of `cs`, added up.
pub open spec fn counts_sum(cs: Seq<UnmakeInfo>, d: nat) -> nat
    decreases cs.len(),
{
    if cs.len() == 0 {
        0
    } else {
        counts_sum(cs.drop_last(), d) + perft_count(cs.last(), d)
    }
}

/// Counting below the positions after the playable moves of `q` adds up `move_count`
/// over `q`.
proof fn lemma_counts_sum_moves(st: UnmakeInfo, q: Seq<u16>, d: nat)
    requires
        d >= 1,
    ensures
        counts_sum(child_states(st, playable_moves(st, q)), (d - 1) as nat) == seq_sum(q, |e: u16| move_count(st, d, e)),
    decreases q.len(),
{
    if q.len() > 0 {
        let r = q.drop_last();
        lemma_counts_sum_moves(st, r, d);
        let p = playable_moves(st, r);
        if playable(st, q.last()) {
            assert(child_states(st, p.push(q.last())).drop_last() =~= child_states(st, p));
        }
    } else {
        assert(child_states(st, playable_moves(st, q)) =~= Seq::<UnmakeInfo>::empty());
    }
}

/// Each move of `playable_moves(st, q)` is a playable entry of `q`.
pub proof fn lemma_playable_moves_in(st: UnmakeInfo, q: Seq<u16>, i: int)
    requires
        0 <= i < playable_moves(st, q).len(),
    ensures
        q.contains(playable_moves(st, q)[i]),
        playable(st, playable_moves(st, q)[i]),
    decreases q.len(),
{
    let r = q.drop_last();
    if playable(st, q.last()) && i == playable_moves(st, r).len() {
        assert(q[q.len() - 1] == q.last());
    } else {
        lemma_playable_moves_in(st, r, i);
        let x = playable_moves(st, r)[i];
        let j = choose|j: int| 0 <= j < r.len() && r[j] == x;
        assert(q[j] == x);
    }
}

/// A list without repeats has playable moves without repeats.
pub proof fn lemma_playable_moves_distinct(st: UnmakeInfo, q: Seq<u16>)
    requires
        forall|i: int, j: int| 0 <= i < j < q.len() ==> q[i] != q[j],
    ensures
        forall|i: int, j: int| 0 <= i < j < playable_moves(st, q).len() ==> playable_moves(st, q)[i] != playable_moves(st, q)[j],
    decreases q.len(),
{
    if q.len() > 0 {
        let r = q.drop_last();
        lemma_playable_moves_distinct(st, r);
        let p = playable_moves(st, r);
        if playable(st, q.last()) {
            assert forall|i: int| 0 <= i < p.len() implies p[i] != q.last() by {
                lemma_playable_moves_in(st, r, i);
                let j = choose|j: int| 0 <= j < r.len() && r[j] == p[i];
                assert(q[j] == r[j]);
            }
        }
    }
}

/// Every playable entry of `q` is among its playable moves.
pub proof fn lemma_playable_moves_all(st: UnmakeInfo, q: Seq<u16>, e: u16)
    requires
        q.contains(e),
        playable(st, e),
    ensures
        playable_moves(st, q).contains(e),
    decreases q.len(),
{
    let r = q.drop_last();
    if q.last() == e {
        assert(playable_moves(st, q).last() == e);
    } else {
        let j = choose|j: int| 0 <= j < q.len() && q[j] == e;
        assert(j < q.len() - 1);
        assert(r[j] == e);
        lemma_playable_moves_all(st, r, e);
        let k = choose|k: int| 0 <= k < playable_moves(st, r).len() && playable_moves(st, r)[k] == e;
        assert(playable_moves(st, q)[k] == e);
    }
}

/// `make_move` accepts move `e` in `st`: a piece on its from square, distinct squares,
/// counters below their limit.
pub open spec fn accepted(st: UnmakeInfo, e: u16) -> bool {
    let d = crate::types::spec_decode(e);
    &&& d.from != d.to
    &&& st.pieces@[d.from.0 as int] != Figure::Empty
    &&& st.halfmove_clock < usize::MAX
    &&& st.total_halfmove_counter < usize::MAX
}

/// The leaf count of a detailed perft `d` plies below `st`: 1 at depth 0, otherwise the
/// counts below the moves perft plays, added up.
pub open spec fn detailed_count(st: UnmakeInfo, d: nat) -> nat
    decreases d, 65538nat,
{
    if d == 0 {
        1
    } else {
        detailed_children(st, d, 65536)
    }
}

/// `detailed_move` added up over the generated moves of `st` numbered below `n`.
pub open spec fn detailed_children(st: UnmakeInfo, d: nat, n: int) -> nat
    decreases d, 65537nat, n,
{
    if n <= 0 || d == 0 {
        0
    } else {
        detailed_children(st, d, n - 1) + (if crate::search::all_moves(board_at(st)).contains((n - 1) as u16) {
            detailed_move(st, d, (n - 1) as u16)
        } else {
            0
        })
    }
}

/// The detailed leaf count below move `e` of `st`: 0 for a move perft does not play.
pub open spec fn detailed_move(st: UnmakeInfo, d: nat, e: u16) -> nat
    decreases d, 0nat,
{
    if d >= 1 && playable(st, e) {
        detailed_count(child_state(st, e), (d - 1) as nat)
    } else {
        0
    }
}

/// Whether a move of type `t` is counted in field `c` of the logs (in the order captures,
/// normal promotions, capture promotions, queen side castles, king side castles, en
/// passant captures, double moves; see `recorded`).
pub open spec fn logged(c: int, t: MoveType) -> bool {
    let promo = t == MoveType::KnightPromo || t == MoveType::BishopPromo || t == MoveType::RookPromo || t
        == MoveType::QueenPromo;
    let promo_capture = t == MoveType::KnightPromoCapture || t == MoveType::BishopPromoCapture || t
        == MoveType::RookPromoCapture || t == MoveType::QueenPromoCapture;
    if c == 0 {
        t == MoveType::Capture || promo_capture
    } else if c == 1 {
        promo
    } else if c == 2 {
        promo_capture
    } else if c == 3 {
        t == MoveType::QueenCastle
    } else if c == 4 {
        t == MoveType::KingCastle
    } else if c == 5 {
        t == MoveType::EpCapture
    } else if c == 6 {
        t == MoveType::DoubleMove
    } else {
        false
    }
}

/// Field `c` of the logs (see `logged`).
pub open spec fn log_field(l: PerftLogs, c: int) -> nat {
    if c == 0 {
        l.captures as nat
    } else if c == 1 {
        l.normal_promotions as nat
    } else if c == 2 {
        l.capture_promotions as nat
    } else if c == 3 {
        l.queen_castles as nat
    } else if c == 4 {
        l.king_castles as nat
    } else if c == 5 {
        l.ep_captures as nat
    } else {
        l.double_moves as nat
    }
}

/// How many moves counted in field `c` a detailed perft `d` plies deep from `st` meets:
/// every move `make_move` accepts, at every level.
pub open spec fn kind_count(st: UnmakeInfo, d: nat, c: int) -> nat
    decreases d, 65538nat,
{
    if d == 0 {
        0
    } else {
        kind_children(st, d, c, 65536)
    }
}

/// `kind_move` added up over the generated moves of `st` numbered below `n`.
pub open spec fn kind_children(st: UnmakeInfo, d: nat, c: int, n: int) -> nat
    decreases d, 65537nat, n,
{
    if n <= 0 || d == 0 {
        0
    } else {
        kind_children(st, d, c, n - 1) + (if crate::search::all_moves(board_at(st)).contains((n - 1) as u16) {
            kind_move(st, d, c, (n - 1) as u16)
        } else {
            0
        })
    }
}

/// The moves counted in field `c` that move `e` of `st` and the search below it meet.
pub open spec fn kind_move(st: UnmakeInfo, d: nat, c: int, e: u16) -> nat
    decreases d, 0nat,
{
    (if accepted(st, e) && logged(c, crate::types::spec_decode(e).mv_type) {
        1nat
    } else {
        0nat
    }) + (if d >= 1 && playable(st, e) {
        kind_count(child_state(st, e), (d - 1) as nat, c)
    } else {
        0nat
    })
}

proof fn lemma_detailed_children_sum(st: UnmakeInfo, d: nat, n: int)
    requires
        d >= 1,
    ensures
        detailed_children(st, d, n) == range_sum(
            crate::search::all_moves(board_at(st)),
            |e: u16| detailed_move(st, d, e),
            n,
        ),
    decreases n,
{
    if n > 0 {
        lemma_detailed_children_sum(st, d, n - 1);
    }
}

proof fn lemma_kind_children_sum(st: UnmakeInfo, d: nat, c: int, n: int)
    requires
        d >= 1,
    ensures
        kind_children(st, d, c, n) == range_sum(
            crate::search::all_moves(board_at(st)),
            |e: u16| kind_move(st, d, c, e),
            n,
        ),
    decreases n,
{
    if n > 0 {
        lemma_kind_children_sum(st, d, c, n - 1);
    }
}

/// Recording a move bumps exactly the fields that count its type.
proof fn lemma_recorded_fields(l: PerftLogs, t: MoveType, c: int)
    requires
        0 <= c < 7,
    ensures
        log_field(recorded(l, t), c) == (if logged(c, t) { capped(log_field(l, c) + 1) } else { log_field(l, c) }),
{
}

/// Capping once at the end is the same as capping along the way.
proof fn lemma_capped_add(x: nat, y: nat)
    ensures
        capped(capped(x) + y) == capped(x + y),
{
}

/// Adds two leaf counts, staying at `usize::MAX` instead of overflowing.
pub fn add_counts(a: usize, b: usize) -> (r: usize)
    ensures
        r == (if a + b > usize::MAX { usize::MAX as int } else { a + b }),
{
    a.saturating_add(b)
}

/// rayon's `into_par_iter`, `map` and `reduce`: runs `r_perft` on every board in parallel
/// and combines the counts with `add_counts`, starting from 0. rayon's documentation has
/// `reduce` combine all items with the operation and the identity given; as saturating
/// addition is associative, the result is the capped sum of the counts, each of which
/// `r_perft` gives as its `ensures` states. Nothing is claimed where a board does not fit.
#[verifier::external_body]
fn par_perft_sum(boards: Vec<Board>, depth: usize) -> (r: usize)
    requires
        forall|i: int| 0 <= i < boards@.len() ==> (#[trigger] boards@[i]).movegen_ready(),
    ensures
        (forall|i: int| 0 <= i < boards@.len() ==> fits((#[trigger] boards@[i]).state(), depth as nat)) ==> r
            == capped(counts_sum(Seq::new(boards@.len(), |i: int| boards@[i].state()), depth as nat)),
{
    boards.into_par_iter().map(|mut b| r_perft(&mut b, depth)).reduce(|| 0, add_counts)
}

/// The boards after each playable move of `moves`, in the list's order (see
/// `playable_moves`), `board` being left as it was.
fn child_boards(board: &mut Board, moves: &MoveList) -> (r: Vec<Board>)
    requires
        old(board).movegen_ready(),
    ensures
        final(board).movegen_ready(),
        final(board).state() == old(board).state(),
        final(board).history@ == old(board).history@,
        final(board).repetition_stack@ == old(board).repetition_stack@,
        forall|i: int| 0 <= i < r@.len() ==> (#[trigger] r@[i]).movegen_ready(),
        r@.len() == playable_moves(old(board).state(), list_moves(moves.items())).len(),
        forall|i: int| 0 <= i < r@.len() ==> (#[trigger] r@[i]).state() == child_states(
            old(board).state(),
            playable_moves(old(board).state(), list_moves(moves.items())),
        )[i],
{
    let mut out: Vec<Board> = Vec::new();
    let mut i: usize = 0;
    let ghost start = *board;
    let ghost st = board.state();
    let ghost q = list_moves(moves.items());
    while i < moves.len()
        invariant
            board.movegen_ready(),
            board.state() == start.state(),
            board.history@ == start.history@,
            board.repetition_stack@ == start.repetition_stack@,
            start == *old(board),
            st == start.state(),
            q == list_moves(moves.items()),
            i <= moves.items().len(),
            forall|j: int| 0 <= j < out@.len() ==> (#[trigger] out@[j]).movegen_ready(),
            out@.len() == playable_moves(st, q.take(i as int)).len(),
            forall|j: int| 0 <= j < out@.len() ==> (#[trigger] out@[j]).state() == child_states(
                st,
                playable_moves(st, q.take(i as int)),
            )[j],
        decreases moves.items().len() - i,
    {
        let ghost e = moves.items()[i as int].mv.0;
        let ghost before = out@;
        proof {
            assert(q.take(i + 1).drop_last() =~= q.take(i as int));
            assert(q.take(i + 1).last() == e);
        }
        let mv = moves.get(i).mv.decode();
        if board.can_make(&mv) {
            let mut child = board.clone_board();
            child.make_move(&mv);
            proof {
                assert(state_made(st, mv, child.state()));
                lemma_state_made_unique(st, mv, child.state(), child_state(st, e));
                let mid = ((mv.from.0 + mv.to.0) / 2) as u64;
                crate::bitboard::lemma_single_bit(mid);
            }
            if child.is_ready() {
                out.push(child);
                proof {
                    assert forall|j: int| 0 <= j < out@.len() implies (#[trigger] out@[j]).state() == child_states(
                        st,
                        playable_moves(st, q.take(i + 1)),
                    )[j] by {
                        if j < before.len() {
                            assert(out@[j] == before[j]);
                        }
                    }
                }
            }
        }
        i = i + 1;
    }
    proof {
        assert(q.take(q.len() as int) =~= q);
    }
    out
}

/// `r_perft` with the subtrees below the root counted in parallel.
pub fn r_perft_rayon(board: &mut Board, depth: usize) -> (r: usize)
    requires
        old(board).movegen_ready(),
    ensures
        final(board).movegen_ready(),
        final(board).state() == old(board).state(),
        final(board).history@ == old(board).history@,
        final(board).repetition_stack@ == old(board).repetition_stack@,
        depth == 0 ==> r == 1,
        depth >= 1 && fits(old(board).state(), depth as nat) ==> r == capped(children_count(old(board).state(), depth as nat, 65536)),
        depth >= 2 && fits(old(board).state(), depth as nat) ==> r == capped(perft_count(old(board).state(), depth as nat)),
{
    if depth == 0 {
        return 1;
    }
    let ghost st = board.state();
    let moves = board.generate_all_moves();
    let ghost q = list_moves(moves.items());
    proof {
        assert(crate::search::all_moves(board_at(st)) == crate::search::all_moves(*board));
        if fits(st, depth as nat) {
            lemma_full_list(*board, moves);
        }
    }
    let children = child_boards(board, &moves);
    proof {
        let ms = playable_moves(st, q);
        let cs = Seq::new(children@.len(), |i: int| children@[i].state());
        assert(cs =~= child_states(st, ms));
        if fits(st, depth as nat) {
            assert forall|i: int| 0 <= i < children@.len() implies fits((#[trigger] children@[i]).state(), (depth - 1) as nat) by {
                lemma_playable_moves_in(st, q, i);
                assert(q.to_set().contains(ms[i]));
                lemma_children_fit(st, depth as nat, 65536, ms[i]);
            }
            lemma_counts_sum_moves(st, q, depth as nat);
            lemma_seq_sum_range(q, |e: u16| move_count(st, depth as nat, e));
            lemma_children_count_sum(st, depth as nat, 65536);
        }
    }
    par_perft_sum(children, depth - 1)
}

/// `r_perft`, also checking after every move at the root that the hash kept up to date
/// equals the hash computed from scratch (which the board's invariant guarantees).
pub fn hash_test_perft(board: &mut Board, depth: usize) -> (r: usize)
    requires
        old(board).movegen_ready(),
    ensures
        final(board).movegen_ready(),
        final(board).state() == old(board).state(),
        final(board).history@ == old(board).history@,
        final(board).repetition_stack@ == old(board).repetition_stack@,
        depth == 0 ==> r == 1,
        depth >= 1 && fits(old(board).state(), depth as nat) ==> r == capped(children_count(old(board).state(), depth as nat, 65536)),
        depth >= 2 && fits(old(board).state(), depth as nat) ==> r == capped(perft_count(old(board).state(), depth as nat)),
{
    if depth == 0 {
        return 1;
    }
    let ghost st = board.state();
    let moves = board.generate_all_moves();
    proof {
        assert(crate::search::all_moves(board_at(st)) == crate::search::all_moves(*board));
        if fits(st, depth as nat) {
            lemma_full_list(*board, moves);
        }
    }
    let ghost start = *board;
    let ghost q = list_moves(moves.items());
    let ghost f = |e: u16| move_count(st, depth as nat, e);
    let mut nodes: usize = 0;
    let mut i: usize = 0;
    while i < moves.len()
        invariant
            depth >= 1,
            board.movegen_ready(),
            board.state() == start.state(),
            board.history@ == start.history@,
            board.repetition_stack@ == start.repetition_stack@,
            st == start.state(),
            q == list_moves(moves.items()),
            i <= moves.items().len(),
            f == (|e: u16| move_count(st, depth as nat, e)),
            crate::search::all_moves(board_at(st)) == crate::search::all_moves(start),
            fits(st, depth as nat) ==> list_moves(moves.items()).to_set() == crate::search::all_moves(start),
            fits(st, depth as nat) ==> nodes == capped(seq_sum(q.take(i as int), f)),
        decreases moves.items().len() - i,
    {
        let n = board.perft_child(&moves, i, depth, true);
        proof {
            if fits(st, depth as nat) {
                assert(q.to_set().contains(q[i as int]));
                assert(q.take(i + 1).drop_last() =~= q.take(i as int));
                assert(q.take(i + 1).last() == q[i as int]);
            }
        }
        nodes = nodes.saturating_add(n);
        i = i + 1;
    }
    proof {
        if fits(st, depth as nat) {
            assert(q.take(q.len() as int) =~= q);
            lemma_seq_sum_range(q, f);
            lemma_children_count_sum(st, depth as nat, 65536);
        }
    }
    nodes
}


/// Counts of the kinds of moves met in a detailed perft.
pub struct PerftLogs {
    pub captures: usize,
    pub normal_promotions: usize,
    pub capture_promotions: usize,
    pub queen_castles: usize,
    pub king_castles: usize,
    pub ep_captures: usize,
    pub double_moves: usize,
}

/// One more, staying at `usize::MAX`.
pub open spec fn bump(n: usize) -> usize {
    if n == usize::MAX {
        n
    } else {
        (n + 1) as usize
    }
}

/// The counts after meeting a move of type `t`: promotions that capture count as captures
/// and as capture promotions; quiet moves count nowhere.
pub open spec fn recorded(l: PerftLogs, t: MoveType) -> PerftLogs {
    match t {
        MoveType::Quiet => l,
        MoveType::DoubleMove => PerftLogs { double_moves: bump(l.double_moves), ..l },
        MoveType::KingCastle => PerftLogs { king_castles: bump(l.king_castles), ..l },
        MoveType::QueenCastle => PerftLogs { queen_castles: bump(l.queen_castles), ..l },
        MoveType::Capture => PerftLogs { captures: bump(l.captures), ..l },
        MoveType::EpCapture => PerftLogs { ep_captures: bump(l.ep_captures), ..l },
        MoveType::KnightPromo | MoveType::BishopPromo | MoveType::RookPromo | MoveType::QueenPromo =>
            PerftLogs { normal_promotions: bump(l.normal_promotions), ..l },
        _ => PerftLogs { captures: bump(l.captures), capture_promotions: bump(l.capture_promotions), ..l },
    }
}

/// A promotion is counted by whether it captures, never by the piece the pawn becomes: a
/// promotion that does not capture adds one to the normal promotions and nothing else, one
/// that captures adds one to the captures and to the capture promotions and nothing else,
/// so two promotions with the same capture flag are counted alike, in the logs and in the
/// fields `logged` assigns them to.
pub proof fn lemma_promotions_counted(l: PerftLogs, t1: MoveType, t2: MoveType)
    requires
        t1.spec_is_promotion(),
        t2.spec_is_promotion(),
        t1.spec_is_capture() == t2.spec_is_capture(),
    ensures
        !t1.spec_is_capture() ==> recorded(l, t1) == (PerftLogs { normal_promotions: bump(l.normal_promotions), ..l }),
        t1.spec_is_capture() ==> recorded(l, t1) == (PerftLogs {
            captures: bump(l.captures),
            capture_promotions: bump(l.capture_promotions),
            ..l
        }),
        recorded(l, t1) == recorded(l, t2),
        logged(1, t1) == !t1.spec_is_capture(),
        logged(2, t1) == t1.spec_is_capture(),
        forall|c: int| #[trigger] logged(c, t1) == logged(c, t2),
{
    crate::types::lemma_move_type_flags(t1);
    crate::types::lemma_move_type_flags(t2);
}

/// Each field of the logs counts the moves of one kind, read from the type's capture and
/// promotion flags: captures other than en passant (promotions that capture among them),
/// promotions that do not capture, promotions that capture, each castle, en passant
/// captures and double pawn steps; recording a move adds one to the fields of its kind and
/// leaves the others, and `logged` names the same fields.
pub proof fn lemma_recorded_by_kind(l: PerftLogs, t: MoveType)
    ensures
        ({
            let cap = t.spec_is_capture() && t != MoveType::EpCapture;
            let promo = t.spec_is_promotion() && !t.spec_is_capture();
            let promo_cap = t.spec_is_promotion() && t.spec_is_capture();
            let r = recorded(l, t);
            &&& r.captures == (if cap { bump(l.captures) } else { l.captures })
            &&& r.normal_promotions == (if promo { bump(l.normal_promotions) } else { l.normal_promotions })
            &&& r.capture_promotions == (if promo_cap { bump(l.capture_promotions) } else { l.capture_promotions })
            &&& r.queen_castles == (if t == MoveType::QueenCastle { bump(l.queen_castles) } else { l.queen_castles })
            &&& r.king_castles == (if t == MoveType::KingCastle { bump(l.king_castles) } else { l.king_castles })
            &&& r.ep_captures == (if t == MoveType::EpCapture { bump(l.ep_captures) } else { l.ep_captures })
            &&& r.double_moves == (if t == MoveType::DoubleMove { bump(l.double_moves) } else { l.double_moves })
            &&& logged(0, t) == cap
            &&& logged(1, t) == promo
            &&& logged(2, t) == promo_cap
            &&& logged(3, t) == (t == MoveType::QueenCastle)
            &&& logged(4, t) == (t == MoveType::KingCastle)
            &&& logged(5, t) == (t == MoveType::EpCapture)
            &&& logged(6, t) == (t == MoveType::DoubleMove)
        }),
{
    crate::types::lemma_move_type_flags(t);
}

fn bumped(n: usize) -> (r: usize)
    ensures
        r == bump(n),
{
    n.saturating_add(1)
}

impl PerftLogs {
    pub fn new() -> (r: PerftLogs)
        ensures
            r.captures == 0 && r.normal_promotions == 0 && r.capture_promotions == 0 && r.queen_castles == 0
                && r.king_castles == 0 && r.ep_captures == 0 && r.double_moves == 0,
    {
        PerftLogs {
            captures: 0,
            normal_promotions: 0,
            capture_promotions: 0,
            queen_castles: 0,
            king_castles: 0,
            ep_captures: 0,
            double_moves: 0,
        }
    }

    /// Counts a move of type `t` (see `recorded`).
    pub fn record(&mut self, t: MoveType)
        ensures
            *final(self) == recorded(*old(self), t),
    {
        match t {
            MoveType::Quiet => {},
            MoveType::DoubleMove => self.double_moves = bumped(self.double_moves),
            MoveType::KingCastle => self.king_castles = bumped(self.king_castles),
            MoveType::QueenCastle => self.queen_castles = bumped(self.queen_castles),
            MoveType::Capture => self.captures = bumped(self.captures),
            MoveType::EpCapture => self.ep_captures = bumped(self.ep_captures),
            MoveType::KnightPromo | MoveType::BishopPromo | MoveType::RookPromo | MoveType::QueenPromo => {
                self.normal_promotions = bumped(self.normal_promotions);
            },
            _ => {
                self.captures = bumped(self.captures);
                self.capture_promotions = bumped(self.capture_promotions);
            },
        }
    }
}

/// `r_perft` that also counts, in `perft_logs`, the kind of every move played below the
/// root position.
#[verifier::rlimit(100)]
pub fn r_detailed_perft(board: &mut Board, depth: usize, perft_logs: &mut PerftLogs) -> (r: usize)
    requires
        old(board).movegen_ready(),
    ensures
        final(board).movegen_ready(),
        final(board).state() == old(board).state(),
        final(board).history@ == old(board).history@,
        final(board).repetition_stack@ == old(board).repetition_stack@,
        depth == 0 ==> r == 1 && *final(perft_logs) == *old(perft_logs),
        fits(old(board).state(), depth as nat) ==> r == capped(detailed_count(old(board).state(), depth as nat)),
        fits(old(board).state(), depth as nat) ==> forall|c: int| 0 <= c < 7 ==> #[trigger] log_field(*final(perft_logs), c)
            == capped(log_field(*old(perft_logs), c) + kind_count(old(board).state(), depth as nat, c)),
    decreases depth,
{
    if depth == 0 {
        return 1;
    }
    let ghost st = board.state();
    let ghost l0 = *perft_logs;
    let moves = board.generate_all_moves();
    let ghost q = list_moves(moves.items());
    let ghost fitting = fits(st, depth as nat);
    proof {
        assert(crate::search::all_moves(board_at(st)) == crate::search::all_moves(*board));
        if fitting {
            lemma_full_list(*board, moves);
        }
    }
    let ghost start = *board;
    let ghost dm = |e: u16| detailed_move(st, depth as nat, e);
    let mut nodes: usize = 0;
    let mut i: usize = 0;
    while i < moves.len()
        invariant
            depth >= 1,
            board.movegen_ready(),
            board.state() == start.state(),
            board.history@ == start.history@,
            board.repetition_stack@ == start.repetition_stack@,
            st == start.state(),
            q == list_moves(moves.items()),
            i <= moves.items().len(),
            dm == (|e: u16| detailed_move(st, depth as nat, e)),
            fitting == fits(st, depth as nat),
            crate::search::all_moves(board_at(st)) == crate::search::all_moves(start),
            fitting ==> q.to_set() == crate::search::all_moves(start),
            fitting ==> nodes == capped(seq_sum(q.take(i as int), dm)),
            fitting ==> forall|c: int| 0 <= c < 7 ==> #[trigger] log_field(*perft_logs, c) == capped(
                log_field(l0, c) + seq_sum(q.take(i as int), |e: u16| kind_move(st, depth as nat, c, e)),
            ),
        decreases moves.items().len() - i,
    {
        let ghost e = moves.items()[i as int].mv.0;
        let ghost lpre = *perft_logs;
        proof {
            assert(q.take(i + 1).drop_last() =~= q.take(i as int));
            assert(q.take(i + 1).last() == e);
            if fitting {
                assert(q.to_set().contains(e));
                lemma_children_fit(st, depth as nat, 65536, e);
            }
        }
        let mv = moves.get(i).mv.decode();
        if board.can_make(&mv) {
            let ghost before = *board;
            board.make_move(&mv);
            proof {
                assert(state_made(st, mv, board.state()));
                lemma_state_made_unique(st, mv, board.state(), child_state(st, e));
                let mid = ((mv.from.0 + mv.to.0) / 2) as u64;
                crate::bitboard::lemma_single_bit(mid);
            }
            if board.is_ready() {
                let n = r_detailed_perft(board, depth - 1, perft_logs);
                proof {
                    if fitting {
                        lemma_capped_add(seq_sum(q.take(i as int), dm), n as nat);
                    }
                }
                nodes = nodes.saturating_add(n);
            }
            let ghost lmid = *perft_logs;
            board.unmake_move();
            proof {
                assert(board.history@ =~= before.history@);
                assert(board.repetition_stack@ =~= before.repetition_stack@);
                assert(board.pieces == before.pieces);
            }
            perft_logs.record(mv.mv_type);
            proof {
                if fitting {
                    assert forall|c: int| 0 <= c < 7 implies #[trigger] log_field(*perft_logs, c) == capped(
                        log_field(l0, c) + seq_sum(q.take(i + 1), |x: u16| kind_move(st, depth as nat, c, x)),
                    ) by {
                        let g = |x: u16| kind_move(st, depth as nat, c, x);
                        let s0 = seq_sum(q.take(i as int), g);
                        lemma_recorded_fields(lmid, mv.mv_type, c);
                        assert(log_field(lpre, c) == capped(log_field(l0, c) + s0));
                        let k: nat = if playable(st, e) { kind_count(child_state(st, e), (depth - 1) as nat, c) } else { 0 };
                        assert(log_field(lmid, c) == capped(log_field(lpre, c) + k));
                        lemma_capped_add(log_field(l0, c) + s0, k);
                        let w: nat = if logged(c, mv.mv_type) { 1 } else { 0 };
                        lemma_capped_add(log_field(l0, c) + s0 + k, w);
                        assert(g(e) == w + k);
                        assert(seq_sum(q.take(i + 1), g) == s0 + g(e));
                    }
                }
            }
        } else {
            proof {
                if fitting {
                    assert forall|c: int| 0 <= c < 7 implies #[trigger] log_field(*perft_logs, c) == capped(
                        log_field(l0, c) + seq_sum(q.take(i + 1), |x: u16| kind_move(st, depth as nat, c, x)),
                    ) by {
                        let g = |x: u16| kind_move(st, depth as nat, c, x);
                        assert(g(e) == 0);
                        assert(seq_sum(q.take(i + 1), g) == seq_sum(q.take(i as int), g) + g(e));
                    }
                }
            }
        }
        i = i + 1;
    }
    proof {
        if fitting {
            assert(q.take(q.len() as int) =~= q);
            lemma_seq_sum_range(q, dm);
            lemma_detailed_children_sum(st, depth as nat, 65536);
            assert forall|c: int| 0 <= c < 7 implies #[trigger] log_field(*perft_logs, c) == capped(
                log_field(l0, c) + kind_count(st, depth as nat, c),
            ) by {
                let g = |x: u16| kind_move(st, depth as nat, c, x);
                lemma_seq_sum_range(q, g);
                lemma_kind_children_sum(st, depth as nat, c, 65536);
            }
        }
    }
    nodes
}

/// The leaf count below each generated root move, in generation order, each move once:
/// what perft divide prints. A move that cannot be played counts nothing.
pub fn perft_divide(board: &mut Board, depth: usize) -> (r: Vec<(EncodedMove, usize)>)
    requires
        old(board).movegen_ready(),
        depth >= 1,
    ensures
        final(board).movegen_ready(),
        final(board).state() == old(board).state(),
        final(board).history@ == old(board).history@,
        final(board).repetition_stack@ == old(board).repetition_stack@,
        forall|k: int| 0 <= k < r@.len() ==> crate::search::all_moves(*old(board)).contains((#[trigger] r@[k]).0.0),
        forall|k: int, l: int| 0 <= k < l < r@.len() ==> (#[trigger] r@[k]).0 != (#[trigger] r@[l]).0,
        r@.len() < 218 ==> forall|e: u16| #[trigger] crate::search::all_moves(*old(board)).contains(e)
            ==> exists|k: int| 0 <= k < r@.len() && (#[trigger] r@[k]).0.0 == e,
        fits(old(board).state(), depth as nat) ==> forall|k: int| 0 <= k < r@.len() ==> (#[trigger] r@[k]).1
            == capped(move_count(old(board).state(), depth as nat, r@[k].0.0)),
{
    let moves = board.generate_all_moves();
    let ghost start = *board;
    let ghost all = crate::search::all_moves(start);
    let mut out: Vec<(EncodedMove, usize)> = Vec::new();
    let mut i: usize = 0;
    while i < moves.len()
        invariant
            board.movegen_ready(),
            board.state() == start.state(),
            board.history@ == start.history@,
            board.repetition_stack@ == start.repetition_stack@,
            depth >= 1,
            crate::moves::moves_in(moves.items()).subset_of(all),
            forall|k: int| 0 <= k < out@.len() ==> all.contains((#[trigger] out@[k]).0.0),
            all == crate::search::all_moves(start),
            out@.len() == i,
            i <= moves.items().len(),
            forall|k: int| 0 <= k < out@.len() ==> (#[trigger] out@[k]).0 == moves.items()[k].mv,
            fits(start.state(), depth as nat) ==> forall|k: int| 0 <= k < out@.len() ==> (#[trigger] out@[k]).1
                == capped(move_count(start.state(), depth as nat, out@[k].0.0)),
        decreases moves.items().len() - i,
    {
        let em = moves.get(i).mv;
        proof {
            assert(crate::moves::moves_in(moves.items()).contains(em.0));
        }
        let ghost before = out@;
        proof {
            lemma_same_moves(*board, start);
            assert(all.contains(moves.items()[i as int].mv.0));
        }
        let n = board.perft_child(&moves, i, depth, false);
        out.push((em, n));
        proof {
            if fits(start.state(), depth as nat) {
                assert forall|k: int| 0 <= k < out@.len() implies (#[trigger] out@[k]).1
                    == capped(move_count(start.state(), depth as nat, out@[k].0.0)) by {
                    if k < before.len() {
                        assert(out@[k] == before[k]);
                    } else {
                        assert(out@[k] == (em, n));
                    }
                }
            }
        }
        i = i + 1;
    }
    proof {
        let items = moves.items();
        assert forall|k: int, l: int| 0 <= k < l < out@.len() implies (#[trigger] out@[k]).0 != (#[trigger] out@[l]).0 by {
            assert(items[k].mv.0 != items[l].mv.0);
        }
        if out@.len() < 218 {
            assert forall|e: u16| #[trigger] all.contains(e) implies exists|k: int| 0 <= k < out@.len() && (#[trigger] out@[k]).0.0 == e by {
                assert(crate::moves::moves_in(items).contains(e));
                let k = choose|k: int| 0 <= k < items.len() && (#[trigger] items[k]).mv.0 == e;
                assert(out@[k].0.0 == e);
            }
        }
    }
    out
}

} // verus!
