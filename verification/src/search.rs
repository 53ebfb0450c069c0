//! Alpha-beta search with a transposition table, reverse futility pruning and a
//! quiescence search at the horizon.
use crate::board::Board;
use crate::move_picker::{handed_from_list, picker_ok, state_rank, GenerationState, MovePicker};
use crate::settings::{AB, QS, RFP, TT_AB, TT_CUTTOFFS, TT_QS};
use crate::transposition_table::DecodedTTEntry;
use crate::transposition_table::{normalised_score, Bound, TranspositionTable, MATE_SCORE};
use crate::types::EncodedMove;
use std::sync::atomic::AtomicBool;
use std::sync::Arc;
use vstd::prelude::*;

verus! {

/// `AtomicBool::load` of the stop flag: another thread sets it when the time is up, so
/// nothing is known of the value read.
#[verifier::external_body]
fn stop_requested(stop: &Arc<AtomicBool>) -> bool {
    stop.load(std::sync::atomic::Ordering::Relaxed)
}

/// The deepest quiescence search below the horizon.
pub const MAX_QUIESCENCE_SEARCH_DEPTH: usize = 12;

/// Reverse futility pruning margin at `depth`: the smaller, the more is pruned.
pub fn rfp_margin(depth: usize) -> (r: usize)
    requires
        100 * depth <= usize::MAX,
    ensures
        r == 100 * depth,
{
    100 * depth
}

/// Counters of a search and whether it ran out of time.
pub struct SearchInfo {
    pub total_alpha_beta_nodes: usize,
    pub total_qs_nodes: usize,
    pub stop_signal: Arc<AtomicBool>,
    pub timeout_occurred: bool,
}

impl SearchInfo {
    pub fn new(stop_signal: Arc<AtomicBool>) -> (r: SearchInfo)
        ensures
            r.total_alpha_beta_nodes == 0,
            r.total_qs_nodes == 0,
            !r.timeout_occurred,
            r.stop_signal == stop_signal,
    {
        SearchInfo { total_alpha_beta_nodes: 0, total_qs_nodes: 0, stop_signal, timeout_occurred: false }
    }
}

/// Scores a search can return: every `i32` but the smallest, so that each can be negated.
pub open spec fn score_ok(s: int) -> bool {
    -i32::MAX <= s <= i32::MAX
}

/// Stores an entry unless its score does not fit the table's 16 bits.
fn store_entry(
    tt: &mut TranspositionTable,
    hash: u64,
    best_move: Option<EncodedMove>,
    score: i32,
    depth: i8,
    ply: i32,
    bound: Bound,
)
    requires
        old(tt).wf(),
        0 <= ply <= 32767,
    ensures
        final(tt).wf(),
        final(tt).entries@.len() == old(tt).entries@.len(),
        final(tt).age == old(tt).age,
        !(-32768 <= crate::transposition_table::normalised_score(score as int, ply as int) <= 32767)
            ==> final(tt).entries@ == old(tt).entries@,
        -32768 <= crate::transposition_table::normalised_score(score as int, ply as int) <= 32767 ==> ({
            let idx = crate::transposition_table::slot_of(hash, old(tt).entries@.len() as int);
            let prev = old(tt).slot_entry(hash);
            if crate::transposition_table::replaces(prev, crate::transposition_table::key_of(hash), depth, bound, false, old(tt).age) {
                final(tt).entries@ == old(tt).entries@.update(
                    idx,
                    crate::transposition_table::EncodedHashEntry {
                        data: crate::transposition_table::spec_pack(
                            crate::transposition_table::stored_entry(prev, hash, best_move, score, depth, ply, bound, false, old(tt).age),
                        ),
                    },
                )
            } else {
                final(tt).entries@ == old(tt).entries@
            }
        }),
{
    let normalised: i64 = if score > MATE_SCORE - 256 || score < -(MATE_SCORE - 256) {
        if score > 0 {
            score as i64 + ply as i64
        } else {
            score as i64 - ply as i64
        }
    } else {
        score as i64
    };
    assert(normalised as int == crate::transposition_table::normalised_score(score as int, ply as int));
    if -32768 <= normalised && normalised <= 32767 {
        tt.store(hash, best_move, score, depth, ply, bound, false);
    }
}

/// What the board must stay while the search runs on it.
pub open spec fn same_position(a: Board, b: Board) -> bool {
    &&& b.movegen_ready()
    &&& b.state() == a.state()
    &&& b.history@ == a.history@
    &&& b.repetition_stack@ == a.repetition_stack@
}

proof fn lemma_same_position_ready(a: Board, b: Board)
    requires
        a.movegen_ready(),
        b.state() == a.state(),
        b.history@ == a.history@,
    ensures
        b.movegen_ready(),
{
    assert(b.pieces == a.pieces);
    assert forall|i: int| 0 <= i < b.history@.len() implies crate::board::state_wf(#[trigger] b.history@[i]) by {
        assert(b.history@[i] == a.history@[i]);
    }
}

impl Board {
    /// Plays `mv` when `make_move` accepts it and the position after it still has both kings
    /// and a proper en passant target; otherwise plays nothing. Returns whether it played.
    fn try_make(&mut self, mv: EncodedMove) -> (r: bool)
        requires
            old(self).movegen_ready(),
        ensures
            final(self).movegen_ready(),
            !r ==> same_position(*old(self), *final(self)),
            r ==> final(self).history@ == old(self).history@.push(old(self).state()),
            r ==> final(self).repetition_stack@ == old(self).repetition_stack@.push(old(self).hash),
            r == crate::perft::playable(old(self).state(), mv.0),
            r ==> final(self).state() == crate::perft::child_state(old(self).state(), mv.0),
    {
        let d = mv.decode();
        if !self.can_make(&d) {
            return false;
        }
        let ghost before = *self;
        self.make_move(&d);
        proof {
            assert(crate::perft::state_made(before.state(), d, self.state()));
            crate::perft::lemma_state_made_unique(before.state(), d, self.state(), crate::perft::child_state(before.state(), mv.0));
            let mid = ((d.from.0 + d.to.0) / 2) as u64;
            crate::bitboard::lemma_single_bit(mid);
        }
        if self.is_ready() {
            return true;
        }
        self.unmake_move();
        proof {
            assert(self.history@ =~= before.history@);
            assert(self.repetition_stack@ =~= before.repetition_stack@);
            lemma_same_position_ready(before, *self);
        }
        false
    }

    /// Takes back a move played by `try_make`.
    fn take_back(&mut self, Ghost(before): Ghost<Board>)
        requires
            before.movegen_ready(),
            old(self).wf(),
            old(self).history@ == before.history@.push(before.state()),
            old(self).repetition_stack@ == before.repetition_stack@.push(before.hash),
        ensures
            same_position(before, *final(self)),
    {
        self.unmake_move();
        proof {
            assert(self.history@ =~= before.history@);
            assert(self.repetition_stack@ =~= before.repetition_stack@);
            lemma_same_position_ready(before, *self);
        }
    }
}


/// The score of a position without moves in `Board::negamax`, mated or not.
pub const NEGAMAX_MATE_SCORE: i32 = -100000;

/// All moves the side to move has, captures and promotions first.
pub open spec fn all_moves(b: Board) -> Set<u16> {
    crate::generator::generated_moves(b, false) + crate::generator::generated_moves(b, true)
}

/// The larger of two scores.
pub open spec fn max_int(a: int, b: int) -> int {
    if a >= b {
        a
    } else {
        b
    }
}

/// The largest of `lo` and `f` over the members of `s` below `n`.
pub open spec fn range_max(s: Set<u16>, f: spec_fn(u16) -> int, lo: int, n: int) -> int
    decreases n,
{
    if n <= 0 {
        lo
    } else {
        max_int(range_max(s, f, lo, n - 1), if s.contains((n - 1) as u16) {
            f((n - 1) as u16)
        } else {
            lo
        })
    }
}

/// The largest of `lo` and `f` over the entries of `q`.
pub open spec fn seq_max(q: Seq<u16>, f: spec_fn(u16) -> int, lo: int) -> int
    decreases q.len(),
{
    if q.len() == 0 {
        lo
    } else {
        max_int(seq_max(q.drop_last(), f, lo), f(q.last()))
    }
}

proof fn lemma_range_max_lo(s: Set<u16>, f: spec_fn(u16) -> int, lo: int, n: int)
    ensures
        range_max(s, f, lo, n) >= lo,
        forall|e: u16| s.contains(e) && (e as int) < n ==> range_max(s, f, lo, n) >= #[trigger] f(e),
    decreases n,
{
    if n > 0 {
        lemma_range_max_lo(s, f, lo, n - 1);
        assert forall|e: u16| s.contains(e) && (e as int) < n implies range_max(s, f, lo, n) >= #[trigger] f(e) by {
            if (e as int) == n - 1 {
                assert(e == (n - 1) as u16);
            }
        }
    }
}

/// Taking a member out of `s` takes its term out of the maximum.
proof fn lemma_range_max_remove(s: Set<u16>, f: spec_fn(u16) -> int, lo: int, n: int, x: u16)
    requires
        s.contains(x),
        n <= 65536,
    ensures
        range_max(s, f, lo, n) == max_int(range_max(s.remove(x), f, lo, n), if (x as int) < n {
            f(x)
        } else {
            lo
        }),
    decreases n,
{
    lemma_range_max_lo(s.remove(x), f, lo, n);
    if n > 0 {
        lemma_range_max_remove(s, f, lo, n - 1, x);
        lemma_range_max_lo(s.remove(x), f, lo, n - 1);
        if (n - 1) as u16 == x {
            assert(x as int == n - 1);
        }
    }
}

proof fn lemma_range_max_empty(f: spec_fn(u16) -> int, lo: int, n: int)
    ensures
        range_max(Set::<u16>::empty(), f, lo, n) == lo,
    decreases n,
{
    if n > 0 {
        lemma_range_max_empty(f, lo, n - 1);
    }
}

/// A sequence without repeats has the maximum of its members.
proof fn lemma_seq_max_range(q: Seq<u16>, f: spec_fn(u16) -> int, lo: int)
    requires
        forall|i: int, j: int| 0 <= i < j < q.len() ==> q[i] != q[j],
    ensures
        seq_max(q, f, lo) == range_max(q.to_set(), f, lo, 65536),
    decreases q.len(),
{
    if q.len() == 0 {
        assert(q.to_set() =~= Set::<u16>::empty());
        lemma_range_max_empty(f, lo, 65536);
    } else {
        let r = q.drop_last();
        let x = q.last();
        lemma_seq_max_range(r, f, lo);
        assert(q.to_set().contains(x)) by {
            assert(q[q.len() - 1] == x);
        }
        lemma_range_max_remove(q.to_set(), f, lo, 65536, x);
        assert(q.to_set().remove(x) =~= r.to_set()) by {
            assert forall|e: u16| q.to_set().remove(x).contains(e) == r.to_set().contains(e) by {
                if r.to_set().contains(e) {
                    let i = choose|i: int| 0 <= i < r.len() && r[i] == e;
                    assert(q[i] == e);
                    assert(q[i] != q[q.len() - 1]);
                }
                if q.to_set().remove(x).contains(e) {
                    let i = choose|i: int| 0 <= i < q.len() && q[i] == e;
                    assert(i != q.len() - 1);
                    assert(r[i] == e);
                }
            }
        }
    }
}

/// `r` is what alpha-beta owes for a position of value `v` searched with the window
/// (`alpha`, `beta`): the value itself inside the window, an upper bound on it at or
/// below `alpha`, a lower bound on it at or above `beta`.
pub open spec fn ab_ok(r: int, v: int, alpha: int, beta: int) -> bool {
    &&& (alpha < r < beta ==> r == v)
    &&& (r <= alpha ==> v <= r)
    &&& (r >= beta ==> v >= r)
}

/// The moves generation produces in position `st`.
#[verifier::opaque]
pub open spec fn moves_of(st: crate::board::UnmakeInfo) -> Set<u16> {
    all_moves(crate::perft::board_at(st))
}

/// The static evaluation of position `st`.
#[verifier::opaque]
pub open spec fn eval_of(st: crate::board::UnmakeInfo) -> int {
    crate::evaluation::evaluation(crate::perft::board_at(st))
}

/// The moves of every position below move `e` of `st`, `d` plies deep in all, fit in a
/// move list (see `perft::move_fits`).
#[verifier::opaque]
pub open spec fn fits_below(st: crate::board::UnmakeInfo, d: nat, e: u16) -> bool {
    crate::perft::move_fits(st, d, e)
}

/// The score of move `e` of `st` for the side to move: minus the value of the position
/// after it, `NEGAMAX_MATE_SCORE * 2` for a move that cannot be played.
pub open spec fn reply_value(st: crate::board::UnmakeInfo, d: nat, e: u16) -> int
    decreases d, 0nat,
{
    if d >= 1 && crate::perft::playable(st, e) {
        -negamax_value(crate::perft::child_state(st, e), (d - 1) as nat)
    } else {
        NEGAMAX_MATE_SCORE * 2
    }
}

/// The negamax value of `st` searched `d` plies deep: the static evaluation at depth 0,
/// `NEGAMAX_MATE_SCORE + d` without moves, otherwise the best reply score (see
/// `reply_value`).
pub open spec fn negamax_value(st: crate::board::UnmakeInfo, d: nat) -> int
    decreases d, 65538nat,
{
    if d == 0 {
        eval_of(st)
    } else if moves_of(st) == Set::<u16>::empty() {
        NEGAMAX_MATE_SCORE + d
    } else {
        best_reply(st, d, 65536)
    }
}

/// The best reply score over the generated moves of `st` numbered below `n`.
pub open spec fn best_reply(st: crate::board::UnmakeInfo, d: nat, n: int) -> int
    decreases d, 65537nat, n,
{
    if n <= 0 || d == 0 {
        NEGAMAX_MATE_SCORE * 2
    } else {
        max_int(best_reply(st, d, n - 1), if moves_of(st).contains((n - 1) as u16) {
            reply_value(st, d, (n - 1) as u16)
        } else {
            NEGAMAX_MATE_SCORE * 2
        })
    }
}

/// The value of a position with moves is at least the score of each of them.
proof fn lemma_value_ge_reply(st: crate::board::UnmakeInfo, d: nat, e: u16)
    requires
        d >= 1,
        moves_of(st).contains(e),
    ensures
        negamax_value(st, d) >= reply_value(st, d, e),
        negamax_value(st, d) >= NEGAMAX_MATE_SCORE * 2,
{
    let f = |x: u16| reply_value(st, d, x);
    assert(moves_of(st) != Set::<u16>::empty()) by {
        assert(moves_of(st).contains(e));
    }
    lemma_best_reply_max(st, d, 65536);
    lemma_range_max_lo(moves_of(st), f, NEGAMAX_MATE_SCORE * 2, 65536);
    assert(range_max(moves_of(st), f, NEGAMAX_MATE_SCORE * 2, 65536) >= f(e));
    assert(f(e) == reply_value(st, d, e));
    assert(best_reply(st, d, 65536) == range_max(moves_of(st), f, NEGAMAX_MATE_SCORE * 2, 65536)) by {
        assert(f =~= (|x: u16| reply_value(st, d, x)));
    }
}

/// `best_reply` is the maximum of `reply_value` over the generated moves.
proof fn lemma_best_reply_max(st: crate::board::UnmakeInfo, d: nat, n: int)
    requires
        d >= 1,
    ensures
        best_reply(st, d, n) == range_max(
            moves_of(st),
            |e: u16| reply_value(st, d, e),
            NEGAMAX_MATE_SCORE * 2,
            n,
        ),
    decreases n,
{
    if n > 0 {
        lemma_best_reply_max(st, d, n - 1);
    }
}

/// What the negamax loop knows after some moves, with `a0` the window's lower end it was
/// given, `alpha` the current one, `best` the best score so far (`found` once a move gave
/// it) and `seqv` the largest reply value so far.
#[verifier::opaque]
pub open spec fn ab_loop(a0: int, beta: int, alpha: int, best: int, found: bool, seqv: int) -> bool {
    &&& alpha == (if found {
        max_int(a0, best)
    } else {
        a0
    })
    &&& (found ==> best < beta && best > NEGAMAX_MATE_SCORE * 2)
    &&& (!found ==> best == NEGAMAX_MATE_SCORE * 2)
    &&& seqv <= best
    &&& seqv >= NEGAMAX_MATE_SCORE * 2
    &&& (found && best > a0 ==> seqv == best)
}

/// Before any move, `ab_loop` holds with nothing found.
proof fn lemma_ab_start(a0: int, beta: int)
    requires
        a0 < beta,
    ensures
        ab_loop(a0, beta, a0, NEGAMAX_MATE_SCORE * 2, false, NEGAMAX_MATE_SCORE * 2),
{
    reveal(ab_loop);
}

/// The current window stays open: `alpha < beta`.
proof fn lemma_ab_window(a0: int, beta: int, alpha: int, best: int, found: bool, seqv: int)
    requires
        a0 < beta,
        ab_loop(a0, beta, alpha, best, found, seqv),
    ensures
        alpha < beta,
{
    reveal(ab_loop);
}

/// A move that cannot be played changes nothing.
proof fn lemma_ab_skip(a0: int, beta: int, alpha: int, best: int, found: bool, seqv: int)
    requires
        ab_loop(a0, beta, alpha, best, found, seqv),
    ensures
        ab_loop(a0, beta, alpha, best, found, max_int(seqv, NEGAMAX_MATE_SCORE * 2)),
{
    reveal(ab_loop);
}

/// One move searched without a cut-off keeps `ab_loop`; a move that becomes the best
/// inside the window has the value it was scored with.
proof fn lemma_ab_step(a0: int, beta: int, alpha: int, best: int, found: bool, seqv: int, eval: int, v: int)
    requires
        a0 < beta,
        ab_loop(a0, beta, alpha, best, found, seqv),
        ab_ok(eval, v, alpha, beta),
        eval < beta,
    ensures
        ({
            let up = eval > best;
            let best2 = if up { eval } else { best };
            let alpha2 = if up && eval > alpha { eval } else { alpha };
            ab_loop(a0, beta, alpha2, best2, found || up, max_int(seqv, v))
        }),
        eval > best && eval > a0 ==> v == eval,
{
    reveal(ab_loop);
}

/// A cut-off returns a score that is a lower bound on the value.
proof fn lemma_ab_cut(a0: int, beta: int, alpha: int, best: int, found: bool, seqv: int, eval: int, v: int, value: int)
    requires
        a0 < beta,
        ab_loop(a0, beta, alpha, best, found, seqv),
        ab_ok(eval, v, alpha, beta),
        eval >= beta,
        value >= v,
        value >= NEGAMAX_MATE_SCORE * 2,
    ensures
        ab_ok(if eval > best { eval } else { best }, value, a0, beta),
        (if eval > best { eval } else { best }) >= beta,
{
    reveal(ab_loop);
}

/// Once every move is searched, the best score is what alpha-beta owes for the largest
/// reply value.
proof fn lemma_ab_done(a0: int, beta: int, alpha: int, best: int, found: bool, seqv: int)
    requires
        a0 < beta,
        ab_loop(a0, beta, alpha, best, found, seqv),
    ensures
        ab_ok(best, seqv, a0, beta),
{
    reveal(ab_loop);
}

impl Board {
    /// Plays `mv` on a copy of the board and searches the position after it one ply less
    /// deep with the window negated, giving the score from this side's view; `None` for a
    /// move that cannot be played.
    fn negamax_child(&self, mv: EncodedMove, depth: usize, alpha: i32, beta: i32) -> (r: Option<i32>)
        requires
            self.movegen_ready(),
            score_ok(alpha as int),
            score_ok(beta as int),
            1 <= depth <= 100_000,
        ensures
            r is Some <==> crate::perft::playable(self.state(), mv.0),
            r matches Some(eval) ==> -4_200_000 <= eval <= 4_200_000,
            r matches Some(eval) ==> (alpha < beta && fits_below(self.state(), depth as nat, mv.0)
                ==> ab_ok(eval as int, reply_value(self.state(), depth as nat, mv.0), alpha as int, beta as int)),
        decreases depth, 0nat,
    {
        proof {
            reveal(fits_below);
        }
        let mut bc = self.clone_board();
        proof {
            lemma_same_position_ready(*self, bc);
        }
        if bc.try_make(mv) {
            let (_, eval) = bc.negamax(depth - 1, -beta, -alpha);
            Some(-eval)
        } else {
            None
        }
    }

    /// Negamax with alpha-beta pruning, each move played on a copy of the board: the static
    /// evaluation at depth 0; `NEGAMAX_MATE_SCORE + depth` for a position without moves,
    /// whether the side to move is in check or not; otherwise the best score over the moves
    /// with the move that gave it, stopping at the first score of at least `beta`. With
    /// `alpha < beta`, and moves that fit in a move list all the way down, the score is what
    /// alpha-beta owes for `negamax_value` (see `ab_ok`), and inside the window the move
    /// returned has that value.
    #[verifier::rlimit(100)]
    pub fn negamax(&self, depth: usize, alpha: i32, beta: i32) -> (r: (Option<EncodedMove>, i32))
        requires
            self.movegen_ready(),
            score_ok(alpha as int),
            score_ok(beta as int),
            depth <= 100_000,
        ensures
            -4_200_000 <= r.1 <= 4_200_000,
            depth == 0 ==> r.0 is None && r.1 == crate::evaluation::evaluation(*self),
            r.0 matches Some(m) ==> depth > 0 && all_moves(*self).contains(m.0),
            r.0 is None && depth > 0 ==> r.1 <= NEGAMAX_MATE_SCORE + depth,
            depth > 0 && all_moves(*self) == Set::<u16>::empty() ==> r.0 is None && r.1 == NEGAMAX_MATE_SCORE + depth,
            alpha < beta && crate::perft::fits(self.state(), depth as nat) ==> ab_ok(
                r.1 as int,
                negamax_value(self.state(), depth as nat),
                alpha as int,
                beta as int,
            ),
            alpha < beta && crate::perft::fits(self.state(), depth as nat) && alpha < r.1 < beta ==> (r.0 matches Some(
                m,
            ) ==> reply_value(self.state(), depth as nat, m.0) == r.1),
        decreases depth, 1nat,
    {
        let ghost st = self.state();
        proof {
            crate::perft::lemma_same_moves(crate::perft::board_at(st), *self);
            reveal(moves_of);
            assert(moves_of(st) == all_moves(*self));
        }
        if depth == 0 {
            proof {
                crate::evaluation::lemma_evaluation_state(crate::perft::board_at(st), *self);
                reveal(eval_of);
            }
            return (None, self.evaluate());
        }
        let ghost a0 = alpha as int;
        let ghost fitting = alpha < beta && crate::perft::fits(st, depth as nat);
        let mut alpha = alpha;
        let mut best_eval: i32 = NEGAMAX_MATE_SCORE * 2;
        let mut best_move: Option<EncodedMove> = None;
        let moves = self.generate_all_moves();
        proof {
            if crate::perft::fits(st, depth as nat) {
                crate::perft::lemma_full_list(*self, moves);
                reveal(fits_below);
                assert forall|e: u16| moves_of(st).contains(e) implies #[trigger] fits_below(st, depth as nat, e) by {
                    crate::perft::lemma_children_fit(st, depth as nat, 65536, e);
                }
            }
        }
        if moves.len() == 0 {
            proof {
                assert(!moves.overflow);
                assert(crate::moves::moves_in(moves.items()) =~= Set::<u16>::empty());
            }
            return (None, NEGAMAX_MATE_SCORE + depth as i32);
        }
        proof {
            assert(crate::moves::moves_in(moves.items()).contains(moves.items()[0].mv.0));
            assert(all_moves(*self).contains(moves.items()[0].mv.0));
        }
        let ghost q = crate::perft::list_moves(moves.items());
        let ghost f = |e: u16| reply_value(st, depth as nat, e);
        let ghost all = moves_of(st);
        proof {
            if fitting {
                lemma_ab_start(a0, beta as int);
                assert(q.take(0) =~= Seq::<u16>::empty());
            }
        }
        let mut cut = false;
        let mut i: usize = 0;
        while i < moves.len()
            invariant_except_break
                !cut,
                i <= moves.items().len(),
                score_ok(alpha as int),
                fitting ==> ab_loop(a0, beta as int, alpha as int, best_eval as int, best_move is Some, seq_max(
                    q.take(i as int),
                    f,
                    NEGAMAX_MATE_SCORE * 2,
                )),
                fitting && best_eval > a0 && best_move is Some ==> reply_value(st, depth as nat, best_move.unwrap().0)
                    == best_eval,
            invariant
                self.movegen_ready(),
                st == self.state(),
                all == moves_of(st),
                crate::moves::moves_in(moves.items()).subset_of(all),
                score_ok(beta as int),
                1 <= depth <= 100_000,
                -4_200_000 <= best_eval <= 4_200_000,
                best_move is None ==> best_eval == NEGAMAX_MATE_SCORE * 2,
                best_move matches Some(m) ==> all.contains(m.0),
                q == crate::perft::list_moves(moves.items()),
                f == (|e: u16| reply_value(st, depth as nat, e)),
                fitting ==> a0 < beta,
                fitting ==> forall|e: u16| all.contains(e) ==> #[trigger] fits_below(st, depth as nat, e),
                fitting ==> q.to_set() == all,
            ensures
                !cut ==> i == moves.items().len() && (fitting ==> ab_loop(a0, beta as int, alpha as int, best_eval as int, best_move is Some, seq_max(
                    q.take(i as int),
                    f,
                    NEGAMAX_MATE_SCORE * 2,
                ))) && (fitting && best_eval > a0 && best_move is Some ==> reply_value(st, depth as nat, best_move.unwrap().0)
                    == best_eval),
                cut ==> best_eval >= beta && (fitting ==> ab_ok(best_eval as int, negamax_value(st, depth as nat), a0, beta as int)),
            decreases moves.items().len() - i,
        {
            let mv = moves.get(i).mv;
            let ghost prev = q.take(i as int);
            let ghost alpha_k = alpha as int;
            proof {
                assert(q.take(i + 1).drop_last() =~= prev);
                assert(q.take(i + 1).last() == q[i as int]);
                assert(q[i as int] == mv.0);
                if fitting {
                    assert(q.to_set().contains(mv.0));
                    assert(fits_below(st, depth as nat, mv.0));
                    lemma_ab_window(a0, beta as int, alpha_k, best_eval as int, best_move is Some, seq_max(prev, f, NEGAMAX_MATE_SCORE * 2));
                }
            }
            let child = self.negamax_child(mv, depth, alpha, beta);
            if let Some(eval) = child {
                let ghost v = reply_value(st, depth as nat, mv.0);
                let ghost best_k = best_eval as int;
                let ghost has_k = best_move is Some;
                proof {
                    if fitting {
                        assert(ab_ok(eval as int, v, alpha_k, beta as int));
                        assert(f(mv.0) == v);
                        if eval < beta {
                            lemma_ab_step(a0, beta as int, alpha_k, best_k, has_k, seq_max(prev, f, NEGAMAX_MATE_SCORE * 2), eval as int, v);
                        }
                    }
                }
                if eval > best_eval {
                    best_eval = eval;
                    best_move = Some(mv);
                    proof {
                        assert(crate::moves::moves_in(moves.items()).contains(mv.0));
                    }
                    if eval > alpha {
                        alpha = eval;
                    }
                }
                if eval >= beta {
                    proof {
                        if fitting {
                            lemma_value_ge_reply(st, depth as nat, mv.0);
                            lemma_ab_cut(a0, beta as int, alpha_k, best_k, has_k, seq_max(prev, f, NEGAMAX_MATE_SCORE * 2), eval as int, v, negamax_value(st, depth as nat));
                        }
                    }
                    cut = true;
                    break;
                }
            } else {
                proof {
                    assert(f(mv.0) == NEGAMAX_MATE_SCORE * 2);
                    if fitting {
                        lemma_ab_skip(a0, beta as int, alpha_k, best_eval as int, best_move is Some, seq_max(prev, f, NEGAMAX_MATE_SCORE * 2));
                    }
                }
            }
            i = i + 1;
        }
        proof {
            if fitting && !cut {
                assert(q.take(q.len() as int) =~= q);
                lemma_seq_max_range(q, f, NEGAMAX_MATE_SCORE * 2);
                lemma_best_reply_max(st, depth as nat, 65536);
                lemma_ab_done(a0, beta as int, alpha as int, best_eval as int, best_move is Some, seq_max(q, f, NEGAMAX_MATE_SCORE * 2));
            }
        }
        (best_move, best_eval)
    }
}

/// The picker can go on handing out moves of `b`.
pub open spec fn picking(p: MovePicker, b: Board) -> bool {
    &&& picker_ok(p, b)
    &&& b.movegen_ready()
}

/// The quiescence search would stand pat here: it did not run out of time, the position
/// is no draw by repetition or the fifty move rule, the table holds no entry for it, the
/// side to move is not in check and at least one ply is left.
pub open spec fn stands_pat(b: Board, tt: TranspositionTable, depth: usize, info: SearchInfo) -> bool {
    &&& !info.timeout_occurred
    &&& depth >= 1
    &&& !(crate::board::occurrences(b.repetition_stack@, b.hash) >= 2 || b.halfmove_clock >= 100)
    &&& tt.slot_entry(b.hash).key != crate::transposition_table::key_of(b.hash)
    &&& b.check_number() == 0
}

/// The quiescence search must answer a check here with every evasion: it did not run out
/// of time, the position is no draw, the table holds no entry for it, the side to move is
/// in check within the first `QS_CHECK_EVASION_LIMIT` plies, and it has moves (fewer than
/// fit in a move list).
pub open spec fn evades_check(b: Board, tt: TranspositionTable, depth: usize, info: SearchInfo, ply: usize) -> bool {
    &&& !info.timeout_occurred
    &&& depth >= 1
    &&& !(crate::board::occurrences(b.repetition_stack@, b.hash) >= 2 || b.halfmove_clock >= 100)
    &&& tt.slot_entry(b.hash).key != crate::transposition_table::key_of(b.hash)
    &&& b.check_number() != 0
    &&& ply < crate::settings::QS_CHECK_EVASION_LIMIT
    &&& all_moves(b).len() < 218
    &&& all_moves(b) != Set::<u16>::empty()
}

/// What the quiescence search gives the position after move `e` of `b` at its horizon:
/// 0 where that position is a draw by repetition or the fifty move rule, its static
/// evaluation otherwise.
pub open spec fn horizon_value(b: Board, e: u16) -> int {
    let c = crate::perft::child_state(b.state(), e);
    if crate::board::occurrences(b.repetition_stack@.push(b.hash), c.hash) >= 2 || c.halfmove_clock >= 100 {
        0
    } else {
        eval_of(c)
    }
}

/// A search of the position after move `e` of `b` at the horizon that gave 0 for a draw
/// and the static evaluation otherwise gave `horizon_value`.
proof fn lemma_horizon_child(b: Board, child: Board, e: u16, score: int)
    requires
        child.state() == crate::perft::child_state(b.state(), e),
        child.repetition_stack@ == b.repetition_stack@.push(b.hash),
        (crate::board::occurrences(child.repetition_stack@, child.hash) >= 2 || child.halfmove_clock >= 100) ==> score == 0,
        !(crate::board::occurrences(child.repetition_stack@, child.hash) >= 2 || child.halfmove_clock >= 100) ==> score
            == crate::evaluation::evaluation(child),
    ensures
        score == horizon_value(b, e),
{
    let c = crate::perft::child_state(b.state(), e);
    crate::evaluation::lemma_evaluation_state(crate::perft::board_at(c), child);
    reveal(eval_of);
}

/// The quiescence search: from the static evaluation (the stand pat score, unless in check)
/// only captures and promotions are searched, or every move while in check within the first
/// plies, down to `depth` more plies; a side in check that is handed no move is mated. Returns 0 for a repetition, the fifty move rule or
/// when the stop flag is set. The board is left as it was.
#[verifier::rlimit(100)]
pub fn quiescence_search(
    board: &mut Board,
    alpha: i32,
    beta: i32,
    depth: usize,
    stop: &Arc<AtomicBool>,
    search_info: &mut SearchInfo,
    ply: usize,
    local_seldepth: &mut usize,
    tt: &mut TranspositionTable,
) -> (r: i32)
    requires
        old(board).movegen_ready(),
        old(tt).wf(),
        score_ok(alpha as int),
        score_ok(beta as int),
        ply + depth <= 32000,
    ensures
        same_position(*old(board), *final(board)),
        final(tt).wf(),
        final(tt).entries@.len() == old(tt).entries@.len(),
        score_ok(r as int),
        *final(local_seldepth) >= *old(local_seldepth),
        *final(local_seldepth) >= ply,
        old(search_info).timeout_occurred ==> final(search_info).timeout_occurred,
        (crate::board::occurrences(old(board).repetition_stack@, old(board).hash) >= 2 || old(board).halfmove_clock >= 100) ==> r == 0,
        !final(search_info).timeout_occurred && depth == 0 && !(crate::board::occurrences(old(board).repetition_stack@, old(board).hash) >= 2
            || old(board).halfmove_clock >= 100) ==> r == crate::evaluation::evaluation(*old(board)),
        stands_pat(*old(board), *old(tt), depth, *final(search_info)) && crate::evaluation::evaluation(*old(board)) >= beta
            ==> r == crate::evaluation::evaluation(*old(board)),
        no_moves_left(*old(board), *old(tt), depth, *final(search_info)) && old(board).check_number() != 0 ==> r
            == -MATE_SCORE + ply,
        stands_pat(*old(board), *old(tt), depth, *final(search_info)) ==> r >= crate::evaluation::evaluation(*old(board)),
        stands_pat(*old(board), *old(tt), depth, *final(search_info)) && depth == 1 && alpha < beta && all_moves(
            *old(board),
        ).len() < 218 ==> r >= beta || forall|e: u16|
            #[trigger] crate::generator::generated_moves(*old(board), false).contains(e) && crate::perft::playable(
                old(board).state(),
                e,
            ) ==> r >= -horizon_value(*old(board), e),
        evades_check(*old(board), *old(tt), depth, *final(search_info), ply) ==> r >= crate::evaluation::evaluation(
            *old(board),
        ),
    decreases depth,
{
    let ghost start = *board;
    if ply > *local_seldepth {
        *local_seldepth = ply;
    }
    if stop_requested(stop) {
        search_info.timeout_occurred = true;
        return 0;
    }
    if board.is_threefold_repetition() || board.is_50_move_rule() {
        return 0;
    }
    if depth == 0 {
        return board.evaluate();
    }
    search_info.total_qs_nodes = search_info.total_qs_nodes.wrapping_add(1);
    let mut alpha = alpha;
    let original_alpha = alpha;
    let mut tt_move: Option<EncodedMove> = None;
    let hash = board.hash();
    let eval = if TT_QS {
        match tt.probe(hash, ply as i32) {
            Some(tt_hit) => {
                let tt_score = tt_hit.score();
                let bound = tt_hit.bound();
                tt_move = tt_hit.best_move();
                let cutoff = match bound {
                    Bound::Lower => tt_score >= beta,
                    Bound::Upper => tt_score <= alpha,
                    Bound::Exact => true,
                    _ => false,
                };
                if cutoff {
                    return tt_score;
                }
                tt_score
            },
            None => board.evaluate(),
        }
    } else {
        board.evaluate()
    };
    let in_check = board.is_in_check();
    if !in_check {
        if eval >= beta {
            if TT_QS {
                store_entry(tt, hash, None, eval, 0, ply as i32, Bound::Lower);
            }
            return eval;
        }
        if alpha < eval {
            alpha = eval;
        }
    }
    let skip_quiets = !(in_check && ply < crate::settings::QS_CHECK_EVASION_LIMIT);
    let mut picker = MovePicker::new(tt_move, None, skip_quiets);
    let mut best_score = eval;
    let mut best_move: Option<EncodedMove> = None;
    let mut handed_any = false;
    let ghost no_moves = all_moves(start) == Set::<u16>::empty();
    let ghost at_horizon = depth == 1 && tt_move is None && !in_check;
    proof {
        assert(crate::moves::moves_in(picker.move_list.items()) =~= Set::<u16>::empty());
        assert(handed_from_list(picker) =~= Set::<u16>::empty());
    }
    loop
        invariant
            start == *old(board),
            same_position(start, *board),
            picking(picker, start),
            tt.wf(),
            tt.entries@.len() == old(tt).entries@.len(),
            score_ok(alpha as int),
            score_ok(beta as int),
            score_ok(best_score as int),
            ply + depth <= 32000,
            depth >= 1,
            *local_seldepth >= *old(local_seldepth),
            *local_seldepth >= ply,
            old(search_info).timeout_occurred ==> search_info.timeout_occurred,
            picker.tt_move == tt_move,
            picker.killer_mv is None,
            tt_move is None && no_moves ==> !handed_any,
            no_moves == (all_moves(start) == Set::<u16>::empty()),
            best_score >= eval,
            picker.skip_quiets == skip_quiets,
            at_horizon == (depth == 1 && tt_move is None && !in_check),
            alpha <= original_alpha || alpha <= best_score,
            at_horizon && !search_info.timeout_occurred ==> forall|e: u16|
                #[trigger] handed_from_list(picker).contains(e) && crate::perft::playable(start.state(), e)
                    ==> best_score >= -horizon_value(start, e),
            handed_from_list(picker) != Set::<u16>::empty() ==> handed_any,
        ensures
            picker.state == GenerationState::Done || best_score >= beta || original_alpha >= beta,
            picker.state == GenerationState::Done || handed_any,
        decreases state_rank(picker.state), picker.move_list.items().len() - picker.move_index,
    {
        proof {
            crate::generator::lemma_generated_same_state(start, *board, false);
            crate::generator::lemma_generated_same_state(start, *board, true);
        }
        let next = picker.next(board);
        let mv = match next {
            Some(m) => m,
            None => {
                break;
            },
        };
        proof {
            if no_moves {
                lemma_no_move_in(start, mv.0);
            }
        }
        handed_any = true;
        if stop_requested(stop) {
            search_info.timeout_occurred = true;
            return 0;
        }
        let ghost before = *board;
        if board.try_make(mv) {
            let ghost child = *board;
            let score = quiescence_search(board, -beta, -alpha, depth - 1, stop, search_info, ply + 1, local_seldepth, tt);
            proof {
                if at_horizon && !search_info.timeout_occurred {
                    lemma_horizon_child(start, child, mv.0, score as int);
                }
            }
            let score = -score;
            board.take_back(Ghost(before));
            if score > best_score {
                best_score = score;
                if score > alpha {
                    best_move = Some(mv);
                    alpha = score;
                }
                if AB && alpha >= beta {
                    break;
                }
            }
        }
    }
    proof {
        if tt_move is None && in_check && ply < crate::settings::QS_CHECK_EVASION_LIMIT && picker.state
            == GenerationState::Done && all_moves(start).len() < 218 && all_moves(start) != Set::<u16>::empty() {
            crate::move_picker::lemma_picker_no_overflow(picker, start);
            let e = all_moves(start).choose();
            if !all_moves(start).contains(e) {
                assert(all_moves(start) =~= Set::<u16>::empty());
            }
            crate::move_picker::lemma_done_picker_handed_all(picker, start, e);
            assert(handed_from_list(picker).contains(e));
        }
        if at_horizon && !search_info.timeout_occurred && picker.state == GenerationState::Done && all_moves(start).len()
            < 218 {
            crate::move_picker::lemma_picker_no_overflow(picker, start);
            assert forall|e: u16|
                crate::generator::generated_moves(start, false).contains(e) && crate::perft::playable(
                    start.state(),
                    e,
                ) implies best_score >= -horizon_value(start, e) by {
                crate::move_picker::lemma_done_picker_handed_all(picker, start, e);
            }
        }
    }
    if in_check && !handed_any {
        return -MATE_SCORE + ply as i32;
    }
    let bound = if best_score >= beta {
        Bound::Lower
    } else if best_score > original_alpha {
        Bound::Exact
    } else {
        Bound::Upper
    };
    if TT_QS {
        store_entry(tt, hash, best_move, best_score, 0, ply as i32, bound);
    }
    best_score
}


/// Whether a table entry decides the node: its depth is at least `depth_req` and its bound
/// and score settle the window.
fn tt_cutoff(hit: &DecodedTTEntry, depth_req: i32, alpha: i32, beta: i32) -> (r: bool)
    ensures
        r == (hit.depth >= depth_req && match hit.info.spec_bound() {
            Bound::Lower => hit.score >= beta,
            Bound::Upper => hit.score <= alpha,
            Bound::Exact => true,
            _ => false,
        }),
{
    let tt_score = hit.score();
    if hit.depth() < depth_req {
        return false;
    }
    match hit.bound() {
        Bound::Lower => tt_score >= beta,
        Bound::Upper => tt_score <= alpha,
        Bound::Exact => true,
        _ => false,
    }
}

/// A principal variation written backwards, its first move last: that move is played in
/// `st` (see `perft::playable`), and the rest is such a line from the position after it.
pub open spec fn line_ok(st: crate::board::UnmakeInfo, line: Seq<EncodedMove>) -> bool
    decreases line.len(),
{
    line.len() == 0 || (crate::perft::playable(st, line.last().0) && line_ok(
        crate::perft::child_state(st, line.last().0),
        line.drop_last(),
    ))
}

/// The search gets to search the moves of `b`: it did not run out of time, at least one
/// ply is left, the position is no draw, the table holds no entry for it, its moves fit
/// in a move list and at least one of them can be played.
pub open spec fn searches_moves(b: Board, tt: TranspositionTable, depth: usize, info: SearchInfo) -> bool {
    &&& !info.timeout_occurred
    &&& depth >= 1
    &&& !(crate::board::occurrences(b.repetition_stack@, b.hash) >= 2 || b.halfmove_clock >= 100)
    &&& tt.slot_entry(b.hash).key != crate::transposition_table::key_of(b.hash)
    &&& all_moves(b).len() < 218
    &&& exists|e: u16| all_moves(b).contains(e) && crate::perft::playable(b.state(), e)
}

/// A picker that is done, without a table or killer move, has handed out a playable move
/// of a position whose moves fit in a list and that has one.
proof fn lemma_some_move_handed(p: MovePicker, b: Board)
    requires
        picker_ok(p, b),
        p.state == GenerationState::Done,
        !p.skip_quiets,
        all_moves(b).len() < 218,
        exists|e: u16| all_moves(b).contains(e) && crate::perft::playable(b.state(), e),
    ensures
        exists|e: u16| handed_from_list(p).contains(e) && crate::perft::playable(b.state(), e) || p.tt_move is Some
            || p.killer_mv is Some,
{
    if p.tt_move is None && p.killer_mv is None {
        crate::move_picker::lemma_picker_no_overflow(p, b);
        let e = choose|e: u16| all_moves(b).contains(e) && crate::perft::playable(b.state(), e);
        crate::move_picker::lemma_done_picker_handed_all(p, b, e);
        assert(handed_from_list(p).contains(e) && crate::perft::playable(b.state(), e));
    }
}

/// The side to move has no move, the search did not run out of time, the position is no
/// draw by repetition or the fifty move rule, the table holds no entry for it and at least
/// one ply is left to search.
pub open spec fn no_moves_left(b: Board, tt: TranspositionTable, depth: usize, info: SearchInfo) -> bool {
    &&& !info.timeout_occurred
    &&& depth >= 1
    &&& !(crate::board::occurrences(b.repetition_stack@, b.hash) >= 2 || b.halfmove_clock >= 100)
    &&& tt.slot_entry(b.hash).key != crate::transposition_table::key_of(b.hash)
    &&& all_moves(b) == Set::<u16>::empty()
}

proof fn lemma_no_move_in(b: Board, m: u16)
    requires
        all_moves(b) == Set::<u16>::empty(),
    ensures
        !crate::generator::generated_moves(b, false).contains(m),
        !crate::generator::generated_moves(b, true).contains(m),
{
    assert(!all_moves(b).contains(m));
}

/// Alpha-beta search of `depth` plies with a quiescence search at the horizon. Returns 0 for
/// a repetition, the fifty move rule or when the stop flag is set, the table's score where
/// its entry is deep enough to settle the window, `-MATE_SCORE + ply` when the side to move
/// is mated and 0 when it is stalemated. The principal variation it returns is always
/// empty. The board is left as it was.
#[verifier::rlimit(100)]
pub fn alpha_beta(
    board: &mut Board,
    depth: usize,
    alpha: i32,
    beta: i32,
    stop: &Arc<AtomicBool>,
    search_info: &mut SearchInfo,
    ply: usize,
    local_seldepth: &mut usize,
    null_move_allowed: bool,
    tt: &mut TranspositionTable,
) -> (r: (Vec<EncodedMove>, i32))
    requires
        old(board).movegen_ready(),
        old(tt).wf(),
        score_ok(alpha as int),
        score_ok(beta as int),
        depth <= 127,
        ply + depth + MAX_QUIESCENCE_SEARCH_DEPTH <= 32000,
    ensures
        same_position(*old(board), *final(board)),
        final(tt).wf(),
        final(tt).entries@.len() == old(tt).entries@.len(),
        line_ok(old(board).state(), r.0@),
        r.0@.len() > 0 ==> alpha < r.1,
        searches_moves(*old(board), *old(tt), depth, *final(search_info)) && alpha < r.1 < beta ==> r.0@.len() > 0,
        score_ok(r.1 as int),
        *final(local_seldepth) >= *old(local_seldepth),
        *final(local_seldepth) >= ply,
        old(search_info).timeout_occurred ==> final(search_info).timeout_occurred,
        (crate::board::occurrences(old(board).repetition_stack@, old(board).hash) >= 2 || old(board).halfmove_clock >= 100) ==> r.1 == 0,
        no_moves_left(*old(board), *old(tt), depth, *final(search_info)) ==> (old(board).check_number() != 0 ==> r.1
            == -MATE_SCORE + ply) && (old(board).check_number() == 0 && (depth >= 3
            || crate::evaluation::evaluation(*old(board)) < beta + 100 * depth) ==> r.1 == 0),
    decreases depth,
{
    let ghost start = *board;
    if ply > *local_seldepth {
        *local_seldepth = ply;
    }
    search_info.total_alpha_beta_nodes = search_info.total_alpha_beta_nodes.wrapping_add(1);
    if board.is_threefold_repetition() || board.is_50_move_rule() {
        return (Vec::new(), 0);
    }
    let mut alpha = alpha;
    let original_alpha = alpha;
    let eval = board.evaluate();
    let mut tt_move: Option<EncodedMove> = None;
    let hash = board.hash();
    if TT_AB {
        match tt.probe(hash, ply as i32) {
            Some(tt_hit) => {
                tt_move = tt_hit.best_move();
                let tt_score = tt_hit.score();
                let depth_req: i32 = if tt_score >= beta {
                    depth as i32 + 1
                } else {
                    depth as i32
                };
                if TT_CUTTOFFS && tt_cutoff(&tt_hit, depth_req, alpha, beta) {
                    return (Vec::new(), tt_score);
                }
            },
            None => {},
        }
    }
    if depth == 0 {
        if QS {
            let qs_result = quiescence_search(
                board,
                alpha,
                beta,
                MAX_QUIESCENCE_SEARCH_DEPTH,
                stop,
                search_info,
                ply,
                local_seldepth,
                tt,
            );
            return (Vec::new(), qs_result);
        }
        return (Vec::new(), eval);
    }
    if stop_requested(stop) {
        search_info.timeout_occurred = true;
        return (Vec::new(), 0);
    }
    if RFP {
        if depth < 3 && !board.is_in_check() {
            let margin = rfp_margin(depth);
            let e = eval as i64;
            let b = beta as i64;
            if e >= b + margin as i64 {
                let pruned = b + (e - b) / 3;
                return (Vec::new(), pruned as i32);
            }
        }
    }
    let mut picker = MovePicker::new(tt_move, None, false);
    let mut best_eval: i32 = -i32::MAX;
    let mut best_move: Option<EncodedMove> = None;
    let mut played = false;
    let mut pv: Vec<EncodedMove> = Vec::new();
    let ghost no_moves = all_moves(start) == Set::<u16>::empty();
    let ghost st = start.state();
    proof {
        assert(crate::moves::moves_in(picker.move_list.items()) =~= Set::<u16>::empty());
        assert(handed_from_list(picker) =~= Set::<u16>::empty());
    }
    loop
        invariant
            st == start.state(),
            line_ok(st, pv@),
            pv@.len() > 0 ==> original_alpha < best_eval,
            best_eval > original_alpha ==> pv@.len() > 0,
            alpha as int == (if best_eval > original_alpha { best_eval as int } else { original_alpha as int }),
            !played ==> forall|e: u16| #[trigger] handed_from_list(picker).contains(e) ==> !crate::perft::playable(st, e),
            picker.skip_quiets == false,
            start == *old(board),
            same_position(start, *board),
            picking(picker, start),
            tt.wf(),
            tt.entries@.len() == old(tt).entries@.len(),
            score_ok(alpha as int),
            score_ok(beta as int),
            score_ok(best_eval as int),
            1 <= depth <= 127,
            ply + depth + MAX_QUIESCENCE_SEARCH_DEPTH <= 32000,
            *local_seldepth >= *old(local_seldepth),
            *local_seldepth >= ply,
            old(search_info).timeout_occurred ==> search_info.timeout_occurred,
            picker.tt_move == tt_move,
            picker.killer_mv is None,
            tt_move is None && no_moves ==> !played,
            no_moves == (all_moves(start) == Set::<u16>::empty()),
        ensures
            played || picker.state == GenerationState::Done,
        decreases state_rank(picker.state), picker.move_list.items().len() - picker.move_index,
    {
        proof {
            crate::generator::lemma_generated_same_state(start, *board, false);
            crate::generator::lemma_generated_same_state(start, *board, true);
        }
        let next = picker.next(board);
        let mv = match next {
            Some(m) => m,
            None => {
                break;
            },
        };
        proof {
            if no_moves {
                lemma_no_move_in(start, mv.0);
            }
        }
        if stop_requested(stop) {
            search_info.timeout_occurred = true;
            return (Vec::new(), 0);
        }
        let ghost before = *board;
        if board.try_make(mv) {
            played = true;
            let (_line, score) = alpha_beta(
                board,
                depth - 1,
                -beta,
                -alpha,
                stop,
                search_info,
                ply + 1,
                local_seldepth,
                true,
                tt,
            );
            let score = -score;
            board.take_back(Ghost(before));
            if score > best_eval {
                best_eval = score;
                if score > alpha {
                    best_move = Some(mv);
                    alpha = score;
                    let ghost child_line = _line@;
                    pv = _line;
                    pv.push(mv);
                    proof {
                        assert(pv@.drop_last() =~= child_line);
                    }
                }
                if AB && alpha >= beta {
                    break;
                }
            }
        }
    }
    proof {
        if searches_moves(start, *old(tt), depth, *search_info) && !played {
            lemma_some_move_handed(picker, start);
        }
    }
    if !played {
        if board.is_in_check() {
            return (Vec::new(), -MATE_SCORE + ply as i32);
        }
        return (Vec::new(), 0);
    }
    let bound = if best_eval >= beta {
        Bound::Lower
    } else if best_eval > original_alpha {
        Bound::Exact
    } else {
        Bound::Upper
    };
    if TT_AB {
        store_entry(tt, hash, best_move, best_eval, depth as i8, ply as i32, bound);
    }
    (pv, best_eval)
}


/// A searched root move: its line (the move alone, as the search returns no deeper
/// line), its score for the side to move and the deepest ply reached below it.
pub open spec fn root_result_ok(b: Board, x: (Vec<EncodedMove>, i32, usize)) -> bool {
    &&& x.0@.len() >= 1
    &&& all_moves(b).contains(x.0@.last().0)
    &&& line_ok(b.state(), x.0@)
    &&& score_ok(x.1 as int)
    &&& x.2 >= 1
}

/// Searches every move of the side to move `depth - 1` plies deep on a copy of the board,
/// with the full window, one after the other, and gives for each its line, score and
/// deepest ply.
#[verifier::rlimit(100)]
pub fn search_root(
    board: &Board,
    depth: usize,
    stop: &Arc<AtomicBool>,
    search_info: &mut SearchInfo,
    tt: &mut TranspositionTable,
) -> (r: Vec<(Vec<EncodedMove>, i32, usize)>)
    requires
        board.movegen_ready(),
        old(tt).wf(),
        1 <= depth <= 128,
    ensures
        final(tt).wf(),
        final(tt).entries@.len() == old(tt).entries@.len(),
        old(search_info).timeout_occurred ==> final(search_info).timeout_occurred,
        forall|k: int| 0 <= k < r@.len() ==> root_result_ok(*board, #[trigger] r@[k]),
        forall|k: int| 0 <= k < r@.len() ==> crate::perft::playable(board.state(), (#[trigger] r@[k]).0@.last().0),
        forall|k: int, l: int| 0 <= k < l < r@.len() ==> (#[trigger] r@[k]).0@.last() != (#[trigger] r@[l]).0@.last(),
        all_moves(*board).len() < 218 ==> forall|e: u16| #[trigger] all_moves(*board).contains(e)
            && crate::perft::playable(board.state(), e) ==> exists|k: int| 0 <= k < r@.len() && (#[trigger] r@[k]).0@.last().0 == e,
{
    let ghost st = board.state();
    let moves = board.generate_all_moves();
    let ghost q = crate::perft::list_moves(moves.items());
    proof {
        crate::perft::lemma_same_moves(crate::perft::board_at(st), *board);
        if all_moves(*board).len() < 218 {
            crate::perft::lemma_full_list(*board, moves);
        }
    }
    let mut results: Vec<(Vec<EncodedMove>, i32, usize)> = Vec::new();
    let mut i: usize = 0;
    while i < moves.len()
        invariant
            board.movegen_ready(),
            st == board.state(),
            q == crate::perft::list_moves(moves.items()),
            i <= moves.items().len(),
            crate::moves::moves_in(moves.items()).subset_of(all_moves(*board)),
            1 <= depth <= 128,
            tt.wf(),
            tt.entries@.len() == old(tt).entries@.len(),
            old(search_info).timeout_occurred ==> search_info.timeout_occurred,
            forall|k: int| 0 <= k < results@.len() ==> root_result_ok(*board, #[trigger] results@[k]),
            results@.len() == crate::perft::playable_moves(st, q.take(i as int)).len(),
            forall|k: int| 0 <= k < results@.len() ==> (#[trigger] results@[k]).0@.last().0
                == crate::perft::playable_moves(st, q.take(i as int))[k],
        decreases moves.items().len() - i,
    {
        let mv = moves.get(i).mv;
        let ghost before = results@;
        proof {
            assert(q.take(i + 1).drop_last() =~= q.take(i as int));
            assert(q.take(i + 1).last() == mv.0);
        }
        let mut b = board.clone_board();
        proof {
            lemma_same_position_ready(*board, b);
            assert(crate::moves::moves_in(moves.items()).contains(mv.0));
        }
        if b.try_make(mv) {
            let mut local_seldepth: usize = 1;
            let (line, eval) = alpha_beta(
                &mut b,
                depth - 1,
                -i32::MAX,
                i32::MAX,
                stop,
                search_info,
                1,
                &mut local_seldepth,
                false,
                tt,
            );
            let mut line = line;
            let ghost child_line = line@;
            line.push(mv);
            proof {
                assert(line@.drop_last() =~= child_line);
            }
            results.push((line, -eval, local_seldepth));
            proof {
                assert forall|k: int| 0 <= k < results@.len() implies (#[trigger] results@[k]).0@.last().0
                    == crate::perft::playable_moves(st, q.take(i + 1))[k] by {
                    if k < before.len() {
                        assert(results@[k] == before[k]);
                    }
                }
            }
        }
        i = i + 1;
    }
    proof {
        assert(q.take(q.len() as int) =~= q);
        let p = crate::perft::playable_moves(st, q);
        assert forall|k: int| 0 <= k < results@.len() implies crate::perft::playable(st, (#[trigger] results@[k]).0@.last().0) by {
            crate::perft::lemma_playable_moves_in(st, q, k);
        }
        assert forall|i: int, j: int| 0 <= i < j < q.len() implies q[i] != q[j] by {
            assert(moves.items()[i].mv.0 != moves.items()[j].mv.0);
        }
        crate::perft::lemma_playable_moves_distinct(st, q);
        assert forall|k: int, l: int| 0 <= k < l < results@.len() implies (#[trigger] results@[k]).0@.last() != (#[trigger] results@[l]).0@.last() by {
            assert(p[k] != p[l]);
        }
        if all_moves(*board).len() < 218 {
            assert forall|e: u16| #[trigger] all_moves(*board).contains(e) && crate::perft::playable(st, e) implies exists|k: int|
                0 <= k < results@.len() && (#[trigger] results@[k]).0@.last().0 == e by {
                assert(q.to_set().contains(e));
                crate::perft::lemma_playable_moves_all(st, q, e);
                let k = choose|k: int| 0 <= k < p.len() && p[k] == e;
                assert(results@[k].0@.last().0 == e);
            }
        }
    }
    results
}

/// The result with the highest score; the last of several with that score, as
/// `Iterator::max_by_key` picks; an empty line with score 0 and depth 0 when there is none.
pub fn best_result(results: &Vec<(Vec<EncodedMove>, i32, usize)>) -> (r: (Vec<EncodedMove>, i32, usize))
    ensures
        results@.len() == 0 ==> r.0@.len() == 0 && r.1 == 0 && r.2 == 0,
        results@.len() > 0 ==> exists|k: int|
            0 <= k < results@.len() && r.0@ == results@[k].0@ && r.1 == results@[k].1 && r.2 == results@[k].2
                && (forall|j: int| 0 <= j < results@.len() ==> (#[trigger] results@[j]).1 <= r.1)
                && (forall|j: int| k < j < results@.len() ==> (#[trigger] results@[j]).1 < r.1),
{
    if results.len() == 0 {
        return (Vec::new(), 0, 0);
    }
    let mut best: usize = 0;
    let mut j: usize = 1;
    while j < results.len()
        invariant
            1 <= j <= results@.len(),
            best < j,
            forall|t: int| 0 <= t < j ==> (#[trigger] results@[t]).1 <= results@[best as int].1,
            forall|t: int| best < t < j ==> (#[trigger] results@[t]).1 < results@[best as int].1,
        decreases results.len() - j,
    {
        if results[j].1 >= results[best].1 {
            best = j;
        }
        j = j + 1;
    }
    let line = &results[best].0;
    let mut copy: Vec<EncodedMove> = Vec::new();
    let mut t: usize = 0;
    while t < line.len()
        invariant
            t <= line@.len(),
            copy@ == line@.subrange(0, t as int),
        decreases line.len() - t,
    {
        copy.push(line[t]);
        t = t + 1;
    }
    assert(copy@ =~= line@);
    (copy, results[best].1, results[best].2)
}

/// What one depth of iterative deepening found.
pub struct IterationResult {
    pub best_line: Vec<EncodedMove>,
    pub best_eval: i32,
    pub seldepth: usize,
    pub timeout_occurred: bool,
    pub alpha_beta_nodes: usize,
    pub qs_nodes: usize,
}

/// Searches all root moves to `depth` and picks the best (see `search_root` and
/// `best_result`); `search_info` counts the nodes and records a timeout.
pub fn search_iteration(
    board: &Board,
    depth: usize,
    stop: &Arc<AtomicBool>,
    search_info: &mut SearchInfo,
    tt: &mut TranspositionTable,
) -> (r: IterationResult)
    requires
        board.movegen_ready(),
        old(tt).wf(),
        1 <= depth <= 128,
    ensures
        final(tt).wf(),
        final(tt).entries@.len() == old(tt).entries@.len(),
        r.timeout_occurred == final(search_info).timeout_occurred,
        r.alpha_beta_nodes == final(search_info).total_alpha_beta_nodes,
        r.qs_nodes == final(search_info).total_qs_nodes,
        r.best_line@.len() >= 1 ==> all_moves(*board).contains(r.best_line@.last().0) && line_ok(board.state(), r.best_line@),
        r.best_line@.len() == 0 ==> r.best_eval == 0 && r.seldepth == 0,
        all_moves(*board).len() < 218 && (exists|e: u16| all_moves(*board).contains(e) && crate::perft::playable(board.state(), e))
            ==> r.best_line@.len() >= 1,
        score_ok(r.best_eval as int),
{
    let results = search_root(board, depth, stop, search_info, tt);
    let (best_line, best_eval, seldepth) = best_result(&results);
    proof {
        if results@.len() > 0 {
            let k = choose|k: int|
                0 <= k < results@.len() && best_line@ == results@[k].0@ && best_eval == results@[k].1 && seldepth
                    == results@[k].2 && (forall|j: int| 0 <= j < results@.len() ==> (#[trigger] results@[j]).1 <= best_eval)
                    && (forall|j: int| k < j < results@.len() ==> (#[trigger] results@[j]).1 < best_eval);
            assert(root_result_ok(*board, results@[k]));
        }
    }
    IterationResult {
        best_line,
        best_eval,
        seldepth,
        timeout_occurred: search_info.timeout_occurred,
        alpha_beta_nodes: search_info.total_alpha_beta_nodes,
        qs_nodes: search_info.total_qs_nodes,
    }
}

/// After an iteration: its best line and score replace the kept ones unless it ran out of
/// time, whose results are not trusted. Returns whether to go on to the next depth: not
/// once time has run out.
pub fn keep_best(best_line: &mut Vec<EncodedMove>, best_eval: &mut i32, iteration: IterationResult) -> (go_on: bool)
    ensures
        iteration.timeout_occurred ==> final(best_line)@ == old(best_line)@ && *final(best_eval) == *old(best_eval),
        !iteration.timeout_occurred ==> final(best_line)@ == iteration.best_line@ && *final(best_eval) == iteration.best_eval,
        go_on == !iteration.timeout_occurred,
{
    if !iteration.timeout_occurred {
        *best_line = iteration.best_line;
        *best_eval = iteration.best_eval;
        true
    } else {
        false
    }
}

} // verus!
