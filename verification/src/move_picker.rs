//! Move lists held in a fixed-capacity `ArrayVec`, and picking moves in score order.
use crate::types::EncodedMove;
use arrayvec::ArrayVec;
use vstd::prelude::*;

verus! {

/// 218 is the most moves a chess position has: <https://www.chessprogramming.org/Chess_Position>
pub const MAX_MOVES_COUNT: usize = 218;

#[verifier::external_type_specification]
#[verifier::external_body]
#[verifier::reject_recursive_types(T)]
pub struct ExArrayVec<T, const CAP: usize>(ArrayVec<T, CAP>);

/// A move with its ordering score.
#[derive(Clone, Copy, PartialEq, Eq, Structural, Debug)]
pub struct MoveListMove {
    pub score: i32,
    pub mv: EncodedMove,
}

/// The items an `ArrayVec` of moves holds, in order.
pub uninterp spec fn move_list_items(v: ArrayVec<MoveListMove, 218>) -> Seq<MoveListMove>;

/// `ArrayVec::new`: an empty vector.
#[verifier::external_body]
fn av_new() -> (r: ArrayVec<MoveListMove, 218>)
    ensures
        move_list_items(r) == Seq::<MoveListMove>::empty(),
{
    ArrayVec::new()
}

/// `ArrayVec::try_push`: appends when fewer than 218 items are held, otherwise leaves the
/// vector as it is and reports the capacity error.
#[verifier::external_body]
fn av_try_push(v: &mut ArrayVec<MoveListMove, 218>, m: MoveListMove) -> (ok: bool)
    ensures
        ok == (move_list_items(*old(v)).len() < 218),
        ok ==> move_list_items(*final(v)) == move_list_items(*old(v)).push(m),
        !ok ==> move_list_items(*final(v)) == move_list_items(*old(v)),
{
    match v.try_push(m) {
        Ok(()) => true,
        Err(_) => false,
    }
}

/// `ArrayVec::len`.
#[verifier::external_body]
fn av_len(v: &ArrayVec<MoveListMove, 218>) -> (r: usize)
    ensures
        r == move_list_items(*v).len(),
{
    v.len()
}

/// `ArrayVec::as_slice`: the held items.
#[verifier::external_body]
fn av_as_slice(v: &ArrayVec<MoveListMove, 218>) -> (r: &[MoveListMove])
    ensures
        r@ == move_list_items(*v),
{
    v.as_slice()
}

/// Index assignment through `ArrayVec`'s `DerefMut` slice.
#[verifier::external_body]
fn av_set(v: &mut ArrayVec<MoveListMove, 218>, i: usize, m: MoveListMove)
    requires
        i < move_list_items(*old(v)).len(),
    ensures
        move_list_items(*final(v)) == move_list_items(*old(v)).update(i as int, m),
{
    v[i] = m;
}

/// `swap` through `ArrayVec`'s `DerefMut` slice.
#[verifier::external_body]
fn av_swap(v: &mut ArrayVec<MoveListMove, 218>, i: usize, j: usize)
    requires
        i < move_list_items(*old(v)).len(),
        j < move_list_items(*old(v)).len(),
    ensures
        move_list_items(*final(v)) == move_list_items(*old(v)).update(
            i as int,
            move_list_items(*old(v))[j as int],
        ).update(j as int, move_list_items(*old(v))[i as int]),
{
    v.swap(i, j);
}

/// A list of at most 218 scored moves. `overflow` records a move that did not fit.
pub struct MoveList {
    pub list: ArrayVec<MoveListMove, 218>,
    pub overflow: bool,
}

impl MoveList {
    /// The held moves.
    pub open spec fn items(&self) -> Seq<MoveListMove> {
        move_list_items(self.list)
    }

    pub fn new() -> (r: Self)
        ensures
            r.items() == Seq::<MoveListMove>::empty(),
            !r.overflow,
    {
        MoveList { list: av_new(), overflow: false }
    }

    /// Appends `mv` with score 0; a full list keeps its moves and records the overflow.
    pub fn push(&mut self, mv: EncodedMove)
        ensures
            old(self).items().len() < 218 ==> final(self).items() == old(self).items().push(
                MoveListMove { score: 0, mv },
            ) && final(self).overflow == old(self).overflow,
            old(self).items().len() >= 218 ==> final(self).items() == old(self).items()
                && final(self).overflow,
    {
        let ok = av_try_push(&mut self.list, MoveListMove { score: 0, mv });
        if !ok {
            self.overflow = true;
        }
    }

    pub fn len(&self) -> (r: usize)
        ensures
            r == self.items().len(),
    {
        av_len(&self.list)
    }

    /// The `i`-th move.
    pub fn get(&self, i: usize) -> (r: MoveListMove)
        requires
            i < self.items().len(),
        ensures
            r == self.items()[i as int],
    {
        let s = av_as_slice(&self.list);
        s[i]
    }

    /// Replaces the score of the `i`-th move.
    pub fn set_score(&mut self, i: usize, score: i32)
        requires
            i < old(self).items().len(),
        ensures
            final(self).items() == old(self).items().update(
                i as int,
                MoveListMove { score, mv: old(self).items()[i as int].mv },
            ),
            final(self).overflow == old(self).overflow,
    {
        let m = self.get(i);
        av_set(&mut self.list, i, MoveListMove { score, mv: m.mv });
    }

    /// Exchanges the `i`-th and `j`-th moves.
    pub fn swap(&mut self, i: usize, j: usize)
        requires
            i < old(self).items().len(),
            j < old(self).items().len(),
        ensures
            final(self).items() == old(self).items().update(i as int, old(self).items()[j as int]).update(
                j as int,
                old(self).items()[i as int],
            ),
            final(self).overflow == old(self).overflow,
    {
        av_swap(&mut self.list, i, j);
    }
}

/// The stages of a move picker, in the order it goes through them.
#[derive(Clone, Copy, PartialEq, Eq, Structural, Debug)]
pub enum GenerationState {
    TTMove,
    Captures,
    YieldCaptures,
    Killer,
    Quiets,
    YieldQuiets,
    Done,
}

/// Hands out the moves of a position one at a time: the move from the transposition table
/// first, then captures and promotions best score first, then the quiet moves.
pub struct MovePicker {
    pub tt_move: Option<EncodedMove>,
    pub killer_mv: Option<EncodedMove>,
    pub move_list: MoveList,
    pub state: GenerationState,
    pub move_index: usize,
    pub skip_quiets: bool,
}

/// The move is one the picker hands out only from its own stage.
pub open spec fn skipped(p: MovePicker, m: EncodedMove) -> bool {
    (crate::settings::ORDER_TT_MV_FIRST && p.tt_move == Some(m)) || (crate::settings::KILLERS
        && p.killer_mv == Some(m))
}

impl MovePicker {
    pub fn new(tt_move: Option<EncodedMove>, killer_mv: Option<EncodedMove>, skip_quiets: bool) -> (r: Self)
        ensures
            r.tt_move == tt_move,
            r.killer_mv == killer_mv,
            r.skip_quiets == skip_quiets,
            r.state == GenerationState::TTMove,
            r.move_index == 0,
            r.move_list.items().len() == 0,
            !r.move_list.overflow,
    {
        MovePicker {
            tt_move,
            killer_mv,
            move_list: MoveList::new(),
            state: GenerationState::TTMove,
            move_index: 0,
            skip_quiets,
        }
    }

    /// Moves the best scored move not yet handed out to the front of the rest and hands it
    /// out; moves that are handed out from their own stage are passed over. `None` once
    /// every move has been handed out.
    pub fn yield_next_best_move(&mut self) -> (r: Option<EncodedMove>)
        requires
            old(self).move_index <= old(self).move_list.items().len(),
        ensures
            final(self).tt_move == old(self).tt_move,
            final(self).killer_mv == old(self).killer_mv,
            final(self).state == old(self).state,
            final(self).skip_quiets == old(self).skip_quiets,
            final(self).move_list.overflow == old(self).move_list.overflow,
            old(self).move_index <= final(self).move_index <= final(self).move_list.items().len(),
            final(self).move_list.items().len() == old(self).move_list.items().len(),
            final(self).move_list.items().to_multiset() == old(self).move_list.items().to_multiset(),
            final(self).move_list.items().subrange(0, old(self).move_index as int)
                == old(self).move_list.items().subrange(0, old(self).move_index as int),
            forall|j: int| old(self).move_index <= j < final(self).move_index - (if r is Some { 1int } else { 0 })
                ==> skipped(*old(self), (#[trigger] final(self).move_list.items()[j]).mv),
            r matches Some(m) ==> {
                let at = final(self).move_index - 1;
                &&& final(self).move_list.items()[at].mv == m
                &&& !skipped(*old(self), m)
                &&& forall|j: int| at <= j < final(self).move_list.items().len()
                    ==> (#[trigger] final(self).move_list.items()[j]).score <= final(self).move_list.items()[at].score
            },
            r is None ==> final(self).move_index == final(self).move_list.items().len(),
            r is Some ==> final(self).move_index >= old(self).move_index + 1,
            crate::moves::no_repeats(old(self).move_list.items()) ==> crate::moves::no_repeats(final(self).move_list.items()),
    {
        let ghost start = *self;
        let n = self.move_list.len();
        loop
            invariant
                start == *old(self),
                n == self.move_list.items().len(),
                n == start.move_list.items().len(),
                start.move_index <= self.move_index <= n,
                self.tt_move == start.tt_move,
                self.killer_mv == start.killer_mv,
                self.state == start.state,
                self.skip_quiets == start.skip_quiets,
                self.move_list.overflow == start.move_list.overflow,
                self.move_list.items().to_multiset() == start.move_list.items().to_multiset(),
                self.move_list.items().subrange(0, start.move_index as int)
                    == start.move_list.items().subrange(0, start.move_index as int),
                forall|j: int| start.move_index <= j < self.move_index
                    ==> skipped(start, (#[trigger] self.move_list.items()[j]).mv),
                crate::moves::no_repeats(start.move_list.items()) ==> crate::moves::no_repeats(self.move_list.items()),
            decreases n - self.move_index,
        {
            if self.move_index >= n {
                return None;
            }
            let first = self.move_index;
            let mut best_idx = first;
            let mut max_score = self.move_list.get(first).score;
            let mut i = first + 1;
            while i < n
                invariant
                    first < n,
                    n == self.move_list.items().len(),
                    first < i <= n,
                    first <= best_idx < i,
                    max_score == self.move_list.items()[best_idx as int].score,
                    forall|j: int| first <= j < i ==> (#[trigger] self.move_list.items()[j]).score <= max_score,
                decreases n - i,
            {
                let sc = self.move_list.get(i).score;
                if sc > max_score {
                    max_score = sc;
                    best_idx = i;
                }
                i = i + 1;
            }
            let ghost before = self.move_list.items();
            self.move_list.swap(first, best_idx);
            proof {
                let after = self.move_list.items();
                assert(after =~= before.update(first as int, before[best_idx as int]).update(best_idx as int, before[first as int]));
                lemma_swap_multiset(before, first as int, best_idx as int);
                if crate::moves::no_repeats(before) {
                    lemma_swap_no_repeats(before, first as int, best_idx as int);
                }
                assert(after.subrange(0, start.move_index as int) =~= before.subrange(0, start.move_index as int));
                assert forall|j: int| first <= j < n implies (#[trigger] after[j]).score <= after[first as int].score by {
                    if j == best_idx {
                        assert(after[j] == before[first as int]);
                    } else if j != first {
                        assert(after[j] == before[j]);
                    }
                }
                assert forall|j: int| start.move_index <= j < first implies skipped(start, (#[trigger] after[j]).mv) by {
                    assert(after[j] == before[j]);
                }
            }
            let best_move = self.move_list.get(first).mv;
            self.move_index = self.move_index + 1;
            let tt_hit = match self.tt_move {
                Some(t) => t == best_move,
                None => false,
            };
            let killer_hit = match self.killer_mv {
                Some(k) => k == best_move,
                None => false,
            };
            if (crate::settings::ORDER_TT_MV_FIRST && tt_hit) || (crate::settings::KILLERS && killer_hit) {
                continue;
            }
            return Some(best_move);
        }
    }
}

/// Exchanging two entries keeps the multiset of a sequence.
pub proof fn lemma_swap_multiset<A>(s: Seq<A>, i: int, j: int)
    requires
        0 <= i < s.len(),
        0 <= j < s.len(),
    ensures
        s.update(i, s[j]).update(j, s[i]).to_multiset() == s.to_multiset(),
{
    let t = s.update(i, s[j]);
    vstd::seq_lib::lemma_multiset_commutative(s, s);
    broadcast use vstd::seq_lib::group_to_multiset_ensures;
    assert(t.to_multiset() == s.to_multiset().remove(s[i]).insert(s[j]));
    assert(t.update(j, s[i]).to_multiset() == t.to_multiset().remove(t[j]).insert(s[i]));
    if i == j {
        assert(t.update(j, s[i]) =~= s);
    } else {
        assert(t[j] == s[j]);
        assert(s.to_multiset().remove(s[i]).insert(s[j]).remove(s[j]).insert(s[i]) =~= s.to_multiset());
    }
}

/// Exchanging two entries keeps a list free of repeated moves.
pub proof fn lemma_swap_no_repeats(s: Seq<MoveListMove>, i: int, j: int)
    requires
        0 <= i < s.len(),
        0 <= j < s.len(),
        crate::moves::no_repeats(s),
    ensures
        crate::moves::no_repeats(s.update(i, s[j]).update(j, s[i])),
{
    let t = s.update(i, s[j]).update(j, s[i]);
    assert forall|a: int, b: int| 0 <= a < b < t.len() implies #[trigger] t[a].mv.0 != #[trigger] t[b].mv.0 by {
        let sa = if a == j { i } else if a == i { j } else { a };
        let sb = if b == j { i } else if b == i { j } else { b };
        assert(t[a] == s[sa]);
        assert(t[b] == s[sb]);
        if sa < sb {
            assert(s[sa].mv.0 != s[sb].mv.0);
        } else {
            assert(s[sb].mv.0 != s[sa].mv.0);
        }
    }
}

/// The moves a picker holds for `b`: those generation produces there; once generated,
/// unless a move did not fit, exactly the captures and promotions, then all moves. Once
/// done, every held move is behind the move index.
pub open spec fn picker_ok(p: MovePicker, b: crate::board::Board) -> bool {
    let held = crate::moves::moves_in(p.move_list.items());
    let captures = crate::generator::generated_moves(b, false);
    let quiets = crate::generator::generated_moves(b, true);
    &&& p.move_index <= p.move_list.items().len()
    &&& held.subset_of(captures + quiets)
    &&& crate::moves::no_repeats(p.move_list.items())
    &&& (p.move_list.overflow ==> p.move_list.items().len() >= 218)
    &&& (p.state == GenerationState::YieldCaptures || p.state == GenerationState::Killer || p.state
        == GenerationState::Quiets) ==> held.subset_of(captures)
    &&& (p.state == GenerationState::TTMove || p.state == GenerationState::Captures) ==> p.move_list.items().len() == 0
    &&& (p.state == GenerationState::YieldCaptures || p.state == GenerationState::Killer || p.state
        == GenerationState::Quiets) && !p.move_list.overflow ==> held == captures
    &&& p.state == GenerationState::YieldQuiets && !p.move_list.overflow ==> held == captures + quiets
    &&& (p.state == GenerationState::Killer || p.state == GenerationState::Quiets || p.state
        == GenerationState::YieldQuiets) ==> !p.skip_quiets
    &&& p.state == GenerationState::Done ==> p.move_index == p.move_list.items().len() && (!p.move_list.overflow
        ==> held == (if p.skip_quiets {
        captures
    } else {
        captures + quiets
    }))
}

/// The moves handed out from the list: those before the move index, other than the moves
/// the picker hands out from their own stage.
pub open spec fn handed_from_list(p: MovePicker) -> Set<u16> {
    Set::new(
        |e: u16|
            exists|i: int|
                0 <= i < p.move_index && (#[trigger] p.move_list.items()[i]).mv.0 == e && !skipped(
                    p,
                    p.move_list.items()[i].mv,
                ),
    )
}

/// A picker for a position with fewer than 218 moves never loses a move to a full list.
pub proof fn lemma_picker_no_overflow(p: MovePicker, b: crate::board::Board)
    requires
        picker_ok(p, b),
        (crate::generator::generated_moves(b, false) + crate::generator::generated_moves(b, true)).len() < 218,
    ensures
        !p.move_list.overflow,
{
    let all = crate::generator::generated_moves(b, false) + crate::generator::generated_moves(b, true);
    if p.move_list.overflow {
        crate::moves::lemma_no_repeats_len(p.move_list.items());
        broadcast use vstd::set_lib::full_set_properties;
        assert(Set::<u16>::full().finite());
        vstd::set_lib::lemma_set_subset_finite(Set::<u16>::full(), all);
        vstd::set_lib::lemma_len_subset(crate::moves::moves_in(p.move_list.items()), all);
    }
}

/// Once the picker is done, every move generation produces there (only the captures and
/// promotions when quiet moves are skipped) has been handed out from the list, unless it
/// is handed out from its own stage (the table move) or the list overflowed.
pub proof fn lemma_done_picker_handed_all(p: MovePicker, b: crate::board::Board, e: u16)
    requires
        picker_ok(p, b),
        p.state == GenerationState::Done,
        !p.move_list.overflow,
        (if p.skip_quiets {
            crate::generator::generated_moves(b, false)
        } else {
            crate::generator::generated_moves(b, false) + crate::generator::generated_moves(b, true)
        }).contains(e),
        !skipped(p, EncodedMove(e)),
    ensures
        handed_from_list(p).contains(e),
{
    assert(crate::moves::moves_in(p.move_list.items()).contains(e));
    let i = choose|i: int| 0 <= i < p.move_list.items().len() && (#[trigger] p.move_list.items()[i]).mv.0 == e;
    assert(p.move_list.items()[i].mv == EncodedMove(e));
}

pub open spec fn state_rank(s: GenerationState) -> int {
    match s {
        GenerationState::TTMove => 6,
        GenerationState::Captures => 5,
        GenerationState::YieldCaptures => 4,
        GenerationState::Killer => 3,
        GenerationState::Quiets => 2,
        GenerationState::YieldQuiets => 1,
        GenerationState::Done => 0,
    }
}

proof fn lemma_list_sound(b: crate::board::Board, items: Seq<MoveListMove>)
    requires
        b.movegen_ready(),
        crate::moves::moves_in(items).subset_of(
            crate::generator::generated_moves(b, false) + crate::generator::generated_moves(b, true),
        ),
    ensures
        crate::move_ordering::sound_list(b, items),
{
    assert forall|i: int| 0 <= i < items.len() implies crate::generator::sound_move(b, (#[trigger] items[i]).mv.0) by {
        assert(crate::moves::moves_in(items).contains(items[i].mv.0));
        if crate::generator::generated_moves(b, false).contains(items[i].mv.0) {
            crate::generator::lemma_generated_sound(b, false, items[i].mv.0);
        } else {
            crate::generator::lemma_generated_sound(b, true, items[i].mv.0);
        }
    }
}


/// The moves handed out from the list stay the same when the moves before the move index
/// stay the same.
proof fn lemma_handed_same_prefix(a: MovePicker, b: MovePicker)
    requires
        a.tt_move == b.tt_move,
        a.killer_mv == b.killer_mv,
        a.move_index == b.move_index,
        a.move_index <= a.move_list.items().len(),
        a.move_index <= b.move_list.items().len(),
        forall|i: int| 0 <= i < a.move_index ==> (#[trigger] b.move_list.items()[i]).mv == a.move_list.items()[i].mv,
    ensures
        handed_from_list(b) == handed_from_list(a),
{
    assert forall|e: u16| handed_from_list(b).contains(e) implies handed_from_list(a).contains(e) by {
        let i = choose|i: int|
            0 <= i < b.move_index && (#[trigger] b.move_list.items()[i]).mv.0 == e && !skipped(b, b.move_list.items()[i].mv);
        assert(a.move_list.items()[i].mv == b.move_list.items()[i].mv);
    }
    assert forall|e: u16| handed_from_list(a).contains(e) implies handed_from_list(b).contains(e) by {
        let i = choose|i: int|
            0 <= i < a.move_index && (#[trigger] a.move_list.items()[i]).mv.0 == e && !skipped(a, a.move_list.items()[i].mv);
        assert(a.move_list.items()[i].mv == b.move_list.items()[i].mv);
    }
    assert(handed_from_list(b) =~= handed_from_list(a));
}

/// What `yield_next_best_move` does to the moves handed out from the list: adds the move it
/// returns, if any.
proof fn lemma_handed_after_yield(a: MovePicker, b: MovePicker, r: Option<EncodedMove>)
    requires
        a.tt_move == b.tt_move,
        a.killer_mv == b.killer_mv,
        a.move_index <= b.move_index <= b.move_list.items().len(),
        a.move_index <= a.move_list.items().len(),
        b.move_list.items().subrange(0, a.move_index as int) == a.move_list.items().subrange(0, a.move_index as int),
        forall|j: int| a.move_index <= j < b.move_index - (if r is Some { 1int } else { 0 })
            ==> skipped(a, (#[trigger] b.move_list.items()[j]).mv),
        r matches Some(m) ==> b.move_list.items()[b.move_index - 1].mv == m && !skipped(a, m),
        r is Some ==> b.move_index >= a.move_index + 1,
    ensures
        r matches Some(m) ==> handed_from_list(b) == handed_from_list(a).insert(m.0),
        r is None ==> handed_from_list(b) == handed_from_list(a),
{
    let ha = handed_from_list(a);
    let hb = handed_from_list(b);
    let expected = match r {
        Some(m) => ha.insert(m.0),
        None => ha,
    };
    assert forall|e: u16| hb.contains(e) implies expected.contains(e) by {
        let i = choose|i: int|
            0 <= i < b.move_index && (#[trigger] b.move_list.items()[i]).mv.0 == e && !skipped(b, b.move_list.items()[i].mv);
        if i < a.move_index {
            assert(b.move_list.items()[i] == b.move_list.items().subrange(0, a.move_index as int)[i]);
            assert(a.move_list.items()[i] == a.move_list.items().subrange(0, a.move_index as int)[i]);
            assert(ha.contains(e));
        } else if r is Some && i == b.move_index - 1 {
        } else {
            assert(skipped(a, b.move_list.items()[i].mv));
        }
    }
    assert forall|e: u16| expected.contains(e) implies hb.contains(e) by {
        if ha.contains(e) {
            let i = choose|i: int|
                0 <= i < a.move_index && (#[trigger] a.move_list.items()[i]).mv.0 == e && !skipped(a, a.move_list.items()[i].mv);
            assert(b.move_list.items()[i] == b.move_list.items().subrange(0, a.move_index as int)[i]);
            assert(a.move_list.items()[i] == a.move_list.items().subrange(0, a.move_index as int)[i]);
            assert(b.move_list.items()[i].mv.0 == e);
        } else {
            let at = b.move_index - 1;
            assert(b.move_list.items()[at].mv.0 == e);
        }
    }
    assert(hb =~= expected);
}

/// A move handed out by a yield, on a list without repeated moves, had not been handed out
/// from the list before.
proof fn lemma_yield_fresh(a: MovePicker, b: MovePicker, m: EncodedMove)
    requires
        a.tt_move == b.tt_move,
        a.killer_mv == b.killer_mv,
        a.move_index < b.move_index <= b.move_list.items().len(),
        a.move_index <= a.move_list.items().len(),
        b.move_list.items().subrange(0, a.move_index as int) == a.move_list.items().subrange(0, a.move_index as int),
        b.move_list.items()[b.move_index - 1].mv == m,
        crate::moves::no_repeats(b.move_list.items()),
    ensures
        !handed_from_list(a).contains(m.0),
{
    if handed_from_list(a).contains(m.0) {
        let i = choose|i: int|
            0 <= i < a.move_index && (#[trigger] a.move_list.items()[i]).mv.0 == m.0 && !skipped(a, a.move_list.items()[i].mv);
        assert(b.move_list.items()[i] == b.move_list.items().subrange(0, a.move_index as int)[i]);
        assert(a.move_list.items()[i] == a.move_list.items().subrange(0, a.move_index as int)[i]);
        let at = b.move_index - 1;
        assert(b.move_list.items()[i].mv.0 != b.move_list.items()[at].mv.0);
    }
}

impl MovePicker {
    /// The next move: the legal move from the transposition table, then captures and
    /// promotions best score first, then (unless quiet moves are skipped) the quiet moves.
    /// `None` when every move has been handed out.
    pub fn next(&mut self, board: &crate::board::Board) -> (r: Option<EncodedMove>)
        requires
            board.movegen_ready(),
            picker_ok(*old(self), *board),
        ensures
            picker_ok(*final(self), *board),
            final(self).tt_move == old(self).tt_move,
            final(self).killer_mv == old(self).killer_mv,
            final(self).skip_quiets == old(self).skip_quiets,
            r matches Some(m) ==> ((old(self).tt_move == Some(m) || old(self).killer_mv == Some(m))
                && crate::is_legal::legal(*board, crate::types::spec_decode(m.0)))
                || crate::generator::generated_moves(*board, false).contains(m.0)
                || crate::generator::generated_moves(*board, true).contains(m.0),
            old(self).state == GenerationState::Done ==> r is None,
            r is None ==> final(self).state == GenerationState::Done,
            r is Some ==> state_rank(final(self).state) < state_rank(old(self).state) || (final(self).state
                == old(self).state && final(self).move_list.items().len() == old(self).move_list.items().len()
                && final(self).move_index > old(self).move_index),
            r matches Some(m) ==> (!skipped(*old(self), m) ==> handed_from_list(*final(self)) == handed_from_list(
                *old(self),
            ).insert(m.0)),
            r matches Some(m) ==> (skipped(*old(self), m) ==> handed_from_list(*final(self)) == handed_from_list(
                *old(self),
            )),
            r is None ==> handed_from_list(*final(self)) == handed_from_list(*old(self)),
            r matches Some(m) ==> (!skipped(*old(self), m) ==> !handed_from_list(*old(self)).contains(m.0)),
    {
        let ghost start = *self;
        loop
            invariant
                board.movegen_ready(),
                picker_ok(*self, *board),
                self.tt_move == start.tt_move,
                self.killer_mv == start.killer_mv,
                self.skip_quiets == start.skip_quiets,
                start == *old(self),
                start.state == GenerationState::Done ==> self.state == GenerationState::Done,
                state_rank(self.state) <= state_rank(start.state),
                self.state == start.state ==> (self.move_list.items().len() == start.move_list.items().len()
                    && self.move_index == start.move_index),
                handed_from_list(*self) == handed_from_list(start),
            decreases state_rank(self.state),
        {
            match self.state {
                GenerationState::TTMove => {
                    let ghost pre = *self;
                    self.state = GenerationState::Captures;
                    proof {
                        lemma_handed_same_prefix(pre, *self);
                    }
                    if crate::settings::ORDER_TT_MV_FIRST {
                        if let Some(tt) = self.tt_move {
                            let d = tt.decode();
                            if board.is_legal(&d) {
                                return Some(tt);
                            }
                        }
                    }
                },
                GenerationState::Captures => {
                    let ghost pre = *self;
                    let ghost before = self.move_list;
                    board.generate_moves(false, &mut self.move_list);
                    proof {
                        assert(crate::moves::moves_in(before.items()) =~= Set::<u16>::empty());
                        lemma_list_sound(*board, self.move_list.items());
                    }
                    let ghost scored_before = self.move_list.items();
                    crate::move_ordering::mvv_lva(&mut self.move_list, board);
                    proof {
                        crate::moves::lemma_moves_in_same_moves(scored_before, self.move_list.items());
                        assert(Set::<u16>::empty() + crate::generator::generated_moves(*board, false)
                            =~= crate::generator::generated_moves(*board, false));
                        let now = self.move_list.items();
                        assert forall|i: int, j: int| 0 <= i < j < now.len() implies #[trigger] now[i].mv.0
                            != #[trigger] now[j].mv.0 by {
                            assert(now[i].mv == scored_before[i].mv);
                            assert(now[j].mv == scored_before[j].mv);
                        }
                    }
                    self.state = GenerationState::YieldCaptures;
                    proof {
                        lemma_handed_same_prefix(pre, *self);
                    }
                },
                GenerationState::YieldCaptures => {
                    let ghost pre = *self;
                    let ghost held = self.move_list.items();
                    let got = self.yield_next_best_move();
                    proof {
                        lemma_handed_after_yield(pre, *self, got);
                        crate::moves::lemma_moves_in_multiset(held, self.move_list.items());
                        if got is Some {
                            let m = got->0;
                            assert(crate::moves::moves_in(self.move_list.items()).contains(m.0)) by {
                                let at = self.move_index - 1;
                                assert(0 <= at < self.move_list.items().len());
                                assert(self.move_list.items()[at].mv == m);
                            }
                            lemma_yield_fresh(pre, *self, m);
                        }
                    }
                    match got {
                        Some(m) => {
                            return Some(m);
                        },
                        None => {
                            if self.skip_quiets {
                                self.state = GenerationState::Done;
                                return None;
                            } else {
                                self.state = GenerationState::Killer;
                            }
                        },
                    }
                },
                GenerationState::Killer => {
                    let ghost pre = *self;
                    self.state = GenerationState::Quiets;
                    proof {
                        lemma_handed_same_prefix(pre, *self);
                    }
                    if crate::settings::KILLERS {
                        if let Some(killer) = self.killer_mv {
                            if self.killer_mv != self.tt_move {
                                let d = killer.decode();
                                if board.is_legal(&d) {
                                    return Some(killer);
                                }
                            }
                        }
                    }
                },
                GenerationState::Quiets => {
                    let ghost pre = *self;
                    board.generate_moves(true, &mut self.move_list);
                    self.state = GenerationState::YieldQuiets;
                    proof {
                        let a = pre.move_list.items();
                        let b = self.move_list.items();
                        assert forall|i: int| 0 <= i < pre.move_index implies (#[trigger] b[i]).mv == a[i].mv by {
                            assert(b.subrange(0, a.len() as int)[i] == b[i]);
                        }
                        lemma_handed_same_prefix(pre, *self);
                        crate::generator::lemma_generated_phase_types(*board, false);
                        assert forall|i: int, j: int| 0 <= i < j < b.len() implies #[trigger] b[i].mv.0
                            != #[trigger] b[j].mv.0 by {
                            if j < a.len() {
                                assert(b.subrange(0, a.len() as int)[i] == b[i]);
                                assert(b.subrange(0, a.len() as int)[j] == b[j]);
                            } else if i < a.len() {
                                assert(b.subrange(0, a.len() as int)[i] == b[i]);
                                assert(crate::moves::moves_in(a).contains(a[i].mv.0));
                                assert(crate::generator::generated_moves(*board, true).contains(b[j].mv.0));
                            }
                        }
                    }
                },
                GenerationState::YieldQuiets => {
                    let ghost pre = *self;
                    let ghost held = self.move_list.items();
                    let got = self.yield_next_best_move();
                    proof {
                        lemma_handed_after_yield(pre, *self, got);
                        crate::moves::lemma_moves_in_multiset(held, self.move_list.items());
                        if got is Some {
                            let m = got->0;
                            assert(crate::moves::moves_in(self.move_list.items()).contains(m.0)) by {
                                let at = self.move_index - 1;
                                assert(0 <= at < self.move_list.items().len());
                                assert(self.move_list.items()[at].mv == m);
                            }
                            lemma_yield_fresh(pre, *self, m);
                        }
                    }
                    match got {
                        Some(m) => {
                            return Some(m);
                        },
                        None => {
                            self.state = GenerationState::Done;
                            return None;
                        },
                    }
                },
                GenerationState::Done => {
                    return None;
                },
            }
        }
    }
}

} // verus!
