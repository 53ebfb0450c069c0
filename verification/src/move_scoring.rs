//! Move ordering scores: MVV-LVA for captures and history heuristics for quiet moves.
use crate::types::{Color, DecodedMove};
use vstd::prelude::*;

verus! {

pub const PAWN_VALUE: i32 = 100;

pub const KNIGHT_VALUE: i32 = 300;

pub const BISHOP_VALUE: i32 = 320;

pub const ROOK_VALUE: i32 = 500;

pub const QUEEN_VALUE: i32 = 900;

pub const KING_VALUE: i32 = 10000;

pub const ORDERING_OFFSET: i32 = 10000;

pub const ORDERING_MULTIPLIER: i32 = 100;

/// Constants for the gravity history increase.
pub const HISTORY_BONUS_MUL: i32 = 355;

pub const HISTORY_BONUS_OFFS: i32 = 230;

pub const HISTORY_BONUS_MAX: i32 = 2222;

pub const HISTORY_MALUSE_MUL: i32 = 110;

pub const HISTORY_MALUSE_OFFS: i32 = 515;

pub const HISTORY_MALUSE_MAX: i32 = 900;

/// History values stay within plus and minus this bound.
pub const MAX_HISTORY_VALUE: i32 = 32767;

/// Material value of a piece index: pawn, knight, bishop, rook, queen, king.
pub open spec fn spec_piece_value(i: int) -> int {
    if i == 0 {
        PAWN_VALUE as int
    } else if i == 1 {
        KNIGHT_VALUE as int
    } else if i == 2 {
        BISHOP_VALUE as int
    } else if i == 3 {
        ROOK_VALUE as int
    } else if i == 4 {
        QUEEN_VALUE as int
    } else {
        KING_VALUE as int
    }
}

pub fn piece_value(i: usize) -> (r: i32)
    requires
        i < 6,
    ensures
        r == spec_piece_value(i as int),
{
    if i == 0 {
        PAWN_VALUE
    } else if i == 1 {
        KNIGHT_VALUE
    } else if i == 2 {
        BISHOP_VALUE
    } else if i == 3 {
        ROOK_VALUE
    } else if i == 4 {
        QUEEN_VALUE
    } else {
        KING_VALUE
    }
}

/// MVV-LVA score: victim value times 100, minus attacker value, plus an offset;
/// 0 for a king as victim, which cannot be captured.
pub open spec fn spec_mvv_lva(victim: int, attacker: int) -> int {
    if victim >= 5 {
        0
    } else {
        spec_piece_value(victim) * ORDERING_MULTIPLIER - spec_piece_value(attacker)
            + ORDERING_OFFSET
    }
}

/// <https://www.chessprogramming.org/MVV-LVA>
pub fn calculate_mvv_lva_score(victim_idx: usize, attacker_idx: usize) -> (r: i32)
    requires
        victim_idx < 6,
        attacker_idx < 6,
    ensures
        r == spec_mvv_lva(victim_idx as int, attacker_idx as int),
{
    if victim_idx >= 5 {
        return 0;
    }
    let victim_value = piece_value(victim_idx);
    let attacker_value = piece_value(attacker_idx);
    victim_value * ORDERING_MULTIPLIER - attacker_value + ORDERING_OFFSET
}

/// The MVV-LVA table indexed by `[attacker][victim]`.
pub fn mvv_lva_table() -> (r: Vec<Vec<i32>>)
    ensures
        r@.len() == 6,
        forall|a: int| 0 <= a < 6 ==> #[trigger] r@[a]@.len() == 6,
        forall|a: int, v: int|
            0 <= a < 6 && 0 <= v < 6 ==> #[trigger] r@[a]@[v] == spec_mvv_lva(v, a),
{
    let mut table: Vec<Vec<i32>> = Vec::new();
    let mut attacker_idx: usize = 0;
    while attacker_idx < 6
        invariant
            attacker_idx <= 6,
            table@.len() == attacker_idx,
            forall|a: int| 0 <= a < attacker_idx ==> #[trigger] table@[a]@.len() == 6,
            forall|a: int, v: int|
                0 <= a < attacker_idx && 0 <= v < 6 ==> #[trigger] table@[a]@[v] == spec_mvv_lva(
                    v,
                    a,
                ),
        decreases 6 - attacker_idx,
    {
        let mut row: Vec<i32> = Vec::new();
        let mut victim_idx: usize = 0;
        while victim_idx < 6
            invariant
                victim_idx <= 6,
                attacker_idx < 6,
                row@.len() == victim_idx,
                forall|v: int|
                    0 <= v < victim_idx ==> #[trigger] row@[v] == spec_mvv_lva(v, attacker_idx as int),
            decreases 6 - victim_idx,
        {
            row.push(calculate_mvv_lva_score(victim_idx, attacker_idx));
            victim_idx = victim_idx + 1;
        }
        table.push(row);
        attacker_idx = attacker_idx + 1;
    }
    table
}

pub open spec fn abs(x: int) -> int {
    if x < 0 {
        -x
    } else {
        x
    }
}

/// Rust's `/` on signed integers: rounds toward zero.
pub open spec fn trunc_div(a: int, b: int) -> int {
    if a >= 0 {
        a / b
    } else {
        -((-a) / b)
    }
}

pub open spec fn clamp(x: int, lo: int, hi: int) -> int {
    if x < lo {
        lo
    } else if x > hi {
        hi
    } else {
        x
    }
}

/// The history gravity update: moves `val` by `bonus`, less the more `val` already
/// leans in that direction, clamped to the history bounds.
pub open spec fn spec_gravity(val: int, bonus: int) -> int {
    clamp(
        val + bonus - trunc_div(val * abs(bonus), MAX_HISTORY_VALUE as int),
        -MAX_HISTORY_VALUE as int,
        MAX_HISTORY_VALUE as int,
    )
}

/// Inputs for which the gravity arithmetic stays within `i32`.
pub open spec fn gravity_fits(val: int, bonus: int) -> bool {
    &&& bonus > i32::MIN
    &&& i32::MIN <= val * abs(bonus) <= i32::MAX
    &&& i32::MIN <= val + bonus <= i32::MAX
    &&& i32::MIN <= val + bonus - trunc_div(val * abs(bonus), MAX_HISTORY_VALUE as int)
        <= i32::MAX
}

pub fn gravity(val: i32, bonus: i32) -> (r: i32)
    requires
        gravity_fits(val as int, bonus as int),
    ensures
        r == spec_gravity(val as int, bonus as int),
        -MAX_HISTORY_VALUE <= r <= MAX_HISTORY_VALUE,
{
    let b = if bonus < 0 {
        -bonus
    } else {
        bonus
    };
    let p = val * b;
    let q = p / MAX_HISTORY_VALUE;
    assert(q == trunc_div(p as int, MAX_HISTORY_VALUE as int));
    let x = val + bonus - q;
    if x < -MAX_HISTORY_VALUE {
        -MAX_HISTORY_VALUE
    } else if x > MAX_HISTORY_VALUE {
        MAX_HISTORY_VALUE
    } else {
        x
    }
}

/// Bonus for a move that caused a cutoff at `depth`.
pub fn history_bonus(depth: usize) -> (r: i32)
    requires
        HISTORY_BONUS_MUL * depth + HISTORY_BONUS_OFFS <= i32::MAX,
    ensures
        r == (if HISTORY_BONUS_MUL * depth + HISTORY_BONUS_OFFS < HISTORY_BONUS_MAX {
            HISTORY_BONUS_MUL * depth + HISTORY_BONUS_OFFS
        } else {
            HISTORY_BONUS_MAX as int
        }),
        0 < r <= HISTORY_BONUS_MAX,
{
    let v = HISTORY_BONUS_MUL * (depth as i32) + HISTORY_BONUS_OFFS;
    if v < HISTORY_BONUS_MAX {
        v
    } else {
        HISTORY_BONUS_MAX
    }
}

/// Punishment for a move that did not cause a cutoff at `depth`.
pub fn history_maluse(depth: usize) -> (r: i32)
    requires
        HISTORY_MALUSE_MUL * depth + HISTORY_MALUSE_OFFS <= i32::MAX,
    ensures
        r == -(if HISTORY_MALUSE_MUL * depth + HISTORY_MALUSE_OFFS < HISTORY_MALUSE_MAX {
            HISTORY_MALUSE_MUL * depth + HISTORY_MALUSE_OFFS
        } else {
            HISTORY_MALUSE_MAX as int
        }),
        -HISTORY_MALUSE_MAX <= r < 0,
{
    let v = HISTORY_MALUSE_MUL * (depth as i32) + HISTORY_MALUSE_OFFS;
    if v < HISTORY_MALUSE_MAX {
        -v
    } else {
        -HISTORY_MALUSE_MAX
    }
}

/// History tables for white (`.0`) and black (`.1`), indexed by `from * 64 + to`.
pub struct HistoryBoard(pub Vec<i32>, pub Vec<i32>);

pub open spec fn in_history_range(v: Seq<i32>) -> bool {
    forall|i: int| 0 <= i < v.len() ==> -MAX_HISTORY_VALUE <= #[trigger] v[i] <= MAX_HISTORY_VALUE
}

pub open spec fn history_slot(mv: DecodedMove) -> int {
    mv.from.0 * 64 + mv.to.0
}

impl HistoryBoard {
    pub open spec fn wf(&self) -> bool {
        &&& self.0@.len() == 4096
        &&& self.1@.len() == 4096
        &&& in_history_range(self.0@)
        &&& in_history_range(self.1@)
    }

    /// All histories zero.
    pub fn new() -> (r: Self)
        ensures
            r.wf(),
            forall|i: int| 0 <= i < 4096 ==> #[trigger] r.0@[i] == 0 && r.1@[i] == 0,
    {
        let mut w: Vec<i32> = Vec::new();
        let mut b: Vec<i32> = Vec::new();
        while w.len() < 4096
            invariant
                w@.len() == b@.len(),
                w@.len() <= 4096,
                forall|i: int| 0 <= i < w@.len() ==> #[trigger] w@[i] == 0,
                forall|i: int| 0 <= i < b@.len() ==> #[trigger] b@[i] == 0,
            decreases 4096 - w.len(),
        {
            w.push(0);
            b.push(0);
        }
        HistoryBoard(w, b)
    }

    /// Applies `bonus` to the history of `mv` for `color` with gravity.
    pub fn update_history(&mut self, color: Color, mv: DecodedMove, bonus: i32)
        requires
            old(self).wf(),
            mv.valid(),
            color == Color::White ==> gravity_fits(old(self).0@[history_slot(mv)] as int, bonus as int),
            color == Color::Black ==> gravity_fits(old(self).1@[history_slot(mv)] as int, bonus as int),
        ensures
            final(self).wf(),
            color == Color::White ==> final(self).0@ == old(self).0@.update(
                history_slot(mv),
                spec_gravity(old(self).0@[history_slot(mv)] as int, bonus as int) as i32,
            ) && final(self).1@ == old(self).1@,
            color == Color::Black ==> final(self).1@ == old(self).1@.update(
                history_slot(mv),
                spec_gravity(old(self).1@[history_slot(mv)] as int, bonus as int) as i32,
            ) && final(self).0@ == old(self).0@,
    {
        let idx = mv.from.0 * 64 + mv.to.0;
        match color {
            Color::White => {
                let g = gravity(self.0[idx], bonus);
                self.0.set(idx, g);
            },
            Color::Black => {
                let g = gravity(self.1[idx], bonus);
                self.1.set(idx, g);
            },
        }
    }

    /// The history of `mv` for `color`.
    pub fn get_score(&self, mv: DecodedMove, color: Color) -> (r: i32)
        requires
            self.wf(),
            mv.valid(),
        ensures
            r == (match color {
                Color::White => self.0@[history_slot(mv)],
                Color::Black => self.1@[history_slot(mv)],
            }),
    {
        let idx = mv.from.0 * 64 + mv.to.0;
        match color {
            Color::White => self.0[idx],
            Color::Black => self.1[idx],
        }
    }

    /// Halves every history value (rounding toward zero).
    pub fn age_histories(&mut self)
        requires
            old(self).wf(),
        ensures
            final(self).wf(),
            forall|i: int|
                0 <= i < 4096 ==> #[trigger] final(self).0@[i] == trunc_div(
                    old(self).0@[i] as int,
                    2,
                ) && final(self).1@[i] == trunc_div(old(self).1@[i] as int, 2),
    {
        let mut i: usize = 0;
        while i < 4096
            invariant
                i <= 4096,
                self.0@.len() == 4096,
                self.1@.len() == 4096,
                old(self).wf(),
                in_history_range(self.0@),
                in_history_range(self.1@),
                forall|j: int|
                    0 <= j < i ==> #[trigger] self.0@[j] == trunc_div(old(self).0@[j] as int, 2),
                forall|j: int|
                    0 <= j < i ==> #[trigger] self.1@[j] == trunc_div(old(self).1@[j] as int, 2),
                forall|j: int| i <= j < 4096 ==> #[trigger] self.0@[j] == old(self).0@[j],
                forall|j: int| i <= j < 4096 ==> #[trigger] self.1@[j] == old(self).1@[j],
            decreases 4096 - i,
        {
            let w = self.0[i];
            let b = self.1[i];
            self.0.set(i, w / 2);
            self.1.set(i, b / 2);
            i = i + 1;
        }
    }
}

/// The history score of move `e` for `color`.
pub open spec fn history_score(h: HistoryBoard, e: u16, color: Color) -> i32 {
    let mv = crate::types::spec_decode(e);
    match color {
        Color::White => h.0@[history_slot(mv)],
        Color::Black => h.1@[history_slot(mv)],
    }
}

/// Scores the quiet moves of `move_list` by their history for the side to move, when
/// history heuristics are enabled; otherwise leaves the list as it is.
pub fn score_quiets(move_list: &mut crate::move_picker::MoveList, board: &crate::board::Board, histories: &HistoryBoard)
    requires
        histories.wf(),
    ensures
        final(move_list).overflow == old(move_list).overflow,
        !crate::settings::HISTORIES ==> *final(move_list) == *old(move_list),
        final(move_list).items().len() == old(move_list).items().len(),
        crate::settings::HISTORIES ==> forall|i: int| 0 <= i < old(move_list).items().len()
            ==> (#[trigger] final(move_list).items()[i]).mv == old(move_list).items()[i].mv
            && final(move_list).items()[i].score == history_score(*histories, old(move_list).items()[i].mv.0, board.current_color),
{
    if !crate::settings::HISTORIES {
        return;
    }
    let color = board.current_color();
    let ghost start = move_list.items();
    let n = move_list.len();
    let mut i: usize = 0;
    while i < n
        invariant
            n == start.len(),
            i <= n,
            histories.wf(),
            move_list.items().len() == n,
            move_list.overflow == old(move_list).overflow,
            start == old(move_list).items(),
            color == board.current_color,
            forall|j: int| 0 <= j < n ==> (#[trigger] move_list.items()[j]).mv == start[j].mv,
            forall|j: int| 0 <= j < i ==> (#[trigger] move_list.items()[j]).score == history_score(*histories, start[j].mv.0, color),
        decreases n - i,
    {
        let mv = move_list.get(i).mv;
        let score = histories.get_score(mv.decode(), color);
        move_list.set_score(i, score);
        i = i + 1;
    }
}

} // verus!
