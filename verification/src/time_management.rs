//! How deep and how long to search for the arguments of a `go` command.
use crate::board::Board;
use crate::fen::{parse_upto, parse_usize, parse_word_upto, parse_word_usize, split_words, words};
use crate::types::Color;
use vstd::prelude::*;

verus! {

/// The deepest search a `go` command without a fixed depth asks for.
pub const MAX_DEPTH: usize = 128;

/// A day, in milliseconds: the budget when no time control is given.
pub const NO_LIMIT_MILLIS: u64 = 86_400_000;

/// The time control of a `go` command, in milliseconds; 0 where it was not given.
#[derive(Clone, Copy, PartialEq, Eq, Structural, Debug)]
pub struct TimeControl {
    pub wtime: u64,
    pub btime: u64,
    pub winc: u64,
    pub binc: u64,
    pub movestogo: u64,
    pub movetime: u64,
    pub fixtime: u64,
}

/// No time control at all.
pub open spec fn no_time_control() -> TimeControl {
    TimeControl { wtime: 0, btime: 0, winc: 0, binc: 0, movestogo: 0, movetime: 0, fixtime: 0 }
}

/// Which field a keyword sets: 0 `wtime`, 1 `btime`, 2 `winc`, 3 `binc`, 4 `movestogo`,
/// 5 `movetime`, 6 `fixtime`; -1 for any other word.
pub open spec fn keyword(w: Seq<char>) -> int {
    if w == seq!['w', 't', 'i', 'm', 'e'] {
        0
    } else if w == seq!['b', 't', 'i', 'm', 'e'] {
        1
    } else if w == seq!['w', 'i', 'n', 'c'] {
        2
    } else if w == seq!['b', 'i', 'n', 'c'] {
        3
    } else if w == seq!['m', 'o', 'v', 'e', 's', 't', 'o', 'g', 'o'] {
        4
    } else if w == seq!['m', 'o', 'v', 'e', 't', 'i', 'm', 'e'] {
        5
    } else if w == seq!['f', 'i', 'x', 't', 'i', 'm', 'e'] {
        6
    } else {
        -1
    }
}

/// `tc` with the field of keyword `k` set to `v`.
pub open spec fn with_field(tc: TimeControl, k: int, v: u64) -> TimeControl {
    if k == 0 {
        TimeControl { wtime: v, ..tc }
    } else if k == 1 {
        TimeControl { btime: v, ..tc }
    } else if k == 2 {
        TimeControl { winc: v, ..tc }
    } else if k == 3 {
        TimeControl { binc: v, ..tc }
    } else if k == 4 {
        TimeControl { movestogo: v, ..tc }
    } else if k == 5 {
        TimeControl { movetime: v, ..tc }
    } else {
        TimeControl { fixtime: v, ..tc }
    }
}

/// The value of a word as a `u64`, or 0 where it is none.
pub open spec fn value_or_zero(w: Seq<char>) -> u64 {
    match parse_upto(w, u64::MAX as nat) {
        Some(v) => v as u64,
        None => 0,
    }
}

/// Reads the words from `i` on: a keyword followed by a word sets its field to that word's
/// value and both are consumed; any other word, or a keyword at the end, is skipped.
pub open spec fn scan(ws: Seq<Seq<char>>, i: int, tc: TimeControl) -> TimeControl
    decreases ws.len() - i,
{
    if i >= ws.len() || i < 0 {
        tc
    } else if keyword(ws[i]) >= 0 && i + 1 < ws.len() {
        scan(ws, i + 2, with_field(tc, keyword(ws[i]), value_or_zero(ws[i + 1])))
    } else {
        scan(ws, i + 1, tc)
    }
}

/// The same clocks with the sides exchanged: white's time and increment become black's
/// and the other way round.
pub open spec fn sides_swapped(tc: TimeControl) -> TimeControl {
    TimeControl { wtime: tc.btime, btime: tc.wtime, winc: tc.binc, binc: tc.winc, ..tc }
}

/// The budget for a move, in milliseconds: a day without time control; else the fixed
/// time, else the move time; else the time left divided by the moves to go (30 if not
/// given) plus half the increment, at most the time left less a safety margin of a
/// twentieth of it (at least 50), and at least 10. Sums wrap as `u64` does.
pub open spec fn spec_time_budget(tc: TimeControl, white: bool) -> u64 {
    if !(tc.wtime > 0 || tc.btime > 0 || tc.movetime > 0 || tc.fixtime > 0) {
        NO_LIMIT_MILLIS
    } else if tc.fixtime != 0 {
        tc.fixtime
    } else if tc.movetime > 0 {
        tc.movetime
    } else {
        let time_left = if white {
            tc.wtime
        } else {
            tc.btime
        };
        let inc = if white {
            tc.winc
        } else {
            tc.binc
        };
        let moves_to_go = if tc.movestogo > 0 {
            tc.movestogo
        } else {
            30
        };
        let per_move = ((time_left / moves_to_go) as u64).wrapping_add((inc / 2) as u64);
        let safety: u64 = if time_left / 20 > 50 {
            (time_left / 20) as u64
        } else {
            50
        };
        let capped = if per_move.wrapping_add(safety) >= time_left {
            time_left.saturating_sub(safety)
        } else {
            per_move
        };
        if capped < 10 {
            10
        } else {
            capped
        }
    }
}

/// The depth and the budget in milliseconds for the words of a `go` command: `depth n`
/// searches `n` plies (0 where `n` is no number) with a day's budget; otherwise the time
/// control is read and the full depth is searched within `spec_time_budget`.
pub open spec fn spec_search_time(ws: Seq<Seq<char>>, white: bool) -> (nat, nat) {
    if ws.len() >= 2 && ws[0] == seq!['d', 'e', 'p', 't', 'h'] {
        (
            match parse_usize(ws[1]) {
                Some(v) => v,
                None => 0,
            },
            NO_LIMIT_MILLIS as nat,
        )
    } else {
        (MAX_DEPTH as nat, spec_time_budget(scan(ws, 0, no_time_control()), white) as nat)
    }
}

/// Whether the word `w` is `lit`.
fn word_is(w: &Vec<char>, lit: &[char]) -> (r: bool)
    ensures
        r == (w@ == lit@),
{
    if w.len() != lit.len() {
        return false;
    }
    let mut i: usize = 0;
    while i < w.len()
        invariant
            w@.len() == lit@.len(),
            i <= w@.len(),
            forall|j: int| 0 <= j < i ==> w@[j] == lit@[j],
        decreases w.len() - i,
    {
        if w[i] != lit[i] {
            return false;
        }
        i = i + 1;
    }
    assert(w@ =~= lit@);
    true
}

/// The field a keyword sets (see `keyword`).
fn keyword_of(w: &Vec<char>) -> (r: i8)
    ensures
        r == keyword(w@),
{
    if word_is(w, &['w', 't', 'i', 'm', 'e']) {
        0
    } else if word_is(w, &['b', 't', 'i', 'm', 'e']) {
        1
    } else if word_is(w, &['w', 'i', 'n', 'c']) {
        2
    } else if word_is(w, &['b', 'i', 'n', 'c']) {
        3
    } else if word_is(w, &['m', 'o', 'v', 'e', 's', 't', 'o', 'g', 'o']) {
        4
    } else if word_is(w, &['m', 'o', 'v', 'e', 't', 'i', 'm', 'e']) {
        5
    } else if word_is(w, &['f', 'i', 'x', 't', 'i', 'm', 'e']) {
        6
    } else {
        -1
    }
}

/// Reads the time control from the words of a `go` command (see `scan`).
pub fn read_time_control(ws: &Vec<Vec<char>>) -> (r: TimeControl)
    ensures
        r == scan(ws.deep_view(), 0, no_time_control()),
{
    let ghost s = ws.deep_view();
    let mut tc = TimeControl { wtime: 0, btime: 0, winc: 0, binc: 0, movestogo: 0, movetime: 0, fixtime: 0 };
    let mut i: usize = 0;
    while i < ws.len()
        invariant
            s == ws.deep_view(),
            i <= ws@.len() + 1,
            scan(s, i as int, tc) == scan(s, 0, no_time_control()),
        decreases ws.len() - i,
    {
        let k = keyword_of(&ws[i]);
        assert(s[i as int] == ws@[i as int]@);
        if k >= 0 && i + 1 < ws.len() {
            let v = match parse_word_upto(&ws[i + 1], u64::MAX) {
                Some(v) => v,
                None => 0,
            };
            assert(s[i + 1] == ws@[i + 1]@);
            assert(v == value_or_zero(s[i + 1]));
            tc = if k == 0 {
                TimeControl { wtime: v, ..tc }
            } else if k == 1 {
                TimeControl { btime: v, ..tc }
            } else if k == 2 {
                TimeControl { winc: v, ..tc }
            } else if k == 3 {
                TimeControl { binc: v, ..tc }
            } else if k == 4 {
                TimeControl { movestogo: v, ..tc }
            } else if k == 5 {
                TimeControl { movetime: v, ..tc }
            } else {
                TimeControl { fixtime: v, ..tc }
            };
            i = i + 2;
        } else {
            i = i + 1;
        }
    }
    tc
}

/// The budget for a move in milliseconds (see `spec_time_budget`).
pub fn time_budget(tc: &TimeControl, white: bool) -> (r: u64)
    ensures
        r == spec_time_budget(*tc, white),
{
    if !(tc.wtime > 0 || tc.btime > 0 || tc.movetime > 0 || tc.fixtime > 0) {
        return NO_LIMIT_MILLIS;
    }
    if tc.fixtime != 0 {
        return tc.fixtime;
    }
    if tc.movetime > 0 {
        return tc.movetime;
    }
    let (time_left, inc) = if white {
        (tc.wtime, tc.winc)
    } else {
        (tc.btime, tc.binc)
    };
    let moves_to_go = if tc.movestogo > 0 {
        tc.movestogo
    } else {
        30
    };
    let mut time_per_move = (time_left / moves_to_go).wrapping_add(inc / 2);
    let safety = if time_left / 20 > 50 {
        time_left / 20
    } else {
        50
    };
    if time_per_move.wrapping_add(safety) >= time_left {
        time_per_move = time_left.saturating_sub(safety);
    }
    if time_per_move < 10 {
        time_per_move = 10;
    }
    time_per_move
}

/// The budget treats both sides alike and reads only the clock of the side to move: black's
/// budget is white's budget with the clocks exchanged, and neither side's budget depends
/// on the other side's increment.
pub proof fn lemma_budget_of_side_to_move(tc: TimeControl, other_inc: u64)
    ensures
        spec_time_budget(tc, false) == spec_time_budget(sides_swapped(tc), true),
        spec_time_budget(tc, true) == spec_time_budget(sides_swapped(tc), false),
        spec_time_budget(TimeControl { winc: other_inc, ..tc }, false) == spec_time_budget(tc, false),
        spec_time_budget(TimeControl { binc: other_inc, ..tc }, true) == spec_time_budget(tc, true),
{
}

/// The clock of the side to move: its time left and its increment.
pub open spec fn own_clock(tc: TimeControl, white: bool) -> (u64, u64) {
    if white {
        (tc.wtime, tc.winc)
    } else {
        (tc.btime, tc.binc)
    }
}

/// The margin kept back from the time left: a twentieth of it, at least 50 ms.
pub open spec fn safety_margin(time_left: u64) -> int {
    if time_left / 20 > 50 {
        (time_left / 20) as int
    } else {
        50
    }
}

/// With a clock and neither a fixed nor a move time, the budget is at least 10 ms and never
/// eats into the safety margin of the time left (where the time left exceeds the margin by
/// 10 ms at least and the sums involved fit in a `u64`); and with time to spare (the share of the time left plus half the
/// increment stays below the time left less the margin, and above 10 ms), raising the
/// increment of the side to move by `2 * k` raises its budget by `k`.
pub proof fn lemma_budget_bounds(tc: TimeControl, white: bool, k: u64)
    requires
        tc.fixtime == 0,
        tc.movetime == 0,
        own_clock(tc, white).0 > 0,
    ensures
        spec_time_budget(tc, white) >= 10,
        own_clock(tc, white).0 as int >= safety_margin(own_clock(tc, white).0) + 10 && own_clock(tc, white).0 + own_clock(
            tc,
            white,
        ).1 / 2 + safety_margin(own_clock(tc, white).0) <= u64::MAX ==> spec_time_budget(tc, white)
            <= own_clock(tc, white).0 - safety_margin(own_clock(tc, white).0),
        ({
            let tl = own_clock(tc, white).0 as int;
            let inc = own_clock(tc, white).1 as int;
            let mtg: int = if tc.movestogo > 0 { tc.movestogo as int } else { 30 };
            let raised = if white { TimeControl { winc: (inc + 2 * k) as u64, ..tc } } else { TimeControl { binc: (inc + 2 * k) as u64, ..tc } };
            inc + 2 * k <= u64::MAX && tl / mtg + (inc + 2 * k) / 2 + safety_margin(own_clock(tc, white).0) < tl && tl / mtg + inc / 2 >= 10
                ==> spec_time_budget(raised, white) == spec_time_budget(tc, white) + k
        }),
{
    let tl = own_clock(tc, white).0;
    let inc = own_clock(tc, white).1 as int;
    let mtg: u64 = if tc.movestogo > 0 { tc.movestogo } else { 30 };
    assert(tl / mtg <= tl) by (nonlinear_arith)
        requires
            mtg >= 1,
    ;
    assert((inc + 2 * k) / 2 == inc / 2 + k);
}

/// The depth to search and the time budget in milliseconds for the arguments `args` of a
/// `go` command in position `board` (see `spec_search_time`).
pub fn calc_search_time(args: &str, board: &Board) -> (r: (usize, u64))
    ensures
        (r.0 as nat, r.1 as nat) == spec_search_time(words(args@), board.current_color == Color::White),
{
    let ws = split_words(args);
    proof {
        assert(ws.deep_view() =~= words(args@)) by {
            assert forall|k: int| 0 <= k < ws@.len() implies #[trigger] ws.deep_view()[k] == words(args@)[k] by {
                assert(ws.deep_view()[k] == ws@[k]@);
            }
        }
    }
    if ws.len() >= 2 && word_is(&ws[0], &['d', 'e', 'p', 't', 'h']) {
        assert(ws.deep_view()[1] == ws@[1]@);
        let depth = match parse_word_usize(&ws[1]) {
            Some(d) => d,
            None => 0,
        };
        return (depth, NO_LIMIT_MILLIS);
    }
    assert(ws.len() >= 2 ==> ws.deep_view()[0] == ws@[0]@);
    let tc = read_time_control(&ws);
    (MAX_DEPTH, time_budget(&tc, board.current_color() == Color::White))
}

} // verus!
