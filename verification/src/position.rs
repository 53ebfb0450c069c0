//! The `position` command: setting up a board from a FEN, the start position or a test
//! position, then playing moves given in coordinate notation.
use crate::board::{Board, UnmakeInfo};
use crate::coords::coords_move;
use crate::fen::{fen_spec, parse_usize, parse_word_usize, split_words, words};
use crate::types::{string_push, DecodedMove, Figure};
use vstd::prelude::*;

verus! {

/// The FEN of the start position.
pub const START_POS: &'static str = "rnbqkbnr/pppppppp/8/8/8/8/PPPPPPPP/RNBQKBNR w KQkq - 0 1";

/// The words `w[a..b]` joined by single spaces.
pub open spec fn joined(w: Seq<Seq<char>>, a: int, b: int) -> Seq<char>
    decreases b - a,
{
    if b <= a {
        seq![]
    } else if b == a + 1 {
        w[a]
    } else {
        joined(w, a, b - 1) + seq![' '] + w[b - 1]
    }
}

/// The word `moves`.
pub open spec fn is_moves_word(w: Seq<char>) -> bool {
    w == seq!['m', 'o', 'v', 'e', 's']
}

/// The first position from `i` on that holds the word `moves`, or the number of words.
pub open spec fn moves_index(w: Seq<Seq<char>>, i: int) -> int
    decreases w.len() - i,
{
    if i >= w.len() {
        w.len() as int
    } else if is_moves_word(w[i]) {
        i
    } else {
        moves_index(w, i + 1)
    }
}

/// A string holding the characters of `w`.
fn word_string(w: &Vec<char>) -> (r: String)
    ensures
        r@ == w@,
{
    let mut s = String::new();
    let mut i: usize = 0;
    while i < w.len()
        invariant
            i <= w@.len(),
            s@ == w@.subrange(0, i as int),
        decreases w.len() - i,
    {
        string_push(&mut s, w[i]);
        i = i + 1;
        assert(s@ =~= w@.subrange(0, i as int));
    }
    assert(s@ =~= w@);
    s
}

fn is_word(w: &Vec<char>, lit: &[char]) -> (r: bool)
    ensures
        r == (w@ == lit@),
{
    if w.len() != lit.len() {
        return false;
    }
    let mut i: usize = 0;
    while i < w.len()
        invariant
            w@.len() == lit@.len(),
            i <= w@.len(),
            forall|j: int| 0 <= j < i ==> w@[j] == lit@[j],
        decreases w.len() - i,
    {
        if w[i] != lit[i] {
            return false;
        }
        i = i + 1;
    }
    assert(w@ =~= lit@);
    true
}

/// Whether `make_move` accepts `mv` in position `st`: a piece on its from square,
/// distinct squares and move counters below their limit.
pub open spec fn makes(st: UnmakeInfo, mv: DecodedMove) -> bool {
    &&& mv.from != mv.to
    &&& st.pieces@[mv.from.0 as int] != Figure::Empty
    &&& st.halfmove_clock < usize::MAX
    &&& st.total_halfmove_counter < usize::MAX
}

/// The position `make_move` of `mv` leaves after `st`.
pub open spec fn state_after(st: UnmakeInfo, mv: DecodedMove) -> UnmakeInfo {
    choose|c: UnmakeInfo| crate::perft::state_made(st, mv, c)
}

/// The characters of each word.
pub open spec fn word_views(ws: Seq<Vec<char>>) -> Seq<Seq<char>> {
    Seq::new(ws.len(), |k: int| ws[k]@)
}

/// Playing the words `ws[i..]` from position `st`, stopping at the first that names no
/// move or names one `make_move` does not accept: how many are played, and the position
/// reached.
pub open spec fn play_from(st: UnmakeInfo, ws: Seq<Seq<char>>, i: int) -> (nat, UnmakeInfo)
    decreases ws.len() - i,
{
    if i < 0 || i >= ws.len() {
        (0, st)
    } else {
        match coords_move(crate::perft::board_at(st), ws[i]) {
            Some(mv) => if makes(st, mv) {
                let rest = play_from(state_after(st, mv), ws, i + 1);
                (rest.0 + 1, rest.1)
            } else {
                (0, st)
            },
            None => (0, st),
        }
    }
}

/// Plays the moves `moves[from..]`, named in coordinate notation, one after the other, and
/// stops at the first that names no move or that `make_move` cannot play. Returns how many
/// were played; each was pushed to the board's history.
pub fn play_moves(board: &mut Board, moves: &Vec<Vec<char>>, from: usize) -> (r: usize)
    requires
        old(board).wf(),
    ensures
        final(board).wf(),
        r <= moves@.len(),
        final(board).history@.len() == old(board).history@.len() + r,
        from >= moves@.len() ==> r == 0 && *final(board) == *old(board),
        from < moves@.len() && coords_move(*old(board), moves@[from as int]@) is None ==> r == 0
            && *final(board) == *old(board),
        r == play_from(old(board).state(), word_views(moves@), from as int).0,
        final(board).state() == play_from(old(board).state(), word_views(moves@), from as int).1,
{
    let ghost ws = word_views(moves@);
    let ghost st0 = board.state();
    let mut played: usize = 0;
    let mut i: usize = from;
    while i < moves.len()
        invariant
            board.wf(),
            from <= i,
            played == i - from,
            played <= moves@.len(),
            board.history@.len() == old(board).history@.len() + played,
            i == from ==> *board == *old(board),
            i > from ==> from < moves@.len() && coords_move(*old(board), moves@[from as int]@) is Some,
            ws == word_views(moves@),
            st0 == old(board).state(),
            play_from(st0, ws, from as int) == (
                (played + play_from(board.state(), ws, i as int).0) as nat,
                play_from(board.state(), ws, i as int).1,
            ),
        decreases moves.len() - i,
    {
        let ghost pre = board.state();
        let s = word_string(&moves[i]);
        proof {
            assert(s@ == ws[i as int]);
            assert(crate::perft::board_at(pre).pieces == board.pieces);
            assert(coords_move(crate::perft::board_at(pre), ws[i as int]) == coords_move(*board, s@));
        }
        let mv = match DecodedMove::try_from_coords(s.as_str(), board) {
            Some(m) => m,
            None => {
                return played;
            },
        };
        if !(mv.from.0 != mv.to.0 && board.figures(mv.from) != Figure::Empty && board.halfmove_clock()
            < usize::MAX && board.total_halfmove_counter() < usize::MAX) {
            return played;
        }
        board.make_move(&mv);
        proof {
            assert(crate::perft::state_made(pre, mv, board.state()));
            crate::perft::lemma_state_made_unique(pre, mv, board.state(), state_after(pre, mv));
        }
        played = played + 1;
        i = i + 1;
    }
    played
}

/// The test positions that `position index n` sets up.
fn test_position(n: usize) -> (r: Option<&'static str>)
    ensures
        n < 12 <==> r is Some,
{
    if n == 0 {
        Some("rnbqkbnr/pppppppp/8/8/8/8/PPPPPPPP/RNBQKBNR w KQkq - 0 1")
    } else if n == 1 {
        Some("r3k2r/p1ppqpb1/Bn2pnp1/3PN3/1p2P3/2N2Q2/PPPB1PpP/R3K2R b KQ - 0 1")
    } else if n == 2 {
        Some("r3k2r/p1ppqpb1/bn2pnp1/3PN3/1p2P3/2N2Q1p/PPPBBPPP/R3K2R w KQkq - ")
    } else if n == 3 {
        Some("8/2p5/3p4/KP5r/1R3p1k/8/4P1P1/8 w - - 0 1 ")
    } else if n == 4 {
        Some("r3k2r/Pppp1ppp/1b3nbN/nP6/BBP1P3/q4N2/Pp1P2PP/R2Q1RK1 w kq - 0 1")
    } else if n == 5 {
        Some("rnbq1k1r/pp1Pbppp/2p5/8/2B5/8/PPP1NnPP/RNBQK2R w KQ - 1 8 ")
    } else if n == 6 {
        Some("r4rk1/1pp1qppp/p1np1n2/2b1p1B1/2B1P1b1/P1NP1N2/1PP1QPPP/R4RK1 w - - 0 10 ")
    } else if n == 7 {
        Some("6Q1/pp6/8/8/1kp2N2/1n2R1P1/3r4/1K6 b - - 0 1")
    } else if n == 8 {
        Some("1kr5/6pp/R1P2p2/1N6/8/1P6/P2q1PPP/6K1 w - - 0 1")
    } else if n == 9 {
        Some("r1b1k2r/1pqp1ppp/p2bpnn1/6Q1/2BNP3/2N1B3/PPP2PPP/2KR3R w kq - 8 12")
    } else if n == 10 {
        Some("8/k7/3p4/p2P1p2/P2P1P2/8/8/K7 w - - 0 1")
    } else if n == 11 {
        Some("1r5k/8/1Q6/5Pp1/1KB4r/8/8/8 w - g6 2 3")
    } else {
        None
    }
}

/// Sets the board up from a FEN; leaves it as it was when the FEN cannot be read.
fn load_fen(board: &mut Board, fen: &str) -> (r: bool)
    ensures
        r == fen_spec(fen@) is Some,
        r ==> final(board).wf() && final(board).matches_fen(fen_spec(fen@).unwrap()),
        !r ==> *final(board) == *old(board),
{
    match Board::try_from_fen(fen) {
        Some(b) => {
            *board = b;
            true
        },
        None => false,
    }
}

/// Why a `position` command could not set the board up.
#[derive(Clone, Copy, PartialEq, Eq, Structural, Debug)]
pub enum PositionError {
    /// The FEN cannot be read; the board is left as it was.
    Fen,
    /// The test position index is no number below twelve; the board keeps its position.
    Index,
}

/// Runs the arguments `args` of a `position` command: `fen <FEN>`, `startpos` or
/// `index <n>` (one of twelve test positions) set the board up, other first words set
/// nothing up; then the moves after the word `moves`, where it comes next, are played (see
/// `play_moves`). A FEN that cannot be read leaves the board as it was and plays nothing.
pub fn set_position(board: &mut Board, args: &str) -> (r: Result<(), PositionError>)
    requires
        old(board).wf(),
    ensures
        final(board).wf(),
        r == Err::<(), PositionError>(PositionError::Fen) ==> *final(board) == *old(board),
        ({
            let ws = words(args@);
            let end = moves_index(ws, 1);
            ws.len() >= 1 && ws[0] == seq!['f', 'e', 'n'] ==> (r is Ok <==> fen_spec(joined(ws, 1, end)) is Some)
                && (r is Ok && end == ws.len() ==> final(board).matches_fen(fen_spec(joined(ws, 1, end)).unwrap()))
        }),
        ({
            let ws = words(args@);
            ws.len() >= 1 && ws[0] == seq!['s', 't', 'a', 'r', 't', 'p', 'o', 's'] ==> (r is Ok <==> fen_spec(
                START_POS@,
            ) is Some) && (r is Ok && ws.len() == 1 ==> final(board).matches_fen(fen_spec(START_POS@).unwrap()))
        }),
        ({
            let ws = words(args@);
            ws.len() >= 2 && ws[0] == seq!['i', 'n', 'd', 'e', 'x'] ==> (r is Ok ==> (parse_usize(ws[1]) matches Some(
                n,
            ) && n < 12))
        }),
        ({
            let ws = words(args@);
            ws.len() == 0 || !(ws[0] == seq!['f', 'e', 'n'] || ws[0] == seq!['s', 't', 'a', 'r', 't', 'p', 'o', 's']
                || ws[0] == seq!['i', 'n', 'd', 'e', 'x']) ==> r is Ok
        }),
{
    let ws = split_words(args);
    let ghost w = words(args@);
    proof {
        assert forall|k: int| 0 <= k < ws@.len() implies #[trigger] ws@[k]@ == w[k] by {}
    }
    if ws.len() == 0 {
        return Ok(());
    }
    let mut result: Result<(), PositionError> = Ok(());
    let mut next: usize = 0;
    if is_word(&ws[0], &['f', 'e', 'n']) {
        let mut fen = String::new();
        let mut i: usize = 1;
        while i < ws.len() && !is_word(&ws[i], &['m', 'o', 'v', 'e', 's'])
            invariant
                1 <= i <= ws@.len(),
                ws@.len() == w.len(),
                forall|k: int| 0 <= k < ws@.len() ==> #[trigger] ws@[k]@ == w[k],
                moves_index(w, 1) == moves_index(w, i as int),
                fen@ == joined(w, 1, i as int),
            decreases ws.len() - i,
        {
            if i > 1 {
                string_push(&mut fen, ' ');
            }
            let ghost before = fen@;
            let mut j: usize = 0;
            while j < ws[i].len()
                invariant
                    i < ws@.len(),
                    j <= ws@[i as int]@.len(),
                    fen@ == before + ws@[i as int]@.subrange(0, j as int),
                decreases ws@[i as int]@.len() - j,
            {
                string_push(&mut fen, ws[i][j]);
                j = j + 1;
                assert(fen@ =~= before + ws@[i as int]@.subrange(0, j as int));
            }
            assert(ws@[i as int]@.subrange(0, j as int) =~= w[i as int]);
            i = i + 1;
            assert(fen@ =~= joined(w, 1, i as int));
        }
        if !load_fen(board, fen.as_str()) {
            return Err(PositionError::Fen);
        }
        next = i;
    } else if is_word(&ws[0], &['s', 't', 'a', 'r', 't', 'p', 'o', 's']) {
        if !load_fen(board, START_POS) {
            return Err(PositionError::Fen);
        }
        next = 1;
    } else if is_word(&ws[0], &['i', 'n', 'd', 'e', 'x']) {
        if ws.len() >= 2 {
            match parse_word_usize(&ws[1]) {
                Some(n) => match test_position(n) {
                    Some(f) => {
                        if !load_fen(board, f) {
                            result = Err(PositionError::Index);
                        }
                    },
                    None => {
                        result = Err(PositionError::Index);
                    },
                },
                None => {
                    result = Err(PositionError::Index);
                },
            }
        }
        next = 2;
    }
    if next < ws.len() && is_word(&ws[next], &['m', 'o', 'v', 'e', 's']) {
        play_moves(board, &ws, next + 1);
    }
    result
}

} // verus!
