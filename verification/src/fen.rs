//! Reading and writing positions in Forsyth-Edwards Notation.
use crate::bitboard::{bit_set, lemma_single_bit, Bit, Bitboard};
use crate::board::Board;
use crate::types::{
    char_of_byte, file_of_char, rank_of_char, square_name, square_of_chars, string_push, Color, Figure, Square,
};
use crate::visualize::{decimal, push_decimal};
use vstd::prelude::*;

verus! {

/// Characters with the Unicode White_Space property.
pub open spec fn is_ws(c: char) -> bool {
    let v = c as int;
    (9 <= v <= 13) || v == 32 || v == 0x85 || v == 0xa0 || v == 0x1680 || (0x2000 <= v <= 0x200a)
        || v == 0x2028 || v == 0x2029 || v == 0x202f || v == 0x205f || v == 0x3000
}

pub fn is_whitespace(c: char) -> (r: bool)
    ensures
        r == is_ws(c),
{
    let v = crate::types::char_code(c);
    (9 <= v && v <= 13) || v == 32 || v == 0x85 || v == 0xa0 || v == 0x1680 || (0x2000 <= v && v
        <= 0x200a) || v == 0x2028 || v == 0x2029 || v == 0x202f || v == 0x205f || v == 0x3000
}

/// The whitespace separated words of `s[i..]`, given the word `cur` read so far.
pub open spec fn words_from(s: Seq<char>, i: int, cur: Seq<char>) -> Seq<Seq<char>>
    decreases s.len() - i,
{
    if i >= s.len() {
        if cur.len() > 0 {
            seq![cur]
        } else {
            seq![]
        }
    } else if is_ws(s[i]) {
        if cur.len() > 0 {
            seq![cur] + words_from(s, i + 1, seq![])
        } else {
            words_from(s, i + 1, seq![])
        }
    } else {
        words_from(s, i + 1, cur.push(s[i]))
    }
}

/// The whitespace separated words of `s`.
pub open spec fn words(s: Seq<char>) -> Seq<Seq<char>> {
    words_from(s, 0, seq![])
}

/// The figure a placement letter stands for: lowercase black, uppercase white.
pub open spec fn figure_of_char(c: char) -> Option<Figure> {
    if c == 'p' {
        Some(Figure::BlackPawn)
    } else if c == 'n' {
        Some(Figure::BlackKnight)
    } else if c == 'b' {
        Some(Figure::BlackBishop)
    } else if c == 'r' {
        Some(Figure::BlackRook)
    } else if c == 'q' {
        Some(Figure::BlackQueen)
    } else if c == 'k' {
        Some(Figure::BlackKing)
    } else if c == 'P' {
        Some(Figure::WhitePawn)
    } else if c == 'N' {
        Some(Figure::WhiteKnight)
    } else if c == 'B' {
        Some(Figure::WhiteBishop)
    } else if c == 'R' {
        Some(Figure::WhiteRook)
    } else if c == 'Q' {
        Some(Figure::WhiteQueen)
    } else if c == 'K' {
        Some(Figure::WhiteKing)
    } else {
        None
    }
}

/// The figures placed by `w[i..]` starting at square `index` on `p`: '/' goes back two
/// ranks (not below square 0), a digit skips that many squares, a figure letter puts the
/// figure and advances, any other character advances. `None` when a figure would land
/// outside the board or on an occupied square.
pub open spec fn place(w: Seq<char>, i: int, index: int, p: Seq<Figure>) -> Option<Seq<Figure>>
    decreases w.len() - i,
{
    if i >= w.len() {
        Some(p)
    } else {
        let c = w[i];
        if c == '/' {
            place(w, i + 1, if index >= 16 {
                index - 16
            } else {
                0
            }, p)
        } else if 49 <= (c as int) <= 56 {
            place(w, i + 1, index + (c as int - 48), p)
        } else {
            match figure_of_char(c) {
                Some(f) => if 0 <= index < 64 && p[index] == Figure::Empty {
                    place(w, i + 1, index + 1, p.update(index, f))
                } else {
                    None
                },
                None => place(w, i + 1, index + 1, p),
            }
        }
    }
}

proof fn lemma_place_step(w: Seq<char>, i: int, index: int, p: Seq<Figure>)
    requires
        0 <= i < w.len(),
    ensures
        place(w, i, index, p) == (if w[i] == '/' {
            place(w, i + 1, if index >= 16 {
                index - 16
            } else {
                0
            }, p)
        } else if 49 <= (w[i] as int) <= 56 {
            place(w, i + 1, index + (w[i] as int - 48), p)
        } else {
            match figure_of_char(w[i]) {
                Some(f) => if 0 <= index < 64 && p[index] == Figure::Empty {
                    place(w, i + 1, index + 1, p.update(index, f))
                } else {
                    None
                },
                None => place(w, i + 1, index + 1, p),
            }
        }),
{
}

/// 64 empty squares.
pub open spec fn empty_pieces() -> Seq<Figure> {
    Seq::new(64, |i: int| Figure::Empty)
}

/// Value of a decimal number: digits only.
pub open spec fn digits_value(w: Seq<char>) -> nat
    decreases w.len(),
{
    if w.len() == 0 {
        0
    } else {
        digits_value(w.drop_last()) * 10 + (w.last() as int - 48) as nat
    }
}

pub open spec fn all_digits(w: Seq<char>) -> bool {
    forall|i: int| 0 <= i < w.len() ==> 48 <= #[trigger] (w[i] as int) <= 57
}

/// An optional '+' and one or more digits whose value is at most `max`: what `from_str` of
/// an unsigned integer type with largest value `max` accepts.
pub open spec fn parse_upto(w: Seq<char>, max: nat) -> Option<nat> {
    let d = if w.len() > 0 && w[0] == '+' {
        w.drop_first()
    } else {
        w
    };
    if d.len() > 0 && all_digits(d) && digits_value(d) <= max {
        Some(digits_value(d))
    } else {
        None
    }
}

/// `usize::from_str`.
pub open spec fn parse_usize(w: Seq<char>) -> Option<nat> {
    parse_upto(w, usize::MAX as nat)
}

/// The word at position `k`, or `default` when there are fewer words.
pub open spec fn word_or(ws: Seq<Seq<char>>, k: int, default: Seq<char>) -> Seq<char> {
    if k < ws.len() {
        ws[k]
    } else {
        default
    }
}

/// The parts of a FEN.
pub struct FenParts {
    pub pieces: Seq<Figure>,
    pub color: Color,
    pub white_queen_castle: bool,
    pub white_king_castle: bool,
    pub black_queen_castle: bool,
    pub black_king_castle: bool,
    pub ep_target: Option<Bit>,
    pub halfmove_clock: nat,
    pub total_halfmove_counter: nat,
}

/// The en passant field: '-' for none, a square name, anything else reads as none.
pub open spec fn ep_of_word(w: Seq<char>) -> Option<Bit> {
    if w.len() == 2 {
        match square_of_chars(w[0], w[1]) {
            Some(s) => Some(Bitboard((1u64 << (s as u64)) as u64)),
            None => None,
        }
    } else {
        None
    }
}

/// What a FEN describes: placement, active color ("w" or "b"), castling rights (the
/// letters 'Q', 'K' grant white queen and king side, 'q' and 'k' black queen and king
/// side), en passant target, halfmove clock and fullmove number, the last five
/// defaulting to "w", "-", "-", "0" and "1". `None` for a FEN that cannot be read.
pub open spec fn fen_spec(fen: Seq<char>) -> Option<FenParts> {
    let ws = words(fen);
    if ws.len() == 0 {
        None
    } else {
        let color_w = word_or(ws, 1, seq!['w']);
        let castling = word_or(ws, 2, seq!['-']);
        let ep = word_or(ws, 3, seq!['-']);
        let half = word_or(ws, 4, seq!['0']);
        let full = word_or(ws, 5, seq!['1']);
        let color = if color_w == seq!['w'] {
            Some(Color::White)
        } else if color_w == seq!['b'] {
            Some(Color::Black)
        } else {
            None
        };
        match (place(ws[0], 0, 56, empty_pieces()), color, parse_usize(half), parse_usize(full)) {
            (Some(p), Some(c), Some(h), Some(f)) => Some(
                FenParts {
                    pieces: p,
                    color: c,
                    white_queen_castle: castling.contains('Q'),
                    white_king_castle: castling.contains('K'),
                    black_queen_castle: castling.contains('q'),
                    black_king_castle: castling.contains('k'),
                    ep_target: ep_of_word(ep),
                    halfmove_clock: h,
                    total_halfmove_counter: f,
                },
            ),
            _ => None,
        }
    }
}

/// Splits `s` into its whitespace separated words.
pub fn split_words(s: &str) -> (r: Vec<Vec<char>>)
    ensures
        r@.len() == words(s@).len(),
        forall|k: int| 0 <= k < r@.len() ==> #[trigger] r@[k]@ == words(s@)[k],
{
    let n = s.unicode_len();
    let mut out: Vec<Vec<char>> = Vec::new();
    let mut cur: Vec<char> = Vec::new();
    let mut i: usize = 0;
    while i < n
        invariant
            n == s@.len(),
            i <= n,
            ({
                let done = Seq::new(out@.len(), |k: int| out@[k]@);
                done + words_from(s@, i as int, cur@) == words(s@)
            }),
        decreases n - i,
    {
        let c = s.get_char(i);
        let ghost done_before = Seq::new(out@.len(), |k: int| out@[k]@);
        if is_whitespace(c) {
            if cur.len() > 0 {
                let ghost w = cur@;
                out.push(cur);
                cur = Vec::new();
                proof {
                    let done = Seq::new(out@.len(), |k: int| out@[k]@);
                    assert(done =~= done_before.push(w));
                    assert(done + words_from(s@, i + 1, seq![]) =~= done_before + (seq![w]
                        + words_from(s@, i + 1, seq![])));
                }
            } else {
                assert(cur@ =~= seq![]);
            }
        } else {
            cur.push(c);
        }
        i = i + 1;
    }
    if cur.len() > 0 {
        let ghost done_before = Seq::new(out@.len(), |k: int| out@[k]@);
        let ghost w = cur@;
        out.push(cur);
        proof {
            let done = Seq::new(out@.len(), |k: int| out@[k]@);
            assert(done =~= done_before + seq![w]);
        }
    } else {
        proof {
            let done = Seq::new(out@.len(), |k: int| out@[k]@);
            assert(done + Seq::<Seq<char>>::empty() =~= done);
        }
    }
    proof {
        let done = Seq::new(out@.len(), |k: int| out@[k]@);
        assert(done =~= words(s@));
        assert forall|k: int| 0 <= k < out@.len() implies #[trigger] out@[k]@ == words(s@)[k] by {
            assert(done[k] == out@[k]@);
        }
    }
    out
}

pub fn figure_from_char(c: char) -> (r: Option<Figure>)
    ensures
        r == figure_of_char(c),
{
    if c == 'p' {
        Some(Figure::BlackPawn)
    } else if c == 'n' {
        Some(Figure::BlackKnight)
    } else if c == 'b' {
        Some(Figure::BlackBishop)
    } else if c == 'r' {
        Some(Figure::BlackRook)
    } else if c == 'q' {
        Some(Figure::BlackQueen)
    } else if c == 'k' {
        Some(Figure::BlackKing)
    } else if c == 'P' {
        Some(Figure::WhitePawn)
    } else if c == 'N' {
        Some(Figure::WhiteKnight)
    } else if c == 'B' {
        Some(Figure::WhiteBishop)
    } else if c == 'R' {
        Some(Figure::WhiteRook)
    } else if c == 'Q' {
        Some(Figure::WhiteQueen)
    } else if c == 'K' {
        Some(Figure::WhiteKing)
    } else {
        None
    }
}

/// Whether `w` contains `c`.
pub fn word_contains(w: &Vec<char>, c: char) -> (r: bool)
    ensures
        r == w@.contains(c),
{
    let mut i: usize = 0;
    while i < w.len()
        invariant
            i <= w@.len(),
            forall|j: int| 0 <= j < i ==> w@[j] != c,
        decreases w.len() - i,
    {
        if w[i] == c {
            assert(w@[i as int] == c);
            return true;
        }
        i = i + 1;
    }
    false
}

/// `from_str` of an unsigned integer type with largest value `max`, on a word.
pub fn parse_word_upto(w: &Vec<char>, max: u64) -> (r: Option<u64>)
    ensures
        r matches Some(v) ==> parse_upto(w@, max as nat) == Some(v as nat),
        r is None ==> parse_upto(w@, max as nat) is None,
{
    let start: usize = if w.len() > 0 && w[0] == '+' {
        1
    } else {
        0
    };
    let ghost d = if w@.len() > 0 && w@[0] == '+' {
        w@.drop_first()
    } else {
        w@
    };
    assert(d =~= w@.subrange(start as int, w@.len() as int));
    if start >= w.len() {
        return None;
    }
    let mut value: u64 = 0;
    let mut i: usize = start;
    while i < w.len()
        invariant
            start <= i <= w@.len(),
            d == w@.subrange(start as int, w@.len() as int),
            d == (if w@.len() > 0 && w@[0] == '+' {
                w@.drop_first()
            } else {
                w@
            }),
            all_digits(w@.subrange(start as int, i as int)),
            value as nat == digits_value(w@.subrange(start as int, i as int)),
            value <= max,
        decreases w.len() - i,
    {
        let c = w[i];
        let v = crate::types::char_code(c);
        let ghost pre = w@.subrange(start as int, i as int);
        let ghost next = w@.subrange(start as int, i + 1);
        assert(next.drop_last() =~= pre);
        if !(48 <= v && v <= 57) {
            assert(!all_digits(d)) by {
                assert(d[i - start] == c);
                assert(!(48 <= (d[i - start] as int) <= 57));
            }
            return None;
        }
        let digit = (v - 48) as u64;
        if digit > max || value > (max - digit) / 10 {
            proof {
                assert(next.len() > 0 && next.last() == c);
                assert(digits_value(next) == digits_value(pre) * 10 + digit);
                if all_digits(d) {
                    lemma_digits_prefix_le(d, (i + 1 - start) as int);
                    assert(d.subrange(0, (i + 1 - start) as int) =~= next);
                }
            }
            return None;
        }
        assert forall|j: int| 0 <= j < next.len() implies 48 <= #[trigger] (next[j] as int) <= 57 by {
            if j < pre.len() {
                assert(next[j] == pre[j]);
            }
        }
        assert(next.len() > 0 && next.last() == c);
        assert(digits_value(next) == digits_value(pre) * 10 + digit);
        value = value * 10 + digit;
        i = i + 1;
    }
    assert(w@.subrange(start as int, w@.len() as int) == d);
    Some(value)
}

/// `usize::from_str` on a word.
pub fn parse_word_usize(w: &Vec<char>) -> (r: Option<usize>)
    ensures
        r matches Some(v) ==> parse_usize(w@) == Some(v as nat),
        r is None ==> parse_usize(w@) is None,
{
    match parse_word_upto(w, usize::MAX as u64) {
        Some(v) => Some(v as usize),
        None => None,
    }
}

/// A longer digit string is worth at least as much as its prefixes.
proof fn lemma_digits_prefix_le(d: Seq<char>, k: int)
    requires
        0 <= k <= d.len(),
        all_digits(d),
    ensures
        digits_value(d.subrange(0, k)) <= digits_value(d),
    decreases d.len() - k,
{
    if k < d.len() {
        lemma_digits_prefix_le(d, k + 1);
        let a = d.subrange(0, k);
        let b = d.subrange(0, k + 1);
        assert(b.drop_last() =~= a);
        assert(48 <= (d[k] as int) <= 57);
        assert(digits_value(b) == digits_value(a) * 10 + (d[k] as int - 48) as nat);
    } else {
        assert(d.subrange(0, k) =~= d);
    }
}

impl Board {
    /// Places the figures of the placement word `w` on the empty board `self`.
    fn place_figures(&mut self, w: &Vec<char>) -> (ok: bool)
        requires
            old(self).wf(),
            forall|s: int| 0 <= s < 64 ==> #[trigger] old(self).pieces@[s] == Figure::Empty,
        ensures
            final(self).wf(),
            ok == place(w@, 0, 56, empty_pieces()) is Some,
            ok ==> Some(final(self).pieces@) == place(
                w@,
                0,
                56,
                empty_pieces(),
            ),
            final(self).current_color == old(self).current_color,
            final(self).white_queen_castle == old(self).white_queen_castle,
            final(self).white_king_castle == old(self).white_king_castle,
            final(self).black_queen_castle == old(self).black_queen_castle,
            final(self).black_king_castle == old(self).black_king_castle,
            final(self).ep_target == old(self).ep_target,
            final(self).halfmove_clock == old(self).halfmove_clock,
            final(self).total_halfmove_counter == old(self).total_halfmove_counter,
            final(self).history == old(self).history,
            final(self).repetition_stack == old(self).repetition_stack,
    {
        let ghost start = empty_pieces();
        assert(self.pieces@ =~= start);
        let mut index: u128 = 56;
        let mut i: usize = 0;
        while i < w.len()
            invariant
                i <= w@.len(),
                index <= 56 + 9 * i,
                self.wf(),
                start == empty_pieces(),
                place(w@, i as int, index as int, self.pieces@) == place(w@, 0, 56, start),
                self.current_color == old(self).current_color,
                self.white_queen_castle == old(self).white_queen_castle,
                self.white_king_castle == old(self).white_king_castle,
                self.black_queen_castle == old(self).black_queen_castle,
                self.black_king_castle == old(self).black_king_castle,
                self.ep_target == old(self).ep_target,
                self.halfmove_clock == old(self).halfmove_clock,
                self.total_halfmove_counter == old(self).total_halfmove_counter,
                self.history == old(self).history,
                self.repetition_stack == old(self).repetition_stack,
            decreases w.len() - i,
        {
            let c = w[i];
            let v = crate::types::char_code(c);
            proof {
                lemma_place_step(w@, i as int, index as int, self.pieces@);
            }
            if c == '/' {
                index = if index >= 16 {
                    index - 16
                } else {
                    0
                };
            } else if 49 <= v && v <= 56 {
                index = index + (v - 48) as u128;
            } else {
                match figure_from_char(c) {
                    Some(f) => {
                        if index < 64 && self.pieces[index as usize] == Figure::Empty {
                            self.put(index as usize, f);
                            index = index + 1;
                        } else {
                            assert(figure_of_char(w@[i as int]) == Some(f));
                            assert(!(0 <= index < 64 && self.pieces@[index as int] == Figure::Empty));
                            assert(place(w@, i as int, index as int, self.pieces@) is None);
                            return false;
                        }
                    },
                    None => {
                        index = index + 1;
                    },
                }
            }
            i = i + 1;
        }
        true
    }

    /// The position described by `fen`, or `None` when it cannot be read (see `fen_spec`).
    pub fn try_from_fen(fen: &str) -> (r: Option<Board>)
        ensures
            r is Some <==> fen_spec(fen@) is Some,
            r matches Some(b) ==> b.wf() && b.matches_fen(fen_spec(fen@).unwrap()),
    {
        let ws = split_words(fen);
        if ws.len() == 0 {
            return None;
        }
        let mut board = Board::empty_board();
        let ok = board.place_figures(&ws[0]);
        let ghost ghost_ws = words(fen@);
        let color = if ws.len() > 1 {
            let cw = &ws[1];
            if cw.len() == 1 && cw[0] == 'w' {
                assert(cw@ =~= seq!['w']);
                Some(Color::White)
            } else if cw.len() == 1 && cw[0] == 'b' {
                assert(cw@ =~= seq!['b']);
                Some(Color::Black)
            } else {
                assert(cw@ != seq!['w']);
                assert(cw@ != seq!['b']);
                None
            }
        } else {
            Some(Color::White)
        };
        let half = if ws.len() > 4 {
            parse_word_usize(&ws[4])
        } else {
            Some(0)
        };
        proof {
            if ws.len() <= 4 {
                let z = seq!['0'];
                assert(z.drop_last() =~= Seq::<char>::empty());
                assert(digits_value(Seq::<char>::empty()) == 0);
                assert(digits_value(z) == 0);
                assert(all_digits(z));
                assert(parse_usize(z) == Some(0nat));
            }
        }
        let full = if ws.len() > 5 {
            parse_word_usize(&ws[5])
        } else {
            Some(1)
        };
        proof {
            if ws.len() <= 5 {
                let o = seq!['1'];
                assert(o.drop_last() =~= Seq::<char>::empty());
                assert(digits_value(Seq::<char>::empty()) == 0);
                assert(digits_value(o) == 1);
                assert(all_digits(o));
                assert(parse_usize(o) == Some(1nat));
            }
        }
        proof {
            let gw = words(fen@);
            assert(ws@[0]@ == gw[0]);
            if ws.len() > 1 {
                assert(ws@[1]@ == gw[1]);
            }
            if ws.len() > 4 {
                assert(ws@[4]@ == gw[4]);
            }
            if ws.len() > 5 {
                assert(ws@[5]@ == gw[5]);
            }
        }
        if !ok || color.is_none() || half.is_none() || full.is_none() {
            return None;
        }
        let (wq, wk, bq, bk) = if ws.len() > 2 {
            let cw = &ws[2];
            (
                word_contains(cw, 'Q'),
                word_contains(cw, 'K'),
                word_contains(cw, 'q'),
                word_contains(cw, 'k'),
            )
        } else {
            proof {
                let d = seq!['-'];
                assert(!d.contains('Q') && !d.contains('K') && !d.contains('k') && !d.contains('q'))
                    by {
                    if d.contains('Q') {
                        let j = choose|j: int| 0 <= j < d.len() && d[j] == 'Q';
                    }
                    if d.contains('K') {
                        let j = choose|j: int| 0 <= j < d.len() && d[j] == 'K';
                    }
                    if d.contains('k') {
                        let j = choose|j: int| 0 <= j < d.len() && d[j] == 'k';
                    }
                    if d.contains('q') {
                        let j = choose|j: int| 0 <= j < d.len() && d[j] == 'q';
                    }
                }
            }
            (false, false, false, false)
        };
        let ep = if ws.len() > 3 {
            Self::ep_from_word(&ws[3])
        } else {
            None
        };
        proof {
            let gw = words(fen@);
            if ws.len() > 2 {
                assert(ws@[2]@ == gw[2]);
            }
            if ws.len() > 3 {
                assert(ws@[3]@ == gw[3]);
            } else {
                assert(ep_of_word(seq!['-']) is None);
            }
        }
        board.set_state(color.unwrap(), wq, wk, bq, bk, ep);
        board.halfmove_clock = half.unwrap();
        board.total_halfmove_counter = full.unwrap();
        proof {
            let gw = words(fen@);
            let color_w = word_or(gw, 1, seq!['w']);
            let castling = word_or(gw, 2, seq!['-']);
            let epw = word_or(gw, 3, seq!['-']);
            let hw = word_or(gw, 4, seq!['0']);
            let fw = word_or(gw, 5, seq!['1']);
            assert(place(gw[0], 0, 56, empty_pieces()) == Some(board.pieces@));
            assert(parse_usize(hw) == Some(board.halfmove_clock as nat));
            assert(parse_usize(fw) == Some(board.total_halfmove_counter as nat));
            assert(wq == castling.contains('Q'));
            assert(ep == ep_of_word(epw));
            assert(fen_spec(fen@) is Some);
        }
        Some(board)
    }

    /// The en passant target named by a word, if it names a square.
    fn ep_from_word(w: &Vec<char>) -> (r: Option<Bit>)
        ensures
            r == ep_of_word(w@),
    {
        if w.len() != 2 {
            return None;
        }
        match (crate::types::file_index(w[0]), crate::types::rank_index(w[1])) {
            (Some(x), Some(y)) => {
                let s = y * 8 + x;
                Some(Bitboard(1u64 << (s as u64)))
            },
            _ => None,
        }
    }

    /// Whether the board holds the position `parts`.
    pub open spec fn matches_fen(&self, parts: FenParts) -> bool {
        &&& self.pieces@ == parts.pieces
        &&& self.current_color == parts.color
        &&& self.white_queen_castle == parts.white_queen_castle
        &&& self.white_king_castle == parts.white_king_castle
        &&& self.black_queen_castle == parts.black_queen_castle
        &&& self.black_king_castle == parts.black_king_castle
        &&& self.ep_target == parts.ep_target
        &&& self.halfmove_clock == parts.halfmove_clock
        &&& self.total_halfmove_counter == parts.total_halfmove_counter
        &&& self.history@.len() == 0
        &&& self.repetition_stack@.len() == 0
    }

    /// Converts a FEN to a board; lowercase letters are black and uppercase white.
    pub fn from_fen(fen: &str) -> (r: Board)
        requires
            fen_spec(fen@) is Some,
        ensures
            r.wf(),
            r.matches_fen(fen_spec(fen@).unwrap()),
    {
        Self::try_from_fen(fen).unwrap()
    }
}


/// The placement letter of a figure: uppercase white, lowercase black.
pub open spec fn figure_char(f: Figure) -> char {
    match f {
        Figure::WhitePawn => 'P',
        Figure::BlackPawn => 'p',
        Figure::WhiteKnight => 'N',
        Figure::BlackKnight => 'n',
        Figure::WhiteBishop => 'B',
        Figure::BlackBishop => 'b',
        Figure::WhiteRook => 'R',
        Figure::BlackRook => 'r',
        Figure::WhiteQueen => 'Q',
        Figure::BlackQueen => 'q',
        Figure::WhiteKing => 'K',
        Figure::BlackKing => 'k',
        Figure::Empty => '1',
    }
}

pub fn char_of_figure(f: Figure) -> (r: char)
    ensures
        r == figure_char(f),
{
    match f {
        Figure::WhitePawn => 'P',
        Figure::BlackPawn => 'p',
        Figure::WhiteKnight => 'N',
        Figure::BlackKnight => 'n',
        Figure::WhiteBishop => 'B',
        Figure::BlackBishop => 'b',
        Figure::WhiteRook => 'R',
        Figure::BlackRook => 'r',
        Figure::WhiteQueen => 'Q',
        Figure::BlackQueen => 'q',
        Figure::WhiteKing => 'K',
        Figure::BlackKing => 'k',
        Figure::Empty => '1',
    }
}

/// The digit of a run of `n` empty squares.
pub open spec fn run_text(n: nat) -> Seq<char> {
    if n > 0 {
        seq![(48 + n) as char]
    } else {
        seq![]
    }
}

/// The text of rank `y` from file `x` on, with `run` empty squares before `x` not yet
/// written: figure letters, and a digit for each run of empty squares.
pub open spec fn rank_text(p: Seq<Figure>, y: int, x: int, run: nat) -> Seq<char>
    decreases 8 - x,
{
    if x >= 8 {
        run_text(run)
    } else if p[y * 8 + x] == Figure::Empty {
        rank_text(p, y, x + 1, run + 1)
    } else {
        run_text(run) + seq![figure_char(p[y * 8 + x])] + rank_text(p, y, x + 1, 0)
    }
}

/// The ranks below `y`, from rank `y - 1` down to the first, separated by '/'.
pub open spec fn ranks_text(p: Seq<Figure>, y: nat) -> Seq<char>
    decreases y,
{
    if y == 0 {
        seq![]
    } else if y == 1 {
        rank_text(p, 0, 0, 0)
    } else {
        rank_text(p, y - 1, 0, 0) + seq!['/'] + ranks_text(p, (y - 1) as nat)
    }
}

/// The castling field: 'K', 'Q', 'k', 'q' for the rights white king side, white queen
/// side, black king side and black queen side, or '-' for none.
pub open spec fn castling_text(wk: bool, wq: bool, bk: bool, bq: bool) -> Seq<char> {
    if !(wk || wq || bk || bq) {
        seq!['-']
    } else {
        (if wk { seq!['K'] } else { seq![] }) + (if wq { seq!['Q'] } else { seq![] }) + (if bk { seq!['k'] } else { seq![] })
            + (if bq { seq!['q'] } else { seq![] })
    }
}

/// The en passant field: the square of the target's lowest bit, or '-'.
pub open spec fn ep_text(ep: Option<Bit>) -> Seq<char> {
    match ep {
        Some(e) => if e.0 != 0 {
            square_name(vstd::std_specs::bits::u64_trailing_zeros(e.0) as int)
        } else {
            seq!['-']
        },
        None => seq!['-'],
    }
}

/// The FEN of a board: placement, side to move, castling rights, en passant target,
/// halfmove clock and the move counter, separated by single spaces.
pub open spec fn fen_text(b: Board) -> Seq<char> {
    ranks_text(b.pieces@, 8) + seq![' ', if b.current_color == Color::White { 'w' } else { 'b' }, ' ']
        + castling_text(b.white_king_castle, b.white_queen_castle, b.black_king_castle, b.black_queen_castle)
        + seq![' '] + ep_text(b.ep_target) + seq![' '] + decimal(b.halfmove_clock as nat) + seq![' ']
        + decimal(b.total_halfmove_counter as nat)
}

impl Board {
    /// Appends the text of rank `y` (see `rank_text`).
    fn push_rank(&self, out: &mut String, y: usize)
        requires
            y < 8,
        ensures
            final(out)@ == old(out)@ + rank_text(self.pieces@, y as int, 0, 0),
    {
        let ghost p = self.pieces@;
        let mut run: u8 = 0;
        let mut x: usize = 0;
        while x < 8
            invariant
                y < 8,
                x <= 8,
                run as int <= x,
                p == self.pieces@,
                out@ + rank_text(p, y as int, x as int, run as nat) == old(out)@ + rank_text(p, y as int, 0, 0),
            decreases 8 - x,
        {
            let ghost before = out@;
            let f = self.pieces[y * 8 + x];
            if f == Figure::Empty {
                run = run + 1;
            } else {
                if run > 0 {
                    string_push(out, char_of_byte(48 + run));
                }
                string_push(out, char_of_figure(f));
                proof {
                    assert(out@ =~= before + run_text(run as nat) + seq![figure_char(f)]);
                }
                run = 0;
            }
            x = x + 1;
        }
        let ghost before = out@;
        if run > 0 {
            string_push(out, char_of_byte(48 + run));
        }
        proof {
            assert(out@ =~= before + run_text(run as nat));
            assert(rank_text(p, y as int, 8, run as nat) == run_text(run as nat));
        }
    }

    /// Appends the placement field (see `ranks_text`).
    fn push_placement(&self, out: &mut String)
        ensures
            final(out)@ == old(out)@ + ranks_text(self.pieces@, 8),
    {
        let ghost p = self.pieces@;
        let mut y: usize = 8;
        while y > 0
            invariant
                y <= 8,
                p == self.pieces@,
                out@ + ranks_text(p, y as nat) == old(out)@ + ranks_text(p, 8),
            decreases y,
        {
            let ghost before = out@;
            y = y - 1;
            self.push_rank(out, y);
            if y > 0 {
                string_push(out, '/');
            }
            proof {
                if y > 0 {
                    assert(out@ =~= before + rank_text(p, y as int, 0, 0) + seq!['/']);
                    assert(ranks_text(p, (y + 1) as nat) == rank_text(p, y as int, 0, 0) + seq!['/'] + ranks_text(p, y as nat));
                } else {
                    assert(out@ =~= before + rank_text(p, y as int, 0, 0));
                }
            }
        }
        assert(out@ =~= old(out)@ + ranks_text(p, 8));
    }

    /// Appends the castling field (see `castling_text`).
    fn push_castling(&self, out: &mut String)
        ensures
            final(out)@ == old(out)@ + castling_text(
                self.white_king_castle,
                self.white_queen_castle,
                self.black_king_castle,
                self.black_queen_castle,
            ),
    {
        let (wk, wq, bk, bq) = (self.white_king_castle, self.white_queen_castle, self.black_king_castle, self.black_queen_castle);
        if !(wk || wq || bk || bq) {
            string_push(out, '-');
        } else {
            if wk {
                string_push(out, 'K');
            }
            if wq {
                string_push(out, 'Q');
            }
            if bk {
                string_push(out, 'k');
            }
            if bq {
                string_push(out, 'q');
            }
        }
        assert(out@ =~= old(out)@ + castling_text(wk, wq, bk, bq));
    }

    /// Appends the en passant field (see `ep_text`).
    fn push_ep(&self, out: &mut String)
        ensures
            final(out)@ == old(out)@ + ep_text(self.ep_target),
    {
        match self.ep_target {
            Some(e) => {
                if e.0 != 0 {
                    let sq = e.lowest();
                    Square(sq as usize).push_coords(out);
                } else {
                    string_push(out, '-');
                }
            },
            None => string_push(out, '-'),
        }
        assert(out@ =~= old(out)@ + ep_text(self.ep_target));
    }

    /// The FEN of the board (see `fen_text`).
    pub fn generate_fen(&self) -> (r: String)
        ensures
            r@ == fen_text(*self),
    {
        let mut out = String::new();
        self.push_placement(&mut out);
        string_push(&mut out, ' ');
        string_push(&mut out, if self.current_color == Color::White { 'w' } else { 'b' });
        string_push(&mut out, ' ');
        self.push_castling(&mut out);
        string_push(&mut out, ' ');
        self.push_ep(&mut out);
        string_push(&mut out, ' ');
        push_decimal(&mut out, self.halfmove_clock);
        string_push(&mut out, ' ');
        push_decimal(&mut out, self.total_halfmove_counter);
        assert(out@ =~= fen_text(*self));
        out
    }
}


/// No whitespace in `w`.
pub open spec fn no_ws(w: Seq<char>) -> bool {
    forall|j: int| 0 <= j < w.len() ==> !is_ws(#[trigger] w[j])
}

/// Reading on through characters that are no whitespace adds them to the current word.
proof fn lemma_words_scan(s: Seq<char>, i: int, m: int, cur: Seq<char>)
    requires
        0 <= i,
        0 <= m,
        i + m <= s.len(),
        forall|j: int| i <= j < i + m ==> !is_ws(#[trigger] s[j]),
    ensures
        words_from(s, i, cur) == words_from(s, i + m, cur + s.subrange(i, i + m)),
    decreases m,
{
    if m == 0 {
        assert(cur + s.subrange(i, i) =~= cur);
    } else {
        lemma_words_scan(s, i + 1, m - 1, cur.push(s[i]));
        assert(cur.push(s[i]) + s.subrange(i + 1, i + m) =~= cur + s.subrange(i, i + m));
    }
}

/// Reading a suffix of `t + u` is reading `u`.
proof fn lemma_words_suffix(t: Seq<char>, u: Seq<char>, j: int, cur: Seq<char>)
    requires
        0 <= j <= u.len(),
    ensures
        words_from(t + u, t.len() + j, cur) == words_from(u, j, cur),
    decreases u.len() - j,
{
    if j < u.len() {
        assert((t + u)[t.len() + j] == u[j]);
        lemma_words_suffix(t, u, j + 1, cur.push(u[j]));
        lemma_words_suffix(t, u, j + 1, seq![]);
    }
}

/// A word without whitespace, a space and more text: that word, then the words of the rest.
proof fn lemma_words_cons(a: Seq<char>, rest: Seq<char>)
    requires
        a.len() > 0,
        no_ws(a),
    ensures
        words(a + seq![' '] + rest) == seq![a] + words(rest),
{
    let s = a + seq![' '] + rest;
    assert forall|j: int| 0 <= j < a.len() implies !is_ws(#[trigger] s[j]) by {
        assert(s[j] == a[j]);
    }
    lemma_words_scan(s, 0, a.len() as int, seq![]);
    assert(seq![] + s.subrange(0, a.len() as int) =~= a);
    assert(s[a.len() as int] == ' ');
    assert(is_ws(' '));
    assert(s =~= (a + seq![' ']) + rest);
    lemma_words_suffix(a + seq![' '], rest, 0, seq![]);
}

/// A single word without whitespace.
proof fn lemma_words_single(a: Seq<char>)
    requires
        a.len() > 0,
        no_ws(a),
    ensures
        words(a) == seq![a],
{
    lemma_words_scan(a, 0, a.len() as int, seq![]);
    assert(seq![] + a.subrange(0, a.len() as int) =~= a);
}


/// The figures of `p` on the ranks above `y` and on rank `y` left of file `x`; the other
/// squares empty.
pub open spec fn partial(p: Seq<Figure>, y: int, x: int) -> Seq<Figure> {
    Seq::new(64, |s: int| if s / 8 > y || (s / 8 == y && s % 8 < x) { p[s] } else { Figure::Empty })
}

/// A figure's letter reads back as the figure, and is neither '/' nor a digit.
proof fn lemma_figure_char(f: Figure)
    requires
        f != Figure::Empty,
    ensures
        figure_of_char(figure_char(f)) == Some(f),
        figure_char(f) != '/',
        !(49 <= (figure_char(f) as int) <= 56),
        !is_ws(figure_char(f)),
{
}

/// Placing the text of rank `y` from file `x` on (with `run` empty squares pending) puts
/// the rank's figures and ends past the rank, with the text read.
proof fn lemma_place_rank(w: Seq<char>, i: int, p: Seq<Figure>, y: int, x: int, run: nat)
    requires
        p.len() == 64,
        0 <= y < 8,
        0 <= x <= 8,
        run <= x,
        forall|k: int| x - run <= k < x ==> #[trigger] p[y * 8 + k] == Figure::Empty,
        0 <= i,
        i + rank_text(p, y, x, run).len() <= w.len(),
        w.subrange(i, i + rank_text(p, y, x, run).len()) == rank_text(p, y, x, run),
    ensures
        place(w, i, y * 8 + x - run, partial(p, y, x)) == place(
            w,
            i + rank_text(p, y, x, run).len(),
            y * 8 + 8,
            partial(p, y, 8),
        ),
    decreases 8 - x,
{
    let rt = rank_text(p, y, x, run);
    assert forall|k: int| 0 <= k < rt.len() implies w[i + k] == #[trigger] rt[k] by {
        assert(w.subrange(i, i + rt.len())[k] == w[i + k]);
    }
    if x >= 8 {
        if run > 0 {
            assert(w[i] == rt[0]);
            lemma_place_step(w, i, y * 8 + x - run, partial(p, y, x));
        }
    } else if p[y * 8 + x] == Figure::Empty {
        assert(partial(p, y, x + 1) =~= partial(p, y, x)) by {
            assert forall|t: int| 0 <= t < 64 implies partial(p, y, x + 1)[t] == partial(p, y, x)[t] by {
                if t / 8 == y && t % 8 == x {
                    assert(t == y * 8 + x);
                }
            }
        }
        lemma_place_rank(w, i, p, y, x + 1, run + 1);
    } else {
        let f = p[y * 8 + x];
        let sq = y * 8 + x;
        lemma_figure_char(f);
        let rest = rank_text(p, y, x + 1, 0);
        let j = i + run_text(run).len();
        if run > 0 {
            assert(w[i] == rt[0]);
            lemma_place_step(w, i, y * 8 + x - run, partial(p, y, x));
        }
        assert(w[j] == rt[run_text(run).len() as int]);
        assert(w[j] == figure_char(f));
        assert(sq / 8 == y && sq % 8 == x);
        assert(partial(p, y, x)[sq] == Figure::Empty);
        lemma_place_step(w, j, sq, partial(p, y, x));
        assert(partial(p, y, x).update(sq, f) =~= partial(p, y, x + 1)) by {
            assert forall|t: int| 0 <= t < 64 implies partial(p, y, x).update(sq, f)[t] == partial(p, y, x + 1)[t] by {
                if t / 8 == y && t % 8 == x {
                    assert(t == sq);
                }
            }
        }
        assert(w.subrange(j + 1, j + 1 + rest.len()) =~= rest) by {
            assert forall|k: int| 0 <= k < rest.len() implies w.subrange(j + 1, j + 1 + rest.len())[k] == rest[k] by {
                assert(rt[run_text(run).len() + 1 + k] == rest[k]);
            }
        }
        lemma_place_rank(w, j + 1, p, y, x + 1, 0);
    }
}


/// Rank texts hold figure letters and digits only.
proof fn lemma_rank_text_chars(p: Seq<Figure>, y: int, x: int, run: nat)
    requires
        p.len() == 64,
        0 <= y < 8,
        0 <= x <= 8,
        run <= x,
    ensures
        no_ws(rank_text(p, y, x, run)),
        forall|j: int| 0 <= j < rank_text(p, y, x, run).len() ==> #[trigger] rank_text(p, y, x, run)[j] != '/',
        run > 0 || x < 8 ==> rank_text(p, y, x, run).len() > 0,
    decreases 8 - x,
{
    if x < 8 {
        if p[y * 8 + x] == Figure::Empty {
            lemma_rank_text_chars(p, y, x + 1, run + 1);
        } else {
            lemma_figure_char(p[y * 8 + x]);
            lemma_rank_text_chars(p, y, x + 1, 0);
            let a = run_text(run) + seq![figure_char(p[y * 8 + x])];
            let b = rank_text(p, y, x + 1, 0);
            assert forall|j: int| 0 <= j < (a + b).len() implies !is_ws(#[trigger] (a + b)[j]) && (a + b)[j] != '/' by {
                if j >= a.len() {
                    assert((a + b)[j] == b[j - a.len()]);
                }
            }
        }
    }
}

/// The placement text holds no whitespace and is not empty.
proof fn lemma_ranks_text_chars(p: Seq<Figure>, y: nat)
    requires
        p.len() == 64,
        1 <= y <= 8,
    ensures
        no_ws(ranks_text(p, y)),
        ranks_text(p, y).len() > 0,
    decreases y,
{
    lemma_rank_text_chars(p, y - 1, 0, 0);
    if y > 1 {
        lemma_ranks_text_chars(p, (y - 1) as nat);
        let a = rank_text(p, y - 1, 0, 0) + seq!['/'];
        let b = ranks_text(p, (y - 1) as nat);
        assert forall|j: int| 0 <= j < (a + b).len() implies !is_ws(#[trigger] (a + b)[j]) by {
            if j >= a.len() {
                assert((a + b)[j] == b[j - a.len()]);
            } else if j < a.len() - 1 {
                assert(a[j] == rank_text(p, y - 1, 0, 0)[j]);
            }
        }
    }
}

/// Placing the text of the ranks below `y` that ends the word puts every figure of `p`.
proof fn lemma_place_ranks(w: Seq<char>, i: int, p: Seq<Figure>, y: nat)
    requires
        p.len() == 64,
        1 <= y <= 8,
        0 <= i,
        i + ranks_text(p, y).len() == w.len(),
        w.subrange(i, w.len() as int) == ranks_text(p, y),
    ensures
        place(w, i, (y - 1) * 8, partial(p, y - 1, 0)) == Some(p),
    decreases y,
{
    let rt = rank_text(p, y - 1, 0, 0);
    let whole = ranks_text(p, y);
    assert(whole.subrange(0, rt.len() as int) =~= rt);
    assert(w.subrange(i, i + rt.len()) =~= rt) by {
        assert forall|k: int| 0 <= k < rt.len() implies w.subrange(i, i + rt.len())[k] == rt[k] by {
            assert(w.subrange(i, w.len() as int)[k] == w[i + k]);
            assert(whole[k] == rt[k]);
        }
    }
    lemma_place_rank(w, i, p, y - 1, 0, 0);
    let j = i + rt.len();
    if y == 1 {
        assert(partial(p, 0, 8) =~= p);
    } else {
        let rest = ranks_text(p, (y - 1) as nat);
        assert(w[j] == '/') by {
            assert(w.subrange(i, w.len() as int)[rt.len() as int] == w[j]);
        }
        lemma_place_step(w, j, (y - 1) * 8 + 8, partial(p, y - 1, 8));
        assert(partial(p, y - 1, 8) =~= partial(p, y - 2, 0));
        assert(w.subrange(j + 1, w.len() as int) =~= rest) by {
            assert forall|k: int| 0 <= k < rest.len() implies w.subrange(j + 1, w.len() as int)[k] == rest[k] by {
                assert(w.subrange(i, w.len() as int)[rt.len() + 1 + k] == w[j + 1 + k]);
                assert(whole[rt.len() + 1 + k] == rest[k]);
            }
        }
        lemma_place_ranks(w, j + 1, p, (y - 1) as nat);
    }
}


/// The decimal digits of `n` read back as `n`.
proof fn lemma_decimal_value(n: nat)
    ensures
        decimal(n).len() > 0,
        all_digits(decimal(n)),
        no_ws(decimal(n)),
        digits_value(decimal(n)) == n,
        decimal(n)[0] != '+',
    decreases n,
{
    if n >= 10 {
        lemma_decimal_value(n / 10);
        let d = decimal(n);
        assert(d.drop_last() =~= decimal(n / 10));
        assert(d[0] == decimal(n / 10)[0]);
        assert(d.last() == crate::visualize::digit_char(n % 10));
        assert((d.last() as int) == 48 + n % 10);
        assert(n == (n / 10) * 10 + n % 10);
        assert(digits_value(d) == digits_value(decimal(n / 10)) * 10 + (d.last() as int - 48) as nat);
        assert(digits_value(d) == n);
        assert forall|j: int| 0 <= j < d.len() implies 48 <= #[trigger] (d[j] as int) <= 57 by {
            if j < d.len() - 1 {
                assert(d[j] == decimal(n / 10)[j]);
            }
        }
    }
    else {
        let d = decimal(n);
        assert(d.drop_last() =~= Seq::<char>::empty());
        assert((d.last() as int) == 48 + n);
        assert(digits_value(d) == digits_value(d.drop_last()) * 10 + (d.last() as int - 48) as nat);
        assert(digits_value(d) == n);
    }
    assert forall|j: int| 0 <= j < decimal(n).len() implies !is_ws(#[trigger] decimal(n)[j]) by {
        assert(48 <= (decimal(n)[j] as int) <= 57);
    }
}

/// Which castling letters the castling field holds.
proof fn lemma_castling_letters(wk: bool, wq: bool, bk: bool, bq: bool)
    ensures
        castling_text(wk, wq, bk, bq).contains('K') == wk,
        castling_text(wk, wq, bk, bq).contains('Q') == wq,
        castling_text(wk, wq, bk, bq).contains('k') == bk,
        castling_text(wk, wq, bk, bq).contains('q') == bq,
        castling_text(wk, wq, bk, bq).len() > 0,
        no_ws(castling_text(wk, wq, bk, bq)),
{
    let t = castling_text(wk, wq, bk, bq);
    let a = if wk { seq!['K'] } else { seq![] };
    let b = if wq { seq!['Q'] } else { seq![] };
    let c = if bk { seq!['k'] } else { seq![] };
    let d = if bq { seq!['q'] } else { seq![] };
    if wk || wq || bk || bq {
        assert(t =~= a + b + c + d);
        assert forall|j: int| 0 <= j < t.len() implies (#[trigger] t[j] == 'K' ==> wk) && (t[j] == 'Q' ==> wq) && (t[j] == 'k' ==> bk)
            && (t[j] == 'q' ==> bq) && !is_ws(t[j]) by {
            if j < a.len() {
                assert(t[j] == a[j]);
            } else if j < a.len() + b.len() {
                assert(t[j] == b[j - a.len()]);
            } else if j < a.len() + b.len() + c.len() {
                assert(t[j] == c[j - a.len() - b.len()]);
            } else {
                assert(t[j] == d[j - a.len() - b.len() - c.len()]);
            }
        }
        if wk {
            assert(t[0] == 'K');
        }
        if wq {
            assert(t[a.len() as int] == 'Q');
        }
        if bk {
            assert(t[(a.len() + b.len()) as int] == 'k');
        }
        if bq {
            assert(t[(a.len() + b.len() + c.len()) as int] == 'q');
        }
    } else {
        assert(t[0] == '-');
        assert forall|j: int| 0 <= j < t.len() implies #[trigger] t[j] == '-' by {}
    }
}

/// The en passant field reads back as the target, when the target is a single square.
proof fn lemma_ep_text(ep: Option<Bit>)
    requires
        ep matches Some(e) ==> exists|s: u64| s < 64 && e.0 == 1u64 << s,
    ensures
        ep_of_word(ep_text(ep)) == ep,
        ep_text(ep).len() > 0,
        no_ws(ep_text(ep)),
{
    match ep {
        Some(e) => {
            let s = choose|s: u64| s < 64 && e.0 == 1u64 << s;
            crate::bitboard::lemma_single_bit(s);
            vstd::std_specs::bits::axiom_u64_trailing_zeros(e.0);
            let t = vstd::std_specs::bits::u64_trailing_zeros(e.0);
            assert(crate::bitboard::bit_set(e.0, t as int));
            assert(t == s);
            let sq = t as int;
            let name = square_name(sq);
            assert(file_of_char(name[0]) == Some(sq % 8));
            assert(rank_of_char(name[1]) == Some(sq / 8));
            assert(square_of_chars(name[0], name[1]) == Some(sq));
            assert forall|j: int| 0 <= j < name.len() implies !is_ws(#[trigger] name[j]) by {}
        },
        None => {
            assert forall|j: int| 0 <= j < ep_text(ep).len() implies !is_ws(#[trigger] ep_text(ep)[j]) by {}
        },
    }
}


/// Six words without whitespace joined by single spaces are read back as those words.
proof fn lemma_six_words(a: Seq<char>, b: Seq<char>, c: Seq<char>, d: Seq<char>, e: Seq<char>, f: Seq<char>)
    requires
        a.len() > 0 && no_ws(a),
        b.len() > 0 && no_ws(b),
        c.len() > 0 && no_ws(c),
        d.len() > 0 && no_ws(d),
        e.len() > 0 && no_ws(e),
        f.len() > 0 && no_ws(f),
    ensures
        words(a + seq![' '] + b + seq![' '] + c + seq![' '] + d + seq![' '] + e + seq![' '] + f) == seq![a, b, c, d, e, f],
{
    let t5 = e + seq![' '] + f;
    let t4 = d + seq![' '] + t5;
    let t3 = c + seq![' '] + t4;
    let t2 = b + seq![' '] + t3;
    assert(a + seq![' '] + b + seq![' '] + c + seq![' '] + d + seq![' '] + e + seq![' '] + f =~= a + seq![' '] + t2);
    lemma_words_single(f);
    lemma_words_cons(e, f);
    lemma_words_cons(d, t5);
    lemma_words_cons(c, t4);
    lemma_words_cons(b, t3);
    lemma_words_cons(a, t2);
    assert(seq![a] + (seq![b] + (seq![c] + (seq![d] + (seq![e] + seq![f]))))  =~= seq![a, b, c, d, e, f]);
}

/// The words of a board's FEN: its six fields.
proof fn lemma_fen_words(b: Board)
    requires
        b.ep_target matches Some(e) ==> exists|s: u64| s < 64 && e.0 == 1u64 << s,
    ensures
        words(fen_text(b)) == seq![
            ranks_text(b.pieces@, 8),
            seq![if b.current_color == Color::White { 'w' } else { 'b' }],
            castling_text(b.white_king_castle, b.white_queen_castle, b.black_king_castle, b.black_queen_castle),
            ep_text(b.ep_target),
            decimal(b.halfmove_clock as nat),
            decimal(b.total_halfmove_counter as nat),
        ],
{
    let pl = ranks_text(b.pieces@, 8);
    let col = seq![if b.current_color == Color::White { 'w' } else { 'b' }];
    let ca = castling_text(b.white_king_castle, b.white_queen_castle, b.black_king_castle, b.black_queen_castle);
    let ep = ep_text(b.ep_target);
    let h = decimal(b.halfmove_clock as nat);
    let f = decimal(b.total_halfmove_counter as nat);
    lemma_ranks_text_chars(b.pieces@, 8);
    lemma_castling_letters(b.white_king_castle, b.white_queen_castle, b.black_king_castle, b.black_queen_castle);
    lemma_ep_text(b.ep_target);
    lemma_decimal_value(b.halfmove_clock as nat);
    lemma_decimal_value(b.total_halfmove_counter as nat);
    assert(no_ws(col));
    assert(fen_text(b) =~= pl + seq![' '] + col + seq![' '] + ca + seq![' '] + ep + seq![' '] + h + seq![' '] + f);
    lemma_six_words(pl, col, ca, ep, h, f);
}

/// The placement field of a board reads back as its pieces.
proof fn lemma_placement_reads(p: Seq<Figure>)
    requires
        p.len() == 64,
    ensures
        place(ranks_text(p, 8), 0, 56, empty_pieces()) == Some(p),
{
    let pl = ranks_text(p, 8);
    assert(pl.subrange(0, pl.len() as int) =~= pl);
    lemma_place_ranks(pl, 0, p, 8);
    assert(partial(p, 7, 0) =~= empty_pieces());
}

/// The FEN a board writes reads back as that board's position: the same pieces, side to
/// move, en passant target (when it is a single square), halfmove clock and move counter,
/// and the same castling rights.
pub proof fn lemma_fen_roundtrip(b: Board)
    requires
        b.ep_target matches Some(e) ==> exists|s: u64| s < 64 && e.0 == 1u64 << s,
    ensures
        fen_spec(fen_text(b)) == Some(
            FenParts {
                pieces: b.pieces@,
                color: b.current_color,
                white_queen_castle: b.white_queen_castle,
                white_king_castle: b.white_king_castle,
                black_queen_castle: b.black_queen_castle,
                black_king_castle: b.black_king_castle,
                ep_target: b.ep_target,
                halfmove_clock: b.halfmove_clock as nat,
                total_halfmove_counter: b.total_halfmove_counter as nat,
            },
        ),
{
    lemma_fen_words(b);
    lemma_placement_reads(b.pieces@);
    lemma_castling_letters(b.white_king_castle, b.white_queen_castle, b.black_king_castle, b.black_queen_castle);
    lemma_ep_text(b.ep_target);
    lemma_decimal_value(b.halfmove_clock as nat);
    lemma_decimal_value(b.total_halfmove_counter as nat);
    let h = decimal(b.halfmove_clock as nat);
    let f = decimal(b.total_halfmove_counter as nat);
    assert(parse_usize(h) == Some(b.halfmove_clock as nat));
    assert(parse_usize(f) == Some(b.total_halfmove_counter as nat));
    let ws = words(fen_text(b));
    let col = seq![if b.current_color == Color::White { 'w' } else { 'b' }];
    assert(ws.len() == 6);
    assert(word_or(ws, 1, seq!['w']) == col);
    assert(word_or(ws, 4, seq!['0']) == h);
    assert(word_or(ws, 5, seq!['1']) == f);
    if b.current_color == Color::White {
        assert(col =~= seq!['w']);
    } else {
        assert(col =~= seq!['b']);
        assert(col != seq!['w']) by {
            assert(col[0] != seq!['w'][0]);
        }
    }
}

} // verus!
