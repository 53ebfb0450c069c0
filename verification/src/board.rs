//! The board: a figure per square mirrored by one bitboard per figure and per color,
//! plus side to move, castling rights, en passant target, clocks and a Zobrist hash.
use crate::bitboard::{bit_set, bits, lemma_bit_ops, lemma_single_bit, lemma_zero_iff_no_bits, Bit, Bitboard};
use crate::types::{Color, Figure, Piece, Square};
use vstd::prelude::*;

verus! {

/// One round of the xorshift generator.
pub open spec fn xorshift(x: u64) -> u64 {
    let a = x ^ (x << 13u64);
    let b = a ^ (a >> 7u64);
    b ^ (b << 17u64)
}

/// The Zobrist key with number `i`: piece keys are `figure * 64 + square`, the side key
/// is 768, the castling keys 769 to 772 and the en passant keys `773 + square`.
pub open spec fn zobrist_key(i: u64) -> u64 {
    xorshift(xorshift(xorshift(i ^ 0x9E37_79B9_7F4A_7C15u64)))
}

pub fn zobrist(i: u64) -> (r: u64)
    ensures
        r == zobrist_key(i),
{
    let mut x = i ^ 0x9E37_79B9_7F4A_7C15u64;
    let mut k: u32 = 0;
    while k < 3
        invariant
            k <= 3,
            k == 0 ==> x == i ^ 0x9E37_79B9_7F4A_7C15u64,
            k == 1 ==> x == xorshift(i ^ 0x9E37_79B9_7F4A_7C15u64),
            k == 2 ==> x == xorshift(xorshift(i ^ 0x9E37_79B9_7F4A_7C15u64)),
            k == 3 ==> x == zobrist_key(i),
        decreases 3 - k,
    {
        let a = x ^ (x << 13u64);
        let b = a ^ (a >> 7u64);
        x = b ^ (b << 17u64);
        k = k + 1;
    }
    x
}

pub open spec fn piece_key(f: Figure, s: int) -> u64 {
    if f == Figure::Empty {
        0
    } else {
        zobrist_key((f.idx() * 64 + s) as u64)
    }
}

/// XOR of the piece keys of the first `n` squares.
pub open spec fn hash_pieces(p: Seq<Figure>, n: nat) -> u64
    decreases n,
{
    if n == 0 {
        0
    } else {
        hash_pieces(p, (n - 1) as nat) ^ piece_key(p[n - 1], n - 1)
    }
}

pub open spec fn side_key(c: Color) -> u64 {
    match c {
        Color::White => 0,
        Color::Black => zobrist_key(768),
    }
}

pub open spec fn castle_key(wq: bool, wk: bool, bq: bool, bk: bool) -> u64 {
    (if wq {
        zobrist_key(769)
    } else {
        0u64
    }) ^ (if wk {
        zobrist_key(770)
    } else {
        0u64
    }) ^ (if bq {
        zobrist_key(771)
    } else {
        0u64
    }) ^ (if bk {
        zobrist_key(772)
    } else {
        0u64
    })
}

pub open spec fn ep_key(ep: Option<Bit>) -> u64 {
    match ep {
        Some(b) => zobrist_key((773 + vstd::std_specs::bits::u64_trailing_zeros(b.0)) as u64),
        None => 0,
    }
}

pub proof fn lemma_xor_facts(a: u64, b: u64, c: u64)
    ensures
        a ^ 0 == a,
        a ^ a == 0,
        a ^ b == b ^ a,
        (a ^ b) ^ c == a ^ (b ^ c),
        (a ^ b) ^ b == a,
        (a ^ b) ^ c == (a ^ c) ^ b,
{
    assert(a ^ 0 == a) by (bit_vector);
    assert(a ^ a == 0) by (bit_vector);
    assert(a ^ b == b ^ a) by (bit_vector);
    assert((a ^ b) ^ c == a ^ (b ^ c)) by (bit_vector);
    assert((a ^ b) ^ b == a) by (bit_vector);
    assert((a ^ b) ^ c == (a ^ c) ^ b) by (bit_vector);
}

proof fn lemma_hash_pieces_frame(p: Seq<Figure>, s: int, f: Figure, n: nat)
    requires
        0 <= s < p.len(),
        n <= s,
        n <= p.len(),
    ensures
        hash_pieces(p.update(s, f), n) == hash_pieces(p, n),
    decreases n,
{
    if n > 0 {
        lemma_hash_pieces_frame(p, s, f, (n - 1) as nat);
    }
}

/// Changing the figure on square `s` changes the hash by the keys of the old and new figure.
pub proof fn lemma_hash_pieces_update(p: Seq<Figure>, s: int, f: Figure, n: nat)
    requires
        0 <= s < n,
        n <= p.len(),
    ensures
        hash_pieces(p.update(s, f), n) == hash_pieces(p, n) ^ piece_key(p[s], s) ^ piece_key(f, s),
    decreases n,
{
    let q = p.update(s, f);
    if n - 1 == s {
        lemma_hash_pieces_frame(p, s, f, (n - 1) as nat);
        let h = hash_pieces(p, (n - 1) as nat);
        lemma_xor_facts(h, piece_key(p[s], s), piece_key(f, s));
        lemma_xor_facts(h ^ piece_key(p[s], s), piece_key(p[s], s), piece_key(f, s));
    } else {
        lemma_hash_pieces_update(p, s, f, (n - 1) as nat);
        let h = hash_pieces(p, (n - 1) as nat);
        let a = piece_key(p[s], s);
        let b = piece_key(f, s);
        let c = piece_key(p[n - 1], n - 1);
        assert(((h ^ a) ^ b) ^ c == ((h ^ c) ^ a) ^ b) by (bit_vector);
    }
}

pub proof fn lemma_hash_pieces_empty(n: nat)
    requires
        n <= 64,
    ensures
        hash_pieces(Seq::new(64, |i: int| Figure::Empty), n) == 0,
    decreases n,
{
    if n > 0 {
        lemma_hash_pieces_empty((n - 1) as nat);
        lemma_xor_facts(0, 0, 0);
    }
}

/// The position part of a board, also kept to take a move back.
#[derive(Clone, Copy)]
pub struct UnmakeInfo {
    pub pieces: [Figure; 64],
    pub figure_bbs: [u64; 12],
    pub color_bbs: [u64; 2],
    pub occupied: u64,
    pub current_color: Color,
    pub white_queen_castle: bool,
    pub white_king_castle: bool,
    pub black_queen_castle: bool,
    pub black_king_castle: bool,
    pub ep_target: Option<Bit>,
    pub halfmove_clock: usize,
    pub total_halfmove_counter: usize,
    pub hash: u64,
}

/// Each type gets its own 64 bits where the bit position represents the board index,
/// counting from the bottom left.
pub struct Board {
    pub pieces: [Figure; 64],
    pub figure_bbs: [u64; 12],
    pub color_bbs: [u64; 2],
    pub occupied: u64,
    pub current_color: Color,
    pub white_queen_castle: bool,
    pub white_king_castle: bool,
    pub black_queen_castle: bool,
    pub black_king_castle: bool,
    pub ep_target: Option<Bit>,
    pub halfmove_clock: usize,
    pub total_halfmove_counter: usize,
    pub hash: u64,
    pub history: Vec<UnmakeInfo>,
    pub repetition_stack: Vec<u64>,
}

/// `s` holds the king of `color` and no lower square does.
pub open spec fn is_lowest_king(p: Seq<Figure>, color: Color, s: int) -> bool {
    &&& 0 <= s < 64
    &&& p[s] == Figure::spec_new(color, Piece::King)
    &&& forall|t: int| 0 <= t < s ==> p[t] != Figure::spec_new(color, Piece::King)
}

/// The square of the lowest king of `color`.
pub open spec fn lowest_king_sq(p: Seq<Figure>, color: Color) -> int {
    choose|s: int| is_lowest_king(p, color, s)
}

/// A king of `color` on `s` means there is a lowest one.
pub proof fn lemma_lowest_king_exists(p: Seq<Figure>, color: Color, s: int)
    requires
        0 <= s < 64,
        p[s] == Figure::spec_new(color, Piece::King),
    ensures
        is_lowest_king(p, color, lowest_king_sq(p, color)),
    decreases s,
{
    if exists|t: int| 0 <= t < s && #[trigger] p[t] == Figure::spec_new(color, Piece::King) {
        let t = choose|t: int| 0 <= t < s && #[trigger] p[t] == Figure::spec_new(color, Piece::King);
        lemma_lowest_king_exists(p, color, t);
    } else {
        assert(is_lowest_king(p, color, s));
    }
}

/// Only one square is the lowest king square.
pub proof fn lemma_lowest_king_unique(p: Seq<Figure>, color: Color, s: int)
    requires
        is_lowest_king(p, color, s),
    ensures
        lowest_king_sq(p, color) == s,
{
    let c = lowest_king_sq(p, color);
    assert(is_lowest_king(p, color, c));
    if c < s {
        assert(p[c] != Figure::spec_new(color, Piece::King));
    }
    if s < c {
        assert(p[s] != Figure::spec_new(color, Piece::King));
    }
}

/// Zobrist hash of a position.
pub open spec fn position_hash(
    pieces: Seq<Figure>,
    color: Color,
    wq: bool,
    wk: bool,
    bq: bool,
    bk: bool,
    ep: Option<Bit>,
) -> u64 {
    hash_pieces(pieces, 64) ^ side_key(color) ^ castle_key(wq, wk, bq, bk) ^ ep_key(ep)
}

/// The bitboards of a position mirror the figure on each square and the hash is the
/// position's hash.
pub open spec fn state_wf(st: UnmakeInfo) -> bool {
    &&& forall|s: int, f: int|
        0 <= s < 64 && 0 <= f < 12 ==> (#[trigger] bit_set(st.figure_bbs@[f], s) <==> #[trigger] st.pieces@[s].idx()
            == f)
    &&& forall|s: int|
        0 <= s < 64 ==> (#[trigger] bit_set(st.color_bbs@[0], s) <==> (st.pieces@[s]
            != Figure::Empty && st.pieces@[s].idx() % 2 == 0))
    &&& forall|s: int|
        0 <= s < 64 ==> (#[trigger] bit_set(st.color_bbs@[1], s) <==> (st.pieces@[s]
            != Figure::Empty && st.pieces@[s].idx() % 2 == 1))
    &&& forall|s: int|
        0 <= s < 64 ==> (#[trigger] bit_set(st.occupied, s) <==> st.pieces@[s] != Figure::Empty)
    &&& st.hash == position_hash(
        st.pieces@,
        st.current_color,
        st.white_queen_castle,
        st.white_king_castle,
        st.black_queen_castle,
        st.black_king_castle,
        st.ep_target,
    )
}

impl Board {
    /// The bitboards mirror the figure on each square, the hash is the position's hash,
    /// and so for every position kept to take moves back.
    pub open spec fn wf(&self) -> bool {
        &&& self.fields_wf()
        &&& forall|i: int| 0 <= i < self.history@.len() ==> state_wf(#[trigger] self.history@[i])
    }

    /// The position invariant spelled out on the fields.
    pub open spec fn fields_wf(&self) -> bool {
        &&& forall|s: int, f: int|
            0 <= s < 64 && 0 <= f < 12 ==> (#[trigger] bit_set(self.figure_bbs@[f], s) <==> #[trigger] self.pieces@[s].idx()
                == f)
        &&& forall|s: int|
            0 <= s < 64 ==> (#[trigger] bit_set(self.color_bbs@[0], s) <==> (self.pieces@[s]
                != Figure::Empty && self.pieces@[s].idx() % 2 == 0))
        &&& forall|s: int|
            0 <= s < 64 ==> (#[trigger] bit_set(self.color_bbs@[1], s) <==> (self.pieces@[s]
                != Figure::Empty && self.pieces@[s].idx() % 2 == 1))
        &&& forall|s: int|
            0 <= s < 64 ==> (#[trigger] bit_set(self.occupied, s) <==> self.pieces@[s]
                != Figure::Empty)
        &&& self.hash == self.spec_hash()
    }

    /// The hash of the current position.
    pub open spec fn spec_hash(&self) -> u64 {
        position_hash(
            self.pieces@,
            self.current_color,
            self.white_queen_castle,
            self.white_king_castle,
            self.black_queen_castle,
            self.black_king_castle,
            self.ep_target,
        )
    }

    /// `color` has a king on the board.
    pub open spec fn has_king(&self, color: Color) -> bool {
        exists|s: int| 0 <= s < 64 && #[trigger] self.pieces@[s] == Figure::spec_new(color, Piece::King)
    }

    /// Each side has a king.
    pub open spec fn kings_present(&self) -> bool {
        &&& exists|s: int| 0 <= s < 64 && #[trigger] self.pieces@[s] == Figure::WhiteKing
        &&& exists|s: int| 0 <= s < 64 && #[trigger] self.pieces@[s] == Figure::BlackKing
    }

    /// The position without the move history.
    pub open spec fn state(&self) -> UnmakeInfo {
        UnmakeInfo {
            pieces: self.pieces,
            figure_bbs: self.figure_bbs,
            color_bbs: self.color_bbs,
            occupied: self.occupied,
            current_color: self.current_color,
            white_queen_castle: self.white_queen_castle,
            white_king_castle: self.white_king_castle,
            black_queen_castle: self.black_queen_castle,
            black_king_castle: self.black_king_castle,
            ep_target: self.ep_target,
            halfmove_clock: self.halfmove_clock,
            total_halfmove_counter: self.total_halfmove_counter,
            hash: self.hash,
        }
    }

    /// A copy of the board with its move history.
    pub fn clone_board(&self) -> (r: Board)
        ensures
            r.state() == self.state(),
            r.history@ == self.history@,
            r.repetition_stack@ == self.repetition_stack@,
    {
        let mut history: Vec<UnmakeInfo> = Vec::new();
        let mut i: usize = 0;
        while i < self.history.len()
            invariant
                i <= self.history@.len(),
                history@ == self.history@.subrange(0, i as int),
            decreases self.history@.len() - i,
        {
            history.push(self.history[i]);
            i = i + 1;
            assert(history@ =~= self.history@.subrange(0, i as int));
        }
        let mut reps: Vec<u64> = Vec::new();
        let mut j: usize = 0;
        while j < self.repetition_stack.len()
            invariant
                j <= self.repetition_stack@.len(),
                reps@ == self.repetition_stack@.subrange(0, j as int),
            decreases self.repetition_stack@.len() - j,
        {
            reps.push(self.repetition_stack[j]);
            j = j + 1;
            assert(reps@ =~= self.repetition_stack@.subrange(0, j as int));
        }
        assert(history@ =~= self.history@);
        assert(reps@ =~= self.repetition_stack@);
        Board {
            pieces: self.pieces,
            figure_bbs: self.figure_bbs,
            color_bbs: self.color_bbs,
            occupied: self.occupied,
            current_color: self.current_color,
            white_queen_castle: self.white_queen_castle,
            white_king_castle: self.white_king_castle,
            black_queen_castle: self.black_queen_castle,
            black_king_castle: self.black_king_castle,
            ep_target: self.ep_target,
            halfmove_clock: self.halfmove_clock,
            total_halfmove_counter: self.total_halfmove_counter,
            hash: self.hash,
            history,
            repetition_stack: reps,
        }
    }

    /// The figure on square `s`.
    pub open spec fn fig(&self, s: int) -> Figure {
        self.pieces@[s]
    }

    /// A board without pieces, white to move, no castling rights, no en passant target.
    pub fn empty_board() -> (r: Board)
        ensures
            r.wf(),
            forall|s: int| 0 <= s < 64 ==> #[trigger] r.pieces@[s] == Figure::Empty,
            r.current_color == Color::White,
            !r.white_queen_castle && !r.white_king_castle && !r.black_queen_castle
                && !r.black_king_castle,
            r.ep_target is None,
            r.halfmove_clock == 0,
            r.total_halfmove_counter == 0,
            r.history@.len() == 0,
            r.repetition_stack@.len() == 0,
    {
        let pieces = [Figure::Empty; 64];
        let figure_bbs = [0u64; 12];
        let color_bbs = [0u64; 2];
        proof {
            lemma_zero_iff_no_bits(0);
            assert(pieces@ =~= Seq::new(64, |i: int| Figure::Empty));
            lemma_hash_pieces_empty(64);
            lemma_xor_facts(0, 0, 0);
        }
        Board {
            pieces,
            figure_bbs,
            color_bbs,
            occupied: 0,
            current_color: Color::White,
            white_queen_castle: false,
            white_king_castle: false,
            black_queen_castle: false,
            black_king_castle: false,
            ep_target: None,
            halfmove_clock: 0,
            total_halfmove_counter: 0,
            hash: 0,
            history: Vec::new(),
            repetition_stack: Vec::new(),
        }
    }

    /// Puts figure `fig` on the empty square `sq`.
    pub fn put(&mut self, sq: usize, fig: Figure)
        requires
            old(self).wf(),
            sq < 64,
            old(self).pieces@[sq as int] == Figure::Empty,
            fig != Figure::Empty,
        ensures
            final(self).wf(),
            final(self).pieces@ == old(self).pieces@.update(sq as int, fig),
            final(self).current_color == old(self).current_color,
            final(self).white_queen_castle == old(self).white_queen_castle,
            final(self).white_king_castle == old(self).white_king_castle,
            final(self).black_queen_castle == old(self).black_queen_castle,
            final(self).black_king_castle == old(self).black_king_castle,
            final(self).ep_target == old(self).ep_target,
            final(self).halfmove_clock == old(self).halfmove_clock,
            final(self).total_halfmove_counter == old(self).total_halfmove_counter,
            final(self).history == old(self).history,
            final(self).repetition_stack == old(self).repetition_stack,
    {
        let f = fig.index();
        let c = f % 2;
        let bit = 1u64 << (sq as u64);
        proof {
            lemma_single_bit(sq as u64);
            lemma_bit_ops(self.figure_bbs@[f as int], bit);
            lemma_bit_ops(self.color_bbs@[c as int], bit);
            lemma_bit_ops(self.occupied, bit);
            lemma_hash_pieces_update(self.pieces@, sq as int, fig, 64);
        }
        let ghost old_pieces = self.pieces@;
        let key = zobrist((f * 64 + sq) as u64);
        self.pieces[sq] = fig;
        let fb = self.figure_bbs[f];
        self.figure_bbs[f] = fb | bit;
        let cb = self.color_bbs[c];
        self.color_bbs[c] = cb | bit;
        self.occupied = self.occupied | bit;
        proof {
            assert(self.pieces@ == old_pieces.update(sq as int, fig));
            assert forall|s: int, g: int|
                0 <= s < 64 && 0 <= g < 12 implies (#[trigger] bit_set(self.figure_bbs@[g], s) <==> #[trigger] self.pieces@[s].idx()
                    == g) by {
                if g != f {
                    assert(self.figure_bbs@[g] == old(self).figure_bbs@[g]);
                    assert(bit_set(old(self).figure_bbs@[g], s) <==> old(self).pieces@[s].idx() == g);
                } else {
                    assert(bit_set(old(self).figure_bbs@[g], s) <==> old(self).pieces@[s].idx() == g);
                }
            }
            assert forall|s: int| 0 <= s < 64 implies (#[trigger] bit_set(self.color_bbs@[0], s) <==> (self.pieces@[s]
                != Figure::Empty && self.pieces@[s].idx() % 2 == 0)) by {
                assert(bit_set(old(self).color_bbs@[0], s) <==> (old(self).pieces@[s]
                    != Figure::Empty && old(self).pieces@[s].idx() % 2 == 0));
            }
            assert forall|s: int| 0 <= s < 64 implies (#[trigger] bit_set(self.color_bbs@[1], s) <==> (self.pieces@[s]
                != Figure::Empty && self.pieces@[s].idx() % 2 == 1)) by {
                assert(bit_set(old(self).color_bbs@[1], s) <==> (old(self).pieces@[s]
                    != Figure::Empty && old(self).pieces@[s].idx() % 2 == 1));
            }
            assert forall|s: int| 0 <= s < 64 implies (#[trigger] bit_set(self.occupied, s) <==> self.pieces@[s]
                != Figure::Empty) by {
                assert(bit_set(old(self).occupied, s) <==> old(self).pieces@[s] != Figure::Empty);
            }
        }
        proof {
            let h = hash_pieces(old_pieces, 64);
            let rest = side_key(self.current_color) ^ castle_key(
                self.white_queen_castle,
                self.white_king_castle,
                self.black_queen_castle,
                self.black_king_castle,
            ) ^ ep_key(self.ep_target);
            let h0 = h ^ side_key(self.current_color);
            let h1 = h0 ^ castle_key(
                self.white_queen_castle,
                self.white_king_castle,
                self.black_queen_castle,
                self.black_king_castle,
            );
            let s = side_key(self.current_color);
            let ck = castle_key(
                self.white_queen_castle,
                self.white_king_castle,
                self.black_queen_castle,
                self.black_king_castle,
            );
            let e = ep_key(self.ep_target);
            assert((((h ^ s) ^ ck) ^ e) ^ key == (((h ^ 0u64 ^ key) ^ s) ^ ck) ^ e) by (bit_vector);
        }
        self.hash = self.hash ^ key;
    }

    /// Removes the figure on the occupied square `sq` and returns it.
    pub fn remove(&mut self, sq: usize) -> (r: Figure)
        requires
            old(self).wf(),
            sq < 64,
            old(self).pieces@[sq as int] != Figure::Empty,
        ensures
            final(self).wf(),
            r == old(self).pieces@[sq as int],
            final(self).pieces@ == old(self).pieces@.update(sq as int, Figure::Empty),
            final(self).current_color == old(self).current_color,
            final(self).white_queen_castle == old(self).white_queen_castle,
            final(self).white_king_castle == old(self).white_king_castle,
            final(self).black_queen_castle == old(self).black_queen_castle,
            final(self).black_king_castle == old(self).black_king_castle,
            final(self).ep_target == old(self).ep_target,
            final(self).halfmove_clock == old(self).halfmove_clock,
            final(self).total_halfmove_counter == old(self).total_halfmove_counter,
            final(self).history == old(self).history,
            final(self).repetition_stack == old(self).repetition_stack,
    {
        let fig = self.pieces[sq];
        let f = fig.index();
        let c = f % 2;
        let bit = 1u64 << (sq as u64);
        proof {
            lemma_single_bit(sq as u64);
            lemma_bit_ops(self.figure_bbs@[f as int], !bit);
            lemma_bit_ops(self.color_bbs@[c as int], !bit);
            lemma_bit_ops(self.occupied, !bit);
            lemma_bit_ops(bit, bit);
            lemma_hash_pieces_update(self.pieces@, sq as int, Figure::Empty, 64);
        }
        let ghost old_pieces = self.pieces@;
        let key = zobrist((f * 64 + sq) as u64);
        self.pieces[sq] = Figure::Empty;
        let fb = self.figure_bbs[f];
        self.figure_bbs[f] = fb & !bit;
        let cb = self.color_bbs[c];
        self.color_bbs[c] = cb & !bit;
        self.occupied = self.occupied & !bit;
        proof {
            assert(self.pieces@ == old_pieces.update(sq as int, Figure::Empty));
            assert forall|s: int, g: int|
                0 <= s < 64 && 0 <= g < 12 implies (#[trigger] bit_set(self.figure_bbs@[g], s) <==> #[trigger] self.pieces@[s].idx()
                    == g) by {
                if g != f {
                    assert(self.figure_bbs@[g] == old(self).figure_bbs@[g]);
                    assert(bit_set(old(self).figure_bbs@[g], s) <==> old(self).pieces@[s].idx() == g);
                } else {
                    assert(bit_set(old(self).figure_bbs@[g], s) <==> old(self).pieces@[s].idx() == g);
                }
            }
            assert forall|s: int| 0 <= s < 64 implies (#[trigger] bit_set(self.color_bbs@[0], s) <==> (self.pieces@[s]
                != Figure::Empty && self.pieces@[s].idx() % 2 == 0)) by {
                assert(bit_set(old(self).color_bbs@[0], s) <==> (old(self).pieces@[s]
                    != Figure::Empty && old(self).pieces@[s].idx() % 2 == 0));
            }
            assert forall|s: int| 0 <= s < 64 implies (#[trigger] bit_set(self.color_bbs@[1], s) <==> (self.pieces@[s]
                != Figure::Empty && self.pieces@[s].idx() % 2 == 1)) by {
                assert(bit_set(old(self).color_bbs@[1], s) <==> (old(self).pieces@[s]
                    != Figure::Empty && old(self).pieces@[s].idx() % 2 == 1));
            }
            assert forall|s: int| 0 <= s < 64 implies (#[trigger] bit_set(self.occupied, s) <==> self.pieces@[s]
                != Figure::Empty) by {
                assert(bit_set(old(self).occupied, s) <==> old(self).pieces@[s] != Figure::Empty);
            }
        }
        proof {
            let h = hash_pieces(old_pieces, 64);
            let s = side_key(self.current_color);
            let ck = castle_key(
                self.white_queen_castle,
                self.white_king_castle,
                self.black_queen_castle,
                self.black_king_castle,
            );
            let e = ep_key(self.ep_target);
            assert((((h ^ s) ^ ck) ^ e) ^ key == (((h ^ key ^ 0u64) ^ s) ^ ck) ^ e) by (bit_vector);
        }
        self.hash = self.hash ^ key;
        fig
    }

    /// Sets side to move, castling rights and en passant target, keeping the hash.
    pub fn set_state(
        &mut self,
        color: Color,
        wq: bool,
        wk: bool,
        bq: bool,
        bk: bool,
        ep: Option<Bit>,
    )
        requires
            old(self).wf(),
        ensures
            final(self).wf(),
            final(self).pieces == old(self).pieces,
            final(self).current_color == color,
            final(self).white_queen_castle == wq,
            final(self).white_king_castle == wk,
            final(self).black_queen_castle == bq,
            final(self).black_king_castle == bk,
            final(self).ep_target == ep,
            final(self).halfmove_clock == old(self).halfmove_clock,
            final(self).total_halfmove_counter == old(self).total_halfmove_counter,
            final(self).history == old(self).history,
            final(self).repetition_stack == old(self).repetition_stack,
    {
        let old_state = self.state_key();
        proof {
            let h = hash_pieces(self.pieces@, 64);
            let s = side_key(self.current_color);
            let ck = castle_key(
                self.white_queen_castle,
                self.white_king_castle,
                self.black_queen_castle,
                self.black_king_castle,
            );
            let e = ep_key(self.ep_target);
            assert(((h ^ s) ^ ck) ^ e == h ^ ((s ^ ck) ^ e)) by (bit_vector);
        }
        self.current_color = color;
        self.white_queen_castle = wq;
        self.white_king_castle = wk;
        self.black_queen_castle = bq;
        self.black_king_castle = bk;
        self.ep_target = ep;
        let new_state = self.state_key();
        proof {
            let h = hash_pieces(self.pieces@, 64);
            let o = old_state;
            let n = new_state;
            assert(((h ^ o) ^ o) ^ n == h ^ n) by (bit_vector);
        }
        self.hash = self.hash ^ old_state ^ new_state;
        proof {
            let h = hash_pieces(self.pieces@, 64);
            let s = side_key(self.current_color);
            let ck = castle_key(wq, wk, bq, bk);
            let e = ep_key(ep);
            assert(h ^ ((s ^ ck) ^ e) == ((h ^ s) ^ ck) ^ e) by (bit_vector);
        }
    }

    /// XOR of the side, castling and en passant keys.
    pub fn state_key(&self) -> (r: u64)
        ensures
            r == side_key(self.current_color) ^ castle_key(
                self.white_queen_castle,
                self.white_king_castle,
                self.black_queen_castle,
                self.black_king_castle,
            ) ^ ep_key(self.ep_target),
    {
        let s = match self.current_color {
            Color::White => 0u64,
            Color::Black => zobrist(768),
        };
        let a = if self.white_queen_castle {
            zobrist(769)
        } else {
            0
        };
        let b = if self.white_king_castle {
            zobrist(770)
        } else {
            0
        };
        let c = if self.black_queen_castle {
            zobrist(771)
        } else {
            0
        };
        let d = if self.black_king_castle {
            zobrist(772)
        } else {
            0
        };
        let e = match self.ep_target {
            Some(bit) => zobrist(773 + bit.0.trailing_zeros() as u64),
            None => 0,
        };
        proof {
            assert(s ^ (((a ^ b) ^ c) ^ d) ^ e == s ^ (((a ^ b) ^ c) ^ d) ^ e);
        }
        s ^ (a ^ b ^ c ^ d) ^ e
    }

    /// The hash computed from scratch.
    pub fn generate_hash(&self) -> (r: u64)
        requires
            self.wf(),
        ensures
            r == self.spec_hash(),
    {
        let mut h: u64 = 0;
        let mut s: usize = 0;
        while s < 64
            invariant
                s <= 64,
                h == hash_pieces(self.pieces@, s as nat),
            decreases 64 - s,
        {
            let fig = self.pieces[s];
            if fig != Figure::Empty {
                let f = fig.index();
                h = h ^ zobrist((f * 64 + s) as u64);
            } else {
                proof {
                    lemma_xor_facts(h, 0, 0);
                }
            }
            s = s + 1;
        }
        let st = self.state_key();
        proof {
            let s = side_key(self.current_color);
            let ck = castle_key(
                self.white_queen_castle,
                self.white_king_castle,
                self.black_queen_castle,
                self.black_king_castle,
            );
            let e = ep_key(self.ep_target);
            assert(h ^ ((s ^ ck) ^ e) == ((h ^ s) ^ ck) ^ e) by (bit_vector);
        }
        h ^ st
    }

    pub fn hash(&self) -> (r: u64)
        ensures
            r == self.hash,
    {
        self.hash
    }

    pub fn current_color(&self) -> (r: Color)
        ensures
            r == self.current_color,
    {
        self.current_color
    }

    /// The figure on `sq`.
    pub fn figures(&self, sq: Square) -> (r: Figure)
        requires
            sq.valid(),
        ensures
            r == self.pieces@[sq.0 as int],
    {
        self.pieces[sq.0]
    }

    /// The squares holding `piece` of `color`.
    pub fn figure_bb(&self, color: Color, piece: Piece) -> (r: Bitboard)
        requires
            self.wf(),
            piece != Piece::Empty,
        ensures
            forall|s: int| #[trigger] bit_set(r.0, s) == (0 <= s < 64 && self.pieces@[s]
                == Figure::spec_new(color, piece)),
    {
        let f = 2 * piece.index() + color.index();
        let b = self.figure_bbs[f];
        proof {
            assert forall|s: int| #[trigger] bit_set(b, s) == (0 <= s < 64 && self.pieces@[s]
                == Figure::spec_new(color, piece)) by {
                if 0 <= s < 64 {
                    assert(bit_set(self.figure_bbs@[f as int], s) <==> self.pieces@[s].idx() == f);
                    self.pieces@[s].lemma_idx_roundtrip();
                }
            }
        }
        Bitboard(b)
    }

    /// The squares holding figure index `i` (0 to 11).
    pub fn figure_bb_by_index(&self, i: usize) -> (r: Bitboard)
        requires
            self.wf(),
            i < 12,
        ensures
            forall|s: int| #[trigger] bit_set(r.0, s) == (0 <= s < 64 && self.pieces@[s].idx()
                == i),
    {
        let b = self.figure_bbs[i];
        proof {
            assert forall|s: int| #[trigger] bit_set(b, s) == (0 <= s < 64 && self.pieces@[s].idx() == i) by {
                if 0 <= s < 64 {
                    assert(bit_set(self.figure_bbs@[i as int], s) <==> self.pieces@[s].idx() == i);
                }
            }
        }
        Bitboard(b)
    }

    /// The squares holding pieces of `color`.
    pub fn color_bbs(&self, color: Color) -> (r: Bitboard)
        requires
            self.wf(),
        ensures
            forall|s: int| #[trigger] bit_set(r.0, s) == (0 <= s < 64 && self.pieces@[s]
                != Figure::Empty && self.pieces@[s].idx() % 2 == color.idx()),
    {
        let b = self.color_bbs[color.index()];
        proof {
            assert forall|s: int| #[trigger] bit_set(b, s) == (0 <= s < 64 && self.pieces@[s]
                != Figure::Empty && self.pieces@[s].idx() % 2 == color.idx()) by {
                if 0 <= s < 64 {
                    if color == Color::White {
                        assert(bit_set(self.color_bbs@[0], s) <==> (self.pieces@[s]
                            != Figure::Empty && self.pieces@[s].idx() % 2 == 0));
                    } else {
                        assert(bit_set(self.color_bbs@[1], s) <==> (self.pieces@[s]
                            != Figure::Empty && self.pieces@[s].idx() % 2 == 1));
                    }
                }
            }
        }
        Bitboard(b)
    }

    /// The squares holding pieces of `color` other than its king.
    pub fn color_bbs_without_king(&self, color: Color) -> (r: Bitboard)
        requires
            self.wf(),
        ensures
            forall|s: int| #[trigger] bit_set(r.0, s) == (0 <= s < 64 && self.pieces@[s]
                != Figure::Empty && self.pieces@[s].idx() % 2 == color.idx()
                && self.pieces@[s].spec_piece() != Piece::King),
    {
        let all = self.color_bbs(color);
        let k = self.figure_bb(color, Piece::King);
        proof {
            lemma_bit_ops(all.0, !k.0);
            lemma_bit_ops(k.0, k.0);
            assert forall|s: int| 0 <= s < 64 implies (self.pieces@[s].spec_piece() == Piece::King
                && self.pieces@[s].idx() % 2 == color.idx()) == (self.pieces@[s]
                == Figure::spec_new(color, Piece::King)) by {
                self.pieces@[s].lemma_idx_roundtrip();
            }
        }
        Bitboard(all.0 & !k.0)
    }

    /// All occupied squares.
    pub fn occupied(&self) -> (r: Bitboard)
        requires
            self.wf(),
        ensures
            r.0 == self.occupied,
            forall|s: int| #[trigger] bit_set(r.0, s) == (0 <= s < 64 && self.pieces@[s]
                != Figure::Empty),
    {
        proof {
            assert forall|s: int| #[trigger] bit_set(self.occupied, s) == (0 <= s < 64
                && self.pieces@[s] != Figure::Empty) by {
                if 0 <= s < 64 {
                    assert(bit_set(self.occupied, s) <==> self.pieces@[s] != Figure::Empty);
                }
            }
        }
        Bitboard(self.occupied)
    }

    /// All empty squares.
    pub fn empty(&self) -> (r: Bitboard)
        requires
            self.wf(),
        ensures
            forall|s: int| #[trigger] bit_set(r.0, s) == (0 <= s < 64 && self.pieces@[s]
                == Figure::Empty),
    {
        let o = self.occupied();
        proof {
            lemma_bit_ops(o.0, o.0);
        }
        Bitboard(!o.0)
    }

    /// The king square of `color` as a bitboard.
    pub fn king(&self, color: Color) -> (r: Bit)
        requires
            self.wf(),
        ensures
            forall|s: int| #[trigger] bit_set(r.0, s) == (0 <= s < 64 && self.pieces@[s]
                == Figure::spec_new(color, Piece::King)),
    {
        self.figure_bb(color, Piece::King)
    }

    /// The square of the lowest king of `color`.
    pub fn king_square(&self, color: Color) -> (r: Square)
        requires
            self.wf(),
            self.has_king(color),
        ensures
            r.valid(),
            is_lowest_king(self.pieces@, color, r.0 as int),
            r.0 == lowest_king_sq(self.pieces@, color),
    {
        let k = self.king(color);
        let ghost s = choose|s: int| 0 <= s < 64 && #[trigger] self.pieces@[s] == Figure::spec_new(color, Piece::King);
        assert(bit_set(k.0, s));
        proof {
            lemma_zero_iff_no_bits(k.0);
            vstd::std_specs::bits::axiom_u64_trailing_zeros(k.0);
        }
        let t = k.lowest();
        proof {
            assert forall|j: int| 0 <= j < t implies self.pieces@[j] != Figure::spec_new(color, Piece::King) by {
                let jj = j as u64;
                assert((k.0 >> jj) & 1u64 == 0u64);
                assert(!bit_set(k.0, j));
            }
            lemma_lowest_king_unique(self.pieces@, color, t as int);
        }
        Square(t as usize)
    }

    pub fn ep_target(&self) -> (r: Option<Bit>)
        ensures
            r == self.ep_target,
    {
        self.ep_target
    }

    pub fn white_queen_castle(&self) -> (r: bool)
        ensures
            r == self.white_queen_castle,
    {
        self.white_queen_castle
    }

    pub fn white_king_castle(&self) -> (r: bool)
        ensures
            r == self.white_king_castle,
    {
        self.white_king_castle
    }

    pub fn black_queen_castle(&self) -> (r: bool)
        ensures
            r == self.black_queen_castle,
    {
        self.black_queen_castle
    }

    pub fn black_king_castle(&self) -> (r: bool)
        ensures
            r == self.black_king_castle,
    {
        self.black_king_castle
    }

    pub fn halfmove_clock(&self) -> (r: usize)
        ensures
            r == self.halfmove_clock,
    {
        self.halfmove_clock
    }

    pub fn total_halfmove_counter(&self) -> (r: usize)
        ensures
            r == self.total_halfmove_counter,
    {
        self.total_halfmove_counter
    }
}

/// The number of times `h` occurs in `s`.
pub open spec fn occurrences(s: Seq<u64>, h: u64) -> nat
    decreases s.len(),
{
    if s.len() == 0 {
        0
    } else {
        occurrences(s.drop_last(), h) + if s.last() == h { 1nat } else { 0nat }
    }
}

impl Board {
    /// The current position occurred at least twice before: a third repetition.
    pub fn is_threefold_repetition(&self) -> (r: bool)
        ensures
            r == (occurrences(self.repetition_stack@, self.hash) >= 2),
    {
        let mut count: usize = 0;
        let mut i: usize = 0;
        while i < self.repetition_stack.len()
            invariant
                i <= self.repetition_stack@.len(),
                count == occurrences(self.repetition_stack@.subrange(0, i as int), self.hash),
                count <= i,
            decreases self.repetition_stack@.len() - i,
        {
            proof {
                assert(self.repetition_stack@.subrange(0, i as int + 1).drop_last() =~= self.repetition_stack@.subrange(0, i as int));
            }
            if self.repetition_stack[i] == self.hash {
                count = count + 1;
            }
            i = i + 1;
        }
        proof {
            assert(self.repetition_stack@.subrange(0, i as int) =~= self.repetition_stack@);
        }
        count >= 2
    }

    /// Fifty moves by each side without a capture or pawn move.
    pub fn is_50_move_rule(&self) -> (r: bool)
        ensures
            r == (self.halfmove_clock >= 100),
    {
        self.halfmove_clock >= 100
    }
}

} // verus!
