//! Colors, pieces, figures, squares, move types and the two move encodings.
use crate::bitboard::{bit_set, lemma_single_bit, Bit, Bitboard};
use vstd::prelude::*;

verus! {

/// Side to move / owner of a piece.
#[derive(Clone, Copy, PartialEq, Eq, Structural, Debug, Hash)]
pub enum Color {
    White,
    Black,
}

impl Color {
    /// 0 for white, 1 for black.
    pub open spec fn idx(self) -> int {
        match self {
            Color::White => 0,
            Color::Black => 1,
        }
    }

    pub fn index(self) -> (r: usize)
        ensures
            r == self.idx(),
    {
        match self {
            Color::White => 0,
            Color::Black => 1,
        }
    }

    /// The color with the given index; odd numbers are black.
    pub fn from_usize(i: usize) -> (r: Color)
        ensures
            r.idx() == i % 2,
    {
        if i % 2 == 0 {
            Color::White
        } else {
            Color::Black
        }
    }

    pub open spec fn spec_opposite(self) -> Color {
        match self {
            Color::White => Color::Black,
            Color::Black => Color::White,
        }
    }

    /// The other color.
    pub fn opposite(self) -> (r: Color)
        ensures
            r == self.spec_opposite(),
            r != self,
            r.spec_opposite() == self,
    {
        match self {
            Color::White => Color::Black,
            Color::Black => Color::White,
        }
    }
}

/// Kind of a chess piece; `Empty` marks no piece.
#[derive(Clone, Copy, PartialEq, Eq, Structural, Debug, Hash)]
pub enum Piece {
    Pawn,
    Knight,
    Bishop,
    Rook,
    Queen,
    King,
    Empty,
}

impl Piece {
    /// Pawn 0, knight 1, bishop 2, rook 3, queen 4, king 5, empty 6.
    pub open spec fn idx(self) -> int {
        match self {
            Piece::Pawn => 0,
            Piece::Knight => 1,
            Piece::Bishop => 2,
            Piece::Rook => 3,
            Piece::Queen => 4,
            Piece::King => 5,
            Piece::Empty => 6,
        }
    }

    pub fn index(self) -> (r: usize)
        ensures
            r == self.idx(),
    {
        match self {
            Piece::Pawn => 0,
            Piece::Knight => 1,
            Piece::Bishop => 2,
            Piece::Rook => 3,
            Piece::Queen => 4,
            Piece::King => 5,
            Piece::Empty => 6,
        }
    }

    pub open spec fn of_idx(i: int) -> Piece {
        if i == 0 {
            Piece::Pawn
        } else if i == 1 {
            Piece::Knight
        } else if i == 2 {
            Piece::Bishop
        } else if i == 3 {
            Piece::Rook
        } else if i == 4 {
            Piece::Queen
        } else if i == 5 {
            Piece::King
        } else {
            Piece::Empty
        }
    }

    pub fn from_index(i: usize) -> (r: Piece)
        ensures
            r == Piece::of_idx(i as int),
    {
        if i == 0 {
            Piece::Pawn
        } else if i == 1 {
            Piece::Knight
        } else if i == 2 {
            Piece::Bishop
        } else if i == 3 {
            Piece::Rook
        } else if i == 4 {
            Piece::Queen
        } else if i == 5 {
            Piece::King
        } else {
            Piece::Empty
        }
    }
}

/// A piece together with its color; `Empty` marks an empty square.
/// The index of a figure is `2 * piece + color`, `Empty` is 12.
#[derive(Clone, Copy, PartialEq, Eq, Structural, Debug, Hash)]
pub enum Figure {
    WhitePawn,
    BlackPawn,
    WhiteKnight,
    BlackKnight,
    WhiteBishop,
    BlackBishop,
    WhiteRook,
    BlackRook,
    WhiteQueen,
    BlackQueen,
    WhiteKing,
    BlackKing,
    Empty,
}

impl Figure {
    pub open spec fn idx(self) -> int {
        match self {
            Figure::WhitePawn => 0,
            Figure::BlackPawn => 1,
            Figure::WhiteKnight => 2,
            Figure::BlackKnight => 3,
            Figure::WhiteBishop => 4,
            Figure::BlackBishop => 5,
            Figure::WhiteRook => 6,
            Figure::BlackRook => 7,
            Figure::WhiteQueen => 8,
            Figure::BlackQueen => 9,
            Figure::WhiteKing => 10,
            Figure::BlackKing => 11,
            Figure::Empty => 12,
        }
    }

    pub open spec fn of_idx(i: int) -> Figure {
        if i == 0 {
            Figure::WhitePawn
        } else if i == 1 {
            Figure::BlackPawn
        } else if i == 2 {
            Figure::WhiteKnight
        } else if i == 3 {
            Figure::BlackKnight
        } else if i == 4 {
            Figure::WhiteBishop
        } else if i == 5 {
            Figure::BlackBishop
        } else if i == 6 {
            Figure::WhiteRook
        } else if i == 7 {
            Figure::BlackRook
        } else if i == 8 {
            Figure::WhiteQueen
        } else if i == 9 {
            Figure::BlackQueen
        } else if i == 10 {
            Figure::WhiteKing
        } else if i == 11 {
            Figure::BlackKing
        } else {
            Figure::Empty
        }
    }

    pub proof fn lemma_idx_roundtrip(self)
        ensures
            Figure::of_idx(self.idx()) == self,
            0 <= self.idx() <= 12,
    {
    }

    /// A figure is the figure of its piece in its color, and the figure of a piece in a
    /// color has that piece and color.
    pub proof fn lemma_figure_parts(self, color: Color, piece: Piece)
        ensures
            self != Figure::Empty ==> self == Figure::spec_new(self.spec_color(), self.spec_piece()),
            self != Figure::Empty ==> self.spec_piece() != Piece::Empty,
            piece != Piece::Empty ==> Figure::spec_new(color, piece) != Figure::Empty,
            piece != Piece::Empty ==> Figure::spec_new(color, piece).spec_piece() == piece,
            piece != Piece::Empty ==> Figure::spec_new(color, piece).spec_color() == color,
            (self == Figure::spec_new(color, piece) && piece != Piece::Empty) <==> (self
                != Figure::Empty && self.spec_color() == color && self.spec_piece() == piece),
    {
    }

    pub fn index(self) -> (r: usize)
        ensures
            r == self.idx(),
    {
        match self {
            Figure::WhitePawn => 0,
            Figure::BlackPawn => 1,
            Figure::WhiteKnight => 2,
            Figure::BlackKnight => 3,
            Figure::WhiteBishop => 4,
            Figure::BlackBishop => 5,
            Figure::WhiteRook => 6,
            Figure::BlackRook => 7,
            Figure::WhiteQueen => 8,
            Figure::BlackQueen => 9,
            Figure::WhiteKing => 10,
            Figure::BlackKing => 11,
            Figure::Empty => 12,
        }
    }

    pub fn from_index(i: usize) -> (r: Figure)
        ensures
            r == Figure::of_idx(i as int),
    {
        if i == 0 {
            Figure::WhitePawn
        } else if i == 1 {
            Figure::BlackPawn
        } else if i == 2 {
            Figure::WhiteKnight
        } else if i == 3 {
            Figure::BlackKnight
        } else if i == 4 {
            Figure::WhiteBishop
        } else if i == 5 {
            Figure::BlackBishop
        } else if i == 6 {
            Figure::WhiteRook
        } else if i == 7 {
            Figure::BlackRook
        } else if i == 8 {
            Figure::WhiteQueen
        } else if i == 9 {
            Figure::BlackQueen
        } else if i == 10 {
            Figure::WhiteKing
        } else if i == 11 {
            Figure::BlackKing
        } else {
            Figure::Empty
        }
    }

    pub open spec fn spec_new(color: Color, piece: Piece) -> Figure {
        if piece == Piece::Empty {
            Figure::Empty
        } else {
            Figure::of_idx(2 * piece.idx() + color.idx())
        }
    }

    /// The figure of `piece` in `color`; `Empty` for `Piece::Empty`.
    pub fn new(color: Color, piece: Piece) -> (r: Figure)
        ensures
            r == Figure::spec_new(color, piece),
    {
        if piece == Piece::Empty {
            Figure::Empty
        } else {
            Figure::from_index(2 * piece.index() + color.index())
        }
    }

    pub open spec fn spec_piece(self) -> Piece {
        Piece::of_idx(self.idx() / 2)
    }

    pub open spec fn spec_color(self) -> Color {
        if self.idx() % 2 == 0 {
            Color::White
        } else {
            Color::Black
        }
    }

    pub fn piece(self) -> (r: Piece)
        ensures
            r == self.spec_piece(),
    {
        Piece::from_index(self.index() / 2)
    }

    /// The piece and its color; an empty square reports white.
    pub fn piece_and_color(self) -> (r: (Piece, Color))
        ensures
            r.0 == self.spec_piece(),
            r.1 == self.spec_color(),
    {
        (self.piece(), Color::from_usize(self.index()))
    }
}

/// A square, 0 = a1 ... 63 = h8. Valid squares are below 64.
#[derive(Clone, Copy, PartialEq, Eq, Structural, Debug, Hash)]
pub struct Square(pub usize);

/// Character of a file: 0 -> 'a' ... 7 -> 'h'.
pub open spec fn file_char(x: int) -> char {
    (97 + x) as char
}

/// Character of a rank: 0 -> '1' ... 7 -> '8'.
pub open spec fn rank_char(y: int) -> char {
    (49 + y) as char
}

/// The file of a character 'a'..'h'.
pub open spec fn file_of_char(c: char) -> Option<int> {
    if 97 <= (c as int) <= 104 {
        Some(c as int - 97)
    } else {
        None
    }
}

/// The rank of a character '1'..'8'.
pub open spec fn rank_of_char(c: char) -> Option<int> {
    if 49 <= (c as int) <= 56 {
        Some(c as int - 49)
    } else {
        None
    }
}

/// The square named by two characters such as "e4".
pub open spec fn square_of_chars(f: char, r: char) -> Option<int> {
    match (file_of_char(f), rank_of_char(r)) {
        (Some(x), Some(y)) => Some(y * 8 + x),
        _ => None,
    }
}

/// The two characters naming square `sq`.
pub open spec fn square_name(sq: int) -> Seq<char> {
    seq![file_char(sq % 8), rank_char(sq / 8)]
}

/// The code point of `c`.
pub fn char_code(c: char) -> (r: u32)
    ensures
        r as int == c as int,
{
    c as u32
}

pub fn file_index(c: char) -> (r: Option<usize>)
    ensures
        r matches Some(x) ==> file_of_char(c) == Some(x as int),
        r is None ==> file_of_char(c) is None,
{
    let v = crate::types::char_code(c);
    if 97 <= v && v <= 104 {
        Some((v - 97) as usize)
    } else {
        None
    }
}

pub fn rank_index(c: char) -> (r: Option<usize>)
    ensures
        r matches Some(y) ==> rank_of_char(c) == Some(y as int),
        r is None ==> rank_of_char(c) is None,
{
    let v = crate::types::char_code(c);
    if 49 <= v && v <= 56 {
        Some((v - 49) as usize)
    } else {
        None
    }
}

/// `String::push` of the standard library: the contract claims it appends `c` to the
/// characters of `s`.
#[verifier::external_body]
pub(crate) fn string_push(s: &mut String, c: char)
    ensures
        final(s)@ == old(s)@.push(c),
{
    s.push(c)
}

/// `char::from(u8)` of the standard library: the contract claims it gives the character
/// whose code point is `b`.
#[verifier::external_body]
pub(crate) fn char_of_byte(b: u8) -> (c: char)
    ensures
        c as int == b as int,
{
    char::from(b)
}

impl Square {
    pub open spec fn valid(self) -> bool {
        self.0 < 64
    }

    /// The file (column) 0..7.
    pub fn x(self) -> (r: usize)
        ensures
            r == self.0 % 8,
    {
        self.0 % 8
    }

    /// The rank (row) 0..7.
    pub fn y(self) -> (r: usize)
        ensures
            r == self.0 / 8,
    {
        self.0 / 8
    }

    pub fn i(self) -> (r: usize)
        ensures
            r == self.0,
    {
        self.0
    }

    pub fn from_xy(x: usize, y: usize) -> (r: Square)
        requires
            x < 8,
            y < 8,
        ensures
            r.0 == y * 8 + x,
            r.valid(),
    {
        Square(y * 8 + x)
    }

    /// The bitboard holding only this square.
    pub fn to_bit(self) -> (r: Bit)
        requires
            self.valid(),
        ensures
            r.0 == 1u64 << (self.0 as u64),
            forall|i: int| #[trigger] bit_set(r.0, i) == (i == self.0),
            r.0 != 0,
    {
        proof {
            lemma_single_bit(self.0 as u64);
        }
        Bitboard(1u64 << (self.0 as u64))
    }

    /// The square named like "e4"; `None` unless `s` is a file 'a'..'h' followed by a rank '1'..'8'.
    pub fn from_coords(s: &str) -> (r: Option<Square>)
        ensures
            s@.len() == 2 ==> r == (match square_of_chars(s@[0], s@[1]) {
                Some(v) => Some(Square(v as usize)),
                None => None::<Square>,
            }),
            s@.len() != 2 ==> r is None,
            r matches Some(q) ==> q.valid(),
    {
        if s.unicode_len() != 2 {
            return None;
        }
        let f = s.get_char(0);
        let rk = s.get_char(1);
        match (file_index(f), rank_index(rk)) {
            (Some(x), Some(y)) => Some(Square(y * 8 + x)),
            _ => None,
        }
    }

    /// Appends the name of the square, such as "e4", to `out`.
    pub fn push_coords(self, out: &mut String)
        requires
            self.valid(),
        ensures
            final(out)@ == old(out)@ + square_name(self.0 as int),
    {
        let fc = char_of_byte(97 + (self.0 % 8) as u8);
        let rc = char_of_byte(49 + (self.0 / 8) as u8);
        string_push(out, fc);
        string_push(out, rc);
        assert(final(out)@ =~= old(out)@ + square_name(self.0 as int));
    }

    /// The name of the square, such as "e4".
    pub fn to_coords(self) -> (r: String)
        requires
            self.valid(),
        ensures
            r@ == square_name(self.0 as int),
    {
        let mut s = String::new();
        self.push_coords(&mut s);
        assert(s@ =~= square_name(self.0 as int));
        s
    }
}

/// The kind of a move.
#[derive(Clone, Copy, PartialEq, Eq, Structural, Debug, Hash)]
pub enum MoveType {
    Quiet,
    DoubleMove,
    KingCastle,
    QueenCastle,
    Capture,
    EpCapture,
    KnightPromo,
    BishopPromo,
    RookPromo,
    QueenPromo,
    KnightPromoCapture,
    BishopPromoCapture,
    RookPromoCapture,
    QueenPromoCapture,
}

/// The 4-bit code of a move type: bit 2 marks captures, bit 3 promotions.
pub open spec fn type_code(t: MoveType) -> u16 {
    match t {
        MoveType::Quiet => 0,
        MoveType::DoubleMove => 1,
        MoveType::KingCastle => 2,
        MoveType::QueenCastle => 3,
        MoveType::Capture => 4,
        MoveType::EpCapture => 5,
        MoveType::KnightPromo => 8,
        MoveType::BishopPromo => 9,
        MoveType::RookPromo => 10,
        MoveType::QueenPromo => 11,
        MoveType::KnightPromoCapture => 12,
        MoveType::BishopPromoCapture => 13,
        MoveType::RookPromoCapture => 14,
        MoveType::QueenPromoCapture => 15,
    }
}

/// The move type of a 4-bit code; the unused codes 6 and 7 read as quiet moves.
pub open spec fn type_of_code(c: u16) -> MoveType {
    if c == 1 {
        MoveType::DoubleMove
    } else if c == 2 {
        MoveType::KingCastle
    } else if c == 3 {
        MoveType::QueenCastle
    } else if c == 4 {
        MoveType::Capture
    } else if c == 5 {
        MoveType::EpCapture
    } else if c == 8 {
        MoveType::KnightPromo
    } else if c == 9 {
        MoveType::BishopPromo
    } else if c == 10 {
        MoveType::RookPromo
    } else if c == 11 {
        MoveType::QueenPromo
    } else if c == 12 {
        MoveType::KnightPromoCapture
    } else if c == 13 {
        MoveType::BishopPromoCapture
    } else if c == 14 {
        MoveType::RookPromoCapture
    } else if c == 15 {
        MoveType::QueenPromoCapture
    } else {
        MoveType::Quiet
    }
}

pub proof fn lemma_type_code_roundtrip(t: MoveType)
    ensures
        type_of_code(type_code(t)) == t,
        type_code(t) < 16,
        type_code(t) != 6 && type_code(t) != 7,
{
}

impl MoveType {
    pub fn code(self) -> (r: u16)
        ensures
            r == type_code(self),
    {
        match self {
            MoveType::Quiet => 0,
            MoveType::DoubleMove => 1,
            MoveType::KingCastle => 2,
            MoveType::QueenCastle => 3,
            MoveType::Capture => 4,
            MoveType::EpCapture => 5,
            MoveType::KnightPromo => 8,
            MoveType::BishopPromo => 9,
            MoveType::RookPromo => 10,
            MoveType::QueenPromo => 11,
            MoveType::KnightPromoCapture => 12,
            MoveType::BishopPromoCapture => 13,
            MoveType::RookPromoCapture => 14,
            MoveType::QueenPromoCapture => 15,
        }
    }

    pub fn from_code(c: u16) -> (r: MoveType)
        ensures
            r == type_of_code(c),
    {
        if c == 1 {
            MoveType::DoubleMove
        } else if c == 2 {
            MoveType::KingCastle
        } else if c == 3 {
            MoveType::QueenCastle
        } else if c == 4 {
            MoveType::Capture
        } else if c == 5 {
            MoveType::EpCapture
        } else if c == 8 {
            MoveType::KnightPromo
        } else if c == 9 {
            MoveType::BishopPromo
        } else if c == 10 {
            MoveType::RookPromo
        } else if c == 11 {
            MoveType::QueenPromo
        } else if c == 12 {
            MoveType::KnightPromoCapture
        } else if c == 13 {
            MoveType::BishopPromoCapture
        } else if c == 14 {
            MoveType::RookPromoCapture
        } else if c == 15 {
            MoveType::QueenPromoCapture
        } else {
            MoveType::Quiet
        }
    }

    pub open spec fn spec_is_capture(self) -> bool {
        type_code(self) & 4 != 0
    }

    pub open spec fn spec_is_promotion(self) -> bool {
        type_code(self) & 8 != 0
    }

    /// Captures: normal, en passant and promotion captures.
    pub fn is_capture(self) -> (r: bool)
        ensures
            r == self.spec_is_capture(),
            r == (self == MoveType::Capture || self == MoveType::EpCapture
                || self == MoveType::KnightPromoCapture || self == MoveType::BishopPromoCapture
                || self == MoveType::RookPromoCapture || self == MoveType::QueenPromoCapture),
    {
        let c = self.code();
        proof {
            lemma_move_type_flags(self);
        }
        c & 4 != 0
    }

    /// Promotions, with or without capture.
    pub fn is_promotion(self) -> (r: bool)
        ensures
            r == self.spec_is_promotion(),
            r == (self == MoveType::KnightPromo || self == MoveType::BishopPromo
                || self == MoveType::RookPromo || self == MoveType::QueenPromo
                || self == MoveType::KnightPromoCapture || self == MoveType::BishopPromoCapture
                || self == MoveType::RookPromoCapture || self == MoveType::QueenPromoCapture),
    {
        let c = self.code();
        proof {
            lemma_move_type_flags(self);
        }
        c & 8 != 0
    }
}

/// Which move types capture and which promote.
pub proof fn lemma_move_type_flags(t: MoveType)
    ensures
        t.spec_is_capture() == (t == MoveType::Capture || t == MoveType::EpCapture
            || t == MoveType::KnightPromoCapture || t == MoveType::BishopPromoCapture
            || t == MoveType::RookPromoCapture || t == MoveType::QueenPromoCapture),
        t.spec_is_promotion() == (t == MoveType::KnightPromo || t == MoveType::BishopPromo
            || t == MoveType::RookPromo || t == MoveType::QueenPromo
            || t == MoveType::KnightPromoCapture || t == MoveType::BishopPromoCapture
            || t == MoveType::RookPromoCapture || t == MoveType::QueenPromoCapture),
{
    let c = type_code(t);
    assert((c & 4 != 0 <==> (c == 4 || c == 5 || c == 12 || c == 13 || c == 14 || c == 15)) && (c
        & 8 != 0 <==> (8 <= c && c < 16))) by (bit_vector)
        requires
            c < 16,
            c != 6 && c != 7,
    ;
}

/// A move packed into 16 bits: from square in bits 0-5, to square in bits 6-11,
/// move type code in bits 12-15. The value 0 stands for "no move".
#[derive(Clone, Copy, PartialEq, Eq, Structural, Debug, Hash)]
pub struct EncodedMove(pub u16);

/// A move as from square, to square and move type.
#[derive(Clone, Copy, PartialEq, Eq, Structural, Debug, Hash)]
pub struct DecodedMove {
    pub from: Square,
    pub to: Square,
    pub mv_type: MoveType,
}

/// The 16-bit packing of a move.
pub open spec fn spec_encode(from: int, to: int, t: MoveType) -> u16 {
    (from + to * 64 + type_code(t) as int * 4096) as u16
}

pub open spec fn spec_decode(e: u16) -> DecodedMove {
    DecodedMove {
        from: Square((e % 64) as usize),
        to: Square(((e / 64) % 64) as usize),
        mv_type: type_of_code(e / 4096),
    }
}

impl DecodedMove {
    pub open spec fn valid(self) -> bool {
        self.from.valid() && self.to.valid()
    }

    /// Packs the move into 16 bits.
    pub fn encode(&self) -> (r: EncodedMove)
        requires
            self.valid(),
        ensures
            r.0 == spec_encode(self.from.0 as int, self.to.0 as int, self.mv_type),
            spec_decode(r.0) == *self,
    {
        EncodedMove::encode(self.from, self.to, self.mv_type)
    }
}

impl EncodedMove {
    /// Packs from square, to square and move type into 16 bits.
    pub fn encode(from: Square, to: Square, mv_type: MoveType) -> (r: EncodedMove)
        requires
            from.valid(),
            to.valid(),
        ensures
            r.0 == spec_encode(from.0 as int, to.0 as int, mv_type),
            spec_decode(r.0) == (DecodedMove { from, to, mv_type }),
    {
        let f = from.0 as u16;
        let t = to.0 as u16;
        let c = mv_type.code();
        proof {
            lemma_type_code_roundtrip(mv_type);
        }
        let v = f | (t << 6) | (c << 12);
        assert(v == f + t * 64 + c * 4096 && (f + t * 64 + c * 4096) % 64 == f && ((f + t * 64 + c
            * 4096) / 64) % 64 == t && (f + t * 64 + c * 4096) / 4096 == c) by (bit_vector)
            requires
                f < 64,
                t < 64,
                c < 16,
                v == f | (t << 6) | (c << 12),
        ;
        EncodedMove(v)
    }

    /// Unpacks the move.
    pub fn decode(self) -> (r: DecodedMove)
        ensures
            r == spec_decode(self.0),
            r.valid(),
    {
        let e = self.0;
        let f = (e & 63) as usize;
        let t = ((e >> 6) & 63) as usize;
        let c = e >> 12;
        assert((e & 63) == e % 64 && ((e >> 6) & 63) == (e / 64) % 64 && e >> 12 == e / 4096)
            by (bit_vector);
        DecodedMove { from: Square(f), to: Square(t), mv_type: MoveType::from_code(c) }
    }
}

/// Decoding after encoding gives back the move.
pub proof fn lemma_decode_encode(m: DecodedMove)
    requires
        m.valid(),
    ensures
        spec_decode(spec_encode(m.from.0 as int, m.to.0 as int, m.mv_type)) == m,
{
    let f = m.from.0 as u16;
    let t = m.to.0 as u16;
    let c = type_code(m.mv_type);
    lemma_type_code_roundtrip(m.mv_type);
    assert(f + t * 64 + c * 4096 < 65536);
    assert(((f + t * 64 + c * 4096) as u16) % 64 == f && (((f + t * 64 + c * 4096) as u16) / 64)
        % 64 == t && ((f + t * 64 + c * 4096) as u16) / 4096 == c) by (nonlinear_arith)
        requires
            f < 64,
            t < 64,
            c < 16,
    ;
}

/// Encoding after decoding gives back the 16 bits, unless they hold one of the unused
/// type codes 6 and 7.
pub proof fn lemma_encode_decode(e: u16)
    requires
        e / 4096 != 6 && e / 4096 != 7,
    ensures
        ({
            let d = spec_decode(e);
            spec_encode(d.from.0 as int, d.to.0 as int, d.mv_type) == e
        }),
{
    let c = e / 4096;
    assert(type_code(type_of_code(c)) == c);
    assert(e % 64 + ((e / 64) % 64) * 64 + (e / 4096) * 4096 == e) by (bit_vector);
}

} // verus!
