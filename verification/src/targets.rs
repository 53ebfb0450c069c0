//! Target squares of each kind of piece, and the squares between two squares.
use crate::bitboard::{bit_set, bits, lemma_bit_ops, lemma_single_bit, Bit, Bitboard};
use crate::types::{Color, Square};
use vstd::prelude::*;

verus! {

pub open spec fn sx(s: int) -> int {
    s % 8
}

pub open spec fn sy(s: int) -> int {
    s / 8
}

pub open spec fn on_board(x: int, y: int) -> bool {
    0 <= x < 8 && 0 <= y < 8
}

pub open spec fn iabs(x: int) -> int {
    if x < 0 {
        -x
    } else {
        x
    }
}

pub open spec fn isign(x: int) -> int {
    if x > 0 {
        1
    } else if x < 0 {
        -1
    } else {
        0
    }
}

/// A knight on `from` attacks `to`.
pub open spec fn knight_attacks(from: int, to: int) -> bool {
    &&& 0 <= from < 64
    &&& 0 <= to < 64
    &&& {
        let dx = iabs(sx(to) - sx(from));
        let dy = iabs(sy(to) - sy(from));
        (dx == 1 && dy == 2) || (dx == 2 && dy == 1)
    }
}

/// A king on `from` attacks `to`.
pub open spec fn king_attacks(from: int, to: int) -> bool {
    &&& 0 <= from < 64
    &&& 0 <= to < 64
    &&& from != to
    &&& iabs(sx(to) - sx(from)) <= 1
    &&& iabs(sy(to) - sy(from)) <= 1
}

/// The row a pawn of `color` moves toward: +1 for white, -1 for black.
pub open spec fn pawn_dir(color: Color) -> int {
    match color {
        Color::White => 1,
        Color::Black => -1,
    }
}

/// A pawn of `color` on `from` attacks `to`.
pub open spec fn pawn_attacks(color: Color, from: int, to: int) -> bool {
    &&& 0 <= from < 64
    &&& 0 <= to < 64
    &&& iabs(sx(to) - sx(from)) == 1
    &&& sy(to) - sy(from) == pawn_dir(color)
}

/// Squares reached from (x, y) stepping by (dx, dy), up to and including the first
/// occupied square, for at most `fuel` steps.
pub open spec fn ray(x: int, y: int, dx: int, dy: int, occ: u64, fuel: nat) -> Set<int>
    decreases fuel,
{
    if fuel == 0 || !on_board(x + dx, y + dy) {
        Set::empty()
    } else {
        let s = (y + dy) * 8 + (x + dx);
        if bit_set(occ, s) {
            set![s]
        } else {
            ray(x + dx, y + dy, dx, dy, occ, (fuel - 1) as nat).insert(s)
        }
    }
}

/// Squares a rook on `sq` attacks with `occ` occupied.
pub open spec fn rook_set(sq: int, occ: u64) -> Set<int> {
    let x = sx(sq);
    let y = sy(sq);
    ray(x, y, 0, 1, occ, 8) + ray(x, y, 1, 0, occ, 8) + ray(x, y, -1, 0, occ, 8) + ray(
        x,
        y,
        0,
        -1,
        occ,
        8,
    )
}

/// Squares a bishop on `sq` attacks with `occ` occupied.
pub open spec fn bishop_set(sq: int, occ: u64) -> Set<int> {
    let x = sx(sq);
    let y = sy(sq);
    ray(x, y, 1, 1, occ, 8) + ray(x, y, -1, 1, occ, 8) + ray(x, y, 1, -1, occ, 8) + ray(
        x,
        y,
        -1,
        -1,
        occ,
        8,
    )
}

/// `a` and `b` lie on a common rank, file or diagonal and differ.
pub open spec fn aligned(a: int, b: int) -> bool {
    &&& a != b
    &&& {
        let dx = sx(b) - sx(a);
        let dy = sy(b) - sy(a);
        dx == 0 || dy == 0 || iabs(dx) == iabs(dy)
    }
}

/// The squares passed when stepping from (x, y) by (ux, uy) until (bx, by), for at most
/// `fuel` steps; (x, y) and (bx, by) themselves are not included.
pub open spec fn segment(x: int, y: int, ux: int, uy: int, bx: int, by: int, fuel: nat) -> Set<int>
    decreases fuel,
{
    if fuel == 0 || (x + ux == bx && y + uy == by) || !on_board(x + ux, y + uy) {
        Set::empty()
    } else {
        segment(x + ux, y + uy, ux, uy, bx, by, (fuel - 1) as nat).insert((y + uy) * 8 + (x + ux))
    }
}

/// The squares strictly between `a` and `b` when they share a rank, file or diagonal;
/// empty otherwise.
pub open spec fn between_set(a: int, b: int) -> Set<int> {
    if aligned(a, b) {
        segment(sx(a), sy(a), isign(sx(b) - sx(a)), isign(sy(b) - sy(a)), sx(b), sy(b), 8)
    } else {
        Set::empty()
    }
}

/// Adds square (x, y) to `acc` when it is on the board.
fn add_square(acc: u64, x: i64, y: i64) -> (r: u64)
    ensures
        forall|i: int| #[trigger]
            bit_set(r, i) == (bit_set(acc, i) || (on_board(x as int, y as int) && i == y * 8
                + x)),
{
    if 0 <= x && x < 8 && 0 <= y && y < 8 {
        let s = (y * 8 + x) as u64;
        proof {
            lemma_single_bit(s);
            lemma_bit_ops(acc, 1u64 << s);
        }
        acc | (1u64 << s)
    } else {
        acc
    }
}

/// Squares a knight on `square` attacks.
#[verifier::rlimit(50)]
pub fn knight_targets(square: Square) -> (r: Bitboard)
    requires
        square.valid(),
    ensures
        forall|t: int| #[trigger] bit_set(r.0, t) == knight_attacks(square.0 as int, t),
{
    let x = (square.0 % 8) as i64;
    let y = (square.0 / 8) as i64;
    let mut acc: u64 = 0;
    proof {
        crate::bitboard::lemma_zero_iff_no_bits(0);
    }
    acc = add_square(acc, x - 2, y - 1);
    acc = add_square(acc, x - 2, y + 1);
    acc = add_square(acc, x - 1, y - 2);
    acc = add_square(acc, x - 1, y + 2);
    acc = add_square(acc, x + 1, y - 2);
    acc = add_square(acc, x + 1, y + 2);
    acc = add_square(acc, x + 2, y - 1);
    acc = add_square(acc, x + 2, y + 1);
    assert forall|t: int| #[trigger] bit_set(acc, t) == knight_attacks(square.0 as int, t) by {
        if 0 <= t < 64 {
            assert(t == sy(t) * 8 + sx(t));
        }
    }
    Bitboard(acc)
}

/// Squares a king on `square` attacks.
#[verifier::rlimit(50)]
pub fn king_targets(square: Square) -> (r: Bitboard)
    requires
        square.valid(),
    ensures
        forall|t: int| #[trigger] bit_set(r.0, t) == king_attacks(square.0 as int, t),
{
    let x = (square.0 % 8) as i64;
    let y = (square.0 / 8) as i64;
    let mut acc: u64 = 0;
    proof {
        crate::bitboard::lemma_zero_iff_no_bits(0);
    }
    acc = add_square(acc, x - 1, y - 1);
    acc = add_square(acc, x - 1, y);
    acc = add_square(acc, x - 1, y + 1);
    acc = add_square(acc, x, y - 1);
    acc = add_square(acc, x, y + 1);
    acc = add_square(acc, x + 1, y - 1);
    acc = add_square(acc, x + 1, y);
    acc = add_square(acc, x + 1, y + 1);
    assert forall|t: int| #[trigger] bit_set(acc, t) == king_attacks(square.0 as int, t) by {
        if 0 <= t < 64 {
            assert(t == sy(t) * 8 + sx(t));
        }
    }
    Bitboard(acc)
}

/// Squares a pawn of `color` on `square` attacks.
#[verifier::rlimit(50)]
pub fn pawn_attack_targets(color: Color, square: Square) -> (r: Bitboard)
    requires
        square.valid(),
    ensures
        forall|t: int| #[trigger] bit_set(r.0, t) == pawn_attacks(color, square.0 as int, t),
{
    let x = (square.0 % 8) as i64;
    let y = (square.0 / 8) as i64;
    let dy: i64 = match color {
        Color::White => 1,
        Color::Black => -1,
    };
    let mut acc: u64 = 0;
    proof {
        crate::bitboard::lemma_zero_iff_no_bits(0);
    }
    acc = add_square(acc, x - 1, y + dy);
    acc = add_square(acc, x + 1, y + dy);
    assert forall|t: int| #[trigger] bit_set(acc, t) == pawn_attacks(color, square.0 as int, t) by {
        if 0 <= t < 64 {
            assert(t == sy(t) * 8 + sx(t));
        }
    }
    Bitboard(acc)
}

/// The square one step ahead of a pawn of `color`: the board shifted one rank forward.
pub fn pawn_quiet_single_target(from: Bit, color: Color) -> (r: Bit)
    ensures
        r.0 == (match color {
            Color::White => from.0 << 8u64,
            Color::Black => from.0 >> 8u64,
        }),
{
    match color {
        Color::White => Bitboard(from.0 << 8u64),
        Color::Black => Bitboard(from.0 >> 8u64),
    }
}

/// The square two steps ahead of a pawn of `color`.
pub fn pawn_quiet_double_target(from: Bit, color: Color) -> (r: Bit)
    ensures
        r.0 == (match color {
            Color::White => from.0 << 16u64,
            Color::Black => from.0 >> 16u64,
        }),
{
    match color {
        Color::White => Bitboard(from.0 << 16u64),
        Color::Black => Bitboard(from.0 >> 16u64),
    }
}

proof fn lemma_ray_unfold(x: int, y: int, dx: int, dy: int, occ: u64, fuel: nat)
    requires
        fuel > 0,
        on_board(x + dx, y + dy),
    ensures
        ray(x, y, dx, dy, occ, fuel) == (if bit_set(occ, (y + dy) * 8 + (x + dx)) {
            set![(y + dy) * 8 + (x + dx)]
        } else {
            ray(x + dx, y + dy, dx, dy, occ, (fuel - 1) as nat).insert((y + dy) * 8 + (x + dx))
        }),
{
}

/// Walks from `square` in direction (dx, dy) and collects the ray.
fn ray_targets(square: Square, occupied: u64, dx: i64, dy: i64) -> (r: u64)
    requires
        square.valid(),
        -1 <= dx <= 1,
        -1 <= dy <= 1,
        dx != 0 || dy != 0,
    ensures
        bits(r) == ray(sx(square.0 as int), sy(square.0 as int), dx as int, dy as int, occupied, 8),
{
    let x0 = (square.0 % 8) as i64;
    let y0 = (square.0 / 8) as i64;
    let mut cx = x0;
    let mut cy = y0;
    let mut acc: u64 = 0;
    let mut k: i64 = 0;
    proof {
        crate::bitboard::lemma_zero_iff_no_bits(0);
        assert(bits(0) =~= Set::empty());
    }
    loop
        invariant
            0 <= k <= 7,
            on_board(cx as int, cy as int),
            dx == 1 ==> cx == x0 + k,
            dx == -1 ==> cx == x0 - k,
            dx == 0 ==> cx == x0,
            dy == 1 ==> cy == y0 + k,
            dy == -1 ==> cy == y0 - k,
            dy == 0 ==> cy == y0,
            0 <= x0 < 8,
            0 <= y0 < 8,
            x0 == sx(square.0 as int),
            y0 == sy(square.0 as int),
            -1 <= dx <= 1,
            -1 <= dy <= 1,
            dx != 0 || dy != 0,
            bits(acc) + ray(cx as int, cy as int, dx as int, dy as int, occupied, (8 - k) as nat)
                == ray(x0 as int, y0 as int, dx as int, dy as int, occupied, 8),
            forall|i: int| #[trigger] bits(acc).contains(i) ==> 0 <= i < 64,
        ensures
            bits(acc) == ray(x0 as int, y0 as int, dx as int, dy as int, occupied, 8),
        decreases 7 - k,
    {
        let nx = cx + dx;
        let ny = cy + dy;
        if !(0 <= nx && nx < 8 && 0 <= ny && ny < 8) {
            assert(ray(cx as int, cy as int, dx as int, dy as int, occupied, (8 - k) as nat)
                =~= Set::empty());
            assert(bits(acc) + Set::<int>::empty() =~= bits(acc));
            break ;
        }
        assert(k < 7) by {
            if dx == 1 {
                assert(nx == x0 + k + 1);
            } else if dx == -1 {
                assert(nx == x0 - k - 1);
            } else if dy == 1 {
                assert(ny == y0 + k + 1);
            } else {
                assert(ny == y0 - k - 1);
            }
        }
        let s = (ny * 8 + nx) as u64;
        proof {
            lemma_ray_unfold(cx as int, cy as int, dx as int, dy as int, occupied, (8 - k) as nat);
            lemma_single_bit(s);
            lemma_bit_ops(acc, 1u64 << s);
            assert(bits(acc | (1u64 << s)) =~= bits(acc).insert(s as int));
        }
        let hit = (occupied >> s) & 1 == 1;
        acc = acc | (1u64 << s);
        if hit {
            assert(ray(cx as int, cy as int, dx as int, dy as int, occupied, (8 - k) as nat)
                =~= set![s as int]);
            assert(bits(acc) + ray(cx as int, cy as int, dx as int, dy as int, occupied, (8
                - k) as nat) =~= bits(acc));
            break ;
        }
        proof {
            let old_acc = bits(acc).remove(s as int);
            assert(bits(acc) + ray(nx as int, ny as int, dx as int, dy as int, occupied, (8 - k
                - 1) as nat) =~= bits(acc).remove(s as int) + ray(
                cx as int,
                cy as int,
                dx as int,
                dy as int,
                occupied,
                (8 - k) as nat,
            ));
        }
        cx = nx;
        cy = ny;
        k = k + 1;
    }
    acc
}

/// Squares a rook on `square` attacks, with `occupied` blocking.
pub fn get_rook_targets(square: Square, occupied: Bitboard) -> (r: Bitboard)
    requires
        square.valid(),
    ensures
        bits(r.0) == rook_set(square.0 as int, occupied.0),
{
    let a = ray_targets(square, occupied.0, 0, 1);
    let b = ray_targets(square, occupied.0, 1, 0);
    let c = ray_targets(square, occupied.0, -1, 0);
    let d = ray_targets(square, occupied.0, 0, -1);
    proof {
        lemma_bit_ops(a, b);
        lemma_bit_ops(a | b, c);
        lemma_bit_ops(a | b | c, d);
        assert(bits(a | b | c | d) =~= bits(a) + bits(b) + bits(c) + bits(d));
    }
    Bitboard(a | b | c | d)
}

/// Squares a bishop on `square` attacks, with `occupied` blocking.
pub fn get_bishop_targets(square: Square, occupied: Bitboard) -> (r: Bitboard)
    requires
        square.valid(),
    ensures
        bits(r.0) == bishop_set(square.0 as int, occupied.0),
{
    let a = ray_targets(square, occupied.0, 1, 1);
    let b = ray_targets(square, occupied.0, -1, 1);
    let c = ray_targets(square, occupied.0, 1, -1);
    let d = ray_targets(square, occupied.0, -1, -1);
    proof {
        lemma_bit_ops(a, b);
        lemma_bit_ops(a | b, c);
        lemma_bit_ops(a | b | c, d);
        assert(bits(a | b | c | d) =~= bits(a) + bits(b) + bits(c) + bits(d));
    }
    Bitboard(a | b | c | d)
}

/// Squares strictly between `from` and `to` on their common rank, file or diagonal;
/// empty when they share none.
pub fn in_between(from: Square, to: Square) -> (r: Bitboard)
    requires
        from.valid(),
        to.valid(),
    ensures
        bits(r.0) == between_set(from.0 as int, to.0 as int),
        forall|i: int| #[trigger] bit_set(r.0, i) ==> 0 <= i < 64,
{
    proof {
        crate::bitboard::lemma_zero_iff_no_bits(0);
        assert(bits(0) =~= Set::empty());
    }
    let ax = (from.0 % 8) as i64;
    let ay = (from.0 / 8) as i64;
    let bx = (to.0 % 8) as i64;
    let by = (to.0 / 8) as i64;
    let ddx = bx - ax;
    let ddy = by - ay;
    let adx = if ddx < 0 {
        -ddx
    } else {
        ddx
    };
    let ady = if ddy < 0 {
        -ddy
    } else {
        ddy
    };
    if from.0 == to.0 || !(ddx == 0 || ddy == 0 || adx == ady) {
        return Bitboard(0);
    }
    let ux: i64 = if ddx > 0 {
        1
    } else if ddx < 0 {
        -1
    } else {
        0
    };
    let uy: i64 = if ddy > 0 {
        1
    } else if ddy < 0 {
        -1
    } else {
        0
    };
    let mut cx = ax;
    let mut cy = ay;
    let mut acc: u64 = 0;
    let mut fuel: u64 = 8;
    while fuel > 0 && !(cx + ux == bx && cy + uy == by) && 0 <= cx + ux && cx + ux < 8 && 0 <= cy
        + uy && cy + uy < 8
        invariant
            -1 <= ux <= 1,
            -1 <= uy <= 1,
            -8 < cx < 16,
            -8 < cy < 16,
            fuel <= 8,
            fuel < 8 ==> on_board(cx as int, cy as int),
            bits(acc) + segment(cx as int, cy as int, ux as int, uy as int, bx as int, by as int, fuel as nat)
                == segment(ax as int, ay as int, ux as int, uy as int, bx as int, by as int, 8),
            forall|i: int| #[trigger] bits(acc).contains(i) ==> 0 <= i < 64,
        decreases fuel,
    {
        let nx = cx + ux;
        let ny = cy + uy;
        let s = (ny * 8 + nx) as u64;
        proof {
            lemma_single_bit(s);
            lemma_bit_ops(acc, 1u64 << s);
            assert(bits(acc | (1u64 << s)) =~= bits(acc).insert(s as int));
            assert(bits(acc | (1u64 << s)) + segment(nx as int, ny as int, ux as int, uy as int, bx as int, by as int, (fuel - 1) as nat)
                =~= bits(acc) + segment(cx as int, cy as int, ux as int, uy as int, bx as int, by as int, fuel as nat));
        }
        acc = acc | (1u64 << s);
        cx = nx;
        cy = ny;
        fuel = fuel - 1;
    }
    assert(segment(cx as int, cy as int, ux as int, uy as int, bx as int, by as int, fuel as nat) =~= Set::empty());
    assert(bits(acc) =~= bits(acc) + Set::<int>::empty());
    proof {
        assert(forall|i: int| #[trigger] bit_set(acc, i) ==> bits(acc).contains(i));
    }
    Bitboard(acc)
}

} // verus!
