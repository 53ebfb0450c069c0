//! Late move reductions: how many plies a late, quiet move is searched less deeply.
use vstd::prelude::*;

verus! {

/// The integer part of the base-2 logarithm of `n`, for `n >= 1`.
pub open spec fn floor_log2(n: nat) -> nat
    decreases n,
{
    if n <= 1 {
        0
    } else {
        1 + floor_log2(n / 2)
    }
}

/// `ln(2) * floor(log2(n))` rounded down: the natural logarithm on whole powers of two.
/// The six digits of `ln(2)` used give the exact result, because `k * ln(2)` stays at least
/// 0.003 away from an integer for every `k` below 64.
pub open spec fn spec_int_ln(n: nat) -> nat {
    floor_log2(n) * 693147 / 1000000
}

/// The base reduction for a move searched at `depth` after `moves_visited` moves:
/// `1.35 + int_ln(depth) * int_ln(moves_visited) / 2.75`, rounded down.
pub open spec fn spec_lmr_reduction(depth: nat, moves_visited: nat) -> nat {
    (37125 + 10000 * spec_int_ln(depth) * spec_int_ln(moves_visited)) / 27500
}

proof fn lemma_floor_log2_lt(n: nat, j: nat)
    requires
        1 <= n < vstd::arithmetic::power2::pow2(j),
    ensures
        floor_log2(n) < j,
    decreases n,
{
    if n > 1 {
        if j > 0 {
            vstd::arithmetic::power2::lemma_pow2_unfold(j);
        }
        if j == 0 {
            assert(vstd::arithmetic::power2::pow2(0) == 1) by {
                vstd::arithmetic::power2::lemma2_to64();
            }
        } else {
            lemma_floor_log2_lt(n / 2, (j - 1) as nat);
        }
    } else if j == 0 {
        vstd::arithmetic::power2::lemma2_to64();
    }
}

/// `ln(2) * floor(log2(n))` rounded down, for `n >= 1`.
pub fn int_ln(n: usize) -> (r: u32)
    requires
        n >= 1,
    ensures
        r == spec_int_ln(n as nat),
        r <= 44,
{
    proof {
        vstd::arithmetic::power2::lemma2_to64();
        lemma_floor_log2_lt(n as nat, 64);
    }
    let mut k: u64 = 0;
    let mut m: usize = n;
    while m > 1
        invariant
            m >= 1,
            k + floor_log2(m as nat) == floor_log2(n as nat),
            floor_log2(n as nat) < 64,
        decreases m,
    {
        m = m / 2;
        k = k + 1;
    }
    proof {
        assert(k * 693147 / 1000000 <= 44) by (nonlinear_arith)
            requires
                k < 64,
        ;
    }
    (k * 693147 / 1000000) as u32
}

/// The base reduction for a late move, for `depth` and `moves_visited` of at least 1.
pub fn lmr_reduction(depth: usize, moves_visited: usize) -> (r: u32)
    requires
        depth >= 1,
        moves_visited >= 1,
    ensures
        r == spec_lmr_reduction(depth as nat, moves_visited as nat),
{
    let a = int_ln(depth) as u64;
    let b = int_ln(moves_visited) as u64;
    assert(10000 * a * b <= 10000 * 44 * 44) by (nonlinear_arith)
        requires
            a <= 44,
            b <= 44,
    ;
    ((37125 + 10000 * a * b) / 27500) as u32
}

/// The reductions for depths and move counts below 64; row and column 0 hold 0.
pub fn lmr_table() -> (r: Vec<Vec<u32>>)
    ensures
        r@.len() == 64,
        forall|d: int| 0 <= d < 64 ==> (#[trigger] r@[d])@.len() == 64,
        forall|d: int, m: int|
            0 <= d < 64 && 0 <= m < 64 ==> #[trigger] r@[d]@[m] == (if d >= 1 && m >= 1 {
                spec_lmr_reduction(d as nat, m as nat)
            } else {
                0
            }),
{
    let mut out: Vec<Vec<u32>> = Vec::new();
    let mut depth: usize = 0;
    while depth < 64
        invariant
            depth <= 64,
            out@.len() == depth,
            forall|d: int| 0 <= d < depth ==> (#[trigger] out@[d])@.len() == 64,
            forall|d: int, m: int|
                0 <= d < depth && 0 <= m < 64 ==> #[trigger] out@[d]@[m] == (if d >= 1 && m >= 1 {
                    spec_lmr_reduction(d as nat, m as nat)
                } else {
                    0
                }),
        decreases 64 - depth,
    {
        let mut row: Vec<u32> = Vec::new();
        let mut moves_visited: usize = 0;
        while moves_visited < 64
            invariant
                depth < 64,
                moves_visited <= 64,
                row@.len() == moves_visited,
                forall|m: int|
                    0 <= m < moves_visited ==> #[trigger] row@[m] == (if depth >= 1 && m >= 1 {
                        spec_lmr_reduction(depth as nat, m as nat)
                    } else {
                        0
                    }),
            decreases 64 - moves_visited,
        {
            if depth >= 1 && moves_visited >= 1 {
                row.push(lmr_reduction(depth, moves_visited));
            } else {
                row.push(0);
            }
            moves_visited = moves_visited + 1;
        }
        out.push(row);
        depth = depth + 1;
    }
    out
}

} // verus!
