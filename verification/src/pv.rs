//! Triangular principal variation table: row `ply` holds the best line found from `ply` on,
//! and has room for `MAX_DEPTH - ply` moves.
use crate::types::EncodedMove;
use vstd::prelude::*;

verus! {

/// Exclusive: a depth equal to `MAX_DEPTH` is out of bounds.
pub const MAX_DEPTH: usize = 128;

/// Number of slots of the table.
pub const PV_TABLE_LEN: usize = 8129;

/// Start of row `ply`: the sum of the lengths of the rows before it.
pub open spec fn tri(ply: int) -> int {
    ply * (2 * MAX_DEPTH - 1 - ply) / 2
}

pub proof fn lemma_tri_step(ply: int)
    requires
        0 <= ply < MAX_DEPTH,
    ensures
        tri(ply + 1) == tri(ply) + (MAX_DEPTH - 1 - ply),
        tri(0) == 0,
        tri(ply) >= 0,
{
    let a = ply * (255 - ply);
    let b = (ply + 1) * (254 - ply);
    assert(b == a + 2 * (127 - ply)) by (nonlinear_arith)
        requires
            a == ply * (255 - ply),
            b == (ply + 1) * (254 - ply),
    ;
    assert(a >= 0) by (nonlinear_arith)
        requires
            a == ply * (255 - ply),
            0 <= ply < 128,
    ;
}

pub proof fn lemma_tri_bounds(ply: int)
    requires
        0 <= ply <= MAX_DEPTH,
    ensures
        0 <= tri(ply) <= tri(MAX_DEPTH as int),
        tri(MAX_DEPTH as int) == PV_TABLE_LEN - 1,
        forall|q: int| 0 <= q <= ply ==> tri(q) <= tri(ply),
    decreases ply,
{
    if ply > 0 {
        lemma_tri_bounds(ply - 1);
        lemma_tri_step(ply - 1);
    }
    assert(tri(MAX_DEPTH as int) == 8128);
    if ply < MAX_DEPTH {
        lemma_tri_upper(ply);
    }
}

proof fn lemma_tri_upper(ply: int)
    requires
        0 <= ply < MAX_DEPTH,
    ensures
        tri(ply) <= tri(MAX_DEPTH as int),
    decreases MAX_DEPTH - ply,
{
    lemma_tri_step(ply);
    if ply + 1 < MAX_DEPTH {
        lemma_tri_upper(ply + 1);
    }
}

/// Row start of `ply`.
pub fn triangular_index(ply: usize) -> (r: usize)
    requires
        ply <= MAX_DEPTH,
    ensures
        r == tri(ply as int),
{
    proof {
        lemma_tri_bounds(ply as int);
    }
    ply * (2 * MAX_DEPTH - 1 - ply) / 2
}

/// The row starts of all plies below `MAX_DEPTH`.
pub fn init_index_table() -> (r: Vec<usize>)
    ensures
        r@.len() == MAX_DEPTH,
        forall|i: int| 0 <= i < MAX_DEPTH ==> #[trigger] r@[i] == tri(i),
{
    let mut table: Vec<usize> = Vec::new();
    let mut i: usize = 0;
    while i < MAX_DEPTH
        invariant
            i <= MAX_DEPTH,
            table@.len() == i,
            forall|j: int| 0 <= j < i ==> #[trigger] table@[j] == tri(j),
        decreases MAX_DEPTH - i,
    {
        table.push(triangular_index(i));
        i = i + 1;
    }
    table
}

pub struct PVTable {
    pub table: Vec<EncodedMove>,
    pub current_length: usize,
}

impl PVTable {
    pub open spec fn wf(&self) -> bool {
        &&& self.table@.len() == PV_TABLE_LEN
        &&& self.current_length <= MAX_DEPTH
    }

    /// The `i`-th move of row `ply`.
    pub open spec fn at(&self, ply: int, i: int) -> EncodedMove {
        self.table@[tri(ply) + i]
    }

    /// An empty table: every slot holds the null move.
    pub fn new() -> (r: PVTable)
        ensures
            r.wf(),
            r.current_length == 0,
            forall|i: int| 0 <= i < PV_TABLE_LEN ==> #[trigger] r.table@[i] == EncodedMove(0),
    {
        let mut table: Vec<EncodedMove> = Vec::new();
        while table.len() < PV_TABLE_LEN
            invariant
                table@.len() <= PV_TABLE_LEN,
                forall|i: int| 0 <= i < table@.len() ==> #[trigger] table@[i] == EncodedMove(0),
            decreases PV_TABLE_LEN - table.len(),
        {
            table.push(EncodedMove(0));
        }
        PVTable { table, current_length: 0 }
    }

    /// Puts `mv` at the head of row `ply`. Below the deepest row reached so far, the rest of
    /// row `ply` becomes row `ply + 1`; otherwise the deepest row reached becomes `ply`.
    /// The copy runs one slot past row `ply`, onto the head of row `ply + 1`.
    pub fn push_move(&mut self, ply: usize, mv: EncodedMove)
        requires
            old(self).wf(),
            ply < MAX_DEPTH,
        ensures
            final(self).wf(),
            final(self).at(ply as int, 0) == mv,
            ply >= old(self).current_length ==> final(self).current_length == ply + 1
                && final(self).table@ == old(self).table@.update(tri(ply as int), mv),
            ply < old(self).current_length ==> {
                &&& final(self).current_length == old(self).current_length
                &&& forall|i: int|
                    1 <= i < MAX_DEPTH - ply ==> #[trigger] final(self).at(ply as int, i)
                        == old(self).at(ply + 1, i - 1)
                &&& forall|k: int|
                    0 <= k < PV_TABLE_LEN && !(tri(ply as int) <= k <= tri(ply + 1)) ==> #[trigger] final(self).table@[k]
                        == old(self).table@[k]
            },
    {
        proof {
            lemma_tri_bounds(ply as int);
            lemma_tri_bounds(ply as int + 1);
            lemma_tri_step(ply as int);
            if ply + 1 < MAX_DEPTH {
                lemma_tri_step(ply as int + 1);
                lemma_tri_bounds(ply as int + 2);
            }
        }
        let start = triangular_index(ply);
        self.table.set(start, mv);
        if ply >= self.current_length {
            self.current_length = ply + 1;
            return;
        }
        let next = triangular_index(ply + 1);
        let ghost before = self.table@;
        let mut i: usize = 1;
        while i < MAX_DEPTH - ply
            invariant
                1 <= i <= MAX_DEPTH - ply,
                ply < MAX_DEPTH,
                start == tri(ply as int),
                next == tri(ply + 1),
                next == start + (MAX_DEPTH - 1 - ply),
                next <= PV_TABLE_LEN - 1,
                ply + 1 < MAX_DEPTH ==> tri(ply + 2) == next + (MAX_DEPTH - 2 - ply) && tri(ply + 2) <= PV_TABLE_LEN - 1,
                self.table@.len() == PV_TABLE_LEN,
                self.current_length == old(self).current_length,
                old(self).current_length <= MAX_DEPTH,
                before.len() == PV_TABLE_LEN,
                before[start as int] == mv,
                forall|j: int| 1 <= j < i ==> #[trigger] self.table@[start + j] == before[next + j - 1],
                forall|k: int|
                    0 <= k < PV_TABLE_LEN && !(start < k < start + i) ==> #[trigger] self.table@[k]
                        == before[k],
            decreases MAX_DEPTH - ply - i,
        {
            let v = self.table[next + i - 1];
            self.table.set(start + i, v);
            i = i + 1;
        }
        proof {
            assert(before == old(self).table@.update(start as int, mv));
            assert forall|i: int| 1 <= i < MAX_DEPTH - ply implies #[trigger] self.at(ply as int, i)
                == old(self).at(ply + 1, i - 1) by {
                assert(self.table@[start + i] == before[next + i - 1]);
            }
            assert forall|k: int|
                0 <= k < PV_TABLE_LEN && !(tri(ply as int) <= k <= tri(ply + 1)) implies #[trigger] self.table@[k]
                    == old(self).table@[k] by {
                assert(self.table@[k] == before[k]);
            }
        }
    }

    /// The principal variation from `ply` on: the first `current_length - ply` moves of row
    /// `ply` (none when `ply` is not below the deepest row reached so far).
    pub fn get_pv(&self, ply: usize) -> (r: &[EncodedMove])
        requires
            self.wf(),
            ply < MAX_DEPTH,
            self.current_length <= ply || tri(ply as int) + (self.current_length - ply) <= PV_TABLE_LEN,
        ensures
            self.current_length <= ply ==> r@.len() == 0,
            ply < self.current_length ==> r@ == self.table@.subrange(
                tri(ply as int),
                tri(ply as int) + (self.current_length - ply),
            ),
    {
        proof {
            lemma_tri_bounds(ply as int);
        }
        let start = triangular_index(ply);
        let s = self.table.as_slice();
        if self.current_length <= ply {
            return &s[start..start];
        }
        &s[start..start + (self.current_length - ply)]
    }

    /// The head of row `ply_from_root`, unless it is the null move.
    pub fn get_bestmove(&self, ply_from_root: usize) -> (r: Option<EncodedMove>)
        requires
            self.wf(),
            ply_from_root < MAX_DEPTH,
        ensures
            r == (if self.at(ply_from_root as int, 0).0 == 0 {
                None
            } else {
                Some(self.at(ply_from_root as int, 0))
            }),
    {
        proof {
            lemma_tri_bounds(ply_from_root as int);
        }
        let mv = self.table[triangular_index(ply_from_root)];
        if mv.0 == 0 {
            None
        } else {
            Some(mv)
        }
    }
}

} // verus!
