//! Transposition table: a power-of-two sized table of 64-bit packed entries,
//! indexed by the low bits of a position hash and tagged with its top 16 bits.
use crate::types::EncodedMove;
use vstd::prelude::*;

verus! {

/// Score of a mate at the root; mates found deeper score less.
pub const MATE_SCORE: i32 = 30_000;

/// Ages run from 0 to 31.
pub const MAX_AGE: i32 = 32;

pub const AGE_MASK: i32 = 31;

/// Bytes taken by one entry of the table.
pub const ENTRY_BYTES: usize = 8;

/// Kind of bound a stored score is.
#[derive(Clone, Copy, PartialEq, Eq, Structural, Debug)]
pub enum Bound {
    Unset,
    Upper,
    Lower,
    Exact,
}

impl Bound {
    /// None 0, Upper 1, Lower 2, Exact 3.
    pub open spec fn idx(self) -> int {
        match self {
            Bound::Unset => 0,
            Bound::Upper => 1,
            Bound::Lower => 2,
            Bound::Exact => 3,
        }
    }

    pub open spec fn of_idx(i: int) -> Bound {
        if i == 1 {
            Bound::Upper
        } else if i == 2 {
            Bound::Lower
        } else if i == 3 {
            Bound::Exact
        } else {
            Bound::Unset
        }
    }

    pub fn index(self) -> (r: u8)
        ensures
            r == self.idx(),
    {
        match self {
            Bound::Unset => 0,
            Bound::Upper => 1,
            Bound::Lower => 2,
            Bound::Exact => 3,
        }
    }
}

/// Age, pv flag and bound packed into one byte:
/// bits 0-1 bound, bit 2 pv flag, bits 3-7 age.
#[derive(Clone, Copy, PartialEq, Eq, Structural, Debug)]
pub struct TTInfo {
    pub data: u8,
}

pub open spec fn spec_info_data(age: u8, flag: Bound, is_pv: bool) -> u8 {
    ((age * 8 + (if is_pv { 4int } else { 0int }) + flag.idx()) % 256) as u8
}

impl TTInfo {
    pub open spec fn spec_age(self) -> u8 {
        self.data / 8
    }

    pub open spec fn spec_bound(self) -> Bound {
        Bound::of_idx((self.data % 4) as int)
    }

    pub open spec fn spec_pv(self) -> bool {
        (self.data / 4) % 2 == 1
    }

    /// Packs age (kept modulo 32), bound and pv flag.
    pub fn encode(age: u8, flag: Bound, is_pv: bool) -> (r: TTInfo)
        ensures
            r.data == spec_info_data(age, flag, is_pv),
            r.spec_age() == age % 32,
            r.spec_bound() == flag,
            r.spec_pv() == is_pv,
    {
        let f = flag.index();
        let p: u8 = if is_pv {
            1
        } else {
            0
        };
        let d = (age << 3) | (p << 2) | f;
        assert(d == ((age * 8 + p * 4 + f) % 256) as u8 && d / 8 == age % 32 && d % 4 == f && (d
            / 4) % 2 == p) by (bit_vector)
            requires
                f < 4,
                p < 2,
                d == (age << 3) | (p << 2) | f,
        ;
        TTInfo { data: d }
    }

    pub fn age(self) -> (r: u8)
        ensures
            r == self.spec_age(),
    {
        let d = self.data;
        assert(d >> 3 == d / 8) by (bit_vector);
        d >> 3
    }

    pub fn bound(self) -> (r: Bound)
        ensures
            r == self.spec_bound(),
    {
        let d = self.data;
        let b = d & 3;
        assert(b == d % 4) by (bit_vector)
            requires
                b == d & 3,
        ;
        if b == 0 {
            Bound::Unset
        } else if b == 1 {
            Bound::Upper
        } else if b == 2 {
            Bound::Lower
        } else {
            Bound::Exact
        }
    }

    pub fn pv(self) -> (r: bool)
        ensures
            r == self.spec_pv(),
    {
        let d = self.data;
        assert((d & 4 != 0) == ((d / 4) % 2 == 1)) by (bit_vector);
        d & 4 != 0
    }
}

/// One slot of the table: a packed `DecodedTTEntry`, 0 when empty.
#[derive(Clone, Copy, PartialEq, Eq, Structural, Debug)]
pub struct EncodedHashEntry {
    pub data: u64,
}

/// An unpacked entry of the table.
#[derive(Clone, Copy, PartialEq, Eq, Structural, Debug)]
pub struct DecodedTTEntry {
    pub key: u16,
    pub best_move: EncodedMove,
    pub score: i16,
    pub depth: i8,
    pub info: TTInfo,
}

/// The packing: key in bytes 0-1, move in bytes 2-3, score in bytes 4-5, depth in
/// byte 6, info in byte 7.
pub open spec fn spec_pack(e: DecodedTTEntry) -> u64 {
    (e.key as int + e.best_move.0 as int * 0x1_0000 + (e.score as u16) as int * 0x1_0000_0000
        + (e.depth as u8) as int * 0x1_0000_0000_0000 + e.info.data as int
        * 0x100_0000_0000_0000) as u64
}

pub open spec fn spec_unpack(x: u64) -> DecodedTTEntry {
    DecodedTTEntry {
        key: (x % 0x1_0000) as u16,
        best_move: EncodedMove(((x / 0x1_0000) % 0x1_0000) as u16),
        score: (((x / 0x1_0000_0000) % 0x1_0000) as u16) as i16,
        depth: (((x / 0x1_0000_0000_0000) % 0x100) as u8) as i8,
        info: TTInfo { data: (x / 0x100_0000_0000_0000) as u8 },
    }
}

impl DecodedTTEntry {
    pub fn depth(&self) -> (r: i32)
        ensures
            r == self.depth,
    {
        self.depth as i32
    }

    pub fn bound(&self) -> (r: Bound)
        ensures
            r == self.info.spec_bound(),
    {
        self.info.bound()
    }

    pub fn score(&self) -> (r: i32)
        ensures
            r == self.score,
    {
        self.score as i32
    }

    pub open spec fn spec_best_move(self) -> Option<EncodedMove> {
        if self.best_move.0 == 0 {
            None
        } else {
            Some(self.best_move)
        }
    }

    /// The stored move; the packed value 0 stands for no move.
    pub fn best_move(&self) -> (r: Option<EncodedMove>)
        ensures
            r == self.spec_best_move(),
    {
        if self.best_move.0 == 0 {
            return None;
        }
        Some(self.best_move)
    }

    /// Unpacks a slot of the table.
    pub fn from_internal(atom: EncodedHashEntry) -> (r: Self)
        ensures
            r == spec_unpack(atom.data),
    {
        let x = atom.data;
        let key = (x & 0xffff) as u16;
        let mv = ((x >> 16) & 0xffff) as u16;
        let sc = ((x >> 32) & 0xffff) as u16;
        let dp = ((x >> 48) & 0xff) as u8;
        let inf = (x >> 56) as u8;
        assert(x & 0xffff == x % 0x1_0000 && (x >> 16) & 0xffff == (x / 0x1_0000) % 0x1_0000 && (x
            >> 32) & 0xffff == (x / 0x1_0000_0000) % 0x1_0000 && (x >> 48) & 0xff == (x
            / 0x1_0000_0000_0000) % 0x100 && x >> 56 == x / 0x100_0000_0000_0000) by (bit_vector);
        DecodedTTEntry {
            key,
            best_move: EncodedMove(mv),
            score: sc as i16,
            depth: dp as i8,
            info: TTInfo { data: inf },
        }
    }

    /// Packs the entry into 64 bits.
    pub fn to_u64(self) -> (r: u64)
        ensures
            r == spec_pack(self),
    {
        let k = self.key as u64;
        let m = self.best_move.0 as u64;
        let s = (self.score as u16) as u64;
        let d = (self.depth as u8) as u64;
        let i = self.info.data as u64;
        let r = k | (m << 16) | (s << 32) | (d << 48) | (i << 56);
        assert(r == k + m * 0x1_0000 + s * 0x1_0000_0000 + d * 0x1_0000_0000_0000 + i
            * 0x100_0000_0000_0000) by (bit_vector)
            requires
                k < 0x1_0000,
                m < 0x1_0000,
                s < 0x1_0000,
                d < 0x100,
                i < 0x100,
                r == k | (m << 16) | (s << 32) | (d << 48) | (i << 56),
        ;
        r
    }
}

/// Unpacking a packed entry gives the entry back.
pub proof fn lemma_unpack_pack(e: DecodedTTEntry)
    ensures
        spec_unpack(spec_pack(e)) == e,
{
    let k = e.key as u64;
    let m = e.best_move.0 as u64;
    let s16 = e.score as u16;
    let s = s16 as u64;
    let d8 = e.depth as u8;
    let d = d8 as u64;
    let i = e.info.data as u64;
    let x = spec_pack(e);
    assert(x == k + m * 0x1_0000 + s * 0x1_0000_0000 + d * 0x1_0000_0000_0000 + i
        * 0x100_0000_0000_0000);
    assert(x % 0x1_0000 == k && (x / 0x1_0000) % 0x1_0000 == m && (x / 0x1_0000_0000) % 0x1_0000
        == s && (x / 0x1_0000_0000_0000) % 0x100 == d && x / 0x100_0000_0000_0000 == i)
        by (bit_vector)
        requires
            k < 0x1_0000,
            m < 0x1_0000,
            s < 0x1_0000,
            d < 0x100,
            i < 0x100,
            x == k + m * 0x1_0000 + s * 0x1_0000_0000 + d * 0x1_0000_0000_0000 + i
                * 0x100_0000_0000_0000,
    ;
    lemma_cast_roundtrips(e.score, e.depth, 0, 0);
}

/// Casting between signed and unsigned integers of one width and back is the identity.
proof fn lemma_cast_roundtrips(sc: i16, dp: i8, s16: u16, d8: u8)
    ensures
        (sc as u16) as i16 == sc,
        (dp as u8) as i8 == dp,
        (s16 as i16) as u16 == s16,
        (d8 as i8) as u8 == d8,
{
    assert((sc as u16) as i16 == sc && (dp as u8) as i8 == dp && (s16 as i16) as u16 == s16
        && (d8 as i8) as u8 == d8) by (bit_vector);
}

/// The slot index `h & m` is at most `m`, and the key is the top 16 bits of the hash.
proof fn lemma_index_facts(h: usize, m: usize, hash: u64)
    ensures
        h & m <= m,
        hash >> 48 == hash / 0x1_0000_0000_0000,
{
    assert(h & m <= m && hash >> 48 == hash / 0x1_0000_0000_0000) by (bit_vector);
}

/// Packing an unpacked slot gives the 64 bits back.
pub proof fn lemma_pack_unpack(x: u64)
    ensures
        spec_pack(spec_unpack(x)) == x,
{
    let e = spec_unpack(x);
    let k = x % 0x1_0000;
    let m = (x / 0x1_0000) % 0x1_0000;
    let s = (x / 0x1_0000_0000) % 0x1_0000;
    let d = (x / 0x1_0000_0000_0000) % 0x100;
    let i = x / 0x100_0000_0000_0000;
    let s16 = s as u16;
    let d8 = d as u8;
    lemma_cast_roundtrips(0, 0, s16, d8);
    assert(k + m * 0x1_0000 + s * 0x1_0000_0000 + d * 0x1_0000_0000_0000 + i
        * 0x100_0000_0000_0000 == x) by (bit_vector)
        requires
            k == x % 0x1_0000,
            m == (x / 0x1_0000) % 0x1_0000,
            s == (x / 0x1_0000_0000) % 0x1_0000,
            d == (x / 0x1_0000_0000_0000) % 0x100,
            i == x / 0x100_0000_0000_0000,
    ;
}

/// Scores this close to `MATE_SCORE` are mate scores.
pub open spec fn is_mate_score(score: int) -> bool {
    score > MATE_SCORE - 256 || score < -(MATE_SCORE - 256)
}

pub open spec fn signum(x: int) -> int {
    if x > 0 {
        1
    } else if x < 0 {
        -1
    } else {
        0
    }
}

/// Mate scores are stored relative to the stored position rather than to the root.
pub open spec fn normalised_score(score: int, ply: int) -> int {
    if is_mate_score(score) {
        score + signum(score) * ply
    } else {
        score
    }
}

/// A stored mate score read back at `ply` is made relative to the root again.
pub open spec fn probed_score(stored: int, ply: int) -> int {
    if is_mate_score(stored) {
        stored - signum(stored) * ply
    } else {
        stored
    }
}

/// Storing a score at some ply and reading it back at the same ply gives the score back.
pub proof fn lemma_score_roundtrip(score: int, ply: int)
    requires
        ply >= 0,
    ensures
        probed_score(normalised_score(score, ply), ply) == score,
{
    if score > 0 {
        assert(signum(score) == 1);
        assert(signum(score + ply) == 1);
    } else if score < 0 {
        assert(signum(score) == -1);
        assert(signum(score - ply) == -1);
    }
}

/// Reading a stored mate score `d` plies deeper moves it `d` closer to zero.
pub proof fn lemma_mate_score_deeper(score: int, ply: int, d: int)
    requires
        ply >= 0,
        d >= 0,
        score > MATE_SCORE - 256 + d || score < -(MATE_SCORE - 256) - d,
    ensures
        probed_score(normalised_score(score, ply), ply + d) == score - signum(score) * d,
{
    if score > 0 {
        assert(signum(score) == 1);
        assert(signum(score + ply) == 1);
    } else {
        assert(signum(score) == -1);
        assert(signum(score - ply) == -1);
    }
}

/// Whether `x` is a power of two.
pub open spec fn is_pow2(x: int) -> bool
    decreases x,
{
    if x <= 0 {
        false
    } else if x == 1 {
        true
    } else {
        x % 2 == 0 && is_pow2(x / 2)
    }
}

/// The slot index of a hash in a table with `len` slots.
pub open spec fn slot_of(hash: u64, len: int) -> int {
    ((hash as usize) & ((len - 1) as usize)) as int
}

/// The key of a hash: its top 16 bits.
pub open spec fn key_of(hash: u64) -> u16 {
    (hash / 0x1_0000_0000_0000) as u16
}

/// Whether `store` replaces `prev` by an entry for `key` with the given depth, bound and pv
/// flag at table age `age`.
pub open spec fn replaces(
    prev: DecodedTTEntry,
    key: u16,
    depth: i8,
    bound: Bound,
    is_pv: bool,
    age: u8,
) -> bool {
    let age_differential = (32 + age - prev.info.spec_age()) % 32;
    let insert_priority = depth + bound.idx() + (age_differential * age_differential) / 4 + (
    if is_pv {
        1int
    } else {
        0int
    });
    let record_priority = prev.depth + prev.info.spec_bound().idx();
    prev.key != key || (bound == Bound::Exact && prev.info.spec_bound() != Bound::Exact)
        || insert_priority * 3 >= record_priority * 2
}

/// The entry `store` writes.
pub open spec fn stored_entry(
    prev: DecodedTTEntry,
    hash: u64,
    best_move: Option<EncodedMove>,
    score: i32,
    depth: i8,
    ply: i32,
    bound: Bound,
    is_pv: bool,
    age: u8,
) -> DecodedTTEntry {
    let key = key_of(hash);
    let mv = if best_move is None && prev.key == key {
        prev.spec_best_move()
    } else {
        best_move
    };
    DecodedTTEntry {
        key,
        best_move: match mv {
            Some(m) => m,
            None => EncodedMove(0),
        },
        score: normalised_score(score as int, ply as int) as i16,
        depth,
        info: TTInfo { data: spec_info_data(age, bound, is_pv) },
    }
}

/// <https://www.chessprogramming.org/Transposition_Table>
pub struct TranspositionTable {
    pub entries: Vec<EncodedHashEntry>,
    pub age: u8,
}

impl TranspositionTable {
    /// Slot count is a power of two and the age is below 32.
    pub open spec fn wf(&self) -> bool {
        &&& is_pow2(self.entries@.len() as int)
        &&& self.age < 32
    }

    /// The entry in the slot of `hash`.
    pub open spec fn slot_entry(&self, hash: u64) -> DecodedTTEntry {
        spec_unpack(self.entries@[slot_of(hash, self.entries@.len() as int)].data)
    }

    /// A table of `mb` megabytes: the largest power of two number of 8-byte slots that fits,
    /// and at least one slot. All slots are empty and the age is 0.
    pub fn new(mb: usize) -> (r: Self)
        requires
            mb * 1024 * 1024 <= usize::MAX,
        ensures
            r.wf(),
            r.age == 0,
            r.entries@.len() <= (if mb * 1024 * 1024 / 8 > 0 {
                mb * 1024 * 1024 / 8
            } else {
                1
            }),
            mb * 1024 * 1024 / 8 > 0 ==> mb * 1024 * 1024 / 8 < 2 * r.entries@.len(),
            forall|i: int| 0 <= i < r.entries@.len() ==> #[trigger] r.entries@[i].data == 0,
    {
        let bytes = mb * 1024 * 1024;
        let max_entries = bytes / ENTRY_BYTES;
        let mut cap: usize = 1;
        while max_entries > 0 && cap <= max_entries / 2
            invariant
                is_pow2(cap as int),
                max_entries > 0 ==> cap <= max_entries,
                max_entries == 0 ==> cap == 1,
            decreases max_entries - cap,
        {
            assert(is_pow2(cap as int * 2)) by {
                assert((cap as int * 2) / 2 == cap as int);
            }
            cap = cap * 2;
        }
        let mut entries: Vec<EncodedHashEntry> = Vec::new();
        while entries.len() < cap
            invariant
                entries@.len() <= cap,
                forall|i: int| 0 <= i < entries@.len() ==> #[trigger] entries@[i].data == 0,
            decreases cap - entries.len(),
        {
            entries.push(EncodedHashEntry { data: 0 });
        }
        TranspositionTable { entries, age: 0 }
    }

    /// Adds one to the age, wrapping from 31 to 0.
    pub fn increase_age(&mut self)
        requires
            old(self).wf(),
        ensures
            final(self).wf(),
            final(self).age == (old(self).age + 1) % 32,
            final(self).entries == old(self).entries,
    {
        let a = self.age;
        let n = (a + 1) & 31;
        assert(n == (a + 1) % 32) by (bit_vector)
            requires
                a < 32,
                n == ((a + 1) as u8) & 31,
        ;
        self.age = n;
    }

    pub fn get_age(&self) -> (r: u8)
        ensures
            r == self.age,
    {
        self.age
    }

    /// Stores an entry for `hash` if the replacement policy lets it replace the slot's
    /// current entry: always for another position, for an exact bound over a non-exact one,
    /// and otherwise by a priority of depth, bound, age difference and pv flag.
    /// Mate scores are stored relative to this position; a missing best move keeps the
    /// previous best move of the same position.
    pub fn store(
        &mut self,
        hash: u64,
        best_move: Option<EncodedMove>,
        score: i32,
        depth: i8,
        ply: i32,
        bound: Bound,
        is_pv: bool,
    )
        requires
            old(self).wf(),
            -32768 <= normalised_score(score as int, ply as int) <= 32767,
        ensures
            final(self).wf(),
            final(self).age == old(self).age,
            final(self).entries@.len() == old(self).entries@.len(),
            ({
                let idx = slot_of(hash, old(self).entries@.len() as int);
                let prev = old(self).slot_entry(hash);
                if replaces(prev, key_of(hash), depth, bound, is_pv, old(self).age) {
                    final(self).entries@ == old(self).entries@.update(
                        idx,
                        EncodedHashEntry {
                            data: spec_pack(
                                stored_entry(
                                    prev,
                                    hash,
                                    best_move,
                                    score,
                                    depth,
                                    ply,
                                    bound,
                                    is_pv,
                                    old(self).age,
                                ),
                            ),
                        },
                    )
                } else {
                    final(self).entries@ == old(self).entries@
                }
            }),
    {
        proof {
            lemma_pow2_pos(self.entries@.len() as int);
        }
        let key = (hash >> 48) as u16;
        proof {
            lemma_index_facts(0, 0, hash);
        }
        let len = self.entries.len();
        let m = len - 1;
        let h = hash as usize;
        let idx = h & m;
        proof {
            lemma_index_facts(h, m, hash);
        }
        let previous = DecodedTTEntry::from_internal(self.entries[idx]);
        let tt_age = self.age as i32;
        let mut mv = best_move;
        if best_move.is_none() && previous.key == key {
            mv = previous.best_move();
        }
        let insert_flag_bonus = bound.index() as i32;
        let record_flag_bonus = previous.info.bound().index() as i32;
        let prev_age = previous.info.age() as i32;
        assert(prev_age < 32) by {
            let d = previous.info.data;
            assert(d / 8 < 32) by (bit_vector);
        }
        let age_differential = (MAX_AGE + tt_age - prev_age) & AGE_MASK;
        let base = MAX_AGE + tt_age - prev_age;
        assert(age_differential == base % 32) by (bit_vector)
            requires
                0 <= base,
                age_differential == base & 31,
        ;
        assert(0 <= age_differential < 32);
        assert(age_differential * age_differential <= 1024) by (nonlinear_arith)
            requires
                0 <= age_differential < 32,
        ;
        let pv_bonus: i32 = if is_pv {
            1
        } else {
            0
        };
        let insert_priority = depth as i32 + insert_flag_bonus + (age_differential
            * age_differential) / 4 + pv_bonus;
        let record_priority = previous.depth as i32 + record_flag_bonus;
        if previous.key != key || bound == Bound::Exact && previous.info.bound() != Bound::Exact
            || insert_priority * 3 >= record_priority * 2 {
            let normalised = if score > MATE_SCORE - 256 || score < -(MATE_SCORE - 256) {
                if score > 0 {
                    score + ply
                } else {
                    score - ply
                }
            } else {
                score
            };
            let new_entry = DecodedTTEntry {
                key,
                best_move: match mv {
                    Some(m) => m,
                    None => EncodedMove(0),
                },
                score: normalised as i16,
                depth,
                info: TTInfo::encode(self.age, bound, is_pv),
            }.to_u64();
            self.entries.set(idx, EncodedHashEntry { data: new_entry });
        }
    }

    /// The entry stored for `hash`, if the slot holds one with the hash's key; mate scores
    /// are made relative to the root again for `ply`.
    pub fn probe(&self, hash: u64, ply: i32) -> (r: Option<DecodedTTEntry>)
        requires
            self.wf(),
            0 <= ply <= 32767,
        ensures
            ({
                let e = self.slot_entry(hash);
                if e.key != key_of(hash) {
                    r is None
                } else {
                    r == Some(
                        DecodedTTEntry { score: probed_score(e.score as int, ply as int) as i16, ..e },
                    )
                }
            }),
    {
        proof {
            lemma_pow2_pos(self.entries@.len() as int);
        }
        let len = self.entries.len();
        let m = len - 1;
        let h = hash as usize;
        let idx = h & m;
        proof {
            lemma_index_facts(h, m, hash);
        }
        let entry = DecodedTTEntry::from_internal(self.entries[idx]);
        proof {
            lemma_index_facts(0, 0, hash);
        }
        if entry.key != (hash >> 48) as u16 {
            return None;
        }
        let s = entry.score as i32;
        let adjusted = if s > MATE_SCORE - 256 || s < -(MATE_SCORE - 256) {
            if s > 0 {
                s - ply
            } else {
                s + ply
            }
        } else {
            s
        };
        Some(DecodedTTEntry { score: adjusted as i16, ..entry })
    }

    /// Empties every slot and resets the age to 0.
    pub fn clear(&mut self)
        requires
            old(self).wf(),
        ensures
            final(self).wf(),
            final(self).age == 0,
            final(self).entries@.len() == old(self).entries@.len(),
            forall|i: int|
                0 <= i < final(self).entries@.len() ==> #[trigger] final(self).entries@[i].data
                    == 0,
    {
        let n = self.entries.len();
        let mut i: usize = 0;
        while i < n
            invariant
                n == self.entries@.len(),
                is_pow2(n as int),
                i <= n,
                forall|j: int| 0 <= j < i ==> #[trigger] self.entries@[j].data == 0,
            decreases n - i,
        {
            self.entries.set(i, EncodedHashEntry { data: 0 });
            i = i + 1;
        }
        self.age = 0;
    }
}

pub proof fn lemma_pow2_pos(x: int)
    requires
        is_pow2(x),
    ensures
        x >= 1,
{
}

/// A store that replaces the slot's entry is read back by a probe at the same ply: same
/// key, depth, bound, pv flag and score.
pub proof fn lemma_store_then_probe(
    t: TranspositionTable,
    hash: u64,
    best_move: Option<EncodedMove>,
    score: i32,
    depth: i8,
    ply: i32,
    bound: Bound,
    is_pv: bool,
)
    requires
        t.wf(),
        0 <= ply <= 32767,
        -32768 <= normalised_score(score as int, ply as int) <= 32767,
    ensures
        ({
            let e = stored_entry(t.slot_entry(hash), hash, best_move, score, depth, ply, bound, is_pv, t.age);
            &&& spec_unpack(spec_pack(e)) == e
            &&& e.key == key_of(hash)
            &&& e.depth == depth
            &&& e.info.spec_bound() == bound
            &&& e.info.spec_pv() == is_pv
            &&& e.info.spec_age() == t.age
            &&& probed_score(e.score as int, ply as int) == score
            &&& (best_move matches Some(m) && m.0 != 0 ==> e.spec_best_move() == best_move)
        }),
{
    let e = stored_entry(t.slot_entry(hash), hash, best_move, score, depth, ply, bound, is_pv, t.age);
    lemma_unpack_pack(e);
    let a = t.age;
    let p: u8 = if is_pv { 1 } else { 0 };
    let f = bound.idx() as u8;
    let d = spec_info_data(a, bound, is_pv);
    assert(d == ((a * 8 + p * 4 + f) % 256) as u8);
    assert(d / 8 == a && d % 4 == f && (d / 4) % 2 == p) by (bit_vector)
        requires
            a < 32,
            f < 4,
            p < 2,
            d == ((a * 8 + p * 4 + f) % 256) as u8,
    ;
    lemma_score_roundtrip(score as int, ply as int);
}

/// A cleared table holds no entry: for every hash whose key is not 0 the slot's key
/// differs, so `probe` answers `None` at every ply.
pub proof fn lemma_cleared_table_misses(t: TranspositionTable, hash: u64)
    requires
        t.wf(),
        forall|i: int| 0 <= i < t.entries@.len() ==> #[trigger] t.entries@[i].data == 0,
        key_of(hash) != 0,
    ensures
        t.slot_entry(hash).key != key_of(hash),
{
    lemma_pow2_pos(t.entries@.len() as int);
    let len = t.entries@.len();
    lemma_index_facts(hash as usize, (len - 1) as usize, hash);
    assert(0 <= slot_of(hash, len as int) < len);
    assert(t.entries@[slot_of(hash, len as int)].data == 0);
    assert(spec_unpack(0).key == 0);
}

} // verus!
