//! Filling a move list with the moves of each kind of piece.
use crate::bitboard::{bit_set, bits, lemma_bit_ops, lemma_pop_lsb, lemma_zero_iff_no_bits, Bitboard};
use crate::masks::{attack_set, piece_attacks};
use crate::move_picker::{MoveList, MoveListMove};
use crate::board::Board;
use crate::types::{spec_encode, Color, DecodedMove, EncodedMove, Figure, MoveType, Piece, Square};
use vstd::prelude::*;

verus! {

/// The encoded moves held in a list.
pub open spec fn moves_in(s: Seq<MoveListMove>) -> Set<u16> {
    Set::new(|e: u16| exists|i: int| 0 <= i < s.len() && (#[trigger] s[i]).mv.0 == e)
}

/// No move occurs twice in `s`.
pub open spec fn no_repeats(s: Seq<MoveListMove>) -> bool {
    forall|i: int, j: int| 0 <= i < j < s.len() ==> #[trigger] s[i].mv.0 != #[trigger] s[j].mv.0
}

/// A list without repeated moves holds as many different moves as it has entries.
pub proof fn lemma_no_repeats_len(s: Seq<MoveListMove>)
    requires
        no_repeats(s),
    ensures
        moves_in(s).finite(),
        moves_in(s).len() == s.len(),
    decreases s.len(),
{
    if s.len() == 0 {
        assert(moves_in(s) =~= Set::<u16>::empty());
    } else {
        let t = s.drop_last();
        assert forall|i: int, j: int| 0 <= i < j < t.len() implies #[trigger] t[i].mv.0 != #[trigger] t[j].mv.0 by {
            assert(t[i] == s[i]);
            assert(t[j] == s[j]);
        }
        lemma_no_repeats_len(t);
        let e = s.last().mv.0;
        assert forall|x: u16| moves_in(s).contains(x) == moves_in(t).insert(e).contains(x) by {
            if moves_in(s).contains(x) {
                let i = choose|i: int| 0 <= i < s.len() && (#[trigger] s[i]).mv.0 == x;
                if i < t.len() {
                    assert(t[i] == s[i]);
                }
            }
            if moves_in(t).contains(x) {
                let i = choose|i: int| 0 <= i < t.len() && (#[trigger] t[i]).mv.0 == x;
                assert(s[i] == t[i]);
            }
            if x == e {
                assert(s[s.len() - 1].mv.0 == e);
            }
        }
        assert(moves_in(s) =~= moves_in(t).insert(e));
        assert(!moves_in(t).contains(e)) by {
            if moves_in(t).contains(e) {
                let i = choose|i: int| 0 <= i < t.len() && (#[trigger] t[i]).mv.0 == e;
                assert(s[i] == t[i]);
                assert(s[i].mv.0 != s[s.len() - 1].mv.0);
            }
        }
    }
}

/// `new` is `old` with moves appended, each of `added` and none twice; unless a move did
/// not fit (which happens only to a full list), the moves appended are exactly those of
/// `added`.
pub open spec fn grows_by(old: MoveList, new: MoveList, added: Set<u16>) -> bool {
    &&& new.items().len() >= old.items().len()
    &&& new.items().subrange(0, old.items().len() as int) == old.items()
    &&& (old.overflow ==> new.overflow)
    &&& (new.overflow && !old.overflow ==> new.items().len() >= 218)
    &&& (!new.overflow ==> moves_in(new.items()) == moves_in(old.items()) + added)
    &&& moves_in(new.items()).subset_of(moves_in(old.items()) + added)
    &&& forall|i: int| old.items().len() <= i < new.items().len() ==> added.contains(#[trigger] new.items()[i].mv.0)
    &&& forall|i: int, j: int|
        old.items().len() <= i < j < new.items().len() ==> #[trigger] new.items()[i].mv.0 != #[trigger] new.items()[j].mv.0
}

/// Moves from `from` to each square of `targets`, once with each of the first `n` types of
/// `kinds`.
pub open spec fn target_moves(from: int, targets: Set<int>, kinds: Seq<MoveType>) -> Set<u16> {
    Set::new(
        |e: u16|
            exists|to: int, i: int|
                targets.contains(to) && 0 <= i < kinds.len() && e == #[trigger] spec_encode(
                    from,
                    to,
                    kinds[i],
                ),
    )
}

/// The moves of `target_moves` for every square of `froms`, with `tg` giving each one's targets.
pub open spec fn gen_moves(
    froms: Set<int>,
    tg: spec_fn(int) -> Set<int>,
    kinds: Seq<MoveType>,
) -> Set<u16> {
    Set::new(
        |e: u16| exists|f: int| froms.contains(f) && #[trigger] target_moves(f, tg(f), kinds).contains(e),
    )
}

pub proof fn lemma_moves_in_push(s: Seq<MoveListMove>, m: MoveListMove)
    ensures
        moves_in(s.push(m)) == moves_in(s).insert(m.mv.0),
{
    let t = s.push(m);
    assert forall|e: u16| moves_in(t).contains(e) == moves_in(s).insert(m.mv.0).contains(e) by {
        if moves_in(s).contains(e) {
            let i = choose|i: int| 0 <= i < s.len() && (#[trigger] s[i]).mv.0 == e;
            assert(t[i] == s[i]);
        }
        if moves_in(t).contains(e) {
            let i = choose|i: int| 0 <= i < t.len() && (#[trigger] t[i]).mv.0 == e;
            if i < s.len() {
                assert(t[i] == s[i]);
            }
        }
        if e == m.mv.0 {
            assert(t[s.len() as int] == m);
        }
    }
    assert(moves_in(t) =~= moves_in(s).insert(m.mv.0));
}


/// Moves with different from squares, to squares or types are encoded differently.
pub proof fn lemma_encode_injective(f1: int, t1: int, k1: MoveType, f2: int, t2: int, k2: MoveType)
    requires
        0 <= f1 < 64,
        0 <= t1 < 64,
        0 <= f2 < 64,
        0 <= t2 < 64,
        spec_encode(f1, t1, k1) == spec_encode(f2, t2, k2),
    ensures
        f1 == f2 && t1 == t2 && k1 == k2,
{
    crate::types::lemma_decode_encode(DecodedMove { from: Square(f1 as usize), to: Square(t1 as usize), mv_type: k1 });
    crate::types::lemma_decode_encode(DecodedMove { from: Square(f2 as usize), to: Square(t2 as usize), mv_type: k2 });
}

/// Targets on the board.
pub open spec fn targets_on_board(tg: spec_fn(int) -> Set<int>) -> bool {
    forall|f: int, t: int| #[trigger] tg(f).contains(t) ==> 0 <= t < 64
}

/// A move of `gen_moves` starts on one of its from squares and has one of its types.
pub proof fn lemma_gen_moves_parts(froms: Set<int>, tg: spec_fn(int) -> Set<int>, ks: Seq<MoveType>, e: u16)
    requires
        gen_moves(froms, tg, ks).contains(e),
        forall|f: int| froms.contains(f) ==> 0 <= f < 64,
        targets_on_board(tg),
    ensures
        exists|f: int, t: int, i: int|
            froms.contains(f) && tg(f).contains(t) && 0 <= i < ks.len() && 0 <= t < 64 && e == #[trigger] spec_encode(f, t, ks[i]),
{
    let f = choose|f: int| froms.contains(f) && #[trigger] target_moves(f, tg(f), ks).contains(e);
    let (t, i) = choose|t: int, i: int| tg(f).contains(t) && 0 <= i < ks.len() && e == #[trigger] spec_encode(f, t, ks[i]);
    assert(e == spec_encode(f, t, ks[i]));
}

/// Moves from disjoint sets of squares are different.
pub proof fn lemma_gen_disjoint_froms(
    f1: Set<int>,
    tg1: spec_fn(int) -> Set<int>,
    ks1: Seq<MoveType>,
    f2: Set<int>,
    tg2: spec_fn(int) -> Set<int>,
    ks2: Seq<MoveType>,
)
    requires
        f1.disjoint(f2),
        forall|f: int| f1.contains(f) ==> 0 <= f < 64,
        forall|f: int| f2.contains(f) ==> 0 <= f < 64,
        targets_on_board(tg1),
        targets_on_board(tg2),
    ensures
        gen_moves(f1, tg1, ks1).disjoint(gen_moves(f2, tg2, ks2)),
{
    assert forall|e: u16| gen_moves(f1, tg1, ks1).contains(e) implies !gen_moves(f2, tg2, ks2).contains(e) by {
        lemma_gen_moves_parts(f1, tg1, ks1, e);
        if gen_moves(f2, tg2, ks2).contains(e) {
            lemma_gen_moves_parts(f2, tg2, ks2, e);
            let (a, t, i) = choose|a: int, t: int, i: int|
                f1.contains(a) && tg1(a).contains(t) && 0 <= i < ks1.len() && 0 <= t < 64 && e == #[trigger] spec_encode(a, t, ks1[i]);
            let (b, u, j) = choose|b: int, u: int, j: int|
                f2.contains(b) && tg2(b).contains(u) && 0 <= j < ks2.len() && 0 <= u < 64 && e == #[trigger] spec_encode(b, u, ks2[j]);
            lemma_encode_injective(a, t, ks1[i], b, u, ks2[j]);
        }
    }
}

/// Moves of types that never agree are different.
pub proof fn lemma_gen_disjoint_kinds(
    f1: Set<int>,
    tg1: spec_fn(int) -> Set<int>,
    ks1: Seq<MoveType>,
    f2: Set<int>,
    tg2: spec_fn(int) -> Set<int>,
    ks2: Seq<MoveType>,
)
    requires
        forall|i: int, j: int| 0 <= i < ks1.len() && 0 <= j < ks2.len() ==> ks1[i] != ks2[j],
        forall|f: int| f1.contains(f) ==> 0 <= f < 64,
        forall|f: int| f2.contains(f) ==> 0 <= f < 64,
        targets_on_board(tg1),
        targets_on_board(tg2),
    ensures
        gen_moves(f1, tg1, ks1).disjoint(gen_moves(f2, tg2, ks2)),
{
    assert forall|e: u16| gen_moves(f1, tg1, ks1).contains(e) implies !gen_moves(f2, tg2, ks2).contains(e) by {
        lemma_gen_moves_parts(f1, tg1, ks1, e);
        if gen_moves(f2, tg2, ks2).contains(e) {
            lemma_gen_moves_parts(f2, tg2, ks2, e);
            let (a, t, i) = choose|a: int, t: int, i: int|
                f1.contains(a) && tg1(a).contains(t) && 0 <= i < ks1.len() && 0 <= t < 64 && e == #[trigger] spec_encode(a, t, ks1[i]);
            let (b, u, j) = choose|b: int, u: int, j: int|
                f2.contains(b) && tg2(b).contains(u) && 0 <= j < ks2.len() && 0 <= u < 64 && e == #[trigger] spec_encode(b, u, ks2[j]);
            lemma_encode_injective(a, t, ks1[i], b, u, ks2[j]);
        }
    }
}


/// The moves of a new from square are not among those of the squares done before.
pub proof fn lemma_new_from_disjoint(done: Set<int>, f: int, tg: spec_fn(int) -> Set<int>, ks: Seq<MoveType>)
    requires
        !done.contains(f),
        0 <= f < 64,
        forall|g: int| done.contains(g) ==> 0 <= g < 64,
        targets_on_board(tg),
    ensures
        gen_moves(done, tg, ks).disjoint(target_moves(f, tg(f), ks)),
{
    assert forall|e: u16| gen_moves(done, tg, ks).contains(e) implies !target_moves(f, tg(f), ks).contains(e) by {
        lemma_gen_moves_parts(done, tg, ks, e);
        let (g, t, i) = choose|g: int, t: int, i: int|
            done.contains(g) && tg(g).contains(t) && 0 <= i < ks.len() && 0 <= t < 64 && e == #[trigger] spec_encode(g, t, ks[i]);
        if target_moves(f, tg(f), ks).contains(e) {
            let (u, j) = choose|u: int, j: int| tg(f).contains(u) && 0 <= j < ks.len() && e == #[trigger] spec_encode(f, u, ks[j]);
            lemma_encode_injective(g, t, ks[i], f, u, ks[j]);
        }
    }
}


/// Pawn targets lie on the board.
pub proof fn lemma_pawn_tg_on_board(how: PawnStep, color: Color, empty: Set<int>, mask: Set<int>)
    ensures
        targets_on_board(pawn_tg(how, color, empty, mask)),
{
    assert forall|f: int, t: int| #[trigger] pawn_tg(how, color, empty, mask)(f).contains(t) implies 0 <= t < 64 by {}
}

/// Piece moves from disjoint sets of squares are different.
pub proof fn lemma_piece_moves_disjoint(
    p: Seq<Figure>,
    occ: u64,
    c: Color,
    k1: Piece,
    f1: Set<int>,
    a1: Set<int>,
    k2: Piece,
    f2: Set<int>,
    a2: Set<int>,
    quiets: bool,
)
    requires
        f1.disjoint(f2),
        forall|f: int| f1.contains(f) ==> 0 <= f < 64,
        forall|f: int| f2.contains(f) ==> 0 <= f < 64,
    ensures
        piece_moves(p, occ, c, k1, f1, a1, quiets).disjoint(piece_moves(p, occ, c, k2, f2, a2, quiets)),
{
    let tg1 = |f: int| attack_set(k1, c, f, occ).intersect(a1).intersect(dest_squares(p, c, quiets));
    let tg2 = |f: int| attack_set(k2, c, f, occ).intersect(a2).intersect(dest_squares(p, c, quiets));
    assert forall|g: int, t: int| #[trigger] tg1(g).contains(t) implies 0 <= t < 64 by {
        assert(dest_squares(p, c, quiets).contains(t));
    }
    assert forall|g: int, t: int| #[trigger] tg2(g).contains(t) implies 0 <= t < 64 by {
        assert(dest_squares(p, c, quiets).contains(t));
    }
    let ks = seq![move_kind(quiets)];
    lemma_gen_disjoint_froms(f1, tg1, ks, f2, tg2, ks);
}

/// A union is disjoint from a set when both parts are.
pub proof fn lemma_union_disjoint(a: Set<u16>, b: Set<u16>, c: Set<u16>)
    requires
        a.disjoint(c),
        b.disjoint(c),
    ensures
        (a + b).disjoint(c),
{
}

pub proof fn lemma_grows_trans(a: MoveList, b: MoveList, c: MoveList, s1: Set<u16>, s2: Set<u16>)
    requires
        grows_by(a, b, s1),
        grows_by(b, c, s2),
        s1.disjoint(s2),
    ensures
        grows_by(a, c, s1 + s2),
{
    assert forall|i: int, j: int| a.items().len() <= i < j < c.items().len() implies #[trigger] c.items()[i].mv.0
        != #[trigger] c.items()[j].mv.0 by {
        if i < b.items().len() {
            assert(c.items()[i] == c.items().subrange(0, b.items().len() as int)[i]);
        }
        if j < b.items().len() {
            assert(c.items()[j] == c.items().subrange(0, b.items().len() as int)[j]);
        }
    }
    assert forall|i: int| a.items().len() <= i < c.items().len() implies (s1 + s2).contains(#[trigger] c.items()[i].mv.0) by {
        if i < b.items().len() {
            assert(c.items()[i] == c.items().subrange(0, b.items().len() as int)[i]);
        }
    }
    assert(c.items().subrange(0, a.items().len() as int) =~= b.items().subrange(
        0,
        b.items().len() as int,
    ).subrange(0, a.items().len() as int));
    assert(c.items().subrange(0, b.items().len() as int).subrange(0, a.items().len() as int)
        =~= c.items().subrange(0, a.items().len() as int));
    if !c.overflow {
        assert(moves_in(c.items()) =~= moves_in(a.items()) + (s1 + s2));
    }
}

pub proof fn lemma_grows_refl(a: MoveList)
    ensures
        grows_by(a, a, Set::empty()),
{
    assert(a.items().subrange(0, a.items().len() as int) =~= a.items());
    assert(moves_in(a.items()) + Set::empty() =~= moves_in(a.items()));
}

/// Appends the moves from `from` to each square of `targets`, with each of the first `n`
/// types of `kinds`, target by target from the lowest square.
pub fn push_targets(
    list: &mut MoveList,
    from: Square,
    targets: u64,
    kinds: [MoveType; 4],
    n: usize,
)
    requires
        from.valid(),
        n <= 4,
        forall|a: int, b: int| 0 <= a < b < n ==> kinds[a] != kinds[b],
    ensures
        grows_by(*old(list), *final(list), target_moves(from.0 as int, bits(targets), kinds@.subrange(0, n as int))),
{
    let ghost start = *list;
    let ghost ks = kinds@.subrange(0, n as int);
    let ghost f = from.0 as int;
    let mut rem = targets;
    proof {
        lemma_grows_refl(*list);
        assert(target_moves(f, bits(targets).difference(bits(rem)), ks) =~= Set::empty());
    }
    while rem != 0
        invariant
            from.valid(),
            f == from.0 as int,
            n <= 4,
            ks == kinds@.subrange(0, n as int),
            forall|a: int| #[trigger] bit_set(rem, a) ==> bit_set(targets, a),
            grows_by(start, *list, target_moves(f, bits(targets).difference(bits(rem)), ks)),
            forall|a: int, b: int| 0 <= a < b < n ==> kinds[a] != kinds[b],
        decreases rem,
    {
        proof {
            lemma_pop_lsb(rem);
        }
        let to = rem.trailing_zeros() as usize;
        let ghost before = *list;
        let mut i: usize = 0;
        proof {
            lemma_grows_refl(*list);
            assert(Set::new(|e: u16| exists|j: int| 0 <= j < i && e == #[trigger] spec_encode(f, to as int, ks[j])) =~= Set::empty());
        }
        while i < n
            invariant
                from.valid(),
                f == from.0 as int,
                to < 64,
                n <= 4,
                i <= n,
                ks == kinds@.subrange(0, n as int),
                grows_by(before, *list, Set::new(|e: u16| exists|j: int| 0 <= j < i && e == #[trigger] spec_encode(f, to as int, ks[j]))),
                forall|a: int, b: int| 0 <= a < b < n ==> kinds[a] != kinds[b],
            decreases n - i,
        {
            let ghost mid = *list;
            let m = EncodedMove::encode(from, Square(to), kinds[i]);
            list.push(m);
            proof {
                let s_old = Set::new(|e: u16| exists|j: int| 0 <= j < i && e == #[trigger] spec_encode(f, to as int, ks[j]));
                let s_new = Set::new(|e: u16| exists|j: int| 0 <= j < i + 1 && e == #[trigger] spec_encode(f, to as int, ks[j]));
                assert(ks[i as int] == kinds[i as int]);
                if !list.overflow {
                    lemma_moves_in_push(mid.items(), MoveListMove { score: 0, mv: m });
                    assert(moves_in(list.items()) =~= moves_in(mid.items()) + set![m.0]);
                }
                assert(list.items().subrange(0, mid.items().len() as int) =~= mid.items());
                assert(grows_by(mid, *list, set![m.0]));
                assert(s_new =~= s_old + set![m.0]) by {
                    assert forall|e: u16| s_new.contains(e) implies (s_old + set![m.0]).contains(e) by {
                        let j = choose|j: int| 0 <= j < i + 1 && e == #[trigger] spec_encode(f, to as int, ks[j]);
                        if j < i {
                            assert(s_old.contains(e));
                        }
                    }
                }
                assert forall|e: u16| s_old.contains(e) implies !set![m.0].contains(e) by {
                    let j = choose|j: int| 0 <= j < i && e == #[trigger] spec_encode(f, to as int, ks[j]);
                    if e == m.0 {
                        lemma_encode_injective(f, to as int, ks[j], f, to as int, ks[i as int]);
                    }
                }
                lemma_grows_trans(before, mid, *list, s_old, set![m.0]);
            }
            i = i + 1;
        }
        let next = rem & (rem - 1);
        proof {
            let done_old = bits(targets).difference(bits(rem));
            let done_new = bits(targets).difference(bits(next));
            let s_to = Set::new(|e: u16| exists|j: int| 0 <= j < n && e == #[trigger] spec_encode(f, to as int, ks[j]));
            assert(done_new =~= done_old.insert(to as int));
            assert forall|e: u16| target_moves(f, done_old, ks).contains(e) implies !s_to.contains(e) by {
                let (t, j) = choose|t: int, j: int| done_old.contains(t) && 0 <= j < ks.len() && e == #[trigger] spec_encode(f, t, ks[j]);
                if s_to.contains(e) {
                    let j2 = choose|j2: int| 0 <= j2 < n && e == #[trigger] spec_encode(f, to as int, ks[j2]);
                    lemma_encode_injective(f, t, ks[j], f, to as int, ks[j2]);
                }
            }
            lemma_grows_trans(start, before, *list, target_moves(f, done_old, ks), s_to);
            assert(target_moves(f, done_new, ks) =~= target_moves(f, done_old, ks) + s_to) by {
                assert forall|e: u16| target_moves(f, done_new, ks).contains(e) implies (target_moves(f, done_old, ks) + s_to).contains(e) by {
                    let (t, j) = choose|t: int, j: int| done_new.contains(t) && 0 <= j < ks.len() && e == #[trigger] spec_encode(f, t, ks[j]);
                    if t != to as int {
                        assert(target_moves(f, done_old, ks).contains(e));
                    } else {
                        assert(s_to.contains(e));
                    }
                }
                assert forall|e: u16| (target_moves(f, done_old, ks) + s_to).contains(e) implies target_moves(f, done_new, ks).contains(e) by {
                    if s_to.contains(e) {
                        let j = choose|j: int| 0 <= j < n && e == #[trigger] spec_encode(f, to as int, ks[j]);
                        assert(done_new.contains(to as int));
                    } else {
                        let (t, j) = choose|t: int, j: int| done_old.contains(t) && 0 <= j < ks.len() && e == #[trigger] spec_encode(f, t, ks[j]);
                        assert(done_new.contains(t));
                    }
                }
            }
        }
        rem = next;
    }
    proof {
        lemma_zero_iff_no_bits(rem);
        assert(bits(targets).difference(bits(rem)) =~= bits(targets));
    }
}

/// Adding a square to the from squares adds its moves.
pub proof fn lemma_gen_moves_insert(
    done: Set<int>,
    f: int,
    tg: spec_fn(int) -> Set<int>,
    ks: Seq<MoveType>,
)
    ensures
        gen_moves(done.insert(f), tg, ks) == gen_moves(done, tg, ks) + target_moves(f, tg(f), ks),
{
    let a = gen_moves(done.insert(f), tg, ks);
    let b = gen_moves(done, tg, ks) + target_moves(f, tg(f), ks);
    assert forall|e: u16| a.contains(e) implies b.contains(e) by {
        let g = choose|g: int| done.insert(f).contains(g) && #[trigger] target_moves(g, tg(g), ks).contains(e);
        if g != f {
            assert(gen_moves(done, tg, ks).contains(e));
        }
    }
    assert forall|e: u16| b.contains(e) implies a.contains(e) by {
        if target_moves(f, tg(f), ks).contains(e) {
            assert(done.insert(f).contains(f));
        } else {
            let g = choose|g: int| done.contains(g) && #[trigger] target_moves(g, tg(g), ks).contains(e);
            assert(done.insert(f).contains(g));
        }
    }
    assert(a =~= b);
}

pub proof fn lemma_gen_moves_empty(tg: spec_fn(int) -> Set<int>, ks: Seq<MoveType>)
    ensures
        gen_moves(Set::empty(), tg, ks) == Set::<u16>::empty(),
{
    assert(gen_moves(Set::empty(), tg, ks) =~= Set::<u16>::empty());
}

/// Targets of a `kind` piece of `color` on `f` with `occ` occupied, within `mask`.
pub open spec fn masked_attacks(kind: Piece, color: Color, occ: u64, mask: u64) -> spec_fn(int) -> Set<int> {
    |f: int| attack_set(kind, color, f, occ).intersect(bits(mask))
}

/// Appends, for each square of `froms`, a move of type `mtype` to each square that a `kind`
/// piece of `color` there attacks with `occupied` blocking and that lies in `mask`.
pub fn push_piece_moves(
    list: &mut MoveList,
    froms: u64,
    kind: Piece,
    color: Color,
    occupied: Bitboard,
    mask: u64,
    mtype: MoveType,
)
    ensures
        grows_by(*old(list), *final(list), gen_moves(bits(froms), masked_attacks(kind, color, occupied.0, mask), seq![mtype])),
{
    let ghost start = *list;
    let ghost tg = masked_attacks(kind, color, occupied.0, mask);
    let ghost ks = seq![mtype];
    let kinds = [mtype, mtype, mtype, mtype];
    let mut rem = froms;
    proof {
        lemma_grows_refl(*list);
        assert(bits(froms).difference(bits(rem)) =~= Set::empty());
        lemma_gen_moves_empty(tg, ks);
    }
    while rem != 0
        invariant
            tg == masked_attacks(kind, color, occupied.0, mask),
            ks == seq![mtype],
            kinds@ == seq![mtype, mtype, mtype, mtype],
            forall|a: int| #[trigger] bit_set(rem, a) ==> bit_set(froms, a),
            grows_by(start, *list, gen_moves(bits(froms).difference(bits(rem)), tg, ks)),
        decreases rem,
    {
        proof {
            lemma_pop_lsb(rem);
        }
        let f = rem.trailing_zeros() as usize;
        let ghost before = *list;
        let a = piece_attacks(kind, color, Square(f), occupied);
        let t = a.0 & mask;
        push_targets(list, Square(f), t, kinds, 1);
        let next = rem & (rem - 1);
        proof {
            lemma_bit_ops(a.0, mask);
            assert(kinds@.subrange(0, 1) =~= ks);
            assert(bits(t) =~= tg(f as int));
            let done_old = bits(froms).difference(bits(rem));
            assert(bits(froms).difference(bits(next)) =~= done_old.insert(f as int));
            lemma_gen_moves_insert(done_old, f as int, tg, ks);
            assert forall|g: int, u: int| #[trigger] tg(g).contains(u) implies 0 <= u < 64 by {
                assert(bits(mask).contains(u));
            }
            lemma_new_from_disjoint(done_old, f as int, tg, ks);
            lemma_grows_trans(start, before, *list, gen_moves(done_old, tg, ks), target_moves(f as int, tg(f as int), ks));
        }
        rem = next;
    }
    proof {
        lemma_zero_iff_no_bits(rem);
        assert(bits(froms).difference(bits(rem)) =~= bits(froms));
    }
}

/// The squares holding `fig`.
pub open spec fn squares_of(p: Seq<Figure>, fig: Figure) -> Set<int> {
    Set::new(|s: int| 0 <= s < 64 && p[s] == fig)
}

/// The squares a move of the side `friendly` may go to: empty squares for quiet moves,
/// enemy pieces other than the king for captures.
pub open spec fn dest_squares(p: Seq<Figure>, friendly: Color, quiets: bool) -> Set<int> {
    if quiets {
        Set::new(|s: int| 0 <= s < 64 && p[s] == Figure::Empty)
    } else {
        Set::new(
            |s: int|
                0 <= s < 64 && p[s] != Figure::Empty && p[s].spec_color() == friendly.spec_opposite()
                    && p[s].spec_piece() != Piece::King,
        )
    }
}

/// `Quiet` for quiet moves, `Capture` for captures.
pub open spec fn move_kind(quiets: bool) -> MoveType {
    if quiets {
        MoveType::Quiet
    } else {
        MoveType::Capture
    }
}

/// Quiet moves or captures of `kind` pieces of `friendly` on `froms`, to squares of
/// `allowed` that such a piece attacks with `occ` occupied.
pub open spec fn piece_moves(
    p: Seq<Figure>,
    occ: u64,
    friendly: Color,
    kind: Piece,
    froms: Set<int>,
    allowed: Set<int>,
    quiets: bool,
) -> Set<u16> {
    gen_moves(
        froms,
        |f: int| attack_set(kind, friendly, f, occ).intersect(allowed).intersect(dest_squares(p, friendly, quiets)),
        seq![move_kind(quiets)],
    )
}

/// The empty squares (quiet moves) or the enemy pieces other than the king (captures).
pub fn dest_board(board: &Board, friendly: Color, quiets: bool) -> (r: u64)
    requires
        board.wf(),
    ensures
        bits(r) == dest_squares(board.pieces@, friendly, quiets),
{
    if quiets {
        let e = board.empty();
        assert(bits(e.0) =~= dest_squares(board.pieces@, friendly, quiets));
        e.0
    } else {
        let e = board.color_bbs_without_king(friendly.opposite());
        assert(bits(e.0) =~= dest_squares(board.pieces@, friendly, quiets));
        e.0
    }
}

/// Appends quiet moves or captures of `kind` pieces of `friendly` on `froms` to the
/// squares of `allowed` they attack.
pub fn push_moves_of(
    list: &mut MoveList,
    board: &Board,
    quiets: bool,
    friendly: Color,
    kind: Piece,
    froms: u64,
    allowed: u64,
)
    requires
        board.wf(),
    ensures
        grows_by(*old(list), *final(list), piece_moves(board.pieces@, board.occupied, friendly, kind, bits(froms), bits(allowed), quiets)),
{
    let dest = dest_board(board, friendly, quiets);
    let mtype = if quiets {
        MoveType::Quiet
    } else {
        MoveType::Capture
    };
    let occ = board.occupied();
    push_piece_moves(list, froms, kind, friendly, occ, allowed & dest, mtype);
    proof {
        lemma_bit_ops(allowed, dest);
        let tg1 = masked_attacks(kind, friendly, occ.0, allowed & dest);
        let tg2 = |f: int| attack_set(kind, friendly, f, occ.0).intersect(bits(allowed)).intersect(dest_squares(board.pieces@, friendly, quiets));
        assert forall|f: int| #[trigger] tg1(f) == tg2(f) by {
            assert(tg1(f) =~= tg2(f));
        }
        assert(tg1 =~= tg2);
    }
}

/// The square `n` ranks ahead of `f` for a pawn of `color`.
pub open spec fn pawn_step(color: Color, f: int, n: int) -> int {
    f + 8 * n * crate::targets::pawn_dir(color)
}

/// How a group of pawns moves: one step, two steps, or diagonally capturing.
#[derive(Clone, Copy, PartialEq, Eq, Structural, Debug)]
pub enum PawnStep {
    Single,
    Double,
    Capture,
}

/// Targets of a pawn of `color` on `f` moving by `how`, within `mask`; a double step also
/// needs the square in between in `empty`.
pub open spec fn pawn_targets(how: PawnStep, color: Color, f: int, empty: Set<int>, mask: Set<int>) -> Set<int> {
    Set::new(
        |t: int|
            0 <= t < 64 && mask.contains(t) && match how {
                PawnStep::Single => t == pawn_step(color, f, 1),
                PawnStep::Double => t == pawn_step(color, f, 2) && empty.contains(pawn_step(color, f, 1)),
                PawnStep::Capture => crate::targets::pawn_attacks(color, f, t),
            },
    )
}

proof fn lemma_shift_up(f: u64, k: u64)
    requires
        f < 64,
        k < 64,
    ensures
        forall|j: int| #[trigger] bit_set((1u64 << f) << k, j) == (j == f + k && f + k < 64),
        forall|j: int| #[trigger] bit_set((1u64 << f) >> k, j) == (j == f - k && f >= k),
{
    assert forall|j: int| #[trigger] bit_set((1u64 << f) << k, j) == (j == f + k && f + k < 64) by {
        if 0 <= j < 64 {
            let jj = j as u64;
            assert((((1u64 << f) << k) >> jj) & 1u64 == 1u64 <==> (jj == f + k && f + k < 64)) by (bit_vector)
                requires f < 64, k < 64, jj < 64;
        }
    }
    assert forall|j: int| #[trigger] bit_set((1u64 << f) >> k, j) == (j == f - k && f >= k) by {
        if 0 <= j < 64 {
            let jj = j as u64;
            assert((((1u64 << f) >> k) >> jj) & 1u64 == 1u64 <==> (jj + k == f)) by (bit_vector)
                requires f < 64, k < 64, jj < 64;
        }
    }
}

/// The squares of a single pawn move of `color` from `from` by `n` ranks (1 or 2).
pub fn pawn_step_bits(color: Color, from: Square, n: u64) -> (r: u64)
    requires
        from.valid(),
        n == 1 || n == 2,
    ensures
        forall|j: int| #[trigger] bit_set(r, j) == (0 <= j < 64 && j == pawn_step(color, from.0 as int, n as int)),
{
    let b = from.to_bit();
    proof {
        lemma_shift_up(from.0 as u64, (8 * n) as u64);
    }
    if n == 1 {
        crate::targets::pawn_quiet_single_target(b, color).0
    } else {
        crate::targets::pawn_quiet_double_target(b, color).0
    }
}

/// The targets of pawns moving by `how`, as a function of the from square.
pub open spec fn pawn_tg(how: PawnStep, color: Color, empty: Set<int>, mask: Set<int>) -> spec_fn(int) -> Set<int> {
    |f: int| pawn_targets(how, color, f, empty, mask)
}

/// Appends, for each pawn of `color` on a square of `froms`, the moves by `how` to squares
/// of `mask`, each with the first `n` types of `kinds`.
pub fn push_pawn_group(
    list: &mut MoveList,
    froms: u64,
    color: Color,
    how: PawnStep,
    empty: u64,
    mask: u64,
    kinds: [MoveType; 4],
    n: usize,
)
    requires
        n <= 4,
        forall|a: int, b: int| 0 <= a < b < n ==> kinds[a] != kinds[b],
    ensures
        grows_by(*old(list), *final(list), gen_moves(bits(froms), pawn_tg(how, color, bits(empty), bits(mask)), kinds@.subrange(0, n as int))),
{
    let ghost start = *list;
    let ghost tg = pawn_tg(how, color, bits(empty), bits(mask));
    let ghost ks = kinds@.subrange(0, n as int);
    let mut rem = froms;
    proof {
        lemma_grows_refl(*list);
        assert(bits(froms).difference(bits(rem)) =~= Set::empty());
        lemma_gen_moves_empty(tg, ks);
    }
    while rem != 0
        invariant
            n <= 4,
            tg == pawn_tg(how, color, bits(empty), bits(mask)),
            ks == kinds@.subrange(0, n as int),
            forall|a: int| #[trigger] bit_set(rem, a) ==> bit_set(froms, a),
            grows_by(start, *list, gen_moves(bits(froms).difference(bits(rem)), tg, ks)),
            forall|a: int, b: int| 0 <= a < b < n ==> kinds[a] != kinds[b],
        decreases rem,
    {
        proof {
            lemma_pop_lsb(rem);
        }
        let f = rem.trailing_zeros() as usize;
        let ghost before = *list;
        let from = Square(f);
        let one = pawn_step_bits(color, from, 1);
        let two = pawn_step_bits(color, from, 2);
        let cap = crate::targets::pawn_attack_targets(color, from).0;
        let t = match how {
            PawnStep::Single => one & mask,
            PawnStep::Double => {
                if one & empty != 0 {
                    two & mask
                } else {
                    0
                }
            },
            PawnStep::Capture => cap & mask,
        };
        proof {
            lemma_bit_ops(one, mask);
            lemma_bit_ops(one, empty);
            lemma_bit_ops(two, mask);
            lemma_bit_ops(cap, mask);
            lemma_zero_iff_no_bits(one & empty);
            lemma_zero_iff_no_bits(0);
            if how == PawnStep::Double {
                if one & empty != 0 {
                    let j = choose|j: int| bit_set(one & empty, j);
                    assert(j == pawn_step(color, f as int, 1));
                }
            }
            assert(tg(f as int) == pawn_targets(how, color, f as int, bits(empty), bits(mask)));
            assert forall|j: int| bits(t).contains(j) == pawn_targets(how, color, f as int, bits(empty), bits(mask)).contains(j) by {
                assert(bits(t).contains(j) == bit_set(t, j));
                match how {
                    PawnStep::Single => {
                        assert(bit_set(t, j) == (bit_set(one, j) && bit_set(mask, j)));
                    },
                    PawnStep::Double => {
                        if one & empty != 0 {
                            assert(bit_set(t, j) == (bit_set(two, j) && bit_set(mask, j)));
                            assert(bits(empty).contains(pawn_step(color, f as int, 1)));
                        } else {
                            assert(!bit_set(t, j));
                            if bits(empty).contains(pawn_step(color, f as int, 1)) {
                                assert(bit_set(one & empty, pawn_step(color, f as int, 1)));
                            }
                        }
                    },
                    PawnStep::Capture => {
                        assert(bit_set(t, j) == (bit_set(cap, j) && bit_set(mask, j)));
                    },
                }
            }
            assert(bits(t) =~= tg(f as int));
        }
        push_targets(list, from, t, kinds, n);
        let next = rem & (rem - 1);
        proof {
            let done_old = bits(froms).difference(bits(rem));
            assert(bits(froms).difference(bits(next)) =~= done_old.insert(f as int));
            lemma_gen_moves_insert(done_old, f as int, tg, ks);
            lemma_new_from_disjoint(done_old, f as int, tg, ks);
            lemma_grows_trans(start, before, *list, gen_moves(done_old, tg, ks), target_moves(f as int, tg(f as int), ks));
        }
        rem = next;
    }
    proof {
        lemma_zero_iff_no_bits(rem);
        assert(bits(froms).difference(bits(rem)) =~= bits(froms));
    }
}

/// Lists holding the same moves at the same places hold the same moves.
pub proof fn lemma_moves_in_same_moves(a: Seq<MoveListMove>, b: Seq<MoveListMove>)
    requires
        a.len() == b.len(),
        forall|i: int| 0 <= i < a.len() ==> (#[trigger] a[i]).mv == b[i].mv,
    ensures
        moves_in(a) == moves_in(b),
{
    assert forall|e: u16| moves_in(a).contains(e) == moves_in(b).contains(e) by {
        if moves_in(a).contains(e) {
            let i = choose|i: int| 0 <= i < a.len() && (#[trigger] a[i]).mv.0 == e;
            assert(b[i].mv.0 == e);
        }
        if moves_in(b).contains(e) {
            let i = choose|i: int| 0 <= i < b.len() && (#[trigger] b[i]).mv.0 == e;
            assert(a[i].mv == b[i].mv);
        }
    }
    assert(moves_in(a) =~= moves_in(b));
}

/// Lists with the same multiset of entries hold the same moves.
pub proof fn lemma_moves_in_multiset(a: Seq<MoveListMove>, b: Seq<MoveListMove>)
    requires
        a.to_multiset() == b.to_multiset(),
    ensures
        moves_in(a) == moves_in(b),
{
    broadcast use vstd::seq_lib::group_to_multiset_ensures;
    assert forall|e: u16| moves_in(a).contains(e) == moves_in(b).contains(e) by {
        if moves_in(a).contains(e) {
            let i = choose|i: int| 0 <= i < a.len() && (#[trigger] a[i]).mv.0 == e;
            assert(a.contains(a[i]));
            assert(b.to_multiset().count(a[i]) > 0);
            assert(b.contains(a[i]));
            let j = choose|j: int| 0 <= j < b.len() && b[j] == a[i];
            assert(b[j].mv.0 == e);
        }
        if moves_in(b).contains(e) {
            let i = choose|i: int| 0 <= i < b.len() && (#[trigger] b[i]).mv.0 == e;
            assert(b.contains(b[i]));
            assert(a.to_multiset().count(b[i]) > 0);
            assert(a.contains(b[i]));
            let j = choose|j: int| 0 <= j < a.len() && a[j] == b[i];
            assert(a[j].mv.0 == e);
        }
    }
    assert(moves_in(a) =~= moves_in(b));
}

} // verus!
