//! Search features and tunable limits.
use vstd::prelude::*;

verus! {

/// Alpha-beta cut-offs.
pub const AB: bool = true;

/// Quiescence search at the horizon.
pub const QS: bool = true;

/// Transposition table in the alpha-beta search.
pub const TT_AB: bool = true;

/// Transposition table in the quiescence search.
pub const TT_QS: bool = true;

/// MVV-LVA ordering of captures.
pub const MVV_LVA: bool = true;

/// The move from the transposition table is tried first.
pub const ORDER_TT_MV_FIRST: bool = true;

/// Cut-offs on transposition table hits.
pub const TT_CUTTOFFS: bool = true;

/// Null move pruning.
pub const NMP: bool = false;

/// Reverse futility pruning.
pub const RFP: bool = true;

/// Principal variation search.
pub const PVS: bool = false;

/// Killer moves.
pub const KILLERS: bool = false;

/// History heuristic for quiet moves.
pub const HISTORIES: bool = false;

/// Check evasions are searched in the quiescence search below this ply.
pub const QS_CHECK_EVASION_LIMIT: usize = 2;

/// Deepest quiescence search.
pub const MAX_QS_DEPTH: usize = 12;

/// Deepest alpha-beta search.
pub const MAX_AB_DEPTH: usize = 128;

/// How far a static evaluation must exceed beta, per ply, for a reverse futility cut-off.
pub const RFP_MARGIN: usize = 50;

/// Engine state needs no set up: the transposition table and histories are created by
/// their owners.
pub fn init() {
}

/// `String::push_str` of the standard library: the contract claims it appends the
/// characters of `t` to those of `s`.
#[verifier::external_body]
fn push_str(s: &mut String, t: &str)
    ensures
        final(s)@ == old(s)@ + t@,
{
    s.push_str(t)
}

/// The words `true` or `false`.
pub open spec fn bool_word(b: bool) -> Seq<char> {
    if b {
        seq!['t', 'r', 'u', 'e']
    } else {
        seq!['f', 'a', 'l', 's', 'e']
    }
}

fn push_flag(s: &mut String, name: &str, value: bool)
    ensures
        final(s)@ == old(s)@ + name@ + bool_word(value),
{
    push_str(s, name);
    if value {
        let ghost before = s@;
        push_str(s, "true");
        proof {
            reveal_strlit("true");
            assert(s@ =~= before + bool_word(value));
        }
    } else {
        let ghost before = s@;
        push_str(s, "false");
        proof {
            reveal_strlit("false");
            assert(s@ =~= before + bool_word(value));
        }
    }
}

/// A line naming every search feature with its setting, such as `AB=true`.
pub fn repr() -> (r: String)
    ensures
        r@ == "Activated Features: AB="@ + bool_word(AB) + " QS="@ + bool_word(QS) + " TT-AB="@
            + bool_word(TT_AB) + " TT-QS="@ + bool_word(TT_QS) + " MVV-LVA="@ + bool_word(MVV_LVA)
            + " QS_CHECK_EVASION_LIMIT="@ + crate::visualize::decimal(QS_CHECK_EVASION_LIMIT as nat)
            + " ORDER_TT_MV_FIRST="@ + bool_word(ORDER_TT_MV_FIRST) + " TT_CUTTOFFS="@ + bool_word(
            TT_CUTTOFFS,
        ) + " NMP="@ + bool_word(NMP) + " RFP="@ + bool_word(RFP) + " PVS="@ + bool_word(PVS)
            + ", KILLERS="@ + bool_word(KILLERS),
{
    let mut s = String::new();
    push_flag(&mut s, "Activated Features: AB=", AB);
    push_flag(&mut s, " QS=", QS);
    push_flag(&mut s, " TT-AB=", TT_AB);
    push_flag(&mut s, " TT-QS=", TT_QS);
    push_flag(&mut s, " MVV-LVA=", MVV_LVA);
    push_str(&mut s, " QS_CHECK_EVASION_LIMIT=");
    crate::visualize::push_decimal(&mut s, QS_CHECK_EVASION_LIMIT);
    push_flag(&mut s, " ORDER_TT_MV_FIRST=", ORDER_TT_MV_FIRST);
    push_flag(&mut s, " TT_CUTTOFFS=", TT_CUTTOFFS);
    push_flag(&mut s, " NMP=", NMP);
    push_flag(&mut s, " RFP=", RFP);
    push_flag(&mut s, " PVS=", PVS);
    push_flag(&mut s, ", KILLERS=", KILLERS);
    assert(s@ =~= "Activated Features: AB="@ + bool_word(AB) + " QS="@ + bool_word(QS) + " TT-AB="@
        + bool_word(TT_AB) + " TT-QS="@ + bool_word(TT_QS) + " MVV-LVA="@ + bool_word(MVV_LVA)
        + " QS_CHECK_EVASION_LIMIT="@ + crate::visualize::decimal(QS_CHECK_EVASION_LIMIT as nat)
        + " ORDER_TT_MV_FIRST="@ + bool_word(ORDER_TT_MV_FIRST) + " TT_CUTTOFFS="@ + bool_word(
        TT_CUTTOFFS,
    ) + " NMP="@ + bool_word(NMP) + " RFP="@ + bool_word(RFP) + " PVS="@ + bool_word(PVS)
        + ", KILLERS="@ + bool_word(KILLERS));
    s
}

/// The xorshift generator used to search for magic numbers, seeded with 187.
pub struct RandomXorShiftGenerator(pub u64);

/// One step of the generator: shifts by 13 left, 17 right and 5 left.
pub open spec fn xorshift_step(i: u64) -> u64 {
    let a = i ^ (i << 13u64);
    let b = a ^ (a >> 17u64);
    b ^ (b << 5u64)
}

impl RandomXorShiftGenerator {
    pub fn new() -> (r: RandomXorShiftGenerator)
        ensures
            r.0 == 187,
    {
        RandomXorShiftGenerator(187)
    }

    /// Advances the generator and returns its new state.
    pub fn next(&mut self) -> (r: u64)
        ensures
            r == xorshift_step(old(self).0),
            final(self).0 == r,
    {
        let mut i = self.0;
        i = i ^ (i << 13u64);
        i = i ^ (i >> 17u64);
        i = i ^ (i << 5u64);
        self.0 = i;
        i
    }
}

} // verus!
