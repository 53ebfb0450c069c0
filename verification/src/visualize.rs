//! Text for debugging output: short counts such as "4.8M", and moves grouped by kind.
use crate::types::{char_of_byte, spec_decode, string_push, type_code, EncodedMove};
use vstd::prelude::*;

verus! {

/// The digit character of `d` (0 to 9).
pub open spec fn digit_char(d: nat) -> char {
    (48 + d) as char
}

/// The decimal digits of `n`, as `format!("{}", n)` writes them.
pub open spec fn decimal(n: nat) -> Seq<char>
    decreases n,
{
    if n < 10 {
        seq![digit_char(n)]
    } else {
        decimal(n / 10).push(digit_char(n % 10))
    }
}

/// Appends the decimal digits of `n` to `s`.
pub fn push_decimal(s: &mut String, n: usize)
    ensures
        final(s)@ == old(s)@ + decimal(n as nat),
    decreases n,
{
    if n >= 10 {
        push_decimal(s, n / 10);
    }
    let ghost mid = s@;
    let d = (n % 10) as u8;
    string_push(s, char_of_byte(48 + d));
    proof {
        if n < 10 {
            assert(s@ =~= old(s)@ + decimal(n as nat));
        } else {
            assert(s@ =~= old(s)@ + decimal(n as nat));
        }
    }
}

/// The unit letter after dividing by 1000 `exp` times.
pub open spec fn unit(exp: nat) -> Seq<char> {
    if exp == 1 {
        seq!['k']
    } else if exp == 2 {
        seq!['M']
    } else if exp == 3 {
        seq!['G']
    } else if exp == 4 {
        seq!['T']
    } else if exp == 5 {
        seq!['P']
    } else if exp == 6 {
        seq!['E']
    } else {
        seq![]
    }
}

/// Divides `v` by 1000 while it is at least 1000, at most six times in all; gives the
/// quotient, the number of divisions and 1000 to that power.
pub open spec fn shrink(v: nat, exp: nat, p: nat) -> (nat, nat, nat)
    decreases 6 - exp,
{
    if v >= 1000 && exp < 6 {
        shrink(v / 1000, exp + 1, p * 1000)
    } else {
        (v, exp, p)
    }
}

/// A count in short form: below 1000 as it is; else divided by 1000 as often as it takes
/// (at most six times), with one truncated decimal unless it is 0, and the unit letter.
pub open spec fn spec_format_usize(n: nat) -> Seq<char> {
    if n < 1000 {
        decimal(n)
    } else {
        let (value, exp, p) = shrink(n, 0, 1);
        let divisor = p / 10;
        let remainder = if divisor > 0 {
            (n / divisor) % 10
        } else {
            0
        };
        if remainder > 0 {
            decimal(value) + seq!['.'] + decimal(remainder) + unit(exp)
        } else {
            decimal(value) + unit(exp)
        }
    }
}

/// Appends the unit letter of `exp`.
fn push_unit(s: &mut String, exp: usize)
    ensures
        final(s)@ == old(s)@ + unit(exp as nat),
{
    let ghost before = s@;
    if exp == 1 {
        string_push(s, 'k');
    } else if exp == 2 {
        string_push(s, 'M');
    } else if exp == 3 {
        string_push(s, 'G');
    } else if exp == 4 {
        string_push(s, 'T');
    } else if exp == 5 {
        string_push(s, 'P');
    } else if exp == 6 {
        string_push(s, 'E');
    }
    assert(s@ =~= before + unit(exp as nat));
}

/// Formats a count in short form, such as "4.8M" for 4865609 (see `spec_format_usize`).
pub fn format_usize(n: usize) -> (r: String)
    ensures
        r@ == spec_format_usize(n as nat),
{
    let mut s = String::new();
    if n < 1000 {
        push_decimal(&mut s, n);
        assert(s@ =~= decimal(n as nat));
        return s;
    }
    let mut value = n;
    let mut exp: usize = 0;
    let mut p: usize = 1;
    while value >= 1000 && exp < 6
        invariant
            exp <= 6,
            p >= 1,
            p * value <= n,
            shrink(value as nat, exp as nat, p as nat) == shrink(n as nat, 0, 1),
            exp == 0 ==> p == 1 && value == n,
            exp > 0 ==> p >= 1000,
        decreases 6 - exp,
    {
        assert(p * 1000 <= p * value) by (nonlinear_arith)
            requires
                value >= 1000,
                p >= 1,
        ;
        assert(p * 1000 * (value / 1000) <= p * value) by (nonlinear_arith)
            requires
                p >= 1,
        ;
        value = value / 1000;
        exp = exp + 1;
        p = p * 1000;
    }
    let divisor = p / 10;
    let remainder = if divisor > 0 {
        (n / divisor) % 10
    } else {
        0
    };
    let ghost before = s@;
    push_decimal(&mut s, value);
    if remainder > 0 {
        string_push(&mut s, '.');
        push_decimal(&mut s, remainder);
    }
    push_unit(&mut s, exp);
    assert(s@ =~= spec_format_usize(n as nat));
    s
}

/// The moves of `s` whose type has code `c`, in their order.
pub open spec fn moves_of_type(s: Seq<EncodedMove>, c: int) -> Seq<EncodedMove>
    decreases s.len(),
{
    if s.len() == 0 {
        seq![]
    } else if type_code(spec_decode(s.last().0).mv_type) == c {
        moves_of_type(s.drop_last(), c).push(s.last())
    } else {
        moves_of_type(s.drop_last(), c)
    }
}

/// The moves of `moves` grouped by type: entry `c` holds, in their order, the moves whose
/// type has the 4-bit code `c` (see `MoveType::code`).
pub fn group_moves_by_type(moves: &[EncodedMove]) -> (r: Vec<Vec<EncodedMove>>)
    ensures
        r@.len() == 16,
        forall|c: int| 0 <= c < 16 ==> (#[trigger] r@[c])@ == moves_of_type(moves@, c),
{
    let mut groups: Vec<Vec<EncodedMove>> = Vec::new();
    let mut c: u16 = 0;
    while c < 16
        invariant
            c <= 16,
            groups@.len() == c,
            forall|k: int| 0 <= k < c ==> (#[trigger] groups@[k])@ == moves_of_type(moves@, k),
        decreases 16 - c,
    {
        let mut group: Vec<EncodedMove> = Vec::new();
        let mut i: usize = 0;
        while i < moves.len()
            invariant
                i <= moves@.len(),
                group@ == moves_of_type(moves@.subrange(0, i as int), c as int),
            decreases moves.len() - i,
        {
            let m = moves[i];
            let ghost pre = moves@.subrange(0, i as int);
            assert(moves@.subrange(0, i + 1).drop_last() =~= pre);
            assert(moves@.subrange(0, i + 1).last() == m);
            if m.decode().mv_type.code() == c {
                group.push(m);
            }
            i = i + 1;
        }
        assert(moves@.subrange(0, moves@.len() as int) =~= moves@);
        groups.push(group);
        c = c + 1;
    }
    groups
}

} // verus!
