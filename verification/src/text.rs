//! Decimal text of integers, and small string helpers shared by the
//! normalizer (fresh `tmpK` names) and the emitter (integer literals).

use vstd::prelude::*;

verus! {

/// The character of one decimal digit.
pub open spec fn digit_char(d: nat) -> char {
    if d == 0 {
        '0'
    } else if d == 1 {
        '1'
    } else if d == 2 {
        '2'
    } else if d == 3 {
        '3'
    } else if d == 4 {
        '4'
    } else if d == 5 {
        '5'
    } else if d == 6 {
        '6'
    } else if d == 7 {
        '7'
    } else if d == 8 {
        '8'
    } else {
        '9'
    }
}

/// The decimal text of a natural number, without sign and without
/// leading zeros (the number zero is the single digit `0`).
pub open spec fn dec_str(n: nat) -> Seq<char>
    decreases n,
{
    if n < 10 {
        seq![digit_char(n)]
    } else {
        dec_str(n / 10) + seq![digit_char(n % 10)]
    }
}

/// The decimal text of a signed number: a minus sign before the digits
/// of the magnitude when the number is negative.
pub open spec fn int_str(i: int) -> Seq<char> {
    if i < 0 {
        seq!['-'] + dec_str((-i) as nat)
    } else {
        dec_str(i as nat)
    }
}

pub proof fn lemma_dec_str_len(n: nat)
    ensures
        dec_str(n).len() >= 1,
        n >= 10 ==> dec_str(n).len() >= 2,
    decreases n,
{
    if n >= 10 {
        lemma_dec_str_len(n / 10);
    }
}

/// Distinct numbers have distinct decimal texts.
pub proof fn lemma_dec_str_injective(a: nat, b: nat)
    requires
        dec_str(a) == dec_str(b),
    ensures
        a == b,
    decreases a,
{
    lemma_dec_str_len(a);
    lemma_dec_str_len(b);
    if a < 10 && b < 10 {
        assert(dec_str(a)[0] == digit_char(a));
        assert(dec_str(b)[0] == digit_char(b));
        assert(digit_char(a) == digit_char(b));
    } else if a < 10 && b >= 10 {
        assert(dec_str(b).len() >= 2);
    } else if a >= 10 && b < 10 {
        assert(dec_str(a).len() >= 2);
    } else {
        let sa = dec_str(a / 10);
        let sb = dec_str(b / 10);
        let la = dec_str(a).len();
        assert(dec_str(a)[la - 1] == digit_char(a % 10));
        assert(dec_str(b)[la - 1] == digit_char(b % 10));
        assert(a % 10 == b % 10);
        assert(sa =~= dec_str(a).drop_last());
        assert(sb =~= dec_str(b).drop_last());
        lemma_dec_str_injective(a / 10, b / 10);
        vstd::arithmetic::div_mod::lemma_fundamental_div_mod(a as int, 10);
        vstd::arithmetic::div_mod::lemma_fundamental_div_mod(b as int, 10);
    }
}

/// One digit as a string slice.
pub fn digit_str(d: u128) -> (s: &'static str)
    requires
        d < 10,
    ensures
        s@ == seq![digit_char(d as nat)],
{
    proof {
        reveal_strlit("0");
        reveal_strlit("1");
        reveal_strlit("2");
        reveal_strlit("3");
        reveal_strlit("4");
        reveal_strlit("5");
        reveal_strlit("6");
        reveal_strlit("7");
        reveal_strlit("8");
        reveal_strlit("9");
    }
    let s = match d {
        0 => "0",
        1 => "1",
        2 => "2",
        3 => "3",
        4 => "4",
        5 => "5",
        6 => "6",
        7 => "7",
        8 => "8",
        _ => "9",
    };
    proof {
        assert(s@ =~= seq![digit_char(d as nat)]);
    }
    s
}

/// Appends the decimal text of `n`.
pub fn push_dec(out: &mut String, n: u128)
    ensures
        final(out)@ == old(out)@ + dec_str(n as nat),
    decreases n,
{
    if n < 10 {
        out.append(digit_str(n));
    } else {
        push_dec(out, n / 10);
        out.append(digit_str(n % 10));
        proof {
            assert(old(out)@ + dec_str((n / 10) as nat) + seq![digit_char((n % 10) as nat)]
                =~= old(out)@ + dec_str(n as nat));
        }
    }
}

/// Appends the decimal text of a signed number.
pub fn push_int(out: &mut String, i: i32)
    ensures
        final(out)@ == old(out)@ + int_str(i as int),
{
    if i < 0 {
        proof {
            reveal_strlit("-");
        }
        out.append("-");
        let m: u128 = (-(i as i64)) as u128;
        push_dec(out, m);
        proof {
            assert(old(out)@ + "-"@ + dec_str(m as nat) =~= old(out)@ + int_str(i as int));
        }
    } else {
        push_dec(out, i as u128);
    }
}

/// The name of the `k`-th synthesized intermediate.
pub open spec fn tmp_name(k: nat) -> Seq<char> {
    "tmp"@ + dec_str(k)
}

/// Distinct indices give distinct intermediate names.
pub proof fn lemma_tmp_name_injective(a: nat, b: nat)
    requires
        tmp_name(a) == tmp_name(b),
    ensures
        a == b,
{
    reveal_strlit("tmp");
    assert(dec_str(a) =~= tmp_name(a).subrange(3, tmp_name(a).len() as int));
    assert(dec_str(b) =~= tmp_name(b).subrange(3, tmp_name(b).len() as int));
    lemma_dec_str_injective(a, b);
}

/// Builds the name of the `k`-th synthesized intermediate.
pub fn tmp_name_of(k: u128) -> (s: String)
    ensures
        s@ == tmp_name(k as nat),
{
    proof {
        reveal_strlit("tmp");
    }
    let mut s = String::from_str("tmp");
    push_dec(&mut s, k);
    s
}

/// Whether two strings hold the same characters.
pub fn str_eq(a: &String, b: &String) -> (r: bool)
    ensures
        r == (a@ == b@),
{
    a.eq(b)
}

} // verus!
