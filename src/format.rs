use vstd::prelude::*;
use vstd::string::StringExecFns;

verus! {

/// The decimal digit character for `d < 10`.
pub open spec fn digit_char(d: nat) -> char {
    (('0' as nat) + d) as char
}

/// Decimal digits of `n`, without leading zeros.
pub open spec fn digits_of(n: nat) -> Seq<char>
    decreases n,
{
    if n < 10 {
        seq![digit_char(n)]
    } else {
        digits_of(n / 10).push(digit_char(n % 10))
    }
}

/// `n < 1000` as exactly three digits.
pub open spec fn three_digits(n: nat) -> Seq<char> {
    seq![digit_char(n / 100), digit_char(n / 10 % 10), digit_char(n % 10)]
}

/// `n` in decimal with `_` between groups of three digits: `1_000`.
pub open spec fn grouped_decimal(n: nat) -> Seq<char>
    decreases n,
{
    if n < 1000 {
        digits_of(n)
    } else {
        grouped_decimal(n / 1000) + seq!['_'] + three_digits(n % 1000)
    }
}

fn digit_str(d: u64) -> (r: &'static str)
    requires
        d < 10,
    ensures
        r@ == seq![digit_char(d as nat)],
{
    proof {
        reveal_strlit("0");
        reveal_strlit("1");
        reveal_strlit("2");
        reveal_strlit("3");
        reveal_strlit("4");
        reveal_strlit("5");
        reveal_strlit("6");
        reveal_strlit("7");
        reveal_strlit("8");
        reveal_strlit("9");
    }
    let r = match d {
        0 => "0",
        1 => "1",
        2 => "2",
        3 => "3",
        4 => "4",
        5 => "5",
        6 => "6",
        7 => "7",
        8 => "8",
        _ => "9",
    };
    assert(r@ =~= seq![digit_char(d as nat)]);
    r
}

/// `value` in decimal with `_` between groups of three digits.
pub fn pretty_print_u64(value: u64) -> (r: String)
    ensures
        r@ == grouped_decimal(value as nat),
    decreases value,
{
    if value < 1000 {
        let mut s = String::new();
        if value >= 100 {
            s.append(digit_str(value / 100));
        }
        if value >= 10 {
            s.append(digit_str(value / 10 % 10));
        }
        s.append(digit_str(value % 10));
        proof {
            let n = value as nat;
            if n >= 10 {
                assert(digits_of(n / 10) == if n / 10 < 10 {
                    seq![digit_char(n / 10)]
                } else {
                    digits_of(n / 100).push(digit_char(n / 10 % 10))
                });
                if n >= 100 {
                    assert(digits_of(n / 100) == seq![digit_char(n / 100)]);
                    assert(n / 10 / 10 == n / 100);
                }
            }
            assert(s@ =~= digits_of(n));
        }
        s
    } else {
        let mut s = pretty_print_u64(value / 1000);
        s.append("_");
        let low = value % 1000;
        s.append(digit_str(low / 100));
        s.append(digit_str(low / 10 % 10));
        s.append(digit_str(low % 10));
        proof {
            reveal_strlit("_");
            assert(s@ =~= grouped_decimal(value as nat));
        }
        s
    }
}

} // verus!
