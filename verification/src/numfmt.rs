//! Decimal rendering of counters for the statistics report.
//!
//! `format_number` renders a count with `,` separators between groups of
//! three digits; `format_bytes` renders a byte total scaled to the largest
//! fitting unit with two decimal places (rounded to the nearest hundredth,
//! half away from zero).

use vstd::prelude::*;

verus! {

pub const KB: u64 = 1024;

pub const MB: u64 = 1024 * 1024;

pub const GB: u64 = 1024 * 1024 * 1024;

pub const TB: u64 = 1024 * 1024 * 1024 * 1024;

/// The decimal digit character for `d` in `0..=9`.
pub open spec fn digit_char(d: int) -> char {
    if d == 0 {
        '0'
    } else if d == 1 {
        '1'
    } else if d == 2 {
        '2'
    } else if d == 3 {
        '3'
    } else if d == 4 {
        '4'
    } else if d == 5 {
        '5'
    } else if d == 6 {
        '6'
    } else if d == 7 {
        '7'
    } else if d == 8 {
        '8'
    } else {
        '9'
    }
}

/// The decimal digit string of `n`, without leading zeros (just "0" for 0).
pub open spec fn spec_dec(n: nat) -> Seq<char>
    decreases n,
{
    if n < 10 {
        seq![digit_char(n as int)]
    } else {
        spec_dec(n / 10) + seq![digit_char((n % 10) as int)]
    }
}

/// `s` with a `,` inserted between each group of three characters, counted
/// from the right.
pub open spec fn spec_grouped(s: Seq<char>) -> Seq<char>
    decreases s.len(),
{
    if s.len() <= 3 {
        s
    } else {
        spec_grouped(s.take(s.len() - 3)) + seq![','] + s.skip(s.len() - 3)
    }
}

fn digit_str(d: u64) -> (r: &'static str)
    requires
        d < 10,
    ensures
        r@ == seq![digit_char(d as int)],
{
    let r: &'static str = if d == 0 {
        "0"
    } else if d == 1 {
        "1"
    } else if d == 2 {
        "2"
    } else if d == 3 {
        "3"
    } else if d == 4 {
        "4"
    } else if d == 5 {
        "5"
    } else if d == 6 {
        "6"
    } else if d == 7 {
        "7"
    } else if d == 8 {
        "8"
    } else {
        "9"
    };
    proof {
        reveal_strlit("0");
        reveal_strlit("1");
        reveal_strlit("2");
        reveal_strlit("3");
        reveal_strlit("4");
        reveal_strlit("5");
        reveal_strlit("6");
        reveal_strlit("7");
        reveal_strlit("8");
        reveal_strlit("9");
        assert(r@ =~= seq![digit_char(d as int)]);
    }
    r
}

/// Renders `n` in decimal.
pub fn u64_to_dec(n: u64) -> (r: String)
    ensures
        r@ == spec_dec(n as nat),
    decreases n,
{
    if n < 10 {
        String::from_str(digit_str(n))
    } else {
        let mut s = u64_to_dec(n / 10);
        s.append(digit_str(n % 10));
        proof {
            assert(s@ =~= spec_dec(n as nat));
        }
        s
    }
}

/// Digit counts of small numbers, and a decimal string is never empty.
pub proof fn lemma_dec_len(n: nat)
    ensures
        spec_dec(n).len() >= 1,
        n < 10 ==> spec_dec(n).len() == 1,
        n < 100 ==> spec_dec(n).len() <= 2,
        n < 1000 ==> spec_dec(n).len() <= 3,
    decreases n,
{
    if n >= 10 {
        lemma_dec_len(n / 10);
    }
}

/// For `n >= 1000`, the decimal string of `n` ends in the three digits of
/// `n % 1000`, preceded by the decimal string of `n / 1000`.
pub proof fn lemma_dec_split_1000(n: nat)
    requires
        n >= 1000,
    ensures
        spec_dec(n) =~= spec_dec(n / 1000) + seq![
            digit_char(((n / 100) % 10) as int),
            digit_char(((n / 10) % 10) as int),
            digit_char((n % 10) as int),
        ],
{
    assert(n / 10 / 10 == n / 100) by {
        vstd::arithmetic::div_mod::lemma_div_denominator(n as int, 10, 10);
    }
    assert(n / 100 / 10 == n / 1000) by {
        vstd::arithmetic::div_mod::lemma_div_denominator(n as int, 100, 10);
    }
    assert(n / 10 >= 10);
    assert(n / 100 >= 10);
    assert(spec_dec(n) == spec_dec(n / 10) + seq![digit_char((n % 10) as int)]);
    assert(spec_dec(n / 10) == spec_dec(n / 100) + seq![digit_char(((n / 10) % 10) as int)]);
    assert(spec_dec(n / 100) == spec_dec(n / 1000) + seq![digit_char(((n / 100) % 10) as int)]);
}

/// Renders `num` in decimal with `,` between three-digit groups.
pub fn format_number(num: u64) -> (r: String)
    ensures
        r@ == spec_grouped(spec_dec(num as nat)),
    decreases num,
{
    if num < 1000 {
        let s = u64_to_dec(num);
        proof {
            lemma_dec_len(num as nat);
        }
        s
    } else {
        let mut s = format_number(num / 1000);
        s.append(",");
        s.append(digit_str(num / 100 % 10));
        s.append(digit_str(num / 10 % 10));
        s.append(digit_str(num % 10));
        proof {
            reveal_strlit(",");
            lemma_dec_split_1000(num as nat);
            lemma_dec_len(num as nat / 1000);
            let whole = spec_dec(num as nat);
            let head = spec_dec(num as nat / 1000);
            let tail = seq![
                digit_char(((num as nat / 100) % 10) as int),
                digit_char(((num as nat / 10) % 10) as int),
                digit_char((num as nat % 10) as int),
            ];
            assert(whole.len() == head.len() + 3);
            assert(whole.take(whole.len() - 3) =~= head);
            assert(whole.skip(whole.len() - 3) =~= tail);
            assert(s@ =~= spec_grouped(spec_dec(num as nat)));
        }
        s
    }
}

/// The fraction `bytes % div` over `div`, in hundredths, rounded to the
/// nearest (half away from zero). Can reach 100 when the remainder rounds
/// up to a whole unit.
pub open spec fn spec_size_frac(bytes: u64, div: u64) -> int {
    ((bytes as int % div as int) * 200 / div as int + 1) / 2
}

/// `bytes / div` with two decimal places, e.g. `3.50`.
pub open spec fn spec_scaled(bytes: u64, div: u64) -> Seq<char> {
    let whole = bytes as int / div as int;
    let frac = spec_size_frac(bytes, div);
    let carried = if frac == 100 {
        whole + 1
    } else {
        whole
    };
    let f = if frac == 100 {
        0
    } else {
        frac
    };
    spec_dec(carried as nat) + seq!['.'] + seq![digit_char(f / 10), digit_char(f % 10)]
}

/// `bytes` rendered with the largest unit it fills, two decimal places.
pub open spec fn spec_format_bytes(bytes: u64) -> Seq<char> {
    if bytes < KB {
        spec_dec(bytes as nat) + seq![' ', 'b', 'y', 't', 'e', 's']
    } else if bytes < MB {
        spec_scaled(bytes, KB) + seq![' ', 'K', 'B']
    } else if bytes < GB {
        spec_scaled(bytes, MB) + seq![' ', 'M', 'B']
    } else if bytes < TB {
        spec_scaled(bytes, GB) + seq![' ', 'G', 'B']
    } else {
        spec_scaled(bytes, TB) + seq![' ', 'T', 'B']
    }
}

fn format_scaled(bytes: u64, div: u64) -> (r: String)
    requires
        1024 <= div <= TB,
    ensures
        r@ == spec_scaled(bytes, div),
{
    let rem = bytes % div;
    proof {
        let b = bytes as int;
        let d = div as int;
        let r0 = b % d;
        assert(r0 * 200 < d * 200) by (nonlinear_arith)
            requires
                0 <= r0 < d,
        ;
        vstd::arithmetic::div_mod::lemma_multiply_divide_lt(r0 * 200, d, 200);
        vstd::arithmetic::div_mod::lemma_div_is_ordered_by_denominator(b, 1024, d);
        vstd::arithmetic::div_mod::lemma_div_is_ordered(b, u64::MAX as int, 1024);
    }
    let frac = (rem * 200 / div + 1) / 2;
    let whole = bytes / div;
    let (carried, f) = if frac == 100 {
        (whole + 1, 0u64)
    } else {
        (whole, frac)
    };
    assert(f < 100);
    let mut s = u64_to_dec(carried);
    s.append(".");
    s.append(digit_str(f / 10));
    s.append(digit_str(f % 10));
    proof {
        reveal_strlit(".");
        assert(s@ =~= spec_scaled(bytes, div));
    }
    s
}

/// Renders a byte total in a human unit, as the statistics page shows it.
pub fn format_bytes(bytes: u64) -> (r: String)
    ensures
        r@ == spec_format_bytes(bytes),
{
    if bytes < KB {
        let mut s = u64_to_dec(bytes);
        s.append(" bytes");
        proof {
            reveal_strlit(" bytes");
            assert(s@ =~= spec_format_bytes(bytes));
        }
        s
    } else if bytes < MB {
        let mut s = format_scaled(bytes, KB);
        s.append(" KB");
        proof {
            reveal_strlit(" KB");
            assert(s@ =~= spec_format_bytes(bytes));
        }
        s
    } else if bytes < GB {
        let mut s = format_scaled(bytes, MB);
        s.append(" MB");
        proof {
            reveal_strlit(" MB");
            assert(s@ =~= spec_format_bytes(bytes));
        }
        s
    } else if bytes < TB {
        let mut s = format_scaled(bytes, GB);
        s.append(" GB");
        proof {
            reveal_strlit(" GB");
            assert(s@ =~= spec_format_bytes(bytes));
        }
        s
    } else {
        let mut s = format_scaled(bytes, TB);
        s.append(" TB");
        proof {
            reveal_strlit(" TB");
            assert(s@ =~= spec_format_bytes(bytes));
        }
        s
    }
}

} // verus!
