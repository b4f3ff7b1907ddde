//! HTTP `Range` header parsing.
//!
//! Only the exact single-range form `bytes=<start>-[<end>]` parses; the
//! result is the half-open byte window `[start, end_exclusive)`, where a
//! present `<end>` is inclusive (so `end_exclusive = end + 1`) and an
//! absent one means the end of the body. Anything else — including
//! comma-separated range lists and numbers that do not fit `usize` — fails
//! to parse, which callers treat as "no range present", not as an error.

use vstd::prelude::*;
use crate::sanitize::find_char;
use crate::sanitize::lemma_find_char_scan;

verus! {

/// A decimal digit character.
pub open spec fn is_digit(c: char) -> bool {
    '0' <= c && c <= '9'
}

/// The numeric value of a digit character.
pub open spec fn digit_of(c: char) -> int {
    c as int - '0' as int
}

pub open spec fn all_digits(s: Seq<char>) -> bool {
    forall|k: int| 0 <= k < s.len() ==> is_digit(s[k])
}

/// The number denoted by a digit string, most significant digit first.
pub open spec fn digits_val(s: Seq<char>) -> int
    decreases s.len(),
{
    if s.len() == 0 {
        0
    } else {
        digits_val(s.drop_last()) * 10 + digit_of(s.last())
    }
}

pub open spec fn spec_range_prefix() -> Seq<char> {
    seq!['b', 'y', 't', 'e', 's', '=']
}

/// What `parse_range_header` returns: `Some((start, end_exclusive))` for
/// the exact form `bytes=<start>-[<end>]` with numbers that fit, `None`
/// otherwise.
pub open spec fn spec_parse_range(s: Seq<char>, len: usize) -> Option<(usize, usize)> {
    if s.len() < 6 || s.take(6) != spec_range_prefix() {
        None
    } else {
        let rest = s.skip(6);
        let d = find_char(rest, '-');
        if d < 0 || rest.skip(d + 1).contains('-') {
            None
        } else {
            let a = rest.take(d);
            let b = rest.skip(d + 1);
            if a.len() == 0 || !all_digits(a) || digits_val(a) > usize::MAX as int {
                None
            } else if b.len() == 0 {
                Some((digits_val(a) as usize, len))
            } else if all_digits(b) && digits_val(b) < usize::MAX as int {
                Some((digits_val(a) as usize, (digits_val(b) + 1) as usize))
            } else {
                None
            }
        }
    }
}

/// A digit string's value only grows as more digits are read.
pub proof fn lemma_digits_val_bounds(s: Seq<char>)
    requires
        all_digits(s),
    ensures
        digits_val(s) >= 0,
        forall|k: int| 0 <= k <= s.len() ==> #[trigger] digits_val(s.take(k)) <= digits_val(s),
    decreases s.len(),
{
    if s.len() == 0 {
        assert forall|k: int| 0 <= k <= s.len() implies #[trigger] digits_val(s.take(k))
            <= digits_val(s) by {
            assert(s.take(k) =~= s);
        }
    } else {
        let t = s.drop_last();
        assert(all_digits(t));
        lemma_digits_val_bounds(t);
        assert(digits_val(s) >= digits_val(t));
        assert forall|k: int| 0 <= k <= s.len() implies #[trigger] digits_val(s.take(k))
            <= digits_val(s) by {
            if k == s.len() {
                assert(s.take(k) =~= s);
            } else {
                assert(s.take(k) =~= t.take(k));
            }
        }
    }
}

/// The decimal rendering of `n` reads back as `n`.
pub proof fn lemma_dec_roundtrip(n: nat)
    ensures
        all_digits(crate::numfmt::spec_dec(n)),
        digits_val(crate::numfmt::spec_dec(n)) == n,
    decreases n,
{
    let s = crate::numfmt::spec_dec(n);
    if n < 10 {
        assert(s.drop_last() =~= Seq::<char>::empty());
        assert(digits_val(Seq::<char>::empty()) == 0);
        assert(s.last() == crate::numfmt::digit_char(n as int));
        assert(digits_val(s) == digit_of(crate::numfmt::digit_char(n as int)));
    } else {
        lemma_dec_roundtrip(n / 10);
        let t = crate::numfmt::spec_dec(n / 10);
        assert(s.drop_last() =~= t);
        assert(s.last() == crate::numfmt::digit_char((n % 10) as int));
        vstd::arithmetic::div_mod::lemma_fundamental_div_mod(n as int, 10);
        assert(digits_val(s) == (n / 10) * 10 + n % 10);
    }
}

/// Parses a digit run `s@.subrange(from, to)`; returns its value, or
/// `None` on a non-digit or a value over `usize::MAX`.
fn parse_digits(s: &str, from: usize, to: usize) -> (r: Option<usize>)
    requires
        from <= to <= s@.len(),
    ensures
        ({
            let a = s@.subrange(from as int, to as int);
            match r {
                Some(v) => all_digits(a) && digits_val(a) == v as int,
                None => !all_digits(a) || digits_val(a) > usize::MAX as int,
            }
        }),
{
    let ghost a = s@.subrange(from as int, to as int);
    let mut acc: usize = 0;
    let mut overflow = false;
    let mut i = from;
    while i < to
        invariant
            from <= i <= to <= s@.len(),
            a == s@.subrange(from as int, to as int),
            all_digits(a.take(i - from)),
            !overflow ==> acc as int == digits_val(a.take(i - from)),
            overflow ==> digits_val(a.take(i - from)) > usize::MAX as int,
        decreases to - i,
    {
        let c = s.get_char(i);
        if !(c >= '0' && c <= '9') {
            proof {
                assert(a[i - from] == c);
                assert(!is_digit(a[i - from]));
            }
            return None;
        }
        let dv = (c as u32 - '0' as u32) as usize;
        proof {
            assert(a.take(i + 1 - from).drop_last() =~= a.take(i - from));
            assert(a.take(i + 1 - from).last() == c);
            assert(digits_val(a.take(i + 1 - from)) == digits_val(a.take(i - from)) * 10
                + digit_of(c));
        }
        if !overflow {
            let step = match acc.checked_mul(10) {
                Some(t) => t.checked_add(dv),
                None => None,
            };
            match step {
                Some(v) => {
                    acc = v;
                },
                None => {
                    overflow = true;
                },
            }
        }
        i = i + 1;
    }
    proof {
        assert(a.take(to - from) =~= a);
    }
    if overflow {
        None
    } else {
        Some(acc)
    }
}

/// Parses a `Range` header value against a body of `len` bytes. Returns
/// the half-open window, with an absent end meaning `len`. Any deviation
/// from the single-range form yields `None`, to be treated as "no range".
pub fn parse_range_header(range: &str, len: usize) -> (r: Option<(usize, usize)>)
    ensures
        r == spec_parse_range(range@, len),
{
    let n = range.unicode_len();
    if n < 6 {
        return None;
    }
    if !(range.get_char(0) == 'b' && range.get_char(1) == 'y' && range.get_char(2) == 't'
        && range.get_char(3) == 'e' && range.get_char(4) == 's' && range.get_char(5) == '=') {
        proof {
            assert(range@.take(6) != spec_range_prefix());
        }
        return None;
    }
    proof {
        assert(range@.take(6) =~= spec_range_prefix());
    }
    let ghost rest = range@.skip(6);
    let mut d: usize = 6;
    while d < n && range.get_char(d) != '-'
        invariant
            6 <= d <= n,
            n == range@.len(),
            forall|k: int| 6 <= k < d ==> range@[k] != '-',
        decreases n - d,
    {
        d = d + 1;
    }
    proof {
        lemma_find_char_scan(rest, '-', d - 6);
    }
    if d == n {
        return None;
    }
    let mut e: usize = d + 1;
    while e < n && range.get_char(e) != '-'
        invariant
            d + 1 <= e <= n,
            n == range@.len(),
            forall|k: int| d + 1 <= k < e ==> range@[k] != '-',
        decreases n - e,
    {
        e = e + 1;
    }
    proof {
        assert(rest.skip(d - 6 + 1) =~= range@.skip(d + 1));
    }
    if e < n {
        proof {
            assert(range@.skip(d + 1)[e - d - 1] == '-');
            assert(rest.skip(d - 6 + 1).contains('-'));
        }
        return None;
    }
    proof {
        assert forall|k: int| 0 <= k < rest.skip(d - 6 + 1).len() implies #[trigger] rest.skip(
            d - 6 + 1,
        )[k] != '-' by {
            assert(rest.skip(d - 6 + 1)[k] == range@[d + 1 + k]);
        }
        assert(!rest.skip(d - 6 + 1).contains('-'));
        assert(rest.take(d - 6) =~= range@.subrange(6, d as int));
        assert(rest.skip(d - 6 + 1) =~= range@.subrange(d + 1, n as int));
    }
    if d == 6 {
        return None;
    }
    let start = match parse_digits(range, 6, d) {
        Some(v) => v,
        None => {
            return None;
        },
    };
    if d + 1 == n {
        return Some((start, len));
    }
    let end = match parse_digits(range, d + 1, n) {
        Some(v) => v,
        None => {
            return None;
        },
    };
    if end == usize::MAX {
        return None;
    }
    Some((start, end + 1))
}

} // verus!
