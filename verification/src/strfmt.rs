//! Decimal rendering of unsigned integers, of thousandth-scaled fixed-point
//! quantities, and the truncated integer square root the summary's standard
//! deviation uses.

use vstd::prelude::*;
use vstd::string::StringExecFns;

verus! {

/// The character for one decimal digit.
pub open spec fn digit_char(d: nat) -> char {
    if d == 0 {
        '0'
    } else if d == 1 {
        '1'
    } else if d == 2 {
        '2'
    } else if d == 3 {
        '3'
    } else if d == 4 {
        '4'
    } else if d == 5 {
        '5'
    } else if d == 6 {
        '6'
    } else if d == 7 {
        '7'
    } else if d == 8 {
        '8'
    } else {
        '9'
    }
}

/// The decimal digits of `n`, most significant first, no leading zeros.
pub open spec fn dec_spec(n: nat) -> Seq<char>
    decreases n,
{
    if n < 10 {
        seq![digit_char(n)]
    } else {
        dec_spec(n / 10).push(digit_char(n % 10))
    }
}

/// A quantity in thousandths rendered with three decimal places.
pub open spec fn milli_spec(q: nat) -> Seq<char> {
    dec_spec(q / 1000) + seq!['.'] + pad3_spec(q % 1000)
}

/// Three digits, zero-padded on the left.
pub open spec fn pad3_spec(r: nat) -> Seq<char>
    recommends
        r < 1000,
{
    if r < 10 {
        seq!['0', '0'] + dec_spec(r)
    } else if r < 100 {
        seq!['0'] + dec_spec(r)
    } else {
        dec_spec(r)
    }
}

/// The truncated square root: the largest `r` with `r * r <= n`.
pub open spec fn sqrt_floor(n: nat) -> nat
    decreases n,
{
    if n == 0 {
        0
    } else {
        let r = sqrt_floor((n - 1) as nat);
        if (r + 1) * (r + 1) <= n {
            r + 1
        } else {
            r
        }
    }
}

/// The truncated square root squares to at most its argument, and the next
/// integer up squares past it.
pub proof fn lemma_sqrt_floor_props(n: nat)
    ensures
        sqrt_floor(n) * sqrt_floor(n) <= n,
        n < (sqrt_floor(n) + 1) * (sqrt_floor(n) + 1),
    decreases n,
{
    let s = sqrt_floor(n);
    if n == 0 {
        assert(s * s <= n && n < (s + 1) * (s + 1)) by (nonlinear_arith)
            requires s == 0, n == 0;
    } else {
        let r = sqrt_floor((n - 1) as nat);
        lemma_sqrt_floor_props((n - 1) as nat);
        if (r + 1) * (r + 1) <= n {
            assert(s == r + 1);
            assert(s * s <= n && n < (s + 1) * (s + 1)) by (nonlinear_arith)
                requires s == r + 1, (r + 1) * (r + 1) <= n, n - 1 < (r + 1) * (r + 1);
        } else {
            assert(s == r);
            assert(s * s <= n && n < (s + 1) * (s + 1)) by (nonlinear_arith)
                requires s == r, r * r <= n - 1, n >= 1, !((r + 1) * (r + 1) <= n);
        }
    }
}

/// Any integer whose square brackets `n` this way is its truncated root.
pub proof fn lemma_sqrt_unique(n: nat, r: nat)
    requires
        r * r <= n,
        n < (r + 1) * (r + 1),
    ensures
        r == sqrt_floor(n),
{
    let s = sqrt_floor(n);
    lemma_sqrt_floor_props(n);
    if r < s {
        assert((r + 1) * (r + 1) <= s * s) by (nonlinear_arith)
            requires r + 1 <= s;
        assert(false);
    }
    if s < r {
        assert((s + 1) * (s + 1) <= r * r) by (nonlinear_arith)
            requires s + 1 <= r;
        assert(false);
    }
}

/// One decimal digit as a string slice.
fn digit_str(d: u128) -> (r: &'static str)
    requires
        d < 10,
    ensures
        r@ == seq![digit_char(d as nat)],
{
    if d == 0 {
        proof { reveal_strlit("0"); assert("0"@ =~= seq![digit_char(0)]); }
        "0"
    } else if d == 1 {
        proof { reveal_strlit("1"); assert("1"@ =~= seq![digit_char(1)]); }
        "1"
    } else if d == 2 {
        proof { reveal_strlit("2"); assert("2"@ =~= seq![digit_char(2)]); }
        "2"
    } else if d == 3 {
        proof { reveal_strlit("3"); assert("3"@ =~= seq![digit_char(3)]); }
        "3"
    } else if d == 4 {
        proof { reveal_strlit("4"); assert("4"@ =~= seq![digit_char(4)]); }
        "4"
    } else if d == 5 {
        proof { reveal_strlit("5"); assert("5"@ =~= seq![digit_char(5)]); }
        "5"
    } else if d == 6 {
        proof { reveal_strlit("6"); assert("6"@ =~= seq![digit_char(6)]); }
        "6"
    } else if d == 7 {
        proof { reveal_strlit("7"); assert("7"@ =~= seq![digit_char(7)]); }
        "7"
    } else if d == 8 {
        proof { reveal_strlit("8"); assert("8"@ =~= seq![digit_char(8)]); }
        "8"
    } else {
        proof { reveal_strlit("9"); assert("9"@ =~= seq![digit_char(9)]); }
        "9"
    }
}

/// Decimal rendering of an unsigned integer.
pub fn u128_to_dec(n: u128) -> (r: String)
    ensures
        r@ == dec_spec(n as nat),
    decreases n,
{
    if n < 10 {
        String::from_str(digit_str(n))
    } else {
        let mut s = u128_to_dec(n / 10);
        s.append(digit_str(n % 10));
        proof {
            assert(s@ =~= dec_spec(n as nat));
        }
        s
    }
}

/// Fixed-point rendering of a quantity in thousandths, three decimal places.
pub fn milli_to_dec(q: u128) -> (r: String)
    ensures
        r@ == milli_spec(q as nat),
{
    let mut s = u128_to_dec(q / 1000);
    s.append(".");
    let rem = q % 1000;
    let digits = u128_to_dec(rem);
    if rem < 10 {
        s.append("00");
        proof { reveal_strlit("."); reveal_strlit("00"); }
    } else if rem < 100 {
        s.append("0");
        proof { reveal_strlit("."); reveal_strlit("0"); }
    } else {
        proof { reveal_strlit("."); }
    }
    s.append(digits.as_str());
    proof {
        assert(s@ =~= milli_spec(q as nat));
    }
    s
}

/// Truncated integer square root, by bisection.
pub fn isqrt(n: u128) -> (r: u128)
    requires
        n < 0x100000000000000000000000000,
    ensures
        r as nat == sqrt_floor(n as nat),
{
    if n == 0 {
        return 0;
    }
    let mut lo: u128 = 0;
    let mut hi: u128 = 0x10000000000000;
    proof {
        assert(0x10000000000000int * 0x10000000000000int == 0x100000000000000000000000000int);
    }
    while lo + 1 < hi
        invariant
            lo < hi <= 0x10000000000000u128,
            lo * lo <= n,
            n < hi * hi,
        decreases hi - lo,
    {
        let mid = lo + (hi - lo) / 2;
        proof {
            assert(mid * mid <= 0x100000000000000000000000000) by (nonlinear_arith)
                requires mid <= 0x10000000000000u128;
        }
        if mid * mid <= n {
            lo = mid;
        } else {
            hi = mid;
        }
    }
    proof {
        lemma_sqrt_unique(n as nat, lo as nat);
    }
    lo
}

} // verus!
