//! Fixed-decimal rendering of binary32 values, verified end to end.
//!
//! A finite binary32 value is a signed magnitude `m * 2^e` with `m < 2^24`
//! and `-149 <= e <= 104`. Its fixed rendering with `p` digits after the
//! point is the decimal spelling of the integer nearest `m * 10^p * 2^e`
//! (ties to even), with the last `p` digits placed behind the point.
//! Everything here is integer arithmetic on the bit pattern: no floating
//! point is involved in producing the digits.

use vstd::prelude::*;

use crate::fbits::{is_nan_bits, mag_of, magnitude, sign_of, EXP_ALL, SIGN_MASK};
use crate::num::chars_to_string;

verus! {

/// `10^p` (1 below zero).
pub open spec fn p10(p: int) -> int
    decreases p,
{
    if p <= 0 {
        1
    } else {
        10 * p10(p - 1)
    }
}

/// `2^k` (1 below zero).
pub open spec fn p2(k: int) -> int
    decreases k,
{
    if k <= 0 {
        1
    } else {
        2 * p2(k - 1)
    }
}

/// The integer nearest `n / d`, ties going to the even neighbour.
pub open spec fn rhe_div(n: int, d: int) -> int {
    let q = n / d;
    let r = n % d;
    if 2 * r < d {
        q
    } else if 2 * r > d {
        q + 1
    } else if q % 2 == 0 {
        q
    } else {
        q + 1
    }
}

/// The character of one decimal digit.
pub open spec fn digit_char(d: int) -> char {
    if d == 0 {
        '0'
    } else if d == 1 {
        '1'
    } else if d == 2 {
        '2'
    } else if d == 3 {
        '3'
    } else if d == 4 {
        '4'
    } else if d == 5 {
        '5'
    } else if d == 6 {
        '6'
    } else if d == 7 {
        '7'
    } else if d == 8 {
        '8'
    } else {
        '9'
    }
}

/// The decimal spelling of a non-negative integer, most significant digit
/// first.
pub open spec fn dec_str(n: int) -> Seq<char>
    decreases n,
{
    if n < 10 {
        seq![digit_char(n)]
    } else {
        dec_str(n / 10).push(digit_char(n % 10))
    }
}

/// `n` copies of one character.
pub open spec fn rep_char(c: char, n: int) -> Seq<char> {
    Seq::new(if n >= 0 {
        n as nat
    } else {
        0
    }, |i: int| c)
}

/// `s` left-padded with zeros to width `w`.
pub open spec fn zero_pad(s: Seq<char>, w: int) -> Seq<char> {
    if s.len() >= w {
        s
    } else {
        rep_char('0', w - s.len()) + s
    }
}

/// The integer significand of a finite pattern.
pub open spec fn sig_of(b: u32) -> int {
    let be = mag_of(b) / 0x0080_0000;
    let fr = mag_of(b) % 0x0080_0000;
    if be == 0 {
        fr as int
    } else {
        fr + 0x0080_0000
    }
}

/// The binary exponent of a finite pattern: the value is `sig_of * 2^exp_of`.
pub open spec fn exp_of(b: u32) -> int {
    let be = mag_of(b) / 0x0080_0000;
    if be == 0 {
        -149
    } else {
        be - 150
    }
}

/// The magnitude of a finite pattern scaled by `10^p`, rounded to the
/// nearest integer, ties to even.
pub open spec fn scaled_of(b: u32, p: int) -> int {
    let n = sig_of(b) * p10(p);
    if exp_of(b) >= 0 {
        n * p2(exp_of(b))
    } else {
        rhe_div(n, p2(-exp_of(b)))
    }
}

/// The fixed rendering of a pattern with `p` digits after the point:
/// `NaN` for a NaN (sign not shown), `inf`/`-inf` for the infinities, and
/// otherwise an optional minus sign — kept for a negative zero — the
/// integer digits, a point, and exactly `p` fraction digits.
pub open spec fn fixed_str(b: u32, p: int) -> Seq<char> {
    if is_nan_bits(b) {
        seq!['N', 'a', 'N']
    } else if mag_of(b) == EXP_ALL {
        if sign_of(b) {
            seq!['-', 'i', 'n', 'f']
        } else {
            seq!['i', 'n', 'f']
        }
    } else {
        let n = scaled_of(b, p);
        let body = dec_str(n / p10(p)) + seq!['.'] + zero_pad(dec_str(n % p10(p)), p);
        if sign_of(b) {
            seq!['-'] + body
        } else {
            body
        }
    }
}

proof fn lemma_p2_pos(a: int)
    ensures
        p2(a) >= 1,
    decreases a,
{
    if a > 0 {
        lemma_p2_pos(a - 1);
    }
}

/// `p2` grows with its argument.
proof fn lemma_p2_le(a: int, b: int)
    requires
        a <= b,
    ensures
        p2(a) <= p2(b),
        p2(a) >= 1,
    decreases b - a,
{
    lemma_p2_pos(a);
    if a < b {
        lemma_p2_le(a, b - 1);
        lemma_p2_pos(b - 1);
    }
}

/// A number below `10^p` spells in at most `p` digits.
proof fn lemma_dec_str_len(n: int, p: int)
    requires
        0 <= n,
        1 <= p,
        n < p10(p),
    ensures
        1 <= dec_str(n).len() <= p,
    decreases p,
{
    if n < 10 {
    } else {
        assert(p10(p) == 10 * p10(p - 1));
        lemma_dec_str_len(n / 10, p - 1);
    }
}

proof fn lemma_p2_add(a: int, b: int)
    requires
        a >= 0,
        b >= 0,
    ensures
        p2(a + b) == p2(a) * p2(b),
    decreases b,
{
    if b > 0 {
        lemma_p2_add(a, b - 1);
        assert(p2(a) * p2(b) == 2 * (p2(a) * p2(b - 1))) by (nonlinear_arith)
            requires
                p2(b) == 2 * p2(b - 1),
        ;
    }
}

proof fn lemma_p2_values()
    ensures
        p2(38) == 0x40_0000_0000,
        p2(39) == 0x8_0000_0000_0,
        p2(104) == 0x1_0000_0000_0000_0000_0000_0000_00,
{
    reveal_with_fuel(p2, 42);
    assert(p2(26) == 0x400_0000);
    lemma_p2_add(39, 39);
    lemma_p2_add(78, 26);
    assert(p2(78) == 0x8_0000_0000_0 * 0x8_0000_0000_0);
    assert(p2(104) == p2(78) * 0x400_0000);
}

proof fn lemma_p10_values()
    ensures
        p10(0) == 1,
        p10(1) == 10,
        p10(2) == 100,
        p10(3) == 1000,
        p10(4) == 10000,
{
    reveal_with_fuel(p10, 6);
}

fn digit_of(d: u64) -> (c: char)
    requires
        d < 10,
    ensures
        c == digit_char(d as int),
{
    if d == 0 {
        '0'
    } else if d == 1 {
        '1'
    } else if d == 2 {
        '2'
    } else if d == 3 {
        '3'
    } else if d == 4 {
        '4'
    } else if d == 5 {
        '5'
    } else if d == 6 {
        '6'
    } else if d == 7 {
        '7'
    } else if d == 8 {
        '8'
    } else {
        '9'
    }
}

/// Appends the decimal spelling of `n`.
fn push_dec(out: &mut Vec<char>, n: u128)
    ensures
        final(out)@ == old(out)@ + dec_str(n as int),
    decreases n,
{
    if n < 10 {
        out.push(digit_of(n as u64));
        assert(final(out)@ =~= old(out)@ + dec_str(n as int));
    } else {
        push_dec(out, n / 10);
        out.push(digit_of((n % 10) as u64));
        assert(final(out)@ =~= old(out)@ + dec_str(n as int));
    }
}

/// Appends `n` copies of `c`.
pub fn push_repeat(out: &mut Vec<char>, c: char, n: usize)
    ensures
        final(out)@ == old(out)@ + rep_char(c, n as int),
{
    let mut i: usize = 0;
    while i < n
        invariant
            i <= n,
            out@ == old(out)@ + rep_char(c, i as int),
        decreases n - i,
    {
        out.push(c);
        assert(out@ =~= old(out)@ + rep_char(c, i + 1));
        i += 1;
    }
}

fn p10_exec(p: usize) -> (r: u64)
    requires
        p <= 4,
    ensures
        r == p10(p as int),
        r >= 1,
{
    proof {
        lemma_p10_values();
    }
    if p == 0 {
        1
    } else if p == 1 {
        10
    } else if p == 2 {
        100
    } else if p == 3 {
        1000
    } else {
        10000
    }
}

fn p2_exec_u64(k: usize) -> (r: u64)
    requires
        k <= 38,
    ensures
        r == p2(k as int),
{
    proof {
        lemma_p2_values();
    }
    let mut r: u64 = 1;
    let mut i: usize = 0;
    while i < k
        invariant
            i <= k,
            k <= 38,
            r == p2(i as int),
        decreases k - i,
    {
        proof {
            lemma_p2_le(i as int + 1, 38);
            lemma_p2_values();
        }
        r = r * 2;
        i += 1;
    }
    r
}

fn p2_exec_u128(k: usize) -> (r: u128)
    requires
        k <= 104,
    ensures
        r == p2(k as int),
{
    proof {
        lemma_p2_values();
    }
    let mut r: u128 = 1;
    let mut i: usize = 0;
    while i < k
        invariant
            i <= k,
            k <= 104,
            r == p2(i as int),
        decreases k - i,
    {
        proof {
            lemma_p2_le(i as int + 1, 104);
            lemma_p2_values();
        }
        r = r * 2;
        i += 1;
    }
    r
}

/// Renders the binary32 value held by `b` with exactly `prec` digits
/// after the decimal point, rounding to nearest, ties to even.
#[verifier::rlimit(100)]
pub fn fmt_fixed(b: u32, prec: usize) -> (r: String)
    requires
        1 <= prec <= 4,
    ensures
        r@ == fixed_str(b, prec as int),
{
    let mut out: Vec<char> = Vec::new();
    let mag = magnitude(b);
    if mag > EXP_ALL {
        out.push('N');
        out.push('a');
        out.push('N');
        let s = chars_to_string(&out);
        proof {
            assert(s@ =~= fixed_str(b, prec as int));
        }
        return s;
    }
    if b >= SIGN_MASK {
        out.push('-');
    }
    if mag == EXP_ALL {
        out.push('i');
        out.push('n');
        out.push('f');
        let s = chars_to_string(&out);
        proof {
            assert(s@ =~= fixed_str(b, prec as int));
        }
        return s;
    }
    let ghost sgn: Seq<char> = if sign_of(b) {
        seq!['-']
    } else {
        Seq::empty()
    };
    assert(out@ =~= sgn);
    let be: u32 = mag / 0x0080_0000;
    let fr: u32 = mag % 0x0080_0000;
    let m: u64 = if be == 0 {
        fr as u64
    } else {
        (fr as u64) + 0x0080_0000
    };
    proof {
        assert(m == sig_of(b));
        assert(m <= 0x00FF_FFFF);
    }
    let pv = p10_exec(prec);
    proof {
        assert(pv <= 10000) by {
            lemma_p10_values();
        }
        assert(m * pv <= 0x00FF_FFFFu64 * 10000) by (nonlinear_arith)
            requires
                m <= 0x00FF_FFFF,
                pv <= 10000,
        ;
    }
    let np: u64 = m * pv;
    let ghost pp = prec as int;
    if be >= 150 {
        // a whole number: the fraction digits are all zero
        let e = (be - 150) as usize;
        let d = p2_exec_u128(e);
        proof {
            lemma_p2_le(e as int, 104);
            lemma_p2_values();
            assert((m as u128) * d <= 0x00FF_FFFFu128 * 0x1_0000_0000_0000_0000_0000_0000_00u128)
                by (nonlinear_arith)
                requires
                    m <= 0x00FF_FFFF,
                    d <= 0x1_0000_0000_0000_0000_0000_0000_00u128,
            ;
        }
        let ival: u128 = (m as u128) * d;
        push_dec(&mut out, ival);
        out.push('.');
        push_repeat(&mut out, '0', prec);
        proof {
            let n = scaled_of(b, pp);
            assert(exp_of(b) == e);
            assert(n == (m as int) * p10(pp) * p2(e as int));
            assert(n == (ival as int) * p10(pp)) by (nonlinear_arith)
                requires
                    n == (m as int) * p10(pp) * p2(e as int),
                    ival == (m as int) * p2(e as int),
            ;
            vstd::arithmetic::div_mod::lemma_div_by_multiple(ival as int, p10(pp));
            vstd::arithmetic::div_mod::lemma_mod_multiples_basic(ival as int, p10(pp));
            assert(n / p10(pp) == ival as int);
            assert(n % p10(pp) == 0);
            assert(zero_pad(dec_str(0), pp) =~= rep_char('0', pp - 1) + dec_str(0));
            assert(rep_char('0', pp - 1) + dec_str(0) =~= rep_char('0', pp));
            assert(out@ =~= sgn + (dec_str(n / p10(pp)) + seq!['.'] + zero_pad(
                dec_str(n % p10(pp)),
                pp,
            )));
        }
    } else {
        // scale down by 2^k, rounding to nearest, ties to even
        let k: usize = if be == 0 {
            149
        } else {
            (150 - be) as usize
        };
        proof {
            assert(-exp_of(b) == k as int);
        }
        let nsc: u64 = if k >= 39 {
            proof {
                lemma_p2_values();
                lemma_p2_le(39, k as int);
                assert(2 * (np as int) < p2(k as int));
                assert(np < p2(k as int));
                assert(np as int / p2(k as int) == 0) by {
                    vstd::arithmetic::div_mod::lemma_basic_div(np as int, p2(k as int));
                }
                assert(np as int % p2(k as int) == np) by {
                    vstd::arithmetic::div_mod::lemma_small_mod(np as nat, p2(k as int) as nat);
                }
                assert(rhe_div(np as int, p2(k as int)) == 0);
            }
            0
        } else {
            let d = p2_exec_u64(k);
            proof {
                lemma_p2_le(k as int, 38);
                lemma_p2_values();
            }
            let q = np / d;
            let rem = np % d;
            if 2 * rem < d {
                q
            } else if 2 * rem > d {
                q + 1
            } else if q % 2 == 0 {
                q
            } else {
                q + 1
            }
        };
        proof {
            assert(nsc == scaled_of(b, pp));
        }
        let ipart = nsc / pv;
        let fpart = nsc % pv;
        push_dec(&mut out, ipart as u128);
        out.push('.');
        let mut fv: Vec<char> = Vec::new();
        push_dec(&mut fv, fpart as u128);
        proof {
            lemma_dec_str_len(fpart as int, pp);
        }
        push_repeat(&mut out, '0', prec - fv.len());
        let mut fi: usize = 0;
        let ghost mid = out@;
        while fi < fv.len()
            invariant
                fi <= fv@.len(),
            out@ == mid + fv@.take(fi as int),
            decreases fv@.len() - fi,
        {
            out.push(fv[fi]);
            assert(out@ =~= mid + fv@.take(fi + 1));
            fi += 1;
        }
        proof {
            assert(fv@.take(fv@.len() as int) =~= fv@);
            let n = scaled_of(b, pp);
            assert(zero_pad(dec_str(n % p10(pp)), pp) =~= rep_char('0', pp - fv@.len()) + fv@);
            assert(out@ =~= sgn + (dec_str(n / p10(pp)) + seq!['.'] + zero_pad(
                dec_str(n % p10(pp)),
                pp,
            )));
        }
    }
    let s = chars_to_string(&out);
    proof {
        assert(s@ =~= fixed_str(b, prec as int));
    }
    s
}

} // verus!
