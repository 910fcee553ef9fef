//! Darkening a packed color, modelled exactly.
//!
//! A channel is darkened by moving it through a binary floating-point form
//! with a 53-bit significand: the 8-bit channel is scaled into the unit
//! interval (by multiplying with the nearest 53-bit approximation of 1/255),
//! the darken ratio is subtracted, the result is clamped, scaled back by 255,
//! and rounded to the nearest integer with ties to even. Every number in this
//! pipeline is an exact dyadic rational, so the whole computation is done here
//! on integer significand/exponent pairs and every rounding step is explicit.
//!
//! The darken ratio is given in hundredths (`1` means one percent), and the
//! ratio that enters the pipeline is the nearest 53-bit dyadic to `r / 100`,
//! exactly as a decimal ratio would round when written down in such a format.

use vstd::prelude::*;
use vstd::arithmetic::power2::{
    pow2, lemma2_to64, lemma2_to64_rest, lemma_pow2_adds, lemma_pow2_pos,
    lemma_pow2_strictly_increases, lemma_pow2_unfold,
};
use vstd::arithmetic::div_mod::lemma_fundamental_div_mod;

verus! {

/// The 53-bit significand of the nearest dyadic to 1/255: it satisfies
/// `255 * RECIP_255_MANT == pow2(60) - 16`, so `RECIP_255_MANT * pow2(-60)`
/// is within half of a last-place unit of 1/255.
pub const RECIP_255_MANT: u64 = 4521260802379792;

/// `2^k`, as an executable value.
fn pow2_u64(k: u64) -> (r: u64)
    requires
        k <= 63,
    ensures
        r as nat == pow2(k as nat),
        r >= 1,
    decreases k,
{
    proof {
        lemma2_to64();
        lemma2_to64_rest();
    }
    if k == 0 {
        1
    } else {
        let h = pow2_u64(k - 1);
        proof {
            lemma_pow2_unfold(k as nat);
            if k < 63 {
                lemma_pow2_strictly_increases(k as nat, 63);
            }
        }
        2 * h
    }
}

/// The integer nearest to `m / d`, ties going to the even neighbour.
pub open spec fn round_div_even(m: nat, d: nat) -> nat
    recommends
        1 <= d,
{
    let q = m / d;
    let r = m % d;
    if 2 * r > d {
        q + 1
    } else if 2 * r == d && q % 2 == 1 {
        q + 1
    } else {
        q
    }
}

/// `round_div_even` is off from the exact quotient by at most half of `d`,
/// and exceeds the floor quotient by at most one.
proof fn lemma_round_div_even_err(m: nat, d: nat)
    requires
        1 <= d,
    ensures
        2 * (round_div_even(m, d) * d) <= 2 * m + d,
        2 * m <= 2 * (round_div_even(m, d) * d) + d,
        m / d <= round_div_even(m, d) <= m / d + 1,
{
    lemma_fundamental_div_mod(m as int, d as int);
    let q = m / d;
    let r = m % d;
    assert(m == q * d + r) by (nonlinear_arith)
        requires
            d >= 1,
            q == m / d,
            r == m % d,
    ;
    assert(r < d) by (nonlinear_arith)
        requires
            d >= 1,
            r == m % d,
    ;
    assert((q + 1) * d == q * d + d) by (nonlinear_arith);
}

/// How many trailing bits must be dropped from `m` to leave at most 53.
pub open spec fn excess_bits(m: nat) -> nat
    decreases m,
{
    if m < 9007199254740992 {
        0
    } else {
        1 + excess_bits(m / 2)
    }
}

/// When bits must be dropped, `m` sits between `2^52` and `2^53` scaled by
/// the dropped power: exactly the normalization bracket of a 53-bit form.
proof fn lemma_excess_bits_brackets(m: nat)
    requires
        excess_bits(m) >= 1,
    ensures
        pow2(52) * pow2(excess_bits(m)) <= m,
        m < pow2(53) * pow2(excess_bits(m)),
    decreases m,
{
    let t = excess_bits(m);
    lemma2_to64();
    lemma2_to64_rest();
    lemma_fundamental_div_mod(m as int, 2);
    if excess_bits(m / 2) == 0 {
        assert(t == 1);
        lemma_pow2_adds(52, 1);
        lemma_pow2_adds(53, 1);
    } else {
        lemma_excess_bits_brackets(m / 2);
        let t1 = excess_bits(m / 2);
        assert(pow2(52) * pow2(t1) * 2 == pow2(52) * pow2(t)) by {
            lemma_pow2_unfold(t);
            assert(pow2(52) * pow2(t1) * 2 == pow2(52) * (2 * pow2(t1))) by (nonlinear_arith);
        }
        assert(pow2(53) * pow2(t1) * 2 == pow2(53) * pow2(t)) by {
            lemma_pow2_unfold(t);
            assert(pow2(53) * pow2(t1) * 2 == pow2(53) * (2 * pow2(t1))) by (nonlinear_arith);
        }
        assert(pow2(52) * pow2(t1) <= m / 2 && m / 2 < pow2(53) * pow2(t1));
        assert(pow2(52) * pow2(t1) * 2 <= m) by (nonlinear_arith)
            requires
                pow2(52) * pow2(t1) <= m / 2,
                m == 2 * (m / 2) + m % 2,
                0 <= m % 2,
        ;
        assert(m < pow2(53) * pow2(t1) * 2) by (nonlinear_arith)
            requires
                m / 2 < pow2(53) * pow2(t1),
                m == 2 * (m / 2) + m % 2,
                m % 2 < 2,
        ;
    }
}

/// `excess_bits`, as an executable value.
fn excess_bits_exec(m: u64) -> (t: u64)
    ensures
        t as nat == excess_bits(m as nat),
        t <= 11,
    decreases m,
{
    proof {
        lemma2_to64();
        lemma2_to64_rest();
    }
    if m < 9007199254740992 {
        0
    } else {
        let t1 = excess_bits_exec(m / 2);
        proof {
            lemma_excess_bits_brackets(m as nat);
            let t = excess_bits(m as nat);
            if t > 11 {
                lemma_pow2_strictly_increases(12, t);
                lemma_pow2_adds(52, t);
                assert(pow2(52) * pow2(t) >= pow2(52) * pow2(12)) by (nonlinear_arith)
                    requires
                        pow2(t) >= pow2(12),
                ;
                lemma_pow2_adds(52, 12);
            }
        }
        t1 + 1
    }
}

/// Rounds the positive dyadic `m * 2^(-n)` to a 53-bit significand, nearest,
/// ties to even; the result pair again means `first * 2^(-second)`.
pub open spec fn spec_round53(m: nat, n: nat) -> (nat, nat) {
    let t = excess_bits(m);
    if t == 0 {
        (m, n)
    } else {
        (round_div_even(m, pow2(t)), (n - t) as nat)
    }
}

/// The rounded significand stays within `2^53`, the dropped scale within
/// `2^11`, and the represented value moves by at most half a unit in the
/// last kept place: `|m' * 2^t - m| <= 2^(t-1)`.
proof fn lemma_round53_err(m: nat, n: nat)
    requires
        n >= 11,
        m < pow2(64),
    ensures
        spec_round53(m, n).0 <= pow2(53),
        spec_round53(m, n).1 <= n,
        n <= spec_round53(m, n).1 + 11,
        excess_bits(m) >= 1 ==> pow2(52) * pow2(excess_bits(m)) <= m,
        2 * (spec_round53(m, n).0 * pow2((n - spec_round53(m, n).1) as nat))
            <= 2 * m + pow2((n - spec_round53(m, n).1) as nat),
        2 * m <= 2 * (spec_round53(m, n).0 * pow2((n - spec_round53(m, n).1) as nat))
            + pow2((n - spec_round53(m, n).1) as nat),
{
    let t = excess_bits(m);
    lemma2_to64();
    lemma2_to64_rest();
    if t == 0 {
        assert(pow2(0) == 1);
        assert(spec_round53(m, n).0 * 1 == m) by (nonlinear_arith)
            requires
                spec_round53(m, n).0 == m,
        ;
    } else {
        lemma_excess_bits_brackets(m);
        lemma_pow2_pos(t);
        let d = pow2(t);
        lemma_round_div_even_err(m, d);
        let q = m / d;
        let mr = round_div_even(m, d);
        // q < 2^53 because m < 2^53 * d
        assert(q < pow2(53)) by (nonlinear_arith)
            requires
                d >= 1,
                q == m / d,
                m < pow2(53) * d,
        ;
        assert(mr <= pow2(53));
        // the dropped scale is bounded because `m` fits in 64 bits
        if t > 11 {
            lemma_pow2_strictly_increases(12, t);
            lemma_pow2_adds(52, t);
            lemma_pow2_adds(52, 12);
            assert(pow2(52) * pow2(t) >= pow2(52) * pow2(12)) by (nonlinear_arith)
                requires
                    pow2(t) >= pow2(12),
            ;
            assert(false);
        }
        assert(t <= 11);
    }
}

/// `spec_round53`, as an executable computation.
fn round53_exec(m: u64, n: u64) -> (res: (u64, u64))
    requires
        11 <= n <= 60,
    ensures
        res.0 as nat == spec_round53(m as nat, n as nat).0,
        res.1 as nat == spec_round53(m as nat, n as nat).1,
        res.0 as nat <= pow2(53),
        res.1 <= n <= res.1 + 11,
{
    proof {
        lemma2_to64();
        lemma2_to64_rest();
        lemma_round53_err(m as nat, n as nat);
    }
    let t = excess_bits_exec(m);
    if t == 0 {
        (m, n)
    } else {
        let d = pow2_u64(t);
        proof {
            lemma_excess_bits_brackets(m as nat);
            lemma_round_div_even_err(m as nat, d as nat);
        }
        let q = m / d;
        let r = m % d;
        let rounded = if 2 * r > d {
            q + 1
        } else if 2 * r == d && q % 2 == 1 {
            q + 1
        } else {
            q
        };
        (rounded, n - t)
    }
}

/// The doublings that lift a ratio numerator into the normalization bracket
/// `[100 * 2^52, 100 * 2^53)`; `450359962737049600` is `100 * 2^52`.
pub open spec fn ratio_scale(num: nat) -> nat
    decreases (if num >= 450359962737049600 { 0int } else { 450359962737049600 - num })
        when 1 <= num
{
    if num >= 450359962737049600 {
        0
    } else {
        1 + ratio_scale(2 * num)
    }
}

/// The nearest 53-bit dyadic to `r / 100`, as a significand/exponent pair
/// meaning `first * 2^(-second)`.
pub open spec fn spec_fl_ratio(r: nat) -> (nat, nat)
    recommends
        1 <= r <= 100,
{
    let s = ratio_scale(r);
    (round_div_even(r * pow2(s), 100), s)
}

/// `spec_fl_ratio`, as an executable computation.
fn fl_ratio_exec(r: u64) -> (res: (u64, u64))
    requires
        1 <= r <= 100,
    ensures
        res.0 as nat == spec_fl_ratio(r as nat).0,
        res.1 as nat == spec_fl_ratio(r as nat).1,
        52 <= res.1 <= 59,
        pow2(52) <= res.0 as nat <= pow2(53),
{
    proof {
        lemma2_to64();
        lemma2_to64_rest();
    }
    let mut num: u64 = r;
    let mut s: u64 = 0;
    while num < 450359962737049600
        invariant
            1 <= r <= 100,
            num as nat == r * pow2(s as nat),
            num < 900719925474099200,
            1 <= num,
            s <= 59,
            ratio_scale(r as nat) == s + ratio_scale(num as nat),
        decreases (if num >= 450359962737049600 { 0int } else { 450359962737049600 - num }),
    {
        proof {
            lemma_pow2_unfold((s + 1) as nat);
            assert(2 * (r * pow2(s as nat)) == r * (2 * pow2(s as nat))) by (nonlinear_arith);
            if s >= 59 {
                // impossible: num = r * 2^s >= 2^59 would already be in the bracket
                lemma2_to64_rest();
                assert(r * pow2(59) >= 1 * pow2(59)) by (nonlinear_arith)
                    requires
                        r >= 1,
                ;
            }
        }
        num = 2 * num;
        s = s + 1;
    }
    proof {
        assert(ratio_scale(num as nat) == 0);
        // the exponent is at least 52: r * 2^s >= 100 * 2^52 and r <= 100
        if s < 52 {
            lemma_pow2_strictly_increases(s as nat, 52);
            assert(r * pow2(s as nat) <= 100 * pow2(s as nat)) by (nonlinear_arith)
                requires
                    r <= 100,
            ;
            assert(100 * pow2(s as nat) < 100 * pow2(52)) by (nonlinear_arith)
                requires
                    pow2(s as nat) < pow2(52),
            ;
        }
        lemma_round_div_even_err(num as nat, 100);
        // significand bracket: num in [100 * 2^52, 100 * 2^53)
        assert(num / 100 >= pow2(52)) by (nonlinear_arith)
            requires
                num >= 100 * pow2(52),
                num / 100 >= (100 * pow2(52)) / 100,
                (100 * pow2(52)) / 100 == pow2(52),
        ;
        assert((100 * pow2(52)) / 100 == pow2(52)) by (nonlinear_arith);
        assert(num / 100 < pow2(53)) by (nonlinear_arith)
            requires
                num < 100 * pow2(53),
        ;
    }
    let q = num / 100;
    let rem = num % 100;
    let m = if 2 * rem > 100 {
        q + 1
    } else if 2 * rem == 100 && q % 2 == 1 {
        q + 1
    } else {
        q
    };
    (m, s)
}

/// One channel of the darken pipeline: scale `x` into the unit interval,
/// subtract the ratio, clamp to `[0, 1]`, scale back by 255, cap at 255,
/// and round to the nearest integer with ties to even. A ratio of zero
/// leaves the channel unchanged.
pub open spec fn spec_darken_channel(x: nat, r: nat) -> nat
    recommends
        x <= 255,
        r <= 100,
{
    if r == 0 {
        x
    } else {
        let (m2, s2) = spec_fl_ratio(r);
        let (m1, n1) = spec_round53(x * (RECIP_255_MANT as nat), 60);
        let nn = if n1 >= s2 { n1 } else { s2 };
        let ia = m1 * pow2((nn - n1) as nat);
        let irat = m2 * pow2((nn - s2) as nat);
        if ia <= irat {
            0
        } else {
            let (mb0, nb0) = spec_round53((ia - irat) as nat, nn);
            let mb = if mb0 > pow2(nb0) { 1nat } else { mb0 };
            let nb = if mb0 > pow2(nb0) { 0nat } else { nb0 };
            let (mc, nc) = spec_round53(mb * 255, nb);
            if mc > 255 * pow2(nc) {
                255
            } else {
                round_div_even(mc, pow2(nc))
            }
        }
    }
}

/// `spec_darken_channel`, as an executable computation; the result is again
/// an 8-bit channel.
#[verifier::rlimit(80)]
pub fn darken_channel(x: u64, r: u64) -> (out: u64)
    requires
        x <= 255,
        r <= 100,
    ensures
        out as nat == spec_darken_channel(x as nat, r as nat),
        out <= 255,
{
    proof {
        lemma2_to64();
        lemma2_to64_rest();
    }
    if r == 0 {
        x
    } else {
        let (m2, s2) = fl_ratio_exec(r);
        proof {
            lemma_round53_err((x * RECIP_255_MANT) as nat, 60);
            assert(x * RECIP_255_MANT <= 255 * RECIP_255_MANT) by (nonlinear_arith)
                requires
                    x <= 255,
            ;
        }
        let (m1, n1) = round53_exec(x * RECIP_255_MANT, 60);
        let nn = if n1 >= s2 { n1 } else { s2 };
        proof {
            let mm = (x * RECIP_255_MANT) as nat;
            let t = excess_bits(mm);
            if t >= 9 {
                lemma_pow2_strictly_increases(8, t);
                lemma_pow2_adds(52, 8);
                assert(pow2(52) * pow2(t) >= pow2(52) * pow2(8)) by (nonlinear_arith)
                    requires
                        pow2(t) >= pow2(8),
                ;
                assert(false);
            }
            assert(52 <= n1 <= 60);
            if nn - n1 < 8 {
                lemma_pow2_strictly_increases((nn - n1) as nat, 8);
            }
            if nn - s2 < 8 {
                lemma_pow2_strictly_increases((nn - s2) as nat, 8);
            }
            lemma_pow2_adds(53, 8);
            assert(m1 * pow2((nn - n1) as nat) <= pow2(53) * pow2(8)) by (nonlinear_arith)
                requires
                    m1 <= pow2(53),
                    pow2((nn - n1) as nat) <= pow2(8),
            ;
            assert(m2 * pow2((nn - s2) as nat) <= pow2(53) * pow2(8)) by (nonlinear_arith)
                requires
                    m2 <= pow2(53),
                    pow2((nn - s2) as nat) <= pow2(8),
            ;
        }
        let ia = m1 * pow2_u64(nn - n1);
        let irat = m2 * pow2_u64(nn - s2);
        if ia <= irat {
            0
        } else {
            let (mb0, nb0) = round53_exec(ia - irat, nn);
            proof {
                lemma_round53_err((ia - irat) as nat, nn as nat);
            }
            if mb0 > pow2_u64(nb0) {
                // the clamp to 1.0 fires; 1.0 scaled by 255 is exactly 255
                proof {
                    assert(excess_bits(255) == 0);
                    assert(255nat / 1 == 255 && 255nat % 1 == 0) by (nonlinear_arith);
                }
                255
            } else {
            let mb = mb0;
            let nb = nb0;
            proof {
                assert(mb * 255 <= pow2(53) * 255) by (nonlinear_arith)
                    requires
                        mb <= pow2(53),
                ;
            }
            let (mc, nc) = round53_exec(mb * 255, nb);
            proof {
                lemma_round53_err((mb * 255) as nat, nb as nat);
            }
            let exceeds = if nc <= 45 {
                mc > 255 * pow2_u64(nc)
            } else {
                proof {
                    if mc > 255 * pow2(nc as nat) {
                        lemma_pow2_strictly_increases(46, nc as nat);
                        assert(255 * pow2(nc as nat) >= 255 * pow2(46)) by (nonlinear_arith)
                            requires
                                pow2(nc as nat) >= pow2(46),
                        ;
                    }
                }
                false
            };
            if exceeds {
                255
            } else {
                let d = pow2_u64(nc);
                let q = mc / d;
                let rem = mc % d;
                proof {
                    lemma_round_div_even_err(mc as nat, d as nat);
                    lemma_fundamental_div_mod(mc as int, d as int);
                    assert(0 <= (mc as int) % (d as int) < (d as int)) by (nonlinear_arith)
                        requires
                            (d as int) >= 1,
                    ;
                    assert((mc as int) / (d as int) <= 255) by (nonlinear_arith)
                        requires
                            (d as int) >= 1,
                            (mc as int) <= 255 * (d as int),
                    ;
                    assert((mc as int) / (d as int) < 255 || (mc as int) % (d as int) == 0)
                        by (nonlinear_arith)
                        requires
                            (d as int) >= 1,
                            (mc as int) <= 255 * (d as int),
                            (mc as int) == (d as int) * ((mc as int) / (d as int)) + (mc as int) % (
                            d as int),
                            (mc as int) % (d as int) >= 0,
                    ;
                }
                if 2 * rem > d {
                    q + 1
                } else if 2 * rem == d && q % 2 == 1 {
                    q + 1
                } else {
                    q
                }
            }
            }
        }
    }
}

/// The doubling scale lands the ratio numerator in `[100 * 2^52, 100 * 2^53)`
/// with an exponent between 52 and 59.
proof fn lemma_ratio_scale_bracket(num: nat)
    requires
        1 <= num <= 100,
    ensures
        num * pow2(ratio_scale(num)) >= 450359962737049600,
        num * pow2(ratio_scale(num)) < 900719925474099200,
        52 <= ratio_scale(num) <= 59,
{
    lemma2_to64();
    lemma2_to64_rest();
    lemma_ratio_scale_bracket_rec(num);
    let t = ratio_scale(num);
    if t < 52 {
        lemma_pow2_strictly_increases(t, 52);
        assert(num * pow2(t) <= 100 * pow2(t)) by (nonlinear_arith)
            requires
                num <= 100,
        ;
        assert(100 * pow2(t) < 100 * pow2(52)) by (nonlinear_arith)
            requires
                pow2(t) < pow2(52),
        ;
    }
    if t > 59 {
        if t > 60 {
            lemma_pow2_strictly_increases(60, t);
        }
        assert(pow2(t) >= pow2(60));
        assert(num * pow2(t) >= 1 * pow2(t)) by (nonlinear_arith)
            requires
                num >= 1,
        ;
    }
}

/// The recursive part of the bracket argument for `ratio_scale`.
proof fn lemma_ratio_scale_bracket_rec(num: nat)
    requires
        1 <= num < 900719925474099200,
    ensures
        num * pow2(ratio_scale(num)) >= 450359962737049600,
        num * pow2(ratio_scale(num)) < 900719925474099200,
    decreases (if num >= 450359962737049600 { 0int } else { 450359962737049600 - num }),
{
    lemma2_to64();
    if num >= 450359962737049600 {
        assert(num * pow2(0) == num) by (nonlinear_arith)
            requires
                pow2(0) == 1,
        ;
    } else {
        lemma_ratio_scale_bracket_rec(2 * num);
        let t1 = ratio_scale(2 * num);
        lemma_pow2_unfold(t1 + 1);
        assert(num * pow2(t1 + 1) == (2 * num) * pow2(t1)) by (nonlinear_arith)
            requires
                pow2(t1 + 1) == 2 * pow2(t1),
        ;
    }
}

/// Darkening by a nonzero ratio pulls a channel down by essentially
/// 2.55 per hundredth of ratio: either the channel bottoms out at zero,
/// or `100 * out + 255 * r <= 100 * x + 50`.
pub proof fn lemma_darken_channel_drop(x: nat, r: nat)
    requires
        x <= 255,
        1 <= r <= 100,
    ensures
        spec_darken_channel(x, r) == 0
            || 100 * spec_darken_channel(x, r) + 255 * r <= 100 * x + 50,
{
    lemma2_to64();
    lemma2_to64_rest();
    let (m2, s2) = spec_fl_ratio(r);
    let (m1, n1) = spec_round53(x * (RECIP_255_MANT as nat), 60);
    let nn = if n1 >= s2 { n1 } else { s2 };
    let ia = m1 * pow2((nn - n1) as nat);
    let irat = m2 * pow2((nn - s2) as nat);

    // ratio significand: bracket, plus rounding error scaled to 2^-60 units
    lemma_ratio_scale_bracket(r);
    lemma_round_div_even_err(r * pow2(s2), 100);
    lemma_pow2_adds(s2, (60 - s2) as nat);
    let irat60 = m2 * pow2((60 - s2) as nat);
    assert(pow2((60 - s2) as nat) <= 256) by {
        if s2 > 52 {
            lemma_pow2_strictly_increases((60 - s2) as nat, 8);
        }
    }
    assert(100 * irat60 + 12800 >= r * pow2(60)) by (nonlinear_arith)
        requires
            2 * (r * pow2(s2)) <= 2 * (m2 * 100) + 100,
            pow2(s2) * pow2((60 - s2) as nat) == pow2(60),
            irat60 == m2 * pow2((60 - s2) as nat),
            1 <= pow2((60 - s2) as nat) <= 256,
    ;

    // channel significand: error already in 2^-60 units
    let mm = x * (RECIP_255_MANT as nat);
    assert(mm <= 255 * (RECIP_255_MANT as nat)) by (nonlinear_arith)
        requires
            mm == x * (RECIP_255_MANT as nat),
            x <= 255,
    ;
    assert(mm < pow2(60));
    lemma_round53_err(mm, 60);
    assert(60 - n1 <= 8 && n1 <= 60) by {
        if excess_bits(mm) >= 9 {
            lemma_pow2_strictly_increases(8, excess_bits(mm));
            lemma_pow2_adds(52, 8);
            assert(pow2(52) * pow2(excess_bits(mm)) >= pow2(52) * pow2(8)) by (nonlinear_arith)
                requires
                    pow2(excess_bits(mm)) >= pow2(8),
            ;
        }
    }
    let ia60 = m1 * pow2((60 - n1) as nat);
    assert(pow2((60 - n1) as nat) <= pow2(8)) by {
        if 60 - n1 < 8 {
            lemma_pow2_strictly_increases((60 - n1) as nat, 8);
        }
    }
    assert(2 * ia60 <= 2 * mm + pow2(8)) by (nonlinear_arith)
        requires
            ia60 == m1 * pow2((60 - n1) as nat),
            2 * (m1 * pow2((60 - n1) as nat)) <= 2 * mm + pow2((60 - n1) as nat),
            pow2((60 - n1) as nat) <= pow2(8),
    ;

    if ia <= irat {
        assert(spec_darken_channel(x, r) == 0);
    } else {
        let dd = (ia - irat) as nat;
        let sc = pow2((60 - nn) as nat);
        lemma_pow2_pos((60 - nn) as nat);
        lemma_pow2_adds((nn - n1) as nat, (60 - nn) as nat);
        lemma_pow2_adds((nn - s2) as nat, (60 - nn) as nat);
        assert(ia * sc == ia60) by (nonlinear_arith)
            requires
                ia == m1 * pow2((nn - n1) as nat),
                ia60 == m1 * pow2((60 - n1) as nat),
                sc == pow2((60 - nn) as nat),
                pow2((nn - n1) as nat) * pow2((60 - nn) as nat) == pow2((60 - n1) as nat),
        ;
        assert(irat * sc == irat60) by (nonlinear_arith)
            requires
                irat == m2 * pow2((nn - s2) as nat),
                irat60 == m2 * pow2((60 - s2) as nat),
                sc == pow2((60 - nn) as nat),
                pow2((nn - s2) as nat) * pow2((60 - nn) as nat) == pow2((60 - s2) as nat),
        ;
        let dd60 = dd * sc;
        assert(dd60 + irat60 == ia60) by (nonlinear_arith)
            requires
                dd60 == dd * sc,
                dd + irat == ia,
                ia * sc == ia60,
                irat * sc == irat60,
        ;

        // bound the aligned difference so the rounding lemma applies
        assert(ia <= pow2(53) * pow2(8)) by (nonlinear_arith)
            requires
                ia == m1 * pow2((nn - n1) as nat),
                m1 <= pow2(53),
                pow2((nn - n1) as nat) <= pow2(8),
        ;
        assert(pow2((nn - n1) as nat) <= pow2(8)) by {
            if nn - n1 < 8 {
                lemma_pow2_strictly_increases((nn - n1) as nat, 8);
            }
        }
        lemma_pow2_adds(53, 8);
        assert(dd < pow2(64)) by {
            lemma_pow2_strictly_increases(61, 64);
        }
        let (mb0, nb0) = spec_round53(dd, nn);
        lemma_round53_err(dd, nn);
        let tb = (nn - nb0) as nat;
        let ib60 = mb0 * pow2((60 - nb0) as nat);
        lemma_pow2_adds(tb, (60 - nn) as nat);
        assert(2 * ib60 <= 2 * dd60 + pow2((60 - nb0) as nat)) by (nonlinear_arith)
            requires
                2 * (mb0 * pow2(tb)) <= 2 * dd + pow2(tb),
                pow2(tb) * pow2((60 - nn) as nat) == pow2((60 - nb0) as nat),
                ib60 == mb0 * pow2((60 - nb0) as nat),
                dd60 == dd * sc,
                sc == pow2((60 - nn) as nat),
                sc >= 1,
        ;
        assert(pow2((60 - nb0) as nat) <= pow2(19)) by {
            if 60 - nb0 < 19 {
                lemma_pow2_strictly_increases((60 - nb0) as nat, 19);
            }
        }

        // the clamp to 1.0 only ever lowers the value
        let clamped = mb0 > pow2(nb0);
        let mb = if clamped { 1nat } else { mb0 };
        let nb = if clamped { 0nat } else { nb0 };
        let realb60 = mb * pow2((60 - nb) as nat);
        lemma_pow2_adds(nb0, (60 - nb0) as nat);
        assert(realb60 <= ib60) by (nonlinear_arith)
            requires
                realb60 == mb * pow2((60 - nb) as nat),
                ib60 == mb0 * pow2((60 - nb0) as nat),
                !clamped ==> mb == mb0 && nb == nb0,
                clamped ==> mb == 1 && nb == 0 && mb0 >= pow2(nb0) + 1,
                pow2(nb0) * pow2((60 - nb0) as nat) == pow2(60),
                pow2((60 - 0) as nat) == pow2(60),
        ;

        // rescale by 255; when clamped the result is exactly 255
        let (mc, nc) = spec_round53(mb * 255, nb);
        let ic60 = mc * pow2((60 - nc) as nat);
        if clamped {
            assert(excess_bits(255) == 0);
            assert(mc == 255 && nc == 0);
            assert(2 * ic60 <= 2 * (255 * realb60) + pow2((60 - nc) as nat)) by (nonlinear_arith)
                requires
                    ic60 == mc * pow2((60 - nc) as nat),
                    mc == 255 && nc == 0,
                    realb60 == 1 * pow2((60 - 0) as nat),
            ;
        } else {
            assert(mb * 255 < pow2(64)) by (nonlinear_arith)
                requires
                    mb <= pow2(53),
                    pow2(53) * 255 < pow2(64),
            ;
            assert(pow2(53) * 255 < pow2(64)) by (nonlinear_arith)
                requires
                    pow2(53) * 256 == pow2(61),
                    pow2(61) < pow2(64),
            ;
            lemma_pow2_adds(53, 8);
            lemma_pow2_strictly_increases(61, 64);
            assert(nb >= 41);
            lemma_round53_err(mb * 255, nb);
            let tc = (nb - nc) as nat;
            lemma_pow2_adds(tc, (60 - nb) as nat);
            assert(2 * ic60 <= 2 * (255 * realb60) + pow2((60 - nc) as nat)) by (nonlinear_arith)
                requires
                    2 * (mc * pow2(tc)) <= 2 * (mb * 255) + pow2(tc),
                    pow2(tc) * pow2((60 - nb) as nat) == pow2((60 - nc) as nat),
                    ic60 == mc * pow2((60 - nc) as nat),
                    realb60 == mb * pow2((60 - nb) as nat),
                    pow2((60 - nb) as nat) >= 1,
        ;
        }
        assert(pow2((60 - nc) as nat) <= pow2(30)) by {
            if 60 - nc < 30 {
                lemma_pow2_strictly_increases((60 - nc) as nat, 30);
            }
        }

        // the produced integer is within half of the scaled value
        let out = spec_darken_channel(x, r);
        lemma_pow2_pos(nc);
        lemma_pow2_pos((60 - nc) as nat);
        lemma_pow2_adds(nc, (60 - nc) as nat);
        if mc > 255 * pow2(nc) {
            assert(out == 255);
            assert(2 * (out * pow2(60)) <= 2 * ic60 + pow2(60)) by (nonlinear_arith)
                requires
                    out == 255,
                    ic60 == mc * pow2((60 - nc) as nat),
                    mc > 255 * pow2(nc),
                    pow2(nc) * pow2((60 - nc) as nat) == pow2(60),
                    pow2((60 - nc) as nat) >= 1,
            ;
        } else {
            lemma_round_div_even_err(mc, pow2(nc));
            assert(out == round_div_even(mc, pow2(nc)));
            assert(2 * (out * pow2(60)) <= 2 * ic60 + pow2(60)) by (nonlinear_arith)
                requires
                    2 * (out * pow2(nc)) <= 2 * mc + pow2(nc),
                    ic60 == mc * pow2((60 - nc) as nat),
                    pow2(nc) * pow2((60 - nc) as nat) == pow2(60),
                    pow2((60 - nc) as nat) >= 1,
            ;
        }

        // chain everything, scaled so the ratio drop becomes integral
        assert(255 * (RECIP_255_MANT as nat) == pow2(60) - 16);
        assert(51000 * ia60 <= 200 * (x * pow2(60)) + 51000 * 128) by (nonlinear_arith)
            requires
                2 * ia60 <= 2 * mm + pow2(8),
                mm == x * (RECIP_255_MANT as nat),
                255 * (RECIP_255_MANT as nat) == pow2(60) - 16,
                pow2(8) == 256,
        ;
        assert(200 * (out * pow2(60)) <= (200 * x - 510 * r) * pow2(60) + 100 * pow2(60) + 51000
            * 128 + 510 * 12800 + 100 * pow2(30) + 51000 * pow2(19)) by (nonlinear_arith)
            requires
                2 * (out * pow2(60)) <= 2 * ic60 + pow2(60),
                2 * ic60 <= 2 * (255 * realb60) + pow2(30),
                2 * ib60 <= 2 * dd60 + pow2(19),
                realb60 <= ib60,
                dd60 + irat60 == ia60,
                51000 * ia60 <= 200 * (x * pow2(60)) + 51000 * 128,
                100 * irat60 + 12800 >= r * pow2(60),
                pow2((60 - nc) as nat) <= pow2(30),
                pow2((60 - nb0) as nat) <= pow2(19),
        ;
        assert(100 * pow2(60) + 51000 * 128 + 510 * 12800 + 100 * pow2(30) + 51000 * pow2(19)
            < 101 * pow2(60));
        assert(100 * out + 255 * r <= 100 * x + 50) by (nonlinear_arith)
            requires
                200 * (out * pow2(60)) < (200 * x - 510 * r + 101) * pow2(60),
                pow2(60) >= 1,
        ;
        assert(200 * (out * pow2(60)) < (200 * x - 510 * r + 101) * pow2(60)) by (nonlinear_arith)
            requires
                200 * (out * pow2(60)) <= (200 * x - 510 * r) * pow2(60) + 100 * pow2(60) + 51000
                    * 128 + 510 * 12800 + 100 * pow2(30) + 51000 * pow2(19),
                100 * pow2(60) + 51000 * 128 + 510 * 12800 + 100 * pow2(30) + 51000 * pow2(19)
                    < 101 * pow2(60),
        ;
    }
}

/// The red channel of a packed `0xRRGGBB` value; bits above the low 24 are
/// ignored.
pub open spec fn spec_red(c: nat) -> nat {
    (c / 0x10000) % 0x100
}

/// The green channel of a packed `0xRRGGBB` value.
pub open spec fn spec_green(c: nat) -> nat {
    (c / 0x100) % 0x100
}

/// The blue channel of a packed `0xRRGGBB` value.
pub open spec fn spec_blue(c: nat) -> nat {
    c % 0x100
}

/// Darkening a packed color darkens each 8-bit channel independently and
/// repacks the results; bits above the low 24 are dropped.
pub open spec fn spec_darken_color(c: nat, r: nat) -> nat {
    spec_darken_channel(spec_red(c), r) * 0x10000 + spec_darken_channel(spec_green(c), r) * 0x100
        + spec_darken_channel(spec_blue(c), r)
}

/// A 24-bit color splits into its three channels and recombines exactly.
pub proof fn lemma_unpack_repack(c: nat)
    requires
        c <= 0xFFFFFF,
    ensures
        spec_red(c) * 0x10000 + spec_green(c) * 0x100 + spec_blue(c) == c,
        spec_red(c) <= 255,
        spec_green(c) <= 255,
        spec_blue(c) <= 255,
{
    assert((c / 0x10000) % 0x100 * 0x10000 + (c / 0x100) % 0x100 * 0x100 + c % 0x100 == c)
        by (nonlinear_arith)
        requires
            c <= 0xFFFFFF,
    ;
    assert((c / 0x10000) % 0x100 <= 255 && (c / 0x100) % 0x100 <= 255 && c % 0x100 <= 255)
        by (nonlinear_arith);
}

/// Packing three 8-bit channels and reading them back returns each channel.
pub proof fn lemma_pack_channels(a: nat, b: nat, c: nat)
    requires
        a <= 255,
        b <= 255,
        c <= 255,
    ensures
        spec_red(a * 0x10000 + b * 0x100 + c) == a,
        spec_green(a * 0x10000 + b * 0x100 + c) == b,
        spec_blue(a * 0x10000 + b * 0x100 + c) == c,
{
    let p = a * 0x10000 + b * 0x100 + c;
    assert((p / 0x10000) % 0x100 == a && (p / 0x100) % 0x100 == b && p % 0x100 == c)
        by (nonlinear_arith)
        requires
            p == a * 0x10000 + b * 0x100 + c,
            a <= 255,
            b <= 255,
            c <= 255,
    ;
}

/// Darkens a packed `0xRRGGBB` color by a ratio given in hundredths.
/// A ratio of zero returns the (24-bit) color unchanged; any ratio keeps
/// every channel at or below where it was.
pub fn darken_color(from_color: u32, ratio_centi: u8) -> (out: u32)
    requires
        ratio_centi <= 100,
    ensures
        out as nat == spec_darken_color(from_color as nat, ratio_centi as nat),
        out <= 0xFFFFFF,
        ratio_centi == 0 && from_color <= 0xFFFFFF ==> out == from_color,
{
    let red = ((from_color / 0x10000) % 0x100) as u64;
    let green = ((from_color / 0x100) % 0x100) as u64;
    let blue = (from_color % 0x100) as u64;
    let dr = darken_channel(red, ratio_centi as u64);
    let dg = darken_channel(green, ratio_centi as u64);
    let db = darken_channel(blue, ratio_centi as u64);
    let out = (dr as u32) * 0x10000 + (dg as u32) * 0x100 + (db as u32);
    proof {
        if ratio_centi == 0 && from_color <= 0xFFFFFF {
            lemma_unpack_repack(from_color as nat);
        }
    }
    out
}

/// Darkening is per-channel non-increasing, and a ratio of zero is the
/// identity on 24-bit colors.
pub proof fn lemma_darken_monotone(c: nat, r: nat)
    requires
        c <= 0xFFFFFF,
        r <= 100,
    ensures
        r == 0 ==> spec_darken_color(c, r) == c,
        spec_red(spec_darken_color(c, r)) <= spec_red(c),
        spec_green(spec_darken_color(c, r)) <= spec_green(c),
        spec_blue(spec_darken_color(c, r)) <= spec_blue(c),
        spec_darken_color(c, r) <= c,
        spec_darken_color(c, r) <= 0xFFFFFF,
{
    lemma_unpack_repack(c);
    let dr = spec_darken_channel(spec_red(c), r);
    let dg = spec_darken_channel(spec_green(c), r);
    let db = spec_darken_channel(spec_blue(c), r);
    if r >= 1 {
        lemma_darken_channel_drop(spec_red(c), r);
        lemma_darken_channel_drop(spec_green(c), r);
        lemma_darken_channel_drop(spec_blue(c), r);
    }
    assert(dr <= spec_red(c) && dg <= spec_green(c) && db <= spec_blue(c));
    lemma_pack_channels(dr, dg, db);
}

/// Darkening a nonzero 24-bit color by a nonzero ratio strictly lowers its
/// packed value: trail generation always walks down to black.
pub proof fn lemma_darken_decreases(c: nat, r: nat)
    requires
        1 <= c <= 0xFFFFFF,
        1 <= r <= 100,
    ensures
        spec_darken_color(c, r) < c,
{
    lemma_unpack_repack(c);
    lemma_darken_channel_drop(spec_red(c), r);
    lemma_darken_channel_drop(spec_green(c), r);
    lemma_darken_channel_drop(spec_blue(c), r);
    let dr = spec_darken_channel(spec_red(c), r);
    let dg = spec_darken_channel(spec_green(c), r);
    let db = spec_darken_channel(spec_blue(c), r);
    assert(spec_red(c) > 0 ==> dr < spec_red(c));
    assert(spec_green(c) > 0 ==> dg < spec_green(c));
    assert(spec_blue(c) > 0 ==> db < spec_blue(c));
}

} // verus!
