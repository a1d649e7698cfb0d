//! Fixed-point waveform mathematics: a sine shape, base-two exponentials and
//! logarithms.
//!
//! The exponential and logarithm work at a binary scale of `1/65536` so that
//! octave shifts are exact; the sine works on phase measured in thousandths
//! of a cycle. Each function computes exactly the value its spec mirror
//! describes; the mirrors are piecewise-polynomial approximations of the
//! transcendental originals.

use vstd::prelude::*;
use vstd::arithmetic::power2::pow2;

verus! {

/// Exponents above this (45 octaves) saturate `exp2_fixed`.
pub const EXP2_MAX_ARG: i64 = 2949120;

/// Exponents below this (-17 octaves) yield zero from `exp2_fixed`.
pub const EXP2_MIN_ARG: i64 = -1114112;


/// `pow2` is monotone.
pub proof fn lemma_pow2_le(a: nat, b: nat)
    requires
        a <= b,
    ensures
        pow2(a) <= pow2(b),
{
    if a < b {
        vstd::arithmetic::power2::lemma_pow2_strictly_increases(a, b);
    }
}

/// `2^(1/2^k)` at scale 65536, for `k` in `1..=16`.
pub open spec fn exp2_const(k: int) -> int {
    if k == 1 {
        92682
    } else if k == 2 {
        77936
    } else if k == 3 {
        71468
    } else if k == 4 {
        68438
    } else if k == 5 {
        66971
    } else if k == 6 {
        66250
    } else if k == 7 {
        65892
    } else if k == 8 {
        65714
    } else if k == 9 {
        65625
    } else if k == 10 {
        65580
    } else if k == 11 {
        65558
    } else if k == 12 {
        65547
    } else if k == 13 {
        65542
    } else if k == 14 {
        65539
    } else {
        65537
    }
}

/// The fractional-power product after the `k` highest bits of `f` (a value
/// in `[0, 65536)`) have been folded in: an approximation of
/// `65536 * 2^((f >> (16-k) << (16-k)) / 65536)`.
pub open spec fn exp2_frac(f: int, k: nat) -> int
    decreases k,
{
    if k == 0 {
        65536
    } else {
        let prev = exp2_frac(f, (k - 1) as nat);
        if f / pow2((16 - k) as nat) as int % 2 == 1 {
            prev * exp2_const(k as int) / 65536
        } else {
            prev
        }
    }
}

/// The product stays within one doubling per folded bit.
pub proof fn lemma_exp2_frac_bounds(f: int, k: nat)
    requires
        k <= 16,
    ensures
        65536 <= exp2_frac(f, k) <= 65536 * pow2(k) as int,
    decreases k,
{
    vstd::arithmetic::power2::lemma_pow2_pos(k);
    if k > 0 {
        lemma_exp2_frac_bounds(f, (k - 1) as nat);
        vstd::arithmetic::power2::lemma_pow2_pos((k - 1) as nat);
        vstd::arithmetic::power2::lemma_pow2_unfold(k);
        let prev = exp2_frac(f, (k - 1) as nat);
        if f / pow2((16 - k) as nat) as int % 2 == 1 {
            let c = exp2_const(k as int);
            assert(65536 <= c <= 92682);
            assert(prev * 65536 <= prev * c <= prev * 2 * 65536) by (nonlinear_arith)
                requires
                    65536 <= prev,
                    65536 <= c <= 92682,
            ;
            assert(prev * c / 65536 >= prev * 65536 / 65536) by {
                vstd::arithmetic::div_mod::lemma_div_is_ordered(prev * 65536, prev * c, 65536);
            }
            assert(prev * 65536 / 65536 == prev) by {
                vstd::arithmetic::div_mod::lemma_div_by_multiple(prev, 65536);
            }
            assert(prev * c / 65536 <= prev * 2 * 65536 / 65536) by {
                vstd::arithmetic::div_mod::lemma_div_is_ordered(prev * c, prev * 2 * 65536, 65536);
            }
            assert(prev * 2 * 65536 / 65536 == prev * 2) by {
                vstd::arithmetic::div_mod::lemma_div_by_multiple(prev * 2, 65536);
            }
            assert(prev * 2 <= 65536 * pow2((k - 1) as nat) as int * 2) by (nonlinear_arith)
                requires
                    prev <= 65536 * pow2((k - 1) as nat) as int,
            ;
            assert(65536 * pow2((k - 1) as nat) as int * 2 == 65536 * pow2(k) as int) by (nonlinear_arith)
                requires
                    pow2(k) == 2 * pow2((k - 1) as nat),
            ;
        } else {
            assert(prev <= 65536 * pow2((k - 1) as nat) as int);
            assert(65536 * pow2((k - 1) as nat) as int <= 65536 * pow2(k) as int) by (nonlinear_arith)
                requires
                    pow2(k) == 2 * pow2((k - 1) as nat),
                    pow2((k - 1) as nat) >= 1,
            ;
        }
    }
}

/// `2^(e/65536)` at scale 65536, clamped: exponents are cut to
/// `[EXP2_MIN_ARG, EXP2_MAX_ARG]` and the fractional product to one octave.
pub open spec fn exp2_fixed_spec(e: int) -> int {
    let ec = if e > EXP2_MAX_ARG as int {
        EXP2_MAX_ARG as int
    } else if e < EXP2_MIN_ARG as int {
        EXP2_MIN_ARG as int
    } else {
        e
    };
    let q = ec / 65536;
    let f = ec % 65536;
    let raw = exp2_frac(f, 16);
    let frac = if raw > 131071 {
        131071
    } else {
        raw
    };
    if q >= 0 {
        frac * pow2(q as nat) as int
    } else {
        frac / pow2((-q) as nat) as int
    }
}

/// `2^(e/65536)` at scale 65536: one example, `exp2_fixed(65536) == 131072`.
pub fn exp2_fixed(e: i64) -> (r: i64)
    ensures
        r == exp2_fixed_spec(e as int),
        0 <= r <= 0x7000_0000_0000_0000,
{
    let ec: i64 = if e > EXP2_MAX_ARG {
        EXP2_MAX_ARG
    } else if e < EXP2_MIN_ARG {
        EXP2_MIN_ARG
    } else {
        e
    };
    let q: i64 = match ec.checked_div_euclid(65536) {
        Some(v) => v,
        None => 0,
    };
    let f: u64 = match ec.checked_rem_euclid(65536) {
        Some(v) => v as u64,
        None => 0,
    };
    proof {
        assert(-17 <= q <= 45);
        assert(0 <= f < 65536);
    }
    // fold in the fraction bits, highest first
    let mut r: u64 = 65536;
    let mut w: u64 = 32768;
    let mut k: usize = 1;
    proof {
        vstd::arithmetic::power2::lemma2_to64();
    }
    while k <= 16
        invariant
            1 <= k <= 17,
            f < 65536,
            k <= 16 ==> w as int == pow2((16 - k) as nat),
            r == exp2_frac(f as int, (k - 1) as nat),
            65536 <= r <= 65536 * pow2((k - 1) as nat),
        decreases 17 - k,
    {
        proof {
            lemma_exp2_frac_bounds(f as int, (k - 1) as nat);
            lemma_exp2_frac_bounds(f as int, k as nat);
            vstd::arithmetic::power2::lemma_pow2_pos((16 - k) as nat);
            if k < 16 {
                vstd::arithmetic::power2::lemma_pow2_unfold((16 - k) as nat);
            }
            assert(65536 * pow2((k - 1) as nat) <= 65536 * pow2(16)) by {
                lemma_pow2_le((k - 1) as nat, 16);
                vstd::arithmetic::mul::lemma_mul_inequality(
                    pow2((k - 1) as nat) as int,
                    pow2(16) as int,
                    65536,
                );
            }
            assert(pow2(16) == 65536) by {
                vstd::arithmetic::power2::lemma2_to64();
            }
        }
        let c: u64 = exp2_const_at(k);
        let bit: u64 = (f / w) % 2;
        if bit == 1 {
            r = (r * c) / 65536;
        }
        proof {
            vstd::arithmetic::power2::lemma2_to64();
        }
        w = w / 2;
        k = k + 1;
    }
    let frac: u64 = if r > 131071 {
        131071
    } else {
        r
    };
    // apply the integer octaves
    if q >= 0 {
        let mut result: u64 = frac;
        let mut j: i64 = 0;
        while j < q
            invariant
                0 <= j <= q <= 45,
                result == frac * pow2(j as nat),
                frac <= 131071,
            decreases q - j,
        {
            proof {
                vstd::arithmetic::power2::lemma_pow2_unfold((j + 1) as nat);
                assert(frac * pow2(j as nat) * 2 == frac * pow2((j + 1) as nat)) by (nonlinear_arith)
                    requires
                        pow2((j + 1) as nat) == 2 * pow2(j as nat),
                ;
                assert(frac * pow2((j + 1) as nat) <= 131071 * pow2(46)) by {
                    lemma_pow2_le((j + 1) as nat, 46);
                    vstd::arithmetic::mul::lemma_mul_upper_bound(
                        frac as int,
                        131071,
                        pow2((j + 1) as nat) as int,
                        pow2(46) as int,
                    );
                }
                assert(pow2(46) == 0x4000_0000_0000) by {
                    vstd::arithmetic::power2::lemma2_to64();
                    vstd::arithmetic::power2::lemma2_to64_rest();
                }
            }
            result = result * 2;
            j = j + 1;
        }
        proof {
            assert(frac * pow2(q as nat) <= 131071 * pow2(45)) by {
                lemma_pow2_le(q as nat, 45);
                vstd::arithmetic::mul::lemma_mul_upper_bound(
                    frac as int,
                    131071,
                    pow2(q as nat) as int,
                    pow2(45) as int,
                );
            }
            assert(pow2(45) == 0x2000_0000_0000) by {
                vstd::arithmetic::power2::lemma2_to64();
                vstd::arithmetic::power2::lemma2_to64_rest();
            }
        }
        result as i64
    } else {
        let mut result: u64 = frac;
        let mut j: i64 = 0;
        let steps: i64 = -q;
        proof {
            assert(exp2_fixed_spec(e as int) == frac as int / pow2(steps as nat) as int);
        }
        while j < steps
            invariant
                0 <= j <= steps <= 17,
                frac <= 131071,
                result <= frac,
                result as int == frac as int / pow2(j as nat) as int,
            decreases steps - j,
        {
            proof {
                vstd::arithmetic::power2::lemma_pow2_unfold((j + 1) as nat);
                vstd::arithmetic::power2::lemma_pow2_pos(j as nat);
                vstd::arithmetic::power2::lemma_pow2_pos((j + 1) as nat);
                vstd::arithmetic::div_mod::lemma_div_denominator(
                    frac as int,
                    pow2(j as nat) as int,
                    2,
                );
            }
            result = result / 2;
            j = j + 1;
            proof {
                vstd::arithmetic::div_mod::lemma_div_nonincreasing(frac as int, pow2(j as nat) as int);
            }
        }
        result as i64
    }
}

/// `2^(1/2^k)` at scale 65536 as an executable table.
fn exp2_const_at(k: usize) -> (c: u64)
    requires
        1 <= k <= 16,
    ensures
        c as int == exp2_const(k as int),
        65537 <= c <= 92682,
{
    if k == 1 {
        92682
    } else if k == 2 {
        77936
    } else if k == 3 {
        71468
    } else if k == 4 {
        68438
    } else if k == 5 {
        66971
    } else if k == 6 {
        66250
    } else if k == 7 {
        65892
    } else if k == 8 {
        65714
    } else if k == 9 {
        65625
    } else if k == 10 {
        65580
    } else if k == 11 {
        65558
    } else if k == 12 {
        65547
    } else if k == 13 {
        65542
    } else if k == 14 {
        65539
    } else {
        65537
    }
}


/// A piecewise-parabolic sine shape: input is phase in thousandths of a
/// cycle, output is in `[-1000, 1000]`, with `sine_milli_spec(250) == 1000`.
pub open spec fn sine_milli_spec(y: int) -> int {
    let u = y % 1000;
    if u < 500 {
        2 * u * (500 - u) / 125
    } else {
        -(2 * (u - 500) * (1000 - u) / 125)
    }
}

/// One period of a sine-like waveform, phase in thousandths of a cycle.
pub fn sine_milli(y: i64) -> (r: i64)
    ensures
        r == sine_milli_spec(y as int),
        -1000 <= r <= 1000,
{
    let u: i64 = match y.checked_rem_euclid(1000) {
        Some(v) => v,
        None => 0,
    };
    proof {
        assert(0 <= u < 1000);
    }
    if u < 500 {
        proof {
            assert(0 <= 2 * (u as int) * (500 - u as int) <= 125000) by (nonlinear_arith)
                requires
                    0 <= u as int && u as int <= 499,
            ;
        }
        let p: i64 = 2 * u * (500 - u);
        proof {
            vstd::arithmetic::div_mod::lemma_div_is_ordered(p as int, 125000, 125);
            vstd::arithmetic::div_mod::lemma_div_pos_is_pos(p as int, 125);
        }
        p / 125
    } else {
        proof {
            assert(0 <= 2 * (u as int - 500) * (1000 - u as int) <= 125000) by (nonlinear_arith)
                requires
                    500 <= u as int && u as int <= 999,
            ;
        }
        let p: i64 = 2 * (u - 500) * (1000 - u);
        proof {
            vstd::arithmetic::div_mod::lemma_div_is_ordered(p as int, 125000, 125);
            vstd::arithmetic::div_mod::lemma_div_pos_is_pos(p as int, 125);
        }
        -(p / 125)
    }
}

/// Doubles `x` until it reaches `[65536, 131072)`; the second component
/// counts the doublings, negatively.
pub open spec fn log2_norm_up(x: int) -> (int, int)
    decreases 131072 - x,
{
    if x <= 0 {
        (0, 0)
    } else if x >= 65536 {
        (x, 0)
    } else {
        let r = log2_norm_up(2 * x);
        (r.0, r.1 - 1)
    }
}

/// Halves `x` until it drops below 131072; the second component counts the
/// halvings.
pub open spec fn log2_norm_down(x: int) -> (int, int)
    decreases x,
{
    if x < 131072 {
        (x, 0)
    } else {
        let r = log2_norm_down(x / 2);
        (r.0, r.1 + 1)
    }
}

/// `k` square-and-compare steps of the binary-logarithm recurrence: returns
/// the residual mantissa and the `k` fraction bits read so far.
pub open spec fn log2_steps(nx: int, k: nat) -> (int, int)
    decreases k,
{
    if k == 0 {
        (nx, 0)
    } else {
        let sq = nx * nx / 65536;
        if sq >= 131072 {
            let r = log2_steps(sq / 2, (k - 1) as nat);
            (r.0, pow2((k - 1) as nat) as int + r.1)
        } else {
            log2_steps(sq, (k - 1) as nat)
        }
    }
}

/// `log2(x) * 65536` for a positive integer `x`, by normalization and
/// sixteen square-and-compare steps; zero for `x < 1`.
pub open spec fn log2_fixed_spec(x: int) -> int {
    if x < 1 {
        0
    } else {
        let norm = if x < 65536 {
            log2_norm_up(x)
        } else {
            log2_norm_down(x)
        };
        let f = log2_steps(norm.0, 16).1;
        (16 + norm.1) * 65536 + f
    }
}

/// `2^k` as an executable value, for `k` up to 15.
fn pow2_at(k: usize) -> (r: u64)
    requires
        k <= 15,
    ensures
        r as int == pow2(k as nat),
{
    proof {
        vstd::arithmetic::power2::lemma2_to64();
    }
    if k == 0 {
        1
    } else if k == 1 {
        2
    } else if k == 2 {
        4
    } else if k == 3 {
        8
    } else if k == 4 {
        16
    } else if k == 5 {
        32
    } else if k == 6 {
        64
    } else if k == 7 {
        128
    } else if k == 8 {
        256
    } else if k == 9 {
        512
    } else if k == 10 {
        1024
    } else if k == 11 {
        2048
    } else if k == 12 {
        4096
    } else if k == 13 {
        8192
    } else if k == 14 {
        16384
    } else {
        32768
    }
}

fn log2_norm_up_exec(x: u64) -> (r: (u64, i64))
    requires
        1 <= x < 65536,
    ensures
        (r.0 as int, r.1 as int) == log2_norm_up(x as int),
        65536 <= r.0 < 131072,
        -16 <= r.1 <= -1,
        r.0 as int == x as int * pow2((-r.1) as nat) as int,
    decreases 65536 - x,
{
    let d = 2 * x;
    if d >= 65536 {
        proof {
            assert(log2_norm_up(d as int) == (d as int, 0int));
            vstd::arithmetic::power2::lemma2_to64();
            assert(d as int == x as int * pow2(1) as int);
        }
        (d, -1)
    } else {
        let r = log2_norm_up_exec(d);
        proof {
            let m = (1 - r.1) as nat;
            vstd::arithmetic::power2::lemma_pow2_unfold(m);
            assert(d as int * pow2((-r.1) as nat) as int == x as int * pow2(m) as int)
                by (nonlinear_arith)
                requires
                    d == 2 * x,
                    pow2(m) == 2 * pow2((-r.1) as nat),
            ;
            // the doubling count cannot pass 16: the product would overflow the window
            if m >= 17 {
                lemma_pow2_le(17, m);
                vstd::arithmetic::power2::lemma2_to64();
                vstd::arithmetic::power2::lemma2_to64_rest();
                assert(x as int * pow2(m) as int >= pow2(m) as int) by (nonlinear_arith)
                    requires
                        x >= 1,
                        pow2(m) >= 0,
                ;
                assert(false);
            }
        }
        (r.0, r.1 - 1)
    }
}

fn log2_norm_down_exec(x: u64) -> (r: (u64, i64))
    requires
        x >= 131072,
    ensures
        (r.0 as int, r.1 as int) == log2_norm_down(x as int),
        65536 <= r.0 < 131072,
        1 <= r.1 <= 48,
        pow2(r.1 as nat) as int * 65536 <= x as int,
    decreases x,
{
    let h = x / 2;
    proof {
        vstd::arithmetic::div_mod::lemma_div_is_ordered(131072int, x as int, 2);
    }
    if h < 131072 {
        proof {
            assert(log2_norm_down(h as int) == (h as int, 0int));
            vstd::arithmetic::power2::lemma2_to64();
            vstd::arithmetic::div_mod::lemma_fundamental_div_mod(x as int, 2);
        }
        (h, 1)
    } else {
        let r = log2_norm_down_exec(h);
        proof {
            let m = (r.1 + 1) as nat;
            vstd::arithmetic::power2::lemma_pow2_unfold(m);
            vstd::arithmetic::div_mod::lemma_fundamental_div_mod(x as int, 2);
            assert(pow2(m) as int * 65536 == 2 * (pow2(r.1 as nat) as int * 65536))
                by (nonlinear_arith)
                requires
                    pow2(m) == 2 * pow2(r.1 as nat),
            ;
            // the halving count cannot pass 48: the product would pass u64 range
            if m >= 49 {
                lemma_pow2_le(49, m);
                vstd::arithmetic::power2::lemma2_to64();
                vstd::arithmetic::power2::lemma2_to64_rest();
                assert(pow2(49) == 0x2_0000_0000_0000) by {
                    vstd::arithmetic::power2::lemma_pow2_adds(48, 1);
                }
                assert(pow2(m) as int * 65536 >= 0x2_0000_0000_0000 * 65536) by (nonlinear_arith)
                    requires
                        pow2(m) >= 0x2_0000_0000_0000,
                ;
                assert(false);
            }
        }
        (r.0, r.1 + 1)
    }
}

fn log2_steps_exec(nx: u64, k: usize) -> (r: (u64, u64))
    requires
        k <= 16,
        65536 <= nx < 131072,
    ensures
        (r.0 as int, r.1 as int) == log2_steps(nx as int, k as nat),
        r.1 < pow2(k as nat),
    decreases k,
{
    proof {
        vstd::arithmetic::power2::lemma_pow2_pos(k as nat);
    }
    if k == 0 {
        (nx, 0)
    } else {
        proof {
            assert(65536 * 65536 <= (nx as int) * (nx as int) && (nx as int) * (nx as int)
                < 131072 * 131072) by (nonlinear_arith)
                requires
                    65536 <= nx as int && nx as int <= 131071,
            ;
            vstd::arithmetic::div_mod::lemma_div_is_ordered(
                65536int * 65536,
                (nx as int) * (nx as int),
                65536int,
            );
            vstd::arithmetic::div_mod::lemma_div_is_ordered(
                (nx as int) * (nx as int),
                131072int * 131072 - 1,
                65536int,
            );
            vstd::arithmetic::div_mod::lemma_div_by_multiple(65536int, 65536int);
        }
        let sq: u64 = (nx * nx) / 65536;
        if sq >= 131072 {
            proof {
                vstd::arithmetic::div_mod::lemma_div_is_ordered(131072, sq as int, 2);
                vstd::arithmetic::div_mod::lemma_div_is_ordered(sq as int, 262143, 2);
            }
            let r = log2_steps_exec(sq / 2, k - 1);
            let b = pow2_at(k - 1);
            proof {
                vstd::arithmetic::power2::lemma_pow2_unfold(k as nat);
                lemma_pow2_le(k as nat, 16);
                assert(pow2(16) == 65536) by {
                    vstd::arithmetic::power2::lemma2_to64();
                }
            }
            (r.0, b + r.1)
        } else {
            let r = log2_steps_exec(sq, k - 1);
            proof {
                vstd::arithmetic::power2::lemma_pow2_strictly_increases((k - 1) as nat, k as nat);
            }
            r
        }
    }
}

/// `log2(x) * 65536` for a positive integer; one example,
/// `log2_fixed(131072) == 17 * 65536`.
pub fn log2_fixed(x: i64) -> (r: i64)
    ensures
        r == log2_fixed_spec(x as int),
        0 <= r <= 64 * 65536,
{
    if x < 1 {
        return 0;
    }
    let xu = x as u64;
    let norm: (u64, i64) = if xu < 65536 {
        log2_norm_up_exec(xu)
    } else if xu >= 131072 {
        log2_norm_down_exec(xu)
    } else {
        (xu, 0)
    };
    let f = log2_steps_exec(norm.0, 16).1;
    proof {
        assert(pow2(16) == 65536) by {
            vstd::arithmetic::power2::lemma2_to64();
        }
        // for an i64 input the halving count stays under 47
        if norm.1 >= 47 {
            lemma_pow2_le(47, norm.1 as nat);
            vstd::arithmetic::power2::lemma2_to64();
            vstd::arithmetic::power2::lemma2_to64_rest();
            assert(pow2(47) == 0x8000_0000_0000) by {
                vstd::arithmetic::power2::lemma_pow2_adds(46, 1);
            }
            assert(pow2(norm.1 as nat) as int * 65536 >= 0x8000_0000_0000 * 65536)
                by (nonlinear_arith)
                requires
                    pow2(norm.1 as nat) >= 0x8000_0000_0000,
            ;
            assert(false);
        }
    }
    (16 + norm.1) * 65536 + (f as i64)
}

} // verus!
