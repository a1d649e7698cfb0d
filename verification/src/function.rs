//! Frequency, amplitude and waveform generators.
//!
//! A [`Function`] maps a fixed-point time (or phase) to a fixed-point value.
//! The constant form drives steady notes and intensities; the sine form is
//! the default waveform; the exponential glide drives glissandi; the wave
//! table replays recorded samples.

use vstd::prelude::*;
use crate::fixed::div_trunc;
use crate::wavemath::{sine_milli, sine_milli_spec, exp2_fixed, exp2_fixed_spec, log2_fixed,
    log2_fixed_spec};

verus! {

/// Frequencies saturate at this magnitude (one gigahertz, in thousandths).
pub const FREQ_MAX: i64 = 1_000_000_000_000;

/// A generator: evaluated at a time `t` in thousandths of a second (for the
/// sine waveform, a phase in thousandths of a cycle).
pub enum Function {
    /// Always the held value.
    Const(i64),
    /// One period of a sine shape per unit, values in `[-1000, 1000]`.
    Sine,
    /// An exponential glide from `start` to `end` over `duration`
    /// thousandths of a second; both endpoints in thousandths of a hertz.
    ExpGliss { start: i64, end: i64, duration: i64 },
    /// Cyclic replay of stored samples at the stored rate.
    Wavetable { wave: Vec<i64>, samplerate: u32 },
}

/// The exponential glide `start * (end/start)^(t/duration)`, computed as
/// `start * 2^(t/duration * log2(end/start))` in fixed point. Time is
/// clamped to `[0, duration]`, the result saturates at `FREQ_MAX`, and
/// non-positive endpoints or durations yield `start` unchanged.
pub open spec fn gliss_eval(start: int, end: int, duration: int, t: int) -> int {
    if start <= 0 || end <= 0 || duration <= 0 {
        start
    } else {
        let tc = if t < 0 {
            0
        } else if t > duration {
            duration
        } else {
            t
        };
        let delta = log2_fixed_spec(end) - log2_fixed_spec(start);
        let e = div_trunc(delta * tc, duration);
        let scaled = div_trunc(start * exp2_fixed_spec(e), 65536);
        if scaled > FREQ_MAX as int {
            FREQ_MAX as int
        } else {
            scaled
        }
    }
}

/// Cyclic lookup in a stored wave: time is reduced modulo the table's
/// length in seconds, then mapped to a sample index. Empty tables, zero
/// rates and out-of-table indices yield silence.
pub open spec fn wavetable_eval(w: Seq<i64>, sr: int, t: int) -> int {
    if w.len() == 0 || sr <= 0 {
        0
    } else {
        let seclen = w.len() as int * 1000 / sr;
        if seclen <= 0 {
            0
        } else {
            let tm = t % seclen;
            let idx = tm * sr / 1000;
            if idx < w.len() {
                w[idx] as int
            } else {
                0
            }
        }
    }
}

/// What a generator yields at time `t`.
pub open spec fn function_eval(f: Function, t: int) -> int {
    match f {
        Function::Const(c) => c as int,
        Function::Sine => sine_milli_spec(t),
        Function::ExpGliss { start, end, duration } => gliss_eval(
            start as int,
            end as int,
            duration as int,
            t,
        ),
        Function::Wavetable { wave, samplerate } => wavetable_eval(wave@, samplerate as int, t),
    }
}

impl Function {
    /// Evaluates the generator at `t`: exactly `function_eval`.
    pub fn get(&self, t: i64) -> (r: i64)
        ensures
            r == function_eval(*self, t as int),
    {
        match self {
            Function::Const(c) => *c,
            Function::Sine => sine_milli(t),
            Function::ExpGliss { start, end, duration } => {
                let start = *start;
                let end = *end;
                let duration = *duration;
                if start <= 0 || end <= 0 || duration <= 0 {
                    return start;
                }
                let tc: i64 = if t < 0 {
                    0
                } else if t > duration {
                    duration
                } else {
                    t
                };
                let delta: i64 = log2_fixed(end) - log2_fixed(start);
                proof {
                    assert(i128::MIN <= (delta as int) * (tc as int) <= i128::MAX)
                        by (nonlinear_arith)
                        requires
                            i64::MIN <= delta as int <= i64::MAX,
                            i64::MIN <= tc as int <= i64::MAX,
                    ;
                }
                let p: i128 = (delta as i128) * (tc as i128);
                proof {
                    crate::fixed::lemma_div_trunc_bound(p as int, duration as int);
                    assert(vstd::math::abs(p as int) <= vstd::math::abs(delta as int) * duration
                        as int) by (nonlinear_arith)
                        requires
                            0 <= tc as int <= duration as int,
                            p as int == (delta as int) * (tc as int),
                    ;
                    assert(vstd::math::abs(delta as int) * (duration as int) >= 0) by (nonlinear_arith)
                        requires
                            vstd::math::abs(delta as int) >= 0,
                            duration as int > 0,
                    ;
                    lemma_div_trunc_scaled(delta as int, tc as int, duration as int);
                }
                let e128: i128 = match p.checked_div(duration as i128) {
                    Some(q) => q,
                    None => 0,
                };
                let e: i64 = e128 as i64;
                let w: i64 = exp2_fixed(e);
                proof {
                    assert((start as int) * (w as int) <= i128::MAX && 0 <= (start as int) * (
                    w as int)) by (nonlinear_arith)
                        requires
                            0 < start as int <= i64::MAX,
                            0 <= w as int <= i64::MAX,
                    ;
                }
                let sp: i128 = (start as i128) * (w as i128);
                proof {
                    crate::fixed::lemma_div_trunc_bound(sp as int, 65536);
                }
                let scaled: i128 = match sp.checked_div(65536) {
                    Some(q) => q,
                    None => 0,
                };
                if scaled > FREQ_MAX as i128 {
                    FREQ_MAX
                } else {
                    proof {
                        vstd::arithmetic::div_mod::lemma_div_pos_is_pos(sp as int, 65536);
                    }
                    scaled as i64
                }
            },
            Function::Wavetable { wave, samplerate } => {
                let len = wave.len();
                let sr = *samplerate;
                if len == 0 || sr == 0 {
                    return 0;
                }
                let seclen: i128 = ((len as i128) * 1000) / (sr as i128);
                proof {
                    vstd::arithmetic::div_mod::lemma_div_pos_is_pos(
                        (len as int) * 1000,
                        sr as int,
                    );
                    assert((len as int) * 1000 >= 0) by (nonlinear_arith)
                        requires
                            len as int >= 0,
                    ;
                }
                if seclen <= 0 {
                    return 0;
                }
                let tm: i128 = match (t as i128).checked_rem_euclid(seclen) {
                    Some(v) => v,
                    None => 0,
                };
                proof {
                    assert(0 <= tm < seclen);
                    assert(tm * (sr as int) <= i128::MAX && 0 <= tm * (sr as int))
                        by (nonlinear_arith)
                        requires
                            0 <= tm as int <= seclen as int,
                            seclen as int <= (len as int) * 1000,
                            len as int <= usize::MAX as int,
                            0 < sr as int <= u32::MAX as int,
                    ;
                    vstd::arithmetic::div_mod::lemma_div_pos_is_pos(tm as int * (sr as int), 1000);
                }
                let idx128: i128 = (tm * (sr as i128)) / 1000;
                if idx128 < len as i128 {
                    let idx: usize = idx128 as usize;
                    wave[idx]
                } else {
                    0
                }
            },
        }
    }
}

/// Where `0 <= t <= d`, the scaled quotient `a * t / d` keeps the magnitude
/// of `a`.
proof fn lemma_div_trunc_scaled(a: int, t: int, d: int)
    requires
        0 <= t <= d,
        0 < d,
    ensures
        vstd::math::abs(div_trunc(a * t, d)) <= vstd::math::abs(a),
{
    lemma_div_trunc_bound(a * t, d);
    let p = a * t;
    if p >= 0 {
        assert(p <= vstd::math::abs(a) * d) by (nonlinear_arith)
            requires
                0 <= t <= d,
                p == a * t,
        ;
        vstd::arithmetic::div_mod::lemma_div_is_ordered(p, vstd::math::abs(a) * d, d);
        vstd::arithmetic::div_mod::lemma_div_by_multiple(vstd::math::abs(a) as int, d);
        vstd::arithmetic::div_mod::lemma_div_pos_is_pos(p, d);
    } else {
        assert(p * -1 <= vstd::math::abs(a) * d) by (nonlinear_arith)
            requires
                0 <= t <= d,
                p == a * t,
        ;
        vstd::arithmetic::div_mod::lemma_div_is_ordered(p * -1, vstd::math::abs(a) * d, d);
        vstd::arithmetic::div_mod::lemma_div_by_multiple(vstd::math::abs(a) as int, d);
        vstd::arithmetic::div_mod::lemma_div_pos_is_pos(p * -1, d);
    }
}

use crate::fixed::lemma_div_trunc_bound;

/// Wraps recorded samples as a cyclic generator at the given rate
/// (44100 where none is given).
pub fn turn_wave_to_fn(wave: Vec<i64>, samplerate: Option<u32>) -> (f: Function)
    ensures
        f == (Function::Wavetable {
            wave,
            samplerate: (match samplerate {
                Option::Some(sr) => sr,
                Option::None => 44100u32,
            }),
        }),
{
    let sr: u32 = match samplerate {
        Some(sr) => sr,
        None => 44100,
    };
    Function::Wavetable { wave, samplerate: sr }
}

} // verus!
