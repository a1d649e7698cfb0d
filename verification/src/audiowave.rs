//! Signals: sample buffers with a rate and a significance weight.
//!
//! An [`AudioWave`] holds samples in thousandths of a unit, the rate they
//! were taken at, a duration in thousandths of a second, and a positive
//! significance used to renormalize loudness when signals are spliced.
//! Two signals combine only at equal sample rates: `add` overlays them in
//! parallel, `append` splices them in sequence.

use vstd::prelude::*;
use crate::fixed::{div_trunc, mul_div_i64};
use crate::function::{Function, function_eval};

verus! {

/// Largest significance a signal may carry.
pub const SIG_MAX: i64 = 1_000_000_000_000;

/// Largest duration a signal may carry, in thousandths of a second.
pub const DUR_MAX: i64 = 1_000_000_000_000_000;

/// Largest sample count one `new` call will allocate.
pub const MAX_SAMPLES: usize = 1_000_000_000;

/// Largest clip bound `new` applies; wider requests are cut to it.
pub const CLIP_MAX: i64 = 1_000_000;

/// The mathematical content of a signal.
#[verifier::ext_equal]
pub ghost struct WaveView {
    pub significance: int,
    pub samplerate: int,
    pub duration: int,
    pub samples: Seq<int>,
}

/// A sampled signal with its rate, duration and significance weight.
#[derive(Clone)]
pub struct AudioWave {
    significance: i64,
    samplerate: u32,
    duration: i64,
    pub wave: Vec<i64>,
}

impl View for AudioWave {
    type V = WaveView;

    closed spec fn view(&self) -> WaveView {
        WaveView {
            significance: self.significance as int,
            samplerate: self.samplerate as int,
            duration: self.duration as int,
            samples: self.wave@.map_values(|x: i64| x as int),
        }
    }
}

/// Validity: the significance is positive and capped, the duration
/// nonnegative and capped, and every sample's magnitude stays within a
/// thousand units per unit of significance.
pub open spec fn wf_view(v: WaveView) -> bool {
    &&& 0 < v.significance <= SIG_MAX as int
    &&& 0 <= v.duration <= DUR_MAX as int
    &&& forall|i: int|
        0 <= i < v.samples.len() ==> -(v.significance * 1000) <= #[trigger] v.samples[i]
            <= v.significance * 1000
}

impl AudioWave {
    /// Validity of this signal's view.
    pub open spec fn wf(&self) -> bool {
        wf_view(self@)
    }

    pub fn get_samplerate(&self) -> (r: u32)
        ensures
            r as int == self@.samplerate,
    {
        self.samplerate
    }

    pub fn get_duration(&self) -> (r: i64)
        ensures
            r as int == self@.duration,
    {
        self.duration
    }
}

/// Symmetric saturation of `x` to `[-|bound|, |bound|]`.
pub open spec fn clip_spec(x: int, bound: int) -> int {
    let b = vstd::math::abs(bound) as int;
    if x > b {
        b
    } else if x < -b {
        -b
    } else {
        x
    }
}

/// Saturates a value symmetrically to the given bound's magnitude.
pub fn clip_value(x: i64, upper_lower_boundary: i64) -> (r: i64)
    requires
        upper_lower_boundary != i64::MIN,
    ensures
        r == clip_spec(x as int, upper_lower_boundary as int),
{
    let b: i64 = if upper_lower_boundary < 0 {
        -upper_lower_boundary
    } else {
        upper_lower_boundary
    };
    if x > b {
        b
    } else if x < -b {
        -b
    } else {
        x
    }
}

/// The sample-wise sum of two sample sequences, the shorter zero-padded.
pub open spec fn sum_waves_spec(a: Seq<int>, b: Seq<int>) -> Seq<int> {
    Seq::new(
        vstd::math::max(a.len() as int, b.len() as int) as nat,
        |i: int|
            (if i < a.len() {
                a[i]
            } else {
                0
            }) + (if i < b.len() {
                b[i]
            } else {
                0
            }),
    )
}

/// Sums two sample vectors position by position, zero-padding the shorter.
pub fn sum_waves(this: Vec<i64>, other: Vec<i64>) -> (r: Vec<i64>)
    requires
        forall|i: int|
            0 <= i < this@.len() ==> i64::MIN / 2 <= (#[trigger] this@[i]) as int <= i64::MAX / 2,
        forall|i: int|
            0 <= i < other@.len() ==> i64::MIN / 2 <= (#[trigger] other@[i]) as int <= i64::MAX
                / 2,
    ensures
        r@.map_values(|x: i64| x as int) == sum_waves_spec(
            this@.map_values(|x: i64| x as int),
            other@.map_values(|x: i64| x as int),
        ),
        r@.len() == vstd::math::max(this@.len() as int, other@.len() as int),
        forall|i: int|
            0 <= i < r@.len() ==> (#[trigger] r@[i]) as int == (if i < this@.len() {
                this@[i] as int
            } else {
                0
            }) + (if i < other@.len() {
                other@[i] as int
            } else {
                0
            }),
{
    let max_len: usize = if this.len() >= other.len() {
        this.len()
    } else {
        other.len()
    };
    let mut result: Vec<i64> = Vec::new();
    let mut i: usize = 0;
    while i < max_len
        invariant
            i <= max_len,
            max_len == vstd::math::max(this@.len() as int, other@.len() as int),
            forall|j: int|
                0 <= j < this@.len() ==> i64::MIN / 2 <= (#[trigger] this@[j]) as int <= i64::MAX
                    / 2,
            forall|j: int|
                0 <= j < other@.len() ==> i64::MIN / 2 <= (#[trigger] other@[j]) as int
                    <= i64::MAX / 2,
            result@.len() == i,
            forall|j: int|
                0 <= j < i ==> (#[trigger] result@[j]) as int == (if j < this@.len() {
                    this@[j] as int
                } else {
                    0
                }) + (if j < other@.len() {
                    other@[j] as int
                } else {
                    0
                }),
        decreases max_len - i,
    {
        let val1: i64 = if i < this.len() {
            this[i]
        } else {
            0
        };
        let val2: i64 = if i < other.len() {
            other[i]
        } else {
            0
        };
        result.push(val1 + val2);
        i = i + 1;
    }
    proof {
        assert(result@.map_values(|x: i64| x as int) =~= sum_waves_spec(
            this@.map_values(|x: i64| x as int),
            other@.map_values(|x: i64| x as int),
        ));
    }
    result
}

/// Scales every sample by the fixed-point factor `c` (thousandths).
pub fn scale_wave(this: Vec<i64>, c: i64) -> (r: Vec<i64>)
    requires
        forall|i: int|
            0 <= i < this@.len() ==> i64::MIN <= div_trunc((#[trigger] this@[i]) as int * c as int, 1000)
                <= i64::MAX,
    ensures
        r@.len() == this@.len(),
        forall|i: int|
            0 <= i < r@.len() ==> (#[trigger] r@[i]) as int == div_trunc(
                this@[i] as int * c as int,
                1000,
            ),
{
    let mut result: Vec<i64> = Vec::new();
    let mut i: usize = 0;
    while i < this.len()
        invariant
            i <= this@.len(),
            forall|j: int|
                0 <= j < this@.len() ==> i64::MIN <= div_trunc(
                    (#[trigger] this@[j]) as int * c as int,
                    1000,
                ) <= i64::MAX,
            result@.len() == i,
            forall|j: int|
                0 <= j < i ==> (#[trigger] result@[j]) as int == div_trunc(
                    this@[j] as int * c as int,
                    1000,
                ),
        decreases this@.len() - i,
    {
        result.push(mul_div_i64(this[i], c, 1000));
        i = i + 1;
    }
    result
}

/// Wraps recorded samples as a cyclic generator at the given rate
/// (44100 where none is given).
pub fn turn_wave_to_fn(wave: Vec<i64>, samplerate: Option<u32>) -> (f: Function)
    ensures
        f == (Function::Wavetable {
            wave,
            samplerate: (match samplerate {
                Option::Some(sr) => sr,
                Option::None => 44100u32,
            }),
        }),
{
    crate::function::turn_wave_to_fn(wave, samplerate)
}


/// `x` cut to the `i64` range.
pub open spec fn sat_i64(x: int) -> int {
    if x > i64::MAX {
        i64::MAX as int
    } else if x < i64::MIN {
        i64::MIN as int
    } else {
        x
    }
}

/// The sample-buffer size for a span: `ceil(sr * dur / 1000)`.
pub open spec fn sample_count(sr: int, dur: int) -> int {
    (sr * dur + 999) / 1000
}

/// The moment of sample `n`, in thousandths of a second.
pub open spec fn time_at(sr: int, n: int) -> int {
    n * 1000 / sr
}

/// The Euler-integrated phase: the sum of the frequency generator's first
/// `n` values, one per sample step.
pub open spec fn phase_sum(freq: Function, sr: int, n: int) -> int
    decreases n,
{
    if n <= 0 {
        0
    } else {
        phase_sum(freq, sr, n - 1) + function_eval(freq, time_at(sr, n - 1))
    }
}

/// Sample `n` of a synthesized span: the waveform at the accumulated phase,
/// scaled by the amplitude at that moment, saturated to the clip bound.
pub open spec fn sample_at(
    freq: Function,
    amp: Function,
    waveform: Function,
    sr: int,
    yclip: int,
    n: int,
) -> int {
    let t = time_at(sr, n);
    let y = sat_i64(div_trunc(phase_sum(freq, sr, n + 1), sr));
    clip_spec(div_trunc(function_eval(waveform, y) * function_eval(amp, t), 1000), yclip)
}

/// What `AudioWave::new` builds: `latency` leading zeros, then one
/// synthesized span, at significance one. `None` where the duration passes
/// `DUR_MAX` or the buffer would pass `MAX_SAMPLES`.
pub open spec fn build_spec(
    freq: Function,
    amp: Function,
    duration: int,
    latency: int,
    sr: int,
    waveform: Function,
    yclip: int,
) -> Option<WaveView> {
    let dur = vstd::math::abs(duration) as int;
    let lat = vstd::math::abs(latency) as int;
    let clip = vstd::math::min(vstd::math::abs(yclip) as int, CLIP_MAX as int);
    let nlat = if lat > 0 {
        sample_count(sr, lat)
    } else {
        0
    };
    let n = sample_count(sr, dur);
    if dur > DUR_MAX as int || nlat + n > MAX_SAMPLES as int {
        Option::None
    } else {
        Option::Some(
            WaveView {
                significance: 1000,
                samplerate: sr,
                duration: dur,
                samples: Seq::new(
                    (nlat + n) as nat,
                    |i: int|
                        if i < nlat {
                            0
                        } else {
                            sample_at(freq, amp, waveform, sr, clip, i - nlat)
                        },
                ),
            },
        )
    }
}

/// The view of an optional signal.
pub open spec fn view_opt(r: Option<AudioWave>) -> Option<WaveView> {
    match r {
        Option::Some(w) => Option::Some(w@),
        Option::None => Option::None,
    }
}


/// Runs the Euler-integration sampling loop, pushing `n` samples: sample
/// `j` of the span is `sample_at(..., j)`.
#[verifier::loop_isolation(false)]
#[verifier::rlimit(60)]
fn synth_into(
    freq: &Function,
    amp: &Function,
    waveform: &Function,
    sr: u32,
    clip: i64,
    n: usize,
    wave: &mut Vec<i64>,
)
    requires
        0 <= clip <= CLIP_MAX,
        n <= MAX_SAMPLES,
        n > 0 ==> sr >= 1,
    ensures
        final (wave)@.len() == old(wave)@.len() + n,
        forall|j: int| 0 <= j < old(wave)@.len() ==> final (wave)@[j] == old(wave)@[j],
        forall|j: int|
            0 <= j < n ==> (#[trigger] final (wave)@[old(wave)@.len() + j]) as int == sample_at(
                *freq,
                *amp,
                *waveform,
                sr as int,
                clip as int,
                j,
            ),
        forall|j: int|
            old(wave)@.len() <= j < final (wave)@.len() ==> -(clip as int) <= (
            #[trigger] final (wave)@[j]) as int <= clip as int,
{
    let ghost base = wave@.len();
    let ghost gsr = sr as int;
    let ghost gclip = clip as int;
    let mut s_acc: i128 = 0;
    let mut k: usize = 0;
    while k < n
        invariant
            k <= n,
            wave@.len() == base + k,
            forall|j: int| 0 <= j < base ==> wave@[j] == old(wave)@[j],
            forall|j: int|
                0 <= j < k ==> (#[trigger] wave@[base + j]) as int == sample_at(
                    *freq,
                    *amp,
                    *waveform,
                    gsr,
                    gclip,
                    j,
                ),
            forall|j: int| base <= j < wave@.len() ==> -(gclip) <= (#[trigger] wave@[j]) as int
                <= gclip,
            s_acc == phase_sum(*freq, gsr, k as int),
            -(k as int) * 0x8000_0000_0000_0000 <= s_acc <= (k as int) * 0x8000_0000_0000_0000,
        decreases n - k,
    {
        let t64: u64 = ((k as u64) * 1000) / (sr as u64);
        proof {
            assert(t64 as int == time_at(gsr, k as int));
            assert(t64 <= (k as u64) * 1000) by {
                vstd::arithmetic::div_mod::lemma_div_nonincreasing((k as int) * 1000, gsr);
                vstd::arithmetic::div_mod::lemma_div_pos_is_pos((k as int) * 1000, gsr);
            }
        }
        let t: i64 = t64 as i64;
        let f: i64 = freq.get(t);
        proof {
            assert((k as int + 1) * 0x8000_0000_0000_0000 == (k as int) * 0x8000_0000_0000_0000
                + 0x8000_0000_0000_0000) by (nonlinear_arith);
            assert((k as int + 1) * 0x8000_0000_0000_0000 <= 0x4000_0000_0000_0000_0000_0000)
                by (nonlinear_arith)
                requires
                    0 <= k as int + 1 <= 0x8000_0000,
            ;
        }
        s_acc = s_acc + (f as i128);
        proof {
            assert(s_acc == phase_sum(*freq, gsr, k as int + 1));
        }
        let y128: i128 = match s_acc.checked_div(sr as i128) {
            Some(q) => q,
            None => 0,
        };
        proof {
            crate::fixed::lemma_div_trunc_bound(s_acc as int, gsr);
        }
        let y: i64 = if y128 > i64::MAX as i128 {
            i64::MAX
        } else if y128 < i64::MIN as i128 {
            i64::MIN
        } else {
            y128 as i64
        };
        proof {
            assert(y as int == sat_i64(div_trunc(phase_sum(*freq, gsr, k as int + 1), gsr)));
        }
        let wv: i64 = waveform.get(y);
        let av: i64 = amp.get(t);
        proof {
            assert(i128::MIN <= (wv as int) * (av as int) <= i128::MAX) by (nonlinear_arith)
                requires
                    i64::MIN <= wv as int <= i64::MAX,
                    i64::MIN <= av as int <= i64::MAX,
            ;
        }
        let prod: i128 = (wv as i128) * (av as i128);
        proof {
            crate::fixed::lemma_div_trunc_bound(prod as int, 1000);
        }
        let scaled: i128 = match prod.checked_div(1000) {
            Some(q) => q,
            None => 0,
        };
        let sample: i64 = if scaled > clip as i128 {
            clip
        } else if scaled < -(clip as i128) {
            -clip
        } else {
            scaled as i64
        };
        proof {
            assert(sample as int == sample_at(*freq, *amp, *waveform, gsr, gclip, k as int));
        }
        wave.push(sample);
        k = k + 1;
    }
}

impl AudioWave {
    /// Synthesizes a span of samples driven by a frequency and an amplitude
    /// generator: exactly `build_spec` of the defaulted arguments (latency 0,
    /// rate 44100, sine waveform, clip bound 1.0).
    #[verifier::rlimit(60)]
    #[verifier::loop_isolation(false)]
    pub fn new(
        freq: &Function,
        amp: &Function,
        duration: &i64,
        latency: Option<i64>,
        samplerate: Option<u32>,
        waveform: Option<Function>,
        yclip: Option<i64>,
    ) -> (r: Option<AudioWave>)
        ensures
            ({
                let lat = match latency {
                    Option::Some(l) => l as int,
                    Option::None => 0,
                };
                let sr = match samplerate {
                    Option::Some(s) => s as int,
                    Option::None => 44100,
                };
                let wf = match waveform {
                    Option::Some(w) => w,
                    Option::None => Function::Sine,
                };
                let yc = match yclip {
                    Option::Some(y) => y as int,
                    Option::None => 1000,
                };
                view_opt(r) == build_spec(*freq, *amp, *duration as int, lat, sr, wf, yc)
            }),
            r matches Option::Some(w) ==> w.wf(),
    {
        let lat: i64 = match latency {
            Some(l) => l,
            None => 0,
        };
        let sr: u32 = match samplerate {
            Some(s) => s,
            None => 44100,
        };
        let waveform: Function = match waveform {
            Some(w) => w,
            None => Function::Sine,
        };
        let yc: i64 = match yclip {
            Some(y) => y,
            None => 1000,
        };
        let dur128: i128 = {
            let d = *duration as i128;
            if d < 0 {
                -d
            } else {
                d
            }
        };
        let lat128: i128 = {
            let l = lat as i128;
            if l < 0 {
                -l
            } else {
                l
            }
        };
        let clip: i64 = {
            let y = yc as i128;
            let ya = if y < 0 {
                -y
            } else {
                y
            };
            if ya > CLIP_MAX as i128 {
                CLIP_MAX
            } else {
                ya as i64
            }
        };
        proof {
            assert(0 <= (sr as int) * dur128 <= 0x1_0000_0000 * 0x8000_0000_0000_0000)
                by (nonlinear_arith)
                requires
                    0 <= sr as int <= u32::MAX as int,
                    0 <= dur128 <= i64::MAX as int + 1,
            ;
            assert(0 <= (sr as int) * lat128 <= 0x1_0000_0000 * 0x8000_0000_0000_0000)
                by (nonlinear_arith)
                requires
                    0 <= sr as int <= u32::MAX as int,
                    0 <= lat128 <= i64::MAX as int + 1,
            ;
        }
        let nlat128: i128 = if lat128 > 0 {
            ((sr as i128) * lat128 + 999) / 1000
        } else {
            0
        };
        let n128: i128 = ((sr as i128) * dur128 + 999) / 1000;
        proof {
            vstd::arithmetic::div_mod::lemma_div_pos_is_pos((sr as int) * dur128 + 999, 1000);
            if lat128 > 0 {
                vstd::arithmetic::div_mod::lemma_div_pos_is_pos((sr as int) * lat128 + 999, 1000);
            }
        }
        if dur128 > DUR_MAX as i128 || nlat128 + n128 > MAX_SAMPLES as i128 {
            return None;
        }
        let dur: i64 = dur128 as i64;
        let nlat: usize = nlat128 as usize;
        let n: usize = n128 as usize;
        let ghost gclip = clip as int;
        let ghost gsr = sr as int;
        let mut wave: Vec<i64> = Vec::new();
        let mut i: usize = 0;
        while i < nlat
            invariant
                i <= nlat,
                wave@.len() == i,
                forall|j: int| 0 <= j < i ==> #[trigger] wave@[j] == 0i64,
            decreases nlat - i,
        {
            wave.push(0);
            i = i + 1;
        }
        proof {
            if n > 0 {
                assert(sr >= 1) by {
                    if sr == 0 {
                        assert((0int) * dur128 == 0) by (nonlinear_arith);
                        assert(n128 == 999int / 1000);
                    }
                }
            }
        }
        synth_into(freq, amp, &waveform, sr, clip, n, &mut wave);
        let result = AudioWave { significance: 1000, samplerate: sr, duration: dur, wave };
        proof {
            let built = build_spec(
                *freq,
                *amp,
                *duration as int,
                (match latency {
                    Option::Some(l) => l as int,
                    Option::None => 0,
                }),
                gsr,
                waveform,
                (match yclip {
                    Option::Some(y) => y as int,
                    Option::None => 1000,
                }),
            );
            assert forall|i: int| 0 <= i < result@.samples.len() implies result@.samples[i]
                == built.unwrap().samples[i] by {
                if i < nlat {
                    assert(wave@[i] == 0i64);
                } else {
                    assert(wave@[nlat as int + (i - nlat)] as int == sample_at(
                        *freq,
                        *amp,
                        waveform,
                        gsr,
                        gclip,
                        i - nlat,
                    ));
                }
            }
            assert(result@.samples =~= built.unwrap().samples);
            assert(result@ =~= built.unwrap());
        }
        Some(result)
    }
}


/// What `add` yields: the parallel overlay. It fails exactly where the
/// sample rates differ or the summed significance would pass `SIG_MAX`.
pub open spec fn mix_spec(a: WaveView, b: WaveView) -> Option<WaveView> {
    if a.samplerate != b.samplerate || a.significance + b.significance > SIG_MAX as int {
        Option::None
    } else {
        Option::Some(
            WaveView {
                significance: a.significance + b.significance,
                samplerate: a.samplerate,
                duration: vstd::math::max(a.duration, b.duration),
                samples: sum_waves_spec(a.samples, b.samples),
            },
        )
    }
}

/// What `append` yields: both sample sequences rescaled onto the target
/// significance, then joined. It fails exactly where the sample rates
/// differ, the target is not a valid significance, or the summed duration
/// would pass `DUR_MAX`.
pub open spec fn concat_spec(a: WaveView, b: WaveView, target: int) -> Option<WaveView> {
    if a.samplerate != b.samplerate || target <= 0 || target > SIG_MAX as int || a.duration
        + b.duration > DUR_MAX as int {
        Option::None
    } else {
        let ca = div_trunc(target * 1000, a.significance);
        let cb = div_trunc(target * 1000, b.significance);
        Option::Some(
            WaveView {
                significance: target,
                samplerate: a.samplerate,
                duration: a.duration + b.duration,
                samples: a.samples.map_values(|x: int| div_trunc(x * ca, 1000)) + b.samples.map_values(
                    |x: int| div_trunc(x * cb, 1000),
                ),
            },
        )
    }
}

/// A rescaled sample stays within the target significance's amplitude
/// window.
proof fn lemma_scale_bound(x: int, s: int, target: int)
    requires
        0 < s,
        0 < target,
        -(s * 1000) <= x <= s * 1000,
    ensures
        -(target * 1000) <= div_trunc(x * div_trunc(target * 1000, s), 1000) <= target * 1000,
{
    let c = div_trunc(target * 1000, s);
    assert(c == target * 1000 / s);
    vstd::arithmetic::div_mod::lemma_div_pos_is_pos(target * 1000, s);
    assert(s * c <= target * 1000) by {
        vstd::arithmetic::div_mod::lemma_fundamental_div_mod(target * 1000, s);
        vstd::arithmetic::div_mod::lemma_mod_bound(target * 1000, s);
        assert(s * (target * 1000 / s) == target * 1000 - (target * 1000) % s);
    }
    assert(vstd::math::abs(x * c) <= 1000 * (s * c)) by (nonlinear_arith)
        requires
            0 <= c,
            0 < s,
            -(s * 1000) <= x <= s * 1000,
    ;
    assert(1000 * (s * c) <= 1000 * (target * 1000)) by (nonlinear_arith)
        requires
            s * c <= target * 1000,
    ;
    crate::fixed::lemma_div_trunc_bound(x * c, 1000);
    let q = div_trunc(x * c, 1000);
    if x * c >= 0 {
        assert(q == x * c / 1000);
        vstd::arithmetic::div_mod::lemma_div_is_ordered(x * c, 1000 * (target * 1000), 1000);
        vstd::arithmetic::div_mod::lemma_div_by_multiple(target * 1000, 1000);
        assert(1000 * (target * 1000) / 1000 == target * 1000) by {
            assert(1000 * (target * 1000) == (target * 1000) * 1000);
        }
        vstd::arithmetic::div_mod::lemma_div_pos_is_pos(x * c, 1000);
    } else {
        assert(q == ((x * c) * -1) / 1000 * -1);
        vstd::arithmetic::div_mod::lemma_div_is_ordered((x * c) * -1, 1000 * (target * 1000), 1000);
        vstd::arithmetic::div_mod::lemma_div_by_multiple(target * 1000, 1000);
        assert(1000 * (target * 1000) / 1000 == target * 1000) by {
            assert(1000 * (target * 1000) == (target * 1000) * 1000);
        }
        vstd::arithmetic::div_mod::lemma_div_pos_is_pos((x * c) * -1, 1000);
    }
}

impl AudioWave {
    /// Overlays two signals of one sample rate: the sample-wise sum with
    /// zero padding, significances added, the longer duration kept. Exactly
    /// `mix_spec` of the two views.
    pub fn add(self, other: AudioWave) -> (r: Option<AudioWave>)
        requires
            self.wf(),
            other.wf(),
        ensures
            view_opt(r) == mix_spec(self@, other@),
            r matches Option::Some(w) ==> w.wf(),
    {
        if self.samplerate != other.samplerate {
            return None;
        }
        if self.significance > SIG_MAX - other.significance {
            return None;
        }
        let significance: i64 = self.significance + other.significance;
        proof {
            assert forall|i: int| 0 <= i < self.wave@.len() implies i64::MIN / 2 <= (
            #[trigger] self.wave@[i]) as int <= i64::MAX / 2 by {
                assert(self@.samples[i] == self.wave@[i] as int);
            }
            assert forall|i: int| 0 <= i < other.wave@.len() implies i64::MIN / 2 <= (
            #[trigger] other.wave@[i]) as int <= i64::MAX / 2 by {
                assert(other@.samples[i] == other.wave@[i] as int);
            }
        }
        let ghost gself = self@;
        let ghost gother = other@;
        let duration: i64 = if self.duration >= other.duration {
            self.duration
        } else {
            other.duration
        };
        let samplerate = self.samplerate;
        let wave: Vec<i64> = sum_waves(self.wave, other.wave);
        let result = AudioWave { significance, samplerate, duration, wave };
        proof {
            assert(result@.samples =~= sum_waves_spec(gself.samples, gother.samples));
            assert(result@ =~= mix_spec(gself, gother).unwrap());
            assert forall|i: int| 0 <= i < result@.samples.len() implies -(significance as int
                * 1000) <= #[trigger] result@.samples[i] <= significance as int * 1000 by {
                if i < gself.samples.len() {
                    assert(gself.samples[i] == gself.samples[i]);
                }
                if i < gother.samples.len() {
                    assert(gother.samples[i] == gother.samples[i]);
                }
            }
        }
        Some(result)
    }

    /// Splices `other` after `self` at one sample rate: each side rescaled
    /// from its own significance onto the target (1.0 where none is given),
    /// durations added. Exactly `concat_spec` of the two views.
    pub fn append(self, other: AudioWave, new_significance: Option<i64>) -> (r: Option<AudioWave>)
        requires
            self.wf(),
            other.wf(),
        ensures
            ({
                let target = match new_significance {
                    Option::Some(s) => s as int,
                    Option::None => 1000,
                };
                view_opt(r) == concat_spec(self@, other@, target)
            }),
            r matches Option::Some(w) ==> w.wf(),
    {
        let target: i64 = match new_significance {
            Some(s) => s,
            None => 1000,
        };
        if self.samplerate != other.samplerate || target <= 0 || target > SIG_MAX {
            return None;
        }
        if self.duration > DUR_MAX - other.duration {
            return None;
        }
        let ghost gself = self@;
        let ghost gother = other@;
        proof {
            crate::fixed::lemma_div_trunc_bound(target as int * 1000, self.significance as int);
            crate::fixed::lemma_div_trunc_bound(target as int * 1000, other.significance as int);
        }
        let ca: i64 = crate::fixed::fx_div(target, self.significance);
        let cb: i64 = crate::fixed::fx_div(target, other.significance);
        proof {
            assert forall|i: int| 0 <= i < self.wave@.len() implies i64::MIN <= div_trunc(
                (#[trigger] self.wave@[i]) as int * ca as int,
                1000,
            ) <= i64::MAX by {
                assert(gself.samples[i] == self.wave@[i] as int);
                lemma_scale_bound(self.wave@[i] as int, gself.significance, target as int);
            }
            assert forall|i: int| 0 <= i < other.wave@.len() implies i64::MIN <= div_trunc(
                (#[trigger] other.wave@[i]) as int * cb as int,
                1000,
            ) <= i64::MAX by {
                assert(gother.samples[i] == other.wave@[i] as int);
                lemma_scale_bound(other.wave@[i] as int, gother.significance, target as int);
            }
        }
        let duration: i64 = self.duration + other.duration;
        let samplerate = self.samplerate;
        let mut first_wave: Vec<i64> = scale_wave(self.wave, ca);
        let mut second_wave: Vec<i64> = scale_wave(other.wave, cb);
        first_wave.append(&mut second_wave);
        let result = AudioWave { significance: target, samplerate, duration, wave: first_wave };
        proof {
            let spec_r = concat_spec(gself, gother, target as int).unwrap();
            assert forall|i: int| 0 <= i < result@.samples.len() implies result@.samples[i]
                == spec_r.samples[i] by {
                if i < gself.samples.len() {
                    assert(gself.samples[i] == self.wave@[i] as int);
                } else {
                    assert(gother.samples[i - gself.samples.len()] == other.wave@[i - gself.samples.len()] as int);
                }
            }
            assert(result@.samples =~= spec_r.samples);
            assert(result@ =~= spec_r);
            assert forall|i: int| 0 <= i < result@.samples.len() implies -(target as int * 1000)
                <= #[trigger] result@.samples[i] <= target as int * 1000 by {
                if i < gself.samples.len() {
                    assert(gself.samples[i] == self.wave@[i] as int);
                    lemma_scale_bound(self.wave@[i] as int, gself.significance, target as int);
                } else {
                    assert(gother.samples[i - gself.samples.len()] == other.wave@[i
                        - gself.samples.len()] as int);
                    lemma_scale_bound(
                        other.wave@[i - gself.samples.len()] as int,
                        gother.significance,
                        target as int,
                    );
                }
            }
        }
        Some(result)
    }

    /// An identical copy of this signal.
    pub fn duplicate(&self) -> (r: AudioWave)
        ensures
            r@ == self@,
    {
        let mut wave: Vec<i64> = Vec::new();
        let n = self.wave.len();
        let mut i: usize = 0;
        while i < n
            invariant
                i <= n,
                n == self.wave@.len(),
                wave@ == self.wave@.subrange(0, i as int),
            decreases n - i,
        {
            wave.push(self.wave[i]);
            i = i + 1;
            proof {
                assert(wave@ =~= self.wave@.subrange(0, i as int));
            }
        }
        proof {
            assert(wave@ =~= self.wave@);
        }
        let r = AudioWave {
            significance: self.significance,
            samplerate: self.samplerate,
            duration: self.duration,
            wave,
        };
        proof {
            assert(r@ =~= self@);
        }
        r
    }

    /// The samples normalized by significance and scaled to the 16-bit
    /// range, saturating at its ends.
    pub fn to_wav_samples(&self) -> (r: Vec<i16>)
        requires
            self.wf(),
        ensures
            r@.len() == self@.samples.len(),
            forall|i: int|
                0 <= i < r@.len() ==> (#[trigger] r@[i]) as int == wav_sample_spec(
                    self@.samples[i],
                    self@.significance,
                ),
    {
        let mut r: Vec<i16> = Vec::new();
        let mut i: usize = 0;
        let n = self.wave.len();
        while i < n
            invariant
                i <= n,
                n == self.wave@.len(),
                self.wf(),
                r@.len() == i,
                forall|j: int|
                    0 <= j < i ==> (#[trigger] r@[j]) as int == wav_sample_spec(
                        self@.samples[j],
                        self@.significance,
                    ),
            decreases n - i,
        {
            let x = self.wave[i];
            proof {
                assert(self@.samples[i as int] == x as int);
                assert(i128::MIN <= (x as int) * 32767 <= i128::MAX) by (nonlinear_arith)
                    requires
                        i64::MIN <= x as int <= i64::MAX,
                ;
            }
            let p: i128 = (x as i128) * 32767;
            proof {
                crate::fixed::lemma_div_trunc_bound(p as int, self.significance as int);
            }
            let q: i128 = match p.checked_div(self.significance as i128) {
                Some(v) => v,
                None => 0,
            };
            let s: i16 = if q > 32767 {
                32767
            } else if q < -32768 {
                -32768
            } else {
                q as i16
            };
            r.push(s);
            i = i + 1;
        }
        r
    }
}

/// One sample scaled from its significance to the 16-bit range.
pub open spec fn wav_sample_spec(x: int, sig: int) -> int {
    let v = div_trunc(x * 32767, sig);
    if v > 32767 {
        32767
    } else if v < -32768 {
        -32768
    } else {
        v
    }
}


/// Overlay over optional operands: a failure on either side propagates.
pub open spec fn mix_opt(x: Option<WaveView>, y: Option<WaveView>) -> Option<WaveView> {
    match (x, y) {
        (Option::Some(a), Option::Some(b)) => mix_spec(a, b),
        _ => Option::None,
    }
}

/// The overlay is commutative: in its sample-wise sums, its significance
/// accumulation, its kept duration, and its failure conditions.
pub proof fn lemma_mix_commutative(a: WaveView, b: WaveView)
    ensures
        mix_spec(a, b) == mix_spec(b, a),
{
    if a.samplerate == b.samplerate && a.significance + b.significance <= SIG_MAX as int {
        let l = mix_spec(a, b).unwrap();
        let r = mix_spec(b, a).unwrap();
        assert(l.samples =~= r.samples);
        assert(l =~= r);
    }
}

/// The overlay is associative: grouping does not matter, and a failure in
/// either grouping is a failure in the other.
pub proof fn lemma_mix_associative(a: WaveView, b: WaveView, c: WaveView)
    requires
        wf_view(a),
        wf_view(b),
        wf_view(c),
    ensures
        mix_opt(mix_spec(a, b), Option::Some(c)) == mix_opt(Option::Some(a), mix_spec(b, c)),
{
    let l = mix_opt(mix_spec(a, b), Option::Some(c));
    let r = mix_opt(Option::Some(a), mix_spec(b, c));
    if a.samplerate == b.samplerate && b.samplerate == c.samplerate && a.significance
        + b.significance + c.significance <= SIG_MAX as int {
        let lv = l.unwrap();
        let rv = r.unwrap();
        assert(lv.samples =~= rv.samples);
        assert(lv =~= rv);
    } else {
        assert(l is None);
        assert(r is None);
    }
}


/// The splice law: a successful splice's duration is exactly the sum of its
/// operands' durations, and its sample count the sum of their counts.
pub proof fn lemma_concat_duration(a: WaveView, b: WaveView, target: int)
    ensures
        match concat_spec(a, b, target) {
            Option::Some(w) => w.duration == a.duration + b.duration && w.samples.len()
                == a.samples.len() + b.samples.len(),
            Option::None => true,
        },
{
}

} // verus!
