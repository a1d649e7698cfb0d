use notesynth::audiowave::{clip_value, scale_wave, sum_waves, AudioWave};
use notesynth::function::Function;
use notesynth::wavemath::{exp2_fixed, log2_fixed, sine_milli};

fn segment(freq: i64, amp: i64, dur: i64) -> AudioWave {
    AudioWave::new(
        &Function::Const(freq),
        &Function::Const(amp),
        &dur,
        None,
        None,
        None,
        None,
    )
    .unwrap()
}

#[test]
fn clip_value_saturates_symmetrically() {
    assert_eq!(clip_value(1_500, 1_000), 1_000);
    assert_eq!(clip_value(-1_500, 1_000), -1_000);
    assert_eq!(clip_value(700, 1_000), 700);
    assert_eq!(clip_value(700, -1_000), 700);
    assert_eq!(clip_value(1_500, -1_000), 1_000);
}

#[test]
fn sum_waves_zero_pads_the_shorter() {
    let a = vec![1, 2, 3];
    let b = vec![10, 20];
    assert_eq!(sum_waves(a, b), vec![11, 22, 3]);
}

#[test]
fn scale_wave_multiplies_in_thousandths() {
    let a = vec![1_000, -2_000, 5];
    assert_eq!(scale_wave(a, 500), vec![500, -1_000, 2]);
}

#[test]
fn sine_peaks_at_quarter_cycle() {
    assert_eq!(sine_milli(0), 0);
    assert_eq!(sine_milli(250), 1_000);
    assert_eq!(sine_milli(500), 0);
    assert_eq!(sine_milli(750), -1_000);
    assert_eq!(sine_milli(1_250), 1_000);
    assert_eq!(sine_milli(-750), 1_000);
}

#[test]
fn exp2_doubles_per_unit() {
    assert_eq!(exp2_fixed(0), 65_536);
    assert_eq!(exp2_fixed(65_536), 131_072);
    assert_eq!(exp2_fixed(2 * 65_536), 262_144);
    assert_eq!(exp2_fixed(-65_536), 32_768);
}

#[test]
fn log2_counts_doublings() {
    assert_eq!(log2_fixed(65_536), 16 * 65_536);
    assert_eq!(log2_fixed(131_072), 17 * 65_536);
    assert_eq!(log2_fixed(1), 0);
}

#[test]
fn new_sizes_the_buffer_by_rate_and_duration() {
    let w = segment(440_000, 1_000, 1_000);
    assert_eq!(w.get_samplerate(), 44_100);
    assert_eq!(w.get_duration(), 1_000);
    assert_eq!(w.wave.len(), 44_100);
}

#[test]
fn new_takes_magnitudes_and_prepends_latency() {
    let w = AudioWave::new(
        &Function::Const(440_000),
        &Function::Const(1_000),
        &-500,
        Some(250),
        None,
        None,
        None,
    )
    .unwrap();
    let lat = (44_100 * 250 + 999) / 1000;
    let body = (44_100 * 500 + 999) / 1000;
    assert_eq!(w.wave.len(), lat + body);
    assert_eq!(w.get_duration(), 500);
    for i in 0..lat {
        assert_eq!(w.wave[i], 0);
    }
}

#[test]
fn silent_amplitude_yields_zero_samples() {
    let w = segment(440_000, 0, 100);
    assert!(w.wave.iter().all(|&s| s == 0));
}

#[test]
fn samples_respect_the_clip_bound() {
    let w = AudioWave::new(
        &Function::Const(440_000),
        &Function::Const(5_000),
        &100,
        None,
        None,
        None,
        Some(300),
    )
    .unwrap();
    assert!(w.wave.iter().all(|&s| -300 <= s && s <= 300));
    assert!(w.wave.iter().any(|&s| s == 300));
}

#[test]
fn mix_is_commutative_samplewise() {
    let a = segment(440_000, 1_000, 200);
    let b = segment(660_000, 800, 350);
    let ab = a.duplicate().add(b.duplicate()).unwrap();
    let ba = b.add(a).unwrap();
    assert_eq!(ab.wave, ba.wave);
    assert_eq!(ab.get_duration(), ba.get_duration());
    assert_eq!(ab.get_duration(), 350);
    assert_eq!(ab.to_wav_samples(), ba.to_wav_samples());
}

#[test]
fn mix_is_associative_samplewise() {
    let a = segment(440_000, 1_000, 200);
    let b = segment(660_000, 800, 350);
    let c = segment(220_000, 500, 100);
    let left = a.duplicate().add(b.duplicate()).unwrap().add(c.duplicate()).unwrap();
    let right = a.add(b.add(c).unwrap()).unwrap();
    assert_eq!(left.wave, right.wave);
    assert_eq!(left.get_duration(), right.get_duration());
    assert_eq!(left.to_wav_samples(), right.to_wav_samples());
}

#[test]
fn mix_fails_on_different_sample_rates() {
    let a = segment(440_000, 1_000, 200);
    let b = AudioWave::new(
        &Function::Const(440_000),
        &Function::Const(1_000),
        &200,
        None,
        Some(22_050),
        None,
        None,
    )
    .unwrap();
    assert!(a.duplicate().add(b.duplicate()).is_none());
    assert!(b.add(a).is_none());
}

#[test]
fn concat_adds_durations_and_sample_counts() {
    let a = segment(440_000, 1_000, 1_000);
    let b = segment(660_000, 1_000, 500);
    let la = a.wave.len();
    let lb = b.wave.len();
    let ab = a.append(b, Some(1_000)).unwrap();
    assert_eq!(ab.get_duration(), 1_500);
    assert_eq!(ab.wave.len(), la + lb);
}

#[test]
fn concat_fails_on_different_sample_rates() {
    let a = segment(440_000, 1_000, 200);
    let b = AudioWave::new(
        &Function::Const(440_000),
        &Function::Const(1_000),
        &200,
        None,
        Some(48_000),
        None,
        None,
    )
    .unwrap();
    assert!(a.append(b, None).is_none());
}

#[test]
fn concat_rescales_by_significance() {
    // overlaying two equal segments doubles significance; splicing back to
    // one renormalizes the samples to half their summed value
    let a = segment(440_000, 1_000, 100);
    let doubled = a.duplicate().add(a.duplicate()).unwrap();
    let empty = AudioWave::new(
        &Function::Const(0),
        &Function::Const(0),
        &0,
        None,
        None,
        None,
        None,
    )
    .unwrap();
    let renorm = empty.append(doubled, Some(1_000)).unwrap();
    assert_eq!(renorm.wave, a.wave);
}

#[test]
fn wavetable_replays_samples() {
    let table = vec![5, 6, 7, 8];
    let f = notesynth::function::turn_wave_to_fn(table, Some(4));
    // one second holds the whole table at rate four
    assert_eq!(f.get(0), 5);
    assert_eq!(f.get(250), 6);
    assert_eq!(f.get(500), 7);
    assert_eq!(f.get(750), 8);
    assert_eq!(f.get(1_250), 6);
}

#[test]
fn wavetable_from_audiowave_module_matches() {
    let f = notesynth::audiowave::turn_wave_to_fn(vec![9, 10], Some(2));
    assert_eq!(f.get(0), 9);
    assert_eq!(f.get(500), 10);
}

#[test]
fn constant_function_ignores_time() {
    let f = Function::Const(123);
    assert_eq!(f.get(0), 123);
    assert_eq!(f.get(99_999), 123);
}

#[test]
fn glissando_function_moves_between_endpoints() {
    let f = Function::ExpGliss { start: 440_000, end: 880_000, duration: 1_000 };
    assert_eq!(f.get(0), 440_000);
    let end = f.get(1_000);
    assert!((879_000..=881_000).contains(&end));
    let mid = f.get(500);
    assert!(mid > 440_000 && mid < 880_000);
}

#[test]
fn wav_samples_normalize_by_significance() {
    let a = segment(440_000, 1_000, 10);
    let out = a.to_wav_samples();
    assert_eq!(out.len(), a.wave.len());
    for (i, s) in out.iter().enumerate() {
        assert_eq!(*s as i64, (a.wave[i] * 32_767) / 1_000);
    }
}
