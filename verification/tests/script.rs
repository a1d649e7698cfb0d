use notesynth::audiowave::{scale_wave, sum_waves, AudioWave};
use notesynth::function::Function;
use notesynth::parser::get_freq_value;
use notesynth::preprocess::preprocess;
use notesynth::voice::{release_one, Manager, Voice, VoiceContent};

fn segment(freq: i64, amp: i64, dur: i64) -> AudioWave {
    AudioWave::new(
        &Function::Const(freq),
        &Function::Const(amp),
        &dur,
        None,
        None,
        None,
        None,
    )
    .unwrap()
}

fn voice_with(lines: &[&str]) -> Voice {
    let mut v = Voice::new();
    v.contents = VoiceContent::Raw(lines.iter().map(|l| l.to_string()).collect());
    v.get_time();
    v
}

#[test]
fn preprocess_expands_a_jump_three_times() {
    let out = preprocess("section X; C; D; end; jump X 3;".to_string()).unwrap();
    assert_eq!(out, vec![vec!["C", "D", "C", "D", "C", "D"]]);
}

#[test]
fn preprocess_jump_defaults_to_one() {
    let out = preprocess("section X; C; end; jump X;".to_string()).unwrap();
    assert_eq!(out, vec![vec!["C"]]);
}

#[test]
fn preprocess_splits_voices_and_shares_sections() {
    let out = preprocess("section X; C; end; A; % jump X 2;".to_string()).unwrap();
    assert_eq!(out, vec![vec!["A"], vec!["C", "C"]]);
}

#[test]
fn preprocess_drops_comments_and_blanks() {
    let out = preprocess("$ a remark; \n ; C ;".to_string()).unwrap();
    assert_eq!(out, vec![vec!["C"]]);
}

#[test]
fn preprocess_rejects_nested_sections() {
    assert!(preprocess("section X; section Y;".to_string()).is_err());
}

#[test]
fn preprocess_rejects_reopened_names() {
    assert!(preprocess("section X; end; section X;".to_string()).is_err());
}

#[test]
fn preprocess_rejects_stray_end() {
    assert!(preprocess("end;".to_string()).is_err());
}

#[test]
fn preprocess_rejects_unknown_jump_target() {
    assert!(preprocess("jump Z;".to_string()).is_err());
}

#[test]
fn preprocess_rejects_jump_into_open_section() {
    assert!(preprocess("section X; C; jump X;".to_string()).is_err());
}

#[test]
fn preprocess_rejects_bad_repetition_count() {
    assert!(preprocess("section X; end; jump X q;".to_string()).is_err());
}

#[test]
fn timing_pass_resolves_note_lines_only() {
    let mut v = voice_with(&["bpm 150", "C", "A 2", "_"]);
    match &v.contents {
        VoiceContent::Processed(p) => {
            // the pass runs at the default tempo of 120 beats a minute
            assert_eq!(p[0], ("bpm 150".to_string(), 0));
            assert_eq!(p[1], ("C".to_string(), 500));
            assert_eq!(p[2], ("A 2".to_string(), 1_000));
            assert_eq!(p[3], ("_".to_string(), 500));
        }
        VoiceContent::Raw(_) => panic!("timing pass did not run"),
    }
    // a second pass leaves the contents alone
    v.get_time();
    match &v.contents {
        VoiceContent::Processed(p) => assert_eq!(p.len(), 4),
        VoiceContent::Raw(_) => panic!("timing pass was undone"),
    }
}

#[test]
fn a_note_line_produces_its_segment() {
    let mut v = voice_with(&["A"]);
    let (audio, flag) = v.get_audio().unwrap().unwrap();
    assert!(flag.is_none());
    let w = audio.unwrap();
    assert_eq!(w.get_duration(), 500);
    // a pitch line is renormalized from its accumulated significance of
    // two (the empty base plus one note) back to one
    let expected = scale_wave(segment(440_000, 1_000, 500).wave, 500);
    assert_eq!(w.wave, expected);
}

#[test]
fn mutators_are_consumed_up_to_the_next_event() {
    let mut v = voice_with(&["bpm 60", "tuning 880", "intensity 0.5", "A 1"]);
    let (audio, _) = v.get_audio().unwrap().unwrap();
    let w = audio.unwrap();
    // one beat at 60 beats a minute is a full second, at the new tuning and
    // at half intensity; the timing pass fixed durations at the default
    // tempo, so the beat is still half a second long
    assert_eq!(w.get_duration(), 500);
    let expected = scale_wave(segment(880_000, 500, 500).wave, 500);
    assert_eq!(w.wave, expected);
}

#[test]
fn syntax_errors_name_the_line() {
    let mut v = voice_with(&["bpm x"]);
    let e = match v.get_audio() {
        Err(e) => e,
        Ok(_) => panic!("bad tempo was accepted"),
    };
    assert!(e.contains("bpm x"));
    let mut v = voice_with(&["octave 300"]);
    assert!(v.get_audio().is_err());
    let mut v = voice_with(&["wait"]);
    assert!(v.get_audio().is_err());
}

#[test]
fn empty_voice_reports_exhaustion() {
    let mut v = voice_with(&[]);
    let e = match v.get_audio() {
        Err(e) => e,
        Ok(_) => panic!("empty voice produced audio"),
    };
    assert_eq!(e, "Empty");
}

#[test]
fn parked_voice_yields_nothing() {
    let mut v = voice_with(&["A"]);
    v.waiting = Some("flag1".to_string());
    assert!(v.get_audio().unwrap().is_none());
}

#[test]
fn chord_tokens_mix_and_renormalize() {
    let mut v = voice_with(&["A | A 1"]);
    let (audio, _) = v.get_audio().unwrap().unwrap();
    let w = audio.unwrap();
    // two notes and the empty base make significance three; the sum of the
    // two equal notes is scaled by a third
    let one = segment(440_000, 1_000, 500);
    let summed = sum_waves(one.wave.clone(), one.wave);
    let expected = scale_wave(summed, 333);
    assert_eq!(w.wave, expected);
}

#[test]
fn glissando_rejects_rest_endpoints() {
    let mut v = voice_with(&["glissando A _ 1"]);
    let e = match v.get_audio() {
        Err(e) => e,
        Ok(_) => panic!("rest endpoint was accepted"),
    };
    assert!(e.contains("rests"));
}

#[test]
fn glissando_produces_one_timed_segment() {
    let mut v = voice_with(&["glissando A A+ 1"]);
    let (audio, _) = v.get_audio().unwrap().unwrap();
    let w = audio.unwrap();
    assert_eq!(w.get_duration(), 500);
    assert_eq!(w.wave.len(), (44_100 * 500 + 999) / 1000);
}

#[test]
fn trill_alternates_equal_segments() {
    let mut v = voice_with(&["trill A B 4 1"]);
    let (audio, _) = v.get_audio().unwrap().unwrap();
    let w = audio.unwrap();
    // four equal parts of the one-beat duration
    assert_eq!(w.get_duration(), 500);
    let seg_len = (44_100 * 125 + 999) / 1000;
    assert_eq!(w.wave.len(), 4 * seg_len);
    let fa = get_freq_value(&"A".to_string(), &4, &440_000).unwrap();
    let fb = get_freq_value(&"B".to_string(), &4, &440_000).unwrap();
    let sa = segment(fa, 1_000, 125);
    let sb = segment(fb, 1_000, 125);
    assert_eq!(&w.wave[0..seg_len], &sa.wave[..]);
    assert_eq!(&w.wave[seg_len..2 * seg_len], &sb.wave[..]);
    assert_eq!(&w.wave[2 * seg_len..3 * seg_len], &sa.wave[..]);
    assert_eq!(&w.wave[3 * seg_len..4 * seg_len], &sb.wave[..]);
}

#[test]
fn sync_signals_the_previous_duration() {
    let mut v = voice_with(&["A 2", "sync flag1"]);
    let first = v.get_audio().unwrap().unwrap();
    assert!(first.1.is_none());
    assert_eq!(first.0.unwrap().get_duration(), 1_000);
    let second = v.get_audio().unwrap().unwrap();
    assert!(second.0.is_none());
    assert_eq!(second.1.unwrap(), "flag1");
}

#[test]
fn run_renders_a_note_and_a_rest() {
    let mut m = Manager::new();
    let w = m.run("bpm 120; duration 1; C; _;".to_string()).unwrap();
    // two half-second events at the default tempo
    assert_eq!(w.get_duration(), 1_000);
    assert_eq!(w.wave.len(), 44_100);
    assert!(w.wave[0..22_050].iter().any(|&s| s != 0));
    assert!(w.wave[22_050..44_100].iter().all(|&s| s == 0));
}

#[test]
fn run_releases_a_waiting_voice_with_the_synced_duration() {
    let mut m = Manager::new();
    let w = m
        .run("C 2; sync flag1; % wait flag1; C;".to_string())
        .unwrap();
    // voice one plays a second of sound; voice two rests through that
    // second, released by the flag, then plays half a second more
    assert_eq!(w.get_duration(), 1_500);
    assert_eq!(w.wave.len(), 66_150);
    // past voice one's end, only voice two's released note sounds
    let fc = get_freq_value(&"C".to_string(), &4, &440_000).unwrap();
    let tail = scale_wave(segment(fc, 1_000, 500).wave, 500);
    assert_eq!(&w.wave[44_100..66_150], &tail[..]);
}

#[test]
fn run_reports_structural_errors() {
    let mut m = Manager::new();
    assert!(m.run("jump nowhere;".to_string()).is_err());
}

#[test]
fn run_reports_syntax_errors() {
    let mut m = Manager::new();
    assert!(m.run("bpm x;".to_string()).is_err());
}

#[test]
fn run_reports_unreleasable_waits() {
    let mut m = Manager::new();
    assert!(m.run("wait never;".to_string()).is_err());
}

#[test]
fn run_resets_between_scripts() {
    let mut m = Manager::new();
    let a = m.run("C;".to_string()).unwrap();
    let b = m.run("C;".to_string()).unwrap();
    assert_eq!(a.wave, b.wave);
    assert_eq!(a.wave.len(), 22_050);
}

#[test]
fn run_of_an_empty_script_is_empty() {
    let mut m = Manager::new();
    let w = m.run("".to_string()).unwrap();
    assert_eq!(w.wave.len(), 0);
    assert_eq!(w.get_duration(), 0);
}

#[test]
fn trill_with_zero_parts_is_silent_and_empty() {
    let mut v = voice_with(&["trill A B 0 1"]);
    let (audio, _) = v.get_audio().unwrap().unwrap();
    let w = audio.unwrap();
    assert_eq!(w.wave.len(), 0);
    assert_eq!(w.get_duration(), 0);
}

#[test]
fn trill_defaults_to_a_single_part() {
    let mut v = voice_with(&["trill A B"]);
    let (audio, _) = v.get_audio().unwrap().unwrap();
    let w = audio.unwrap();
    assert_eq!(w.get_duration(), 500);
    let fa = get_freq_value(&"A".to_string(), &4, &440_000).unwrap();
    let sa = segment(fa, 1_000, 500);
    assert_eq!(w.wave, sa.wave);
}

#[test]
fn hz_literals_work_inside_lines() {
    let mut v = voice_with(&["glissando 100Hz 200Hz 1"]);
    let (audio, _) = v.get_audio().unwrap().unwrap();
    assert_eq!(audio.unwrap().get_duration(), 500);
}

#[test]
fn octave_mutator_moves_later_notes() {
    let mut v = voice_with(&["octave 5", "A5 1"]);
    let (audio, _) = v.get_audio().unwrap().unwrap();
    let w = audio.unwrap();
    // an absolute octave five equals the new default: no shift
    let expected = scale_wave(segment(440_000, 1_000, 500).wave, 500);
    assert_eq!(w.wave, expected);
}

#[test]
fn release_appends_silence_and_advances_time() {
    let mut v = voice_with(&["A"]);
    v.waiting = Some("flag1".to_string());
    let mut audio = segment(440_000, 1_000, 250);
    let before = audio.wave.clone();
    let mut elapsed: i64 = 250;
    let ok = release_one(&mut v, &mut audio, &mut elapsed, &"flag1".to_string(), 1_000);
    assert!(ok);
    assert!(v.waiting.is_none());
    assert_eq!(elapsed, 1_250);
    assert_eq!(audio.get_duration(), 1_250);
    let silent = (44_100 * 1_000 + 999) / 1_000;
    assert_eq!(audio.wave.len(), before.len() + silent);
    assert_eq!(&audio.wave[..before.len()], &before[..]);
    assert!(audio.wave[before.len()..].iter().all(|&s| s == 0));
}

#[test]
fn release_ignores_other_flags() {
    let mut v = voice_with(&["A"]);
    v.waiting = Some("flag1".to_string());
    let mut audio = segment(440_000, 1_000, 250);
    let before = audio.wave.clone();
    let mut elapsed: i64 = 0;
    let ok = release_one(&mut v, &mut audio, &mut elapsed, &"other".to_string(), 1_000);
    assert!(ok);
    assert!(v.waiting.is_some());
    assert_eq!(elapsed, 0);
    assert_eq!(audio.wave, before);
}

#[test]
fn a_mutator_only_voice_finishes_without_error() {
    let mut v = voice_with(&["bpm 2"]);
    let (audio, flag) = v.get_audio().unwrap().unwrap();
    assert!(audio.is_none());
    assert!(flag.is_none());
    let e = match v.get_audio() {
        Err(e) => e,
        Ok(_) => panic!("drained voice still produced a step"),
    };
    assert_eq!(e, "Empty");
}

#[test]
fn run_accepts_a_mutator_only_script() {
    let mut m = Manager::new();
    let w = m.run("bpm 100;".to_string()).unwrap();
    assert_eq!(w.wave.len(), 0);
    assert_eq!(w.get_duration(), 0);
}

#[test]
fn structural_errors_name_the_line() {
    let e = match preprocess("section X; section Y;".to_string()) {
        Err(e) => e,
        Ok(_) => panic!("nested section was accepted"),
    };
    assert!(e.contains("section Y"));
    assert!(e.contains("Already on a section"));
}

#[test]
fn run_passes_structural_messages_through() {
    let mut m = Manager::new();
    let e = match m.run("jump nowhere;".to_string()) {
        Err(e) => e,
        Ok(_) => panic!("unknown jump target was accepted"),
    };
    assert_eq!(e, "Error on line: jump nowhere\nNo section by that name");
}
