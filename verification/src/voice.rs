//! The voice interpreter and the scheduler.
//!
//! A [`Voice`] owns one flattened instruction list and a mutable performance
//! state (tempo, tuning, default beat, octave, intensity). A timing pass
//! resolves each line's duration in thousandths of a second; the scheduler
//! then drains the voices one instruction at a time, releasing voices parked
//! on synchronization flags, and mixes the per-voice signals into one.

use vstd::prelude::*;
use crate::audiowave::{AudioWave, WaveView, build_spec, concat_spec, mix_spec, view_opt, wf_view,
    DUR_MAX};
use crate::fixed::{div_trunc, parse_fixed_spec, parse_u32_spec, parse_fixed_chars,
    parse_u32_chars, chars_of};
use crate::function::Function;
use crate::parser::{note_to_semitone_spec, split_by_whitespace, split_by_whitespace_spec,
    freq_value_spec, get_freq_value, note_to_semitone, err_with_token};
use crate::preprocess::starts_with_spec;

verus! {

/// One voice's instructions: raw lines, or lines paired with their duration
/// in thousandths of a second after the timing pass.
#[derive(Clone)]
pub enum VoiceContent {
    Raw(Vec<String>),
    Processed(Vec<(String, i64)>),
}

/// The mathematical content of a `VoiceContent`.
#[verifier::ext_equal]
pub ghost enum ContentView {
    Raw(Seq<Seq<char>>),
    Processed(Seq<(Seq<char>, int)>),
}

impl View for VoiceContent {
    type V = ContentView;

    open spec fn view(&self) -> ContentView {
        match self {
            VoiceContent::Raw(v) => ContentView::Raw(v@.map_values(|l: String| l@)),
            VoiceContent::Processed(p) => ContentView::Processed(
                p@.map_values(|e: (String, i64)| (e.0@, e.1 as int)),
            ),
        }
    }
}

/// A voice's mutable performance state.
#[verifier::ext_equal]
pub ghost struct PerfView {
    pub bpm: int,
    pub tuning: int,
    pub default_duration: int,
    pub default_octave: int,
    pub intensity: int,
}

/// The mathematical content of a `Voice`.
#[verifier::ext_equal]
pub ghost struct VoiceStateView {
    pub contents: ContentView,
    pub perf: PerfView,
    pub waiting: Option<Seq<char>>,
}

/// One melodic line: its instructions and its performance state.
#[derive(Clone)]
pub struct Voice {
    pub contents: VoiceContent,
    bpm: i64,
    tuning: i64,
    default_duration: i64,
    default_octave: u8,
    intensity: i64,
    pub waiting: Option<String>,
}

impl View for Voice {
    type V = VoiceStateView;

    closed spec fn view(&self) -> VoiceStateView {
        VoiceStateView {
            contents: self.contents@,
            perf: PerfView {
                bpm: self.bpm as int,
                tuning: self.tuning as int,
                default_duration: self.default_duration as int,
                default_octave: self.default_octave as int,
                intensity: self.intensity as int,
            },
            waiting: match self.waiting {
                Option::Some(ref s) => Option::Some(s@),
                Option::None => Option::None,
            },
        }
    }
}

/// The state a fresh voice starts in: 120 beats a minute, tuning 440, one
/// second default beat, octave 4, full intensity.
pub open spec fn initial_perf() -> PerfView {
    PerfView { bpm: 120000, tuning: 440000, default_duration: 1000, default_octave: 4, intensity: 1000 }
}

/// Beats to thousandths of a second: `beats * 60 / bpm`, zero at zero tempo,
/// cut to the duration cap.
pub open spec fn beats_to_ms(beats: int, bpm: int) -> int {
    if bpm == 0 {
        0
    } else {
        let v = div_trunc(beats * 60000, bpm);
        if v > DUR_MAX as int {
            DUR_MAX as int
        } else if v < -(DUR_MAX as int) {
            -(DUR_MAX as int)
        } else {
            v
        }
    }
}

/// Computes `beats_to_ms` on machine integers.
fn beats_to_ms_exec(beats: i64, bpm: i64) -> (r: i64)
    ensures
        r as int == beats_to_ms(beats as int, bpm as int),
{
    if bpm == 0 {
        return 0;
    }
    proof {
        assert(i128::MIN <= (beats as int) * 60000 <= i128::MAX) by (nonlinear_arith)
            requires
                i64::MIN <= beats as int <= i64::MAX,
        ;
    }
    let p: i128 = (beats as i128) * 60000;
    proof {
        crate::fixed::lemma_div_trunc_bound(p as int, bpm as int);
    }
    let v: i128 = match p.checked_div(bpm as i128) {
        Some(q) => q,
        None => 0,
    };
    if v > DUR_MAX as i128 {
        DUR_MAX
    } else if v < -(DUR_MAX as i128) {
        -DUR_MAX
    } else {
        v as i64
    }
}

/// The duration the timing pass gives one line: lines opening a glissando
/// or trill, and lines whose first word resolves as a note against octave
/// four, take their trailing word as a beat count (the default beat where it
/// does not parse); every other line takes zero.
pub open spec fn line_seconds(line: Seq<char>, bpm: int, default_dur: int) -> int {
    let words = split_by_whitespace_spec(line);
    let timed = starts_with_spec(line, "glissando"@) || starts_with_spec(line, "trill"@) || (
    words.len() > 0 && note_to_semitone_spec(words[0], 4) is Some);
    if timed {
        let lastw = if words.len() > 0 {
            words.last()
        } else {
            Seq::<char>::empty()
        };
        match parse_fixed_spec(lastw) {
            Option::Some(v) => beats_to_ms(v as int, bpm),
            Option::None => beats_to_ms(default_dur, bpm),
        }
    } else {
        0
    }
}

/// What the timing pass yields: each line paired with `line_seconds`.
pub open spec fn get_time_spec(lines: Seq<Seq<char>>, bpm: int, default_dur: int) -> Seq<
    (Seq<char>, int),
> {
    lines.map_values(|l: Seq<char>| (l, line_seconds(l, bpm, default_dur)))
}

impl Voice {
    /// A fresh voice: default performance state, one raw empty line.
    pub fn new() -> (v: Voice)
        ensures
            v@.perf == initial_perf(),
            v@.waiting is None,
            v@.contents == ContentView::Raw(seq![Seq::<char>::empty()]),
    {
        let mut lines: Vec<String> = Vec::new();
        lines.push(String::new());
        let v = Voice {
            bpm: 120000,
            tuning: 440000,
            default_duration: 1000,
            default_octave: 4,
            intensity: 1000,
            waiting: None,
            contents: VoiceContent::Raw(lines),
        };
        proof {
            assert(v@.contents->Raw_0 =~= seq![Seq::<char>::empty()]);
        }
        v
    }

    /// The timing pass: resolves every raw line's duration against the
    /// current tempo and default beat, once. Processed contents are left
    /// alone, as is the rest of the voice.
    #[verifier::loop_isolation(false)]
    pub fn get_time(&mut self)
        ensures
            final (self)@.perf == old(self)@.perf,
            final (self)@.waiting == old(self)@.waiting,
            match old(self)@.contents {
                ContentView::Processed(_) => final (self)@ == old(self)@,
                ContentView::Raw(lines) => final (self)@.contents == ContentView::Processed(
                    get_time_spec(lines, old(self)@.perf.bpm, old(self)@.perf.default_duration),
                ),
            },
    {
        let content: &Vec<String> = match &self.contents {
            VoiceContent::Raw(r) => r,
            VoiceContent::Processed(_) => {
                return ;
            },
        };
        let ghost linesv = content@.map_values(|l: String| l@);
        let mut processed: Vec<(String, i64)> = Vec::new();
        let n = content.len();
        let mut i: usize = 0;
        proof {
            assert(processed@.map_values(|e: (String, i64)| (e.0@, e.1 as int))
                =~= Seq::<(Seq<char>, int)>::empty());
        }
        while i < n
            invariant
                i <= n,
                n == content@.len(),
                linesv == content@.map_values(|l: String| l@),
                processed@.map_values(|e: (String, i64)| (e.0@, e.1 as int)) =~= linesv.subrange(
                    0,
                    i as int,
                ).map_values(
                    |l: Seq<char>| (l, line_seconds(l, self.bpm as int, self.default_duration as int)),
                ),
            decreases n - i,
        {
            let ghost prev = processed@.map_values(|e: (String, i64)| (e.0@, e.1 as int));
            let line: String = clone_string(&content[i]);
            let words: Vec<String> = split_by_whitespace(&line);
            let mut timed: bool = crate::preprocess::has_prefix(&line, "glissando")
                || crate::preprocess::has_prefix(&line, "trill");
            if !timed && words.len() > 0 {
                timed = note_to_semitone(&words[0], &Some(4)).is_some();
            }
            let mut seconds: i64 = 0;
            if timed {
                let default_beats = self.default_duration;
                let bpm = self.bpm;
                if words.len() > 0 {
                    let lastchars = chars_of(words[words.len() - 1].as_str());
                    proof {
                        assert(words@[words@.len() - 1]@ == split_by_whitespace_spec(
                            line@,
                        ).last());
                    }
                    match parse_fixed_chars(&lastchars) {
                        Some(v) => {
                            seconds = beats_to_ms_exec(v, bpm);
                        },
                        None => {
                            seconds = beats_to_ms_exec(default_beats, bpm);
                        },
                    }
                } else {
                    match parse_fixed_chars(&Vec::new()) {
                        Some(v) => {
                            seconds = beats_to_ms_exec(v, bpm);
                        },
                        None => {
                            seconds = beats_to_ms_exec(default_beats, bpm);
                        },
                    }
                }
            }
            processed.push((line, seconds));
            proof {
                assert(processed@.map_values(|e: (String, i64)| (e.0@, e.1 as int)) =~= prev.push(
                    (linesv[i as int], seconds as int),
                ));
                assert(linesv.subrange(0, i + 1).map_values(
                    |l: Seq<char>| (l, line_seconds(l, self.bpm as int, self.default_duration as int)),
                ) =~= prev.push((linesv[i as int], seconds as int)));
            }
            i = i + 1;
        }
        proof {
            assert(linesv.subrange(0, n as int) =~= linesv);
        }
        self.contents = VoiceContent::Processed(processed);
    }
}

/// A checked clone of a string.
fn clone_string(s: &String) -> (r: String)
    ensures
        r@ == s@,
{
    s.clone()
}


/// The empty signal every splice starts from: significance one, rate 44100,
/// no samples.
pub open spec fn empty_wave_view() -> WaveView {
    WaveView { significance: 1000, samplerate: 44100, duration: 0, samples: Seq::<int>::empty() }
}

/// Builds the empty signal.
fn empty_wave() -> (w: AudioWave)
    ensures
        w@ == empty_wave_view(),
        w.wf(),
{
    let r = AudioWave::new(
        &Function::Const(0),
        &Function::Const(0),
        &0,
        None,
        None,
        None,
        None,
    );
    proof {
        assert(view_opt(r) == build_spec(
            Function::Const(0i64),
            Function::Const(0i64),
            0,
            0,
            44100,
            Function::Sine,
            1000,
        ));
        assert((44100int * 0 + 999) / 1000 == 0);
        assert(build_spec(
            Function::Const(0i64),
            Function::Const(0i64),
            0,
            0,
            44100,
            Function::Sine,
            1000,
        ) matches Option::Some(v) && v =~= empty_wave_view());
    }
    let w = r.unwrap();
    w
}

/// What one steady segment is: a constant frequency at a constant intensity
/// for the line's duration, at the default rate, waveform and clip.
pub open spec fn seg_spec(freq: i64, intensity: i64, dur: int) -> Option<WaveView> {
    build_spec(
        Function::Const(freq),
        Function::Const(intensity),
        dur,
        0,
        44100,
        Function::Sine,
        1000,
    )
}

/// Builds one steady segment.
fn make_segment(freq: i64, intensity: i64, dur: &i64) -> (r: Option<AudioWave>)
    ensures
        view_opt(r) == seg_spec(freq, intensity, *dur as int),
        r matches Option::Some(w) ==> w.wf(),
{
    AudioWave::new(
        &Function::Const(freq),
        &Function::Const(intensity),
        dur,
        None,
        None,
        None,
        None,
    )
}

/// The trill recurrence: `k` more segments spliced on, alternating.
pub open spec fn trill_fold(acc: WaveView, a: WaveView, b: WaveView, k: nat, first: bool) -> Option<
    WaveView,
>
    decreases k,
{
    if k == 0 {
        Option::Some(acc)
    } else {
        match concat_spec(
            acc,
            (if first {
                a
            } else {
                b
            }),
            1000,
        ) {
            Option::None => Option::None,
            Option::Some(acc2) => trill_fold(acc2, a, b, (k - 1) as nat, !first),
        }
    }
}

/// What a trill line yields: `parts` equal alternating segments, each a
/// `parts`-th of the line's duration, starting on the first frequency.
pub open spec fn trill_spec(f1: i64, f2: i64, intensity: i64, dur: int, parts: u32) -> Option<
    WaveView,
> {
    if parts == 0 {
        Option::Some(empty_wave_view())
    } else {
        let segdur = div_trunc(dur, parts as int);
        match (seg_spec(f1, intensity, segdur), seg_spec(f2, intensity, segdur)) {
            (Option::Some(a), Option::Some(b)) => trill_fold(empty_wave_view(), a, b, parts as nat, true),
            _ => Option::None,
        }
    }
}

/// Builds a trill: exactly `trill_spec`.
#[verifier::loop_isolation(false)]
fn trill_audio(f1: i64, f2: i64, intensity: i64, dur: i64, parts: u32) -> (r: Option<AudioWave>)
    ensures
        view_opt(r) == trill_spec(f1, f2, intensity, dur as int, parts),
        r matches Option::Some(w) ==> w.wf(),
{
    if parts == 0 {
        return Some(empty_wave());
    }
    let segdur: i64 = crate::fixed::div_i64(dur, parts as i64);
    let a1: AudioWave = match make_segment(f1, intensity, &segdur) {
        Some(w) => w,
        None => {
            return None;
        },
    };
    let a2: AudioWave = match make_segment(f2, intensity, &segdur) {
        Some(w) => w,
        None => {
            return None;
        },
    };
    let mut acc: AudioWave = empty_wave();
    let mut first: bool = true;
    let mut k: u32 = 0;
    while k < parts
        invariant
            k <= parts,
            acc.wf(),
            a1.wf(),
            a2.wf(),
            view_opt(Some(a1)) == seg_spec(f1, intensity, div_trunc(dur as int, parts as int)),
            view_opt(Some(a2)) == seg_spec(f2, intensity, div_trunc(dur as int, parts as int)),
            trill_fold(acc@, a1@, a2@, (parts - k) as nat, first) == trill_spec(
                f1,
                f2,
                intensity,
                dur as int,
                parts,
            ),
        decreases parts - k,
    {
        let seg: AudioWave = if first {
            a1.duplicate()
        } else {
            a2.duplicate()
        };
        acc = match acc.append(seg, Some(1000)) {
            Some(w) => w,
            None => {
                return None;
            },
        };
        first = !first;
        k = k + 1;
    }
    Some(acc)
}

/// The chord recurrence: each remaining word that is neither a separator
/// bar nor a bare integer resolves to a frequency whose segment is overlaid
/// onto the accumulator.
pub open spec fn chord_fold(
    words: Seq<Seq<char>>,
    i: int,
    oct: int,
    tuning: int,
    intensity: i64,
    dur: int,
    acc: WaveView,
) -> Option<WaveView>
    decreases words.len() - i,
{
    if i < 0 || i >= words.len() {
        Option::Some(acc)
    } else {
        let w = words[i];
        if w == "|"@ || parse_u32_spec(w) is Some {
            chord_fold(words, i + 1, oct, tuning, intensity, dur, acc)
        } else {
            match freq_value_spec(w, oct, tuning) {
                Option::None => Option::None,
                Option::Some(f) => match seg_spec(f, intensity, dur) {
                    Option::None => Option::None,
                    Option::Some(seg) => match mix_spec(acc, seg) {
                        Option::None => Option::None,
                        Option::Some(acc2) => chord_fold(
                            words,
                            i + 1,
                            oct,
                            tuning,
                            intensity,
                            dur,
                            acc2,
                        ),
                    },
                },
            }
        }
    }
}

/// What a note, rest or chord line yields: the overlay of its tokens'
/// segments, renormalized to significance one.
pub open spec fn chord_spec(
    words: Seq<Seq<char>>,
    oct: int,
    tuning: int,
    intensity: i64,
    dur: int,
) -> Option<WaveView> {
    match chord_fold(words, 0, oct, tuning, intensity, dur, empty_wave_view()) {
        Option::None => Option::None,
        Option::Some(la) => concat_spec(empty_wave_view(), la, 1000),
    }
}

/// Builds a note, rest or chord line: exactly `chord_spec`.
#[verifier::loop_isolation(false)]
fn chord_audio(words: &Vec<String>, oct: u8, tuning: i64, intensity: i64, dur: i64) -> (r: Option<
    AudioWave,
>)
    ensures
        view_opt(r) == chord_spec(
            words@.map_values(|w: String| w@),
            oct as int,
            tuning as int,
            intensity,
            dur as int,
        ),
        r matches Option::Some(w) ==> w.wf(),
{
    let ghost wordsv = words@.map_values(|w: String| w@);
    let mut line_audio: AudioWave = empty_wave();
    let n = words.len();
    let mut i: usize = 0;
    while i < n
        invariant
            i <= n,
            n == words@.len(),
            wordsv == words@.map_values(|w: String| w@),
            line_audio.wf(),
            chord_fold(wordsv, i as int, oct as int, tuning as int, intensity, dur as int, line_audio@)
                == chord_fold(
                wordsv,
                0,
                oct as int,
                tuning as int,
                intensity,
                dur as int,
                empty_wave_view(),
            ),
        decreases n - i,
    {
        let word: &String = &words[i];
        proof {
            assert(wordsv[i as int] == word@);
        }
        let is_bar: bool = string_eq(word, "|");
        let mut skip: bool = is_bar;
        if !skip {
            let wc = chars_of(word.as_str());
            skip = parse_u32_chars(&wc).is_some();
        }
        if !skip {
            let f: i64 = match get_freq_value(word, &oct, &tuning) {
                Ok(v) => v,
                Err(_) => {
                    return None;
                },
            };
            let seg: AudioWave = match make_segment(f, intensity, &dur) {
                Some(w) => w,
                None => {
                    return None;
                },
            };
            line_audio = match line_audio.add(seg) {
                Some(w) => w,
                None => {
                    return None;
                },
            };
        }
        i = i + 1;
    }
    let e = empty_wave();
    e.append(line_audio, Some(1000))
}

/// String equality against a literal.
fn string_eq(a: &String, b: &str) -> (r: bool)
    ensures
        r == (a@ == b@),
{
    let bs = String::from_str(b);
    *a == bs
}


/// What one interpreter step yields.
#[verifier::ext_equal]
pub ghost enum StepOutcome {
    /// A wait is already pending: nothing is consumed.
    Parked,
    /// The timing pass has not run: nothing is consumed.
    RawContents,
    /// The instruction list is empty.
    Exhausted,
    /// A syntax or resolution error aborts the run, with its message.
    Failed(Seq<char>),
    /// Only state mutators remained: all were consumed, no event occurred.
    Drained { perf: PerfView },
    /// Instructions were consumed up to one audio or control event.
    Stepped {
        perf: PerfView,
        rest: Seq<(Seq<char>, int)>,
        audio: Option<WaveView>,
        flag: Option<Seq<char>>,
        waiting: Option<Seq<char>>,
    },
}

/// The message for a line whose directive argument cannot be read.
pub open spec fn syntax_msg(line: Seq<char>) -> Seq<char> {
    "Invalid syntax at line: "@ + line
}

/// The message for a line whose wave could not be generated.
pub open spec fn nogen_msg(line: Seq<char>) -> Seq<char> {
    "Error: failed to generate wave corresponding to line: "@ + line
}

/// What one instruction line does, before the list bookkeeping.
#[verifier::ext_equal]
pub ghost enum LineOutcome {
    /// A state mutator: the interpreter continues with this state.
    Mutate(PerfView),
    /// A control or pitch event: the step stops here.
    Event { audio: Option<WaveView>, flag: Option<Seq<char>>, waiting: Option<Seq<char>> },
    /// A syntax or resolution error, with its message.
    Fail(Seq<char>),
}

/// One instruction line against a performance state: mutators yield the
/// updated state; `wait` and `sync` signal; `glissando`, `trill` and pitch
/// lines synthesize their audio.
pub open spec fn line_outcome(st: PerfView, line: Seq<char>, dur: int) -> LineOutcome {
    let words = split_by_whitespace_spec(line);
    if words.len() == 0 {
        LineOutcome::Fail("Unable to understand text"@)
    } else if words[0] == "bpm"@ {
        if words.len() < 2 {
            LineOutcome::Fail(syntax_msg(line))
        } else {
            match parse_fixed_spec(words[1]) {
                Option::Some(v) => LineOutcome::Mutate(PerfView { bpm: v as int, ..st }),
                Option::None => LineOutcome::Fail(syntax_msg(line)),
            }
        }
    } else if words[0] == "tuning"@ {
        if words.len() < 2 {
            LineOutcome::Fail(syntax_msg(line))
        } else {
            match parse_fixed_spec(words[1]) {
                Option::Some(v) => LineOutcome::Mutate(PerfView { tuning: v as int, ..st }),
                Option::None => LineOutcome::Fail(syntax_msg(line)),
            }
        }
    } else if words[0] == "duration"@ {
        if words.len() < 2 {
            LineOutcome::Fail(syntax_msg(line))
        } else {
            match parse_fixed_spec(words[1]) {
                Option::Some(v) => LineOutcome::Mutate(
                    PerfView { default_duration: v as int, ..st },
                ),
                Option::None => LineOutcome::Fail(syntax_msg(line)),
            }
        }
    } else if words[0] == "octave"@ {
        if words.len() < 2 {
            LineOutcome::Fail(syntax_msg(line))
        } else {
            match parse_u32_spec(words[1]) {
                Option::Some(v) => if v <= 255 {
                    LineOutcome::Mutate(PerfView { default_octave: v as int, ..st })
                } else {
                    LineOutcome::Fail(syntax_msg(line))
                },
                Option::None => LineOutcome::Fail(syntax_msg(line)),
            }
        }
    } else if words[0] == "intensity"@ {
        if words.len() < 2 {
            LineOutcome::Fail(syntax_msg(line))
        } else {
            match parse_fixed_spec(words[1]) {
                Option::Some(v) => LineOutcome::Mutate(PerfView { intensity: v as int, ..st }),
                Option::None => LineOutcome::Fail(syntax_msg(line)),
            }
        }
    } else if words[0] == "wait"@ {
        if words.len() < 2 {
            LineOutcome::Fail(syntax_msg(line))
        } else {
            LineOutcome::Event {
                audio: Option::Some(empty_wave_view()),
                flag: Option::None,
                waiting: Option::Some(words[1]),
            }
        }
    } else if words[0] == "sync"@ {
        if words.len() < 2 {
            LineOutcome::Fail(syntax_msg(line))
        } else {
            LineOutcome::Event {
                audio: Option::None,
                flag: Option::Some(words[1]),
                waiting: Option::None,
            }
        }
    } else if words[0] == "glissando"@ {
        if words.len() < 3 {
            LineOutcome::Fail(syntax_msg(line))
        } else {
            match (
                freq_value_spec(words[1], st.default_octave, st.tuning),
                freq_value_spec(words[2], st.default_octave, st.tuning),
            ) {
                (Option::Some(f1), Option::Some(f2)) => if f1 == 0 || f2 == 0 {
                    LineOutcome::Fail("Error: rests cannot be part of a glissando"@)
                } else {
                    match build_spec(
                        Function::ExpGliss { start: f1, end: f2, duration: dur as i64 },
                        Function::Const(st.intensity as i64),
                        dur,
                        0,
                        44100,
                        Function::Sine,
                        1000,
                    ) {
                        Option::None => LineOutcome::Fail(nogen_msg(line)),
                        Option::Some(w) => LineOutcome::Event {
                            audio: Option::Some(w),
                            flag: Option::None,
                            waiting: Option::None,
                        },
                    }
                },
                (Option::None, _) => LineOutcome::Fail(crate::parser::freq_err_msg(words[1])),
                (_, Option::None) => LineOutcome::Fail(crate::parser::freq_err_msg(words[2])),
            }
        }
    } else if words[0] == "trill"@ {
        if words.len() < 3 {
            LineOutcome::Fail(syntax_msg(line))
        } else {
            match (
                freq_value_spec(words[1], st.default_octave, st.tuning),
                freq_value_spec(words[2], st.default_octave, st.tuning),
            ) {
                (Option::Some(f1), Option::Some(f2)) => {
                    let partsopt = if words.len() >= 4 {
                        parse_u32_spec(words[3])
                    } else {
                        Option::Some(1u32)
                    };
                    match partsopt {
                        Option::None => LineOutcome::Fail(syntax_msg(line)),
                        Option::Some(parts) => match trill_spec(
                            f1,
                            f2,
                            st.intensity as i64,
                            dur,
                            parts,
                        ) {
                            Option::None => LineOutcome::Fail(nogen_msg(line)),
                            Option::Some(w) => LineOutcome::Event {
                                audio: Option::Some(w),
                                flag: Option::None,
                                waiting: Option::None,
                            },
                        },
                    }
                },
                (Option::None, _) => LineOutcome::Fail(crate::parser::freq_err_msg(words[1])),
                (_, Option::None) => LineOutcome::Fail(crate::parser::freq_err_msg(words[2])),
            }
        }
    } else {
        match chord_spec(words, st.default_octave, st.tuning, st.intensity as i64, dur) {
            Option::None => LineOutcome::Fail(nogen_msg(line)),
            Option::Some(w) => LineOutcome::Event {
                audio: Option::Some(w),
                flag: Option::None,
                waiting: Option::None,
            },
        }
    }
}

/// The interpreter's recurrence over the instruction list: state mutators
/// update the performance state and continue; the first control or pitch
/// event stops the step.
pub open spec fn step_lines(st: PerfView, lines: Seq<(Seq<char>, int)>) -> StepOutcome
    decreases lines.len(),
{
    if lines.len() == 0 {
        StepOutcome::Drained { perf: st }
    } else {
        match line_outcome(st, lines[0].0, lines[0].1) {
            LineOutcome::Fail(m) => StepOutcome::Failed(m),
            LineOutcome::Mutate(st2) => step_lines(st2, lines.drop_first()),
            LineOutcome::Event { audio, flag, waiting } => StepOutcome::Stepped {
                perf: st,
                rest: lines.drop_first(),
                audio: audio,
                flag: flag,
                waiting: waiting,
            },
        }
    }
}

/// What `get_audio` does to a voice: parked and raw voices are left alone,
/// an empty list is exhaustion, otherwise the interpreter steps.
pub open spec fn voice_step(v: VoiceStateView) -> StepOutcome {
    if v.waiting is Some {
        StepOutcome::Parked
    } else {
        match v.contents {
            ContentView::Raw(_) => StepOutcome::RawContents,
            ContentView::Processed(lines) => if lines.len() == 0 {
                StepOutcome::Exhausted
            } else {
                step_lines(v.perf, lines)
            },
        }
    }
}

impl Voice {
    /// Applies one instruction line: exactly `line_outcome` of the current
    /// performance state. A mutator yields `None` and the updated state; an
    /// event yields the step's result; a failure the error. The instruction
    /// list itself is untouched.
    #[verifier::loop_isolation(false)]
    #[verifier::rlimit(100)]
    fn handle_line(&mut self, line: &(String, i64)) -> (r: Option<
        Result<Option<(Option<AudioWave>, Option<String>)>, String>,
    >)
        ensures
            final (self)@.contents == old(self)@.contents,
            match line_outcome(old(self)@.perf, line.0@, line.1 as int) {
                LineOutcome::Fail(msg) => {
                    &&& r matches Option::Some(Result::Err(m)) && m@ == msg && m@ != "Empty"@
                },
                LineOutcome::Mutate(p) => {
                    &&& r is None
                    &&& final (self)@.perf == p
                    &&& final (self)@.waiting == old(self)@.waiting
                },
                LineOutcome::Event { audio, flag, waiting } => {
                    &&& r matches Option::Some(Result::Ok(Option::Some(pair)))
                    &&& view_opt(pair.0) == audio
                    &&& (match pair.1 {
                        Option::Some(s) => flag == Option::Some(s@),
                        Option::None => flag is None,
                    })
                    &&& (match pair.0 {
                        Option::Some(w) => w.wf(),
                        Option::None => true,
                    })
                    &&& final (self)@.perf == old(self)@.perf
                    &&& final (self)@.waiting == (match waiting {
                        Option::Some(s) => Option::Some(s),
                        Option::None => old(self)@.waiting,
                    })
                },
            },
    {
        proof {
            reveal_strlit("Empty");
        }
        let words: Vec<String> = split_by_whitespace(&line.0);
        let ghost wordsv = split_by_whitespace_spec(line.0@);
        if words.len() == 0 {
            let m = String::from_str("Unable to understand text");
            proof {
                reveal_strlit("Unable to understand text");
                assert(m@.len() == 25);
                assert(m@ != "Empty"@);
            }
            return Some(Err(m));
        }
        proof {
            assert(wordsv[0] == words@[0]@);
            if words@.len() >= 2 {
                assert(wordsv[1] == words@[1]@);
            }
            if words@.len() >= 3 {
                assert(wordsv[2] == words@[2]@);
            }
            if words@.len() >= 4 {
                assert(wordsv[3] == words@[3]@);
            }
        }
        if string_eq(&words[0], "bpm") {
            if words.len() < 2 {
                return Some(Err(err_short(&line.0)));
            }
            match crate::fixed::parse_fixed(words[1].as_str()) {
                Some(v) => {
                    self.bpm = v;
                    None
                },
                None => Some(Err(err_short(&line.0))),
            }
        } else if string_eq(&words[0], "tuning") {
            if words.len() < 2 {
                return Some(Err(err_short(&line.0)));
            }
            match crate::fixed::parse_fixed(words[1].as_str()) {
                Some(v) => {
                    self.tuning = v;
                    None
                },
                None => Some(Err(err_short(&line.0))),
            }
        } else if string_eq(&words[0], "duration") {
            if words.len() < 2 {
                return Some(Err(err_short(&line.0)));
            }
            match crate::fixed::parse_fixed(words[1].as_str()) {
                Some(v) => {
                    self.default_duration = v;
                    None
                },
                None => Some(Err(err_short(&line.0))),
            }
        } else if string_eq(&words[0], "octave") {
            if words.len() < 2 {
                return Some(Err(err_short(&line.0)));
            }
            let oc = chars_of(words[1].as_str());
            match parse_u32_chars(&oc) {
                Some(v) => {
                    if v <= 255 {
                        self.default_octave = v as u8;
                        None
                    } else {
                        Some(Err(err_short(&line.0)))
                    }
                },
                None => Some(Err(err_short(&line.0))),
            }
        } else if string_eq(&words[0], "intensity") {
            if words.len() < 2 {
                return Some(Err(err_short(&line.0)));
            }
            match crate::fixed::parse_fixed(words[1].as_str()) {
                Some(v) => {
                    self.intensity = v;
                    None
                },
                None => Some(Err(err_short(&line.0))),
            }
        } else if string_eq(&words[0], "wait") {
            if words.len() < 2 {
                return Some(Err(err_short(&line.0)));
            }
            self.waiting = Some(clone_string(&words[1]));
            Some(Ok(Some((Some(empty_wave()), None))))
        } else if string_eq(&words[0], "sync") {
            if words.len() < 2 {
                return Some(Err(err_short(&line.0)));
            }
            Some(Ok(Some((None, Some(clone_string(&words[1]))))))
        } else if string_eq(&words[0], "glissando") {
            if words.len() < 3 {
                return Some(Err(err_short(&line.0)));
            }
            let f1: i64 = match get_freq_value(&words[1], &self.default_octave, &self.tuning) {
                Ok(v) => v,
                Err(e) => {
                    return Some(Err(e));
                },
            };
            let f2: i64 = match get_freq_value(&words[2], &self.default_octave, &self.tuning) {
                Ok(v) => v,
                Err(e) => {
                    return Some(Err(e));
                },
            };
            if f1 == 0 || f2 == 0 {
                let m = String::from_str("Error: rests cannot be part of a glissando");
                proof {
                    reveal_strlit("Error: rests cannot be part of a glissando");
                    assert(m@.len() == 42);
                    assert(m@ != "Empty"@);
                }
                return Some(Err(m));
            }
            let g = Function::ExpGliss { start: f1, end: f2, duration: line.1 };
            let w = AudioWave::new(
                &g,
                &Function::Const(self.intensity),
                &line.1,
                None,
                None,
                None,
                None,
            );
            match w {
                Some(w) => Some(Ok(Some((Some(w), None)))),
                None => Some(Err(err_nogen(&line.0))),
            }
        } else if string_eq(&words[0], "trill") {
            if words.len() < 3 {
                return Some(Err(err_short(&line.0)));
            }
            let f1: i64 = match get_freq_value(&words[1], &self.default_octave, &self.tuning) {
                Ok(v) => v,
                Err(e) => {
                    return Some(Err(e));
                },
            };
            let f2: i64 = match get_freq_value(&words[2], &self.default_octave, &self.tuning) {
                Ok(v) => v,
                Err(e) => {
                    return Some(Err(e));
                },
            };
            let mut parts: u32 = 1;
            if words.len() >= 4 {
                let pc = chars_of(words[3].as_str());
                match parse_u32_chars(&pc) {
                    Some(u) => {
                        parts = u;
                    },
                    None => {
                        return Some(Err(err_short(&line.0)));
                    },
                }
            }
            match trill_audio(f1, f2, self.intensity, line.1, parts) {
                Some(w) => Some(Ok(Some((Some(w), None)))),
                None => Some(Err(err_nogen(&line.0))),
            }
        } else {
            match chord_audio(&words, self.default_octave, self.tuning, self.intensity, line.1) {
                Some(w) => Some(Ok(Some((Some(w), None)))),
                None => Some(Err(err_nogen(&line.0))),
            }
        }
    }

    /// Consumes instructions up to one audio or control event: exactly
    /// `voice_step` of the starting state. A parked or raw voice yields
    /// `Ok(None)`; an empty list the error `"Empty"`; a failure any other
    /// error; a step the produced audio, the signalled flag, and the new
    /// state.
    #[verifier::loop_isolation(false)]
    pub fn get_audio(&mut self) -> (r: Result<Option<(Option<AudioWave>, Option<String>)>, String>)
        ensures
            match voice_step(old(self)@) {
                StepOutcome::Parked => r matches Result::Ok(o) && o is None && final (self)@
                    == old(self)@,
                StepOutcome::RawContents => r matches Result::Ok(o) && o is None && final (self)@
                    == old(self)@,
                StepOutcome::Exhausted => r matches Result::Err(m) && m@ == "Empty"@ && final (
                self)@ == old(self)@,
                StepOutcome::Failed(msg) => r matches Result::Err(m) && m@ == msg && m@
                    != "Empty"@,
                StepOutcome::Drained { perf } => {
                    &&& r matches Result::Ok(o)
                    &&& o matches Option::Some(pair)
                    &&& pair.0 is None
                    &&& pair.1 is None
                    &&& final (self)@.contents == ContentView::Processed(
                        Seq::<(Seq<char>, int)>::empty(),
                    )
                    &&& final (self)@.perf == perf
                    &&& final (self)@.waiting == old(self)@.waiting
                },
                StepOutcome::Stepped { perf, rest, audio, flag, waiting } => {
                    &&& r matches Result::Ok(o)
                    &&& o matches Option::Some(pair)
                    &&& view_opt(pair.0) == audio
                    &&& (match pair.1 {
                        Option::Some(s) => flag == Option::Some(s@),
                        Option::None => flag is None,
                    })
                    &&& (match pair.0 {
                        Option::Some(w) => w.wf(),
                        Option::None => true,
                    })
                    &&& final (self)@.contents == ContentView::Processed(rest)
                    &&& final (self)@.perf == perf
                    &&& final (self)@.waiting == waiting
                },
            },
    {
        proof {
            reveal_strlit("Empty");
        }
        if self.waiting.is_some() {
            return Ok(None);
        }
        match &self.contents {
            VoiceContent::Raw(_) => {
                return Ok(None);
            },
            VoiceContent::Processed(p) => {
                if p.len() == 0 {
                    return Err(String::from_str("Empty"));
                }
            },
        }
        let ghost st0 = self@.perf;
        let ghost lines0 = self@.contents->Processed_0;
        loop
            invariant
                self.waiting is None,
                self.contents is Processed,
                step_lines(self@.perf, self@.contents->Processed_0) == step_lines(st0, lines0),
                step_lines(st0, lines0) == voice_step(old(self)@),
            decreases self@.contents->Processed_0.len(),
        {
            let ghost cur_st = self@.perf;
            let ghost cur_lines = self@.contents->Processed_0;
            let line: (String, i64) = match &mut self.contents {
                VoiceContent::Processed(p) => {
                    if p.len() == 0 {
                        // every remaining line was a state mutator: a
                        // successful step with neither audio nor flag
                        proof {
                            assert(p@.map_values(|e: (String, i64)| (e.0@, e.1 as int))
                                =~= Seq::<(Seq<char>, int)>::empty());
                        }
                        return Ok(Some((None, None)));
                    }
                    p.remove(0)
                },
                VoiceContent::Raw(_) => {
                    proof {
                        assert(false);
                    }
                    return Ok(None);
                },
            };
            proof {
                assert(self@.contents->Processed_0 =~= cur_lines.drop_first());
                assert(cur_lines[0] == (line.0@, line.1 as int));
            }
            match self.handle_line(&line) {
                None => {
                },
                Some(res) => {
                    return res;
                },
            }
        }
    }
}

/// The syntax error naming an offending line.
fn err_short(line: &String) -> (r: String)
    ensures
        r@ == syntax_msg(line@),
        r@ != "Empty"@,
{
    proof {
        reveal_strlit("Empty");
        reveal_strlit("Invalid syntax at line: ");
        reveal_strlit("");
    }
    let r = err_with_token("Invalid syntax at line: ", line, "");
    proof {
        assert(r@ =~= syntax_msg(line@));
        assert(r@.len() >= 24);
    }
    r
}

/// The error for a line whose wave could not be generated.
fn err_nogen(line: &String) -> (r: String)
    ensures
        r@ == nogen_msg(line@),
        r@ != "Empty"@,
{
    proof {
        reveal_strlit("Empty");
        reveal_strlit("Error: failed to generate wave corresponding to line: ");
        reveal_strlit("");
    }
    let r = err_with_token("Error: failed to generate wave corresponding to line: ", line, "");
    proof {
        assert(r@ =~= nogen_msg(line@));
        assert(r@.len() >= 54);
    }
    r
}


/// A trill's splices keep the empty signal's sample rate and end at
/// significance one.
pub proof fn lemma_trill_fold_props(acc: WaveView, a: WaveView, b: WaveView, k: nat, first: bool)
    requires
        acc.samplerate == 44100,
    ensures
        match trill_fold(acc, a, b, k, first) {
            Option::Some(w) => w.samplerate == 44100 && (k >= 1 ==> w.significance == 1000) && (k
                == 0 ==> w == acc),
            Option::None => true,
        },
    decreases k,
{
    if k > 0 {
        match concat_spec(
            acc,
            (if first {
                a
            } else {
                b
            }),
            1000,
        ) {
            Option::None => {},
            Option::Some(acc2) => {
                lemma_trill_fold_props(acc2, a, b, (k - 1) as nat, !first);
            },
        }
    }
}

/// Every audio a step produces carries the default sample rate and
/// significance one.
pub proof fn lemma_line_audio_props(st: PerfView, line: Seq<char>, dur: int)
    ensures
        match line_outcome(st, line, dur) {
            LineOutcome::Event { audio: Option::Some(a), .. } => a.samplerate == 44100
                && a.significance == 1000,
            _ => true,
        },
{
    let words = split_by_whitespace_spec(line);
    if words.len() > 0 && words[0] == "trill"@ && words.len() >= 3 {
        match (
            freq_value_spec(words[1], st.default_octave, st.tuning),
            freq_value_spec(words[2], st.default_octave, st.tuning),
        ) {
            (Option::Some(f1), Option::Some(f2)) => {
                let partsopt = if words.len() >= 4 {
                    parse_u32_spec(words[3])
                } else {
                    Option::Some(1u32)
                };
                match partsopt {
                    Option::None => {},
                    Option::Some(parts) => {
                        if parts > 0 {
                            let segdur = div_trunc(dur, parts as int);
                            match (
                                seg_spec(f1, st.intensity as i64, segdur),
                                seg_spec(f2, st.intensity as i64, segdur),
                            ) {
                                (Option::Some(a), Option::Some(b)) => {
                                    lemma_trill_fold_props(
                                        empty_wave_view(),
                                        a,
                                        b,
                                        parts as nat,
                                        true,
                                    );
                                },
                                _ => {},
                            }
                        }
                    },
                }
            },
            _ => {},
        }
    }
}

/// Every audio `step_lines` yields carries the default sample rate and
/// significance one.
pub proof fn lemma_step_audio_props(st: PerfView, lines: Seq<(Seq<char>, int)>)
    ensures
        match step_lines(st, lines) {
            StepOutcome::Stepped { audio: Option::Some(a), .. } => a.samplerate == 44100
                && a.significance == 1000,
            _ => true,
        },
    decreases lines.len(),
{
    if lines.len() > 0 {
        lemma_line_audio_props(st, lines[0].0, lines[0].1);
        match line_outcome(st, lines[0].0, lines[0].1) {
            LineOutcome::Mutate(st2) => {
                lemma_step_audio_props(st2, lines.drop_first());
            },
            _ => {},
        }
    }
}

/// Builds a silent span: every sample is zero, since the amplitude is zero.
fn silent_wave(dur: i64) -> (r: Option<AudioWave>)
    ensures
        view_opt(r) == seg_spec(0, 0, dur as int),
        r matches Option::Some(w) ==> w.wf() && w@.significance == 1000 && w@.samplerate == 44100
            && w@.duration == vstd::math::abs(dur as int) && (forall|i: int|
            0 <= i < w@.samples.len() ==> #[trigger] w@.samples[i] == 0),
{
    let r = make_segment(0, 0, &dur);
    proof {
        match seg_spec(0, 0, dur as int) {
            Option::Some(v) => {
                assert forall|i: int| 0 <= i < v.samples.len() implies #[trigger] v.samples[i]
                    == 0 by {
                    // the amplitude generator yields zero, so each sample is
                    // a clipped zero
                    assert(crate::function::function_eval(
                        Function::Const(0i64),
                        crate::audiowave::time_at(44100, i),
                    ) == 0);
                    assert(crate::audiowave::sample_at(
                        Function::Const(0i64),
                        Function::Const(0i64),
                        Function::Sine,
                        44100,
                        1000,
                        i,
                    ) == 0);
                }
            },
            Option::None => {},
        }
    }
    r
}

/// The identity rescale: splicing at a signal's own significance keeps each
/// sample.
pub proof fn lemma_identity_rescale(x: int)
    ensures
        div_trunc(x * div_trunc(1000int * 1000, 1000), 1000) == x,
{
    assert(div_trunc(1000int * 1000, 1000) == 1000) by {
        assert(1000int * 1000 / 1000 == 1000);
    }
    if x == 0 {
    } else if x > 0 {
        vstd::arithmetic::div_mod::lemma_div_by_multiple(x, 1000);
    } else {
        vstd::arithmetic::div_mod::lemma_div_by_multiple(x * -1, 1000);
        assert((x * 1000) * -1 == (x * -1) * 1000) by (nonlinear_arith);
    }
}

/// The scheduler: drives every voice by elapsed time, releases waits on the
/// shared flag, and overlays the per-voice signals into one.
pub struct Manager {
    voices: Vec<(Voice, bool)>,
    voice_audios: Vec<AudioWave>,
    time_elapsed: Vec<i64>,
    point_flag: (String, i64),
    last_durations: Vec<i64>,
}

/// Releases one voice parked on the shared flag: its signal gains a silent
/// span of exactly the flag's duration, its elapsed time grows by the same
/// amount, and its wait is cleared. A voice parked on another name, or not
/// parked, is untouched. `false` reports an arithmetic or splice failure.
#[verifier::rlimit(60)]
pub fn release_one(
    voice: &mut Voice,
    audio: &mut AudioWave,
    elapsed: &mut i64,
    flag_name: &String,
    flag_dur: i64,
) -> (ok: bool)
    requires
        old(audio).wf(),
        old(audio)@.samplerate == 44100,
        old(audio)@.significance == 1000,
        0 <= flag_dur <= DUR_MAX,
        0 <= *old(elapsed),
    ensures
        final (audio).wf(),
        final (audio)@.samplerate == 44100,
        final (audio)@.significance == 1000,
        0 <= *final (elapsed),
        (match old(voice)@.waiting {
            Option::Some(w) => w == flag_name@,
            Option::None => false,
        }) ==> (ok <==> (crate::audiowave::sample_count(44100, flag_dur as int)
            <= crate::audiowave::MAX_SAMPLES as int && *old(elapsed) + flag_dur <= i64::MAX && old(
            audio,
        )@.duration + flag_dur <= DUR_MAX as int)),
        (match old(voice)@.waiting {
            Option::Some(w) => w == flag_name@,
            Option::None => false,
        }) ==> ok ==> {
            &&& final (voice)@.waiting is None
            &&& final (voice)@.contents == old(voice)@.contents
            &&& final (voice)@.perf == old(voice)@.perf
            &&& final (audio)@.duration == old(audio)@.duration + flag_dur
            &&& final (audio)@.samples.len() == old(audio)@.samples.len() + crate::audiowave::sample_count(
                44100,
                flag_dur as int,
            )
            &&& (forall|i: int|
                0 <= i < old(audio)@.samples.len() ==> #[trigger] final (audio)@.samples[i] == old(
                    audio,
                )@.samples[i])
            &&& (forall|i: int|
                old(audio)@.samples.len() <= i < final (audio)@.samples.len()
                    ==> #[trigger] final (audio)@.samples[i] == 0)
            &&& *final (elapsed) == *old(elapsed) + flag_dur
        },
        !(match old(voice)@.waiting {
            Option::Some(w) => w == flag_name@,
            Option::None => false,
        }) ==> ok && final (voice)@ == old(voice)@ && final (audio)@ == old(audio)@
            && *final (elapsed) == *old(elapsed),
{
    let matched: bool = match &voice.waiting {
        Some(s) => *s == *flag_name,
        None => false,
    };
    if !matched {
        return true;
    }
    let rest: AudioWave = match silent_wave(flag_dur) {
        Some(w) => w,
        None => {
            return false;
        },
    };
    if *elapsed > i64::MAX - flag_dur {
        return false;
    }
    let ghost oldaudio = audio@;
    let ghost restv = rest@;
    let merged: AudioWave = match audio.duplicate().append(rest, Some(1000)) {
        Some(w) => w,
        None => {
            return false;
        },
    };
    proof {
        let spec_r = crate::audiowave::concat_spec(oldaudio, restv, 1000);
        assert(spec_r is Some);
        let m = spec_r.unwrap();
        assert forall|i: int| 0 <= i < oldaudio.samples.len() implies #[trigger] m.samples[i]
            == oldaudio.samples[i] by {
            lemma_identity_rescale(oldaudio.samples[i]);
        }
        assert forall|i: int|
            oldaudio.samples.len() <= i < m.samples.len() implies #[trigger] m.samples[i]
            == 0 by {
            assert(restv.samples[i - oldaudio.samples.len()] == 0);
            lemma_identity_rescale(0);
        }
    }
    *audio = merged;
    voice.waiting = None;
    *elapsed = *elapsed + flag_dur;
    true
}



/// A voice's remaining instruction count.
pub open spec fn voice_instr(v: Voice) -> nat {
    match v@.contents {
        ContentView::Raw(_) => 0,
        ContentView::Processed(l) => l.len(),
    }
}

/// One voice's contribution to the scheduler's termination measure: two per
/// remaining instruction, one while live, one while parked.
pub open spec fn sched_contrib(p: (Voice, bool)) -> nat {
    2 * voice_instr(p.0) + (if p.1 {
        0nat
    } else {
        1nat
    }) + (if p.0@.waiting is Some {
        1nat
    } else {
        0nat
    })
}

/// The scheduler's termination measure: every release, consumed
/// instruction, and exhaustion strictly lowers it.
pub open spec fn sched_measure(vs: Seq<(Voice, bool)>) -> nat
    decreases vs.len(),
{
    if vs.len() == 0 {
        0
    } else {
        sched_contrib(vs[0]) + sched_measure(vs.drop_first())
    }
}

/// Updating one entry moves the measure by that entry's contribution.
pub proof fn lemma_sched_measure_update(vs: Seq<(Voice, bool)>, i: int, p: (Voice, bool))
    requires
        0 <= i < vs.len(),
    ensures
        sched_measure(vs.update(i, p)) + sched_contrib(vs[i]) == sched_measure(vs)
            + sched_contrib(p),
    decreases vs.len(),
{
    if i == 0 {
        assert(vs.update(0, p).drop_first() =~= vs.drop_first());
        assert(vs.update(0, p)[0] == p);
    } else {
        assert(vs.update(i, p).drop_first() =~= vs.drop_first().update(i - 1, p));
        assert(vs.update(i, p)[0] == vs[0]);
        lemma_sched_measure_update(vs.drop_first(), i - 1, p);
    }
}

/// The interpreter's recurrence only steps, drains, or fails.
pub proof fn lemma_step_lines_shape(st: PerfView, lines: Seq<(Seq<char>, int)>)
    ensures
        !(step_lines(st, lines) is Parked),
        !(step_lines(st, lines) is RawContents),
        !(step_lines(st, lines) is Exhausted),
    decreases lines.len(),
{
    if lines.len() > 0 {
        match line_outcome(st, lines[0].0, lines[0].1) {
            LineOutcome::Mutate(st2) => {
                lemma_step_lines_shape(st2, lines.drop_first());
            },
            _ => {},
        }
    }
}

/// A step's remaining list is strictly shorter than its input.
pub proof fn lemma_step_rest_shorter(st: PerfView, lines: Seq<(Seq<char>, int)>)
    ensures
        match step_lines(st, lines) {
            StepOutcome::Stepped { rest, .. } => rest.len() < lines.len(),
            _ => true,
        },
    decreases lines.len(),
{
    if lines.len() > 0 {
        match line_outcome(st, lines[0].0, lines[0].1) {
            LineOutcome::Mutate(st2) => {
                lemma_step_rest_shorter(st2, lines.drop_first());
            },
            _ => {},
        }
    }
}


/// The message reported where signals of one run can no longer combine.
pub open spec fn internal_msg() -> Seq<char> {
    "Error: signals of one run no longer combine"@
}

/// The message reported where every remaining voice waits in vain.
pub open spec fn deadlock_msg() -> Seq<char> {
    "Error: every remaining voice waits on a flag that can never arrive"@
}

/// The scheduler state a preprocessed script starts from: one fresh,
/// timing-resolved voice per chunk, an empty signal, zero elapsed time and a
/// cleared flag.
pub open spec fn init_sched(chunks: Seq<Seq<Seq<char>>>) -> ManagerView {
    ManagerView {
        voices: Seq::new(
            chunks.len(),
            |i: int|
                (
                    VoiceStateView {
                        contents: ContentView::Processed(get_time_spec(chunks[i], 120000, 1000)),
                        perf: initial_perf(),
                        waiting: Option::None,
                    },
                    false,
                ),
        ),
        audios: Seq::new(chunks.len(), |i: int| empty_wave_view()),
        elapsed: Seq::new(chunks.len(), |i: int| 0),
        flag: (Seq::<char>::empty(), 0),
        last: Seq::new(chunks.len(), |i: int| 0),
    }
}

/// Every voice's exhausted mark is set.
pub open spec fn all_done(m: ManagerView) -> bool {
    forall|k: int| 0 <= k < m.voices.len() ==> (#[trigger] m.voices[k]).1
}

/// The least-advanced runnable voice from index `i` on, given the best so
/// far: the selection pass.
pub open spec fn select_voice(m: ManagerView, i: int, found: bool, idx: int, best: int) -> (
    bool,
    int,
    int,
)
    decreases m.voices.len() - i,
{
    if i < 0 || i >= m.voices.len() {
        (found, idx, best)
    } else if !m.voices[i].1 && m.voices[i].0.waiting is None && (!found || m.elapsed[i] < best) {
        select_voice(m, i + 1, true, i, m.elapsed[i])
    } else {
        select_voice(m, i + 1, found, idx, best)
    }
}

/// Voice `i` is parked on the shared flag's name.
pub open spec fn flag_matches(m: ManagerView, i: int) -> bool {
    m.voices[i].0.waiting matches Option::Some(w) && w == m.flag.0
}

/// Some voice is parked on the shared flag.
pub open spec fn any_release(m: ManagerView) -> bool {
    exists|i: int| 0 <= i < m.voices.len() && flag_matches(m, i)
}

/// A released voice's signal: the old samples, then silence for the flag's
/// span.
pub open spec fn released_audio(a: WaveView, d: int) -> WaveView {
    WaveView {
        significance: 1000,
        samplerate: 44100,
        duration: a.duration + d,
        samples: a.samples + Seq::new(
            crate::audiowave::sample_count(44100, d) as nat,
            |j: int| 0,
        ),
    }
}

/// One release: a voice parked on the shared flag gains the flag's span of
/// silence and that much elapsed time, and resumes; the release fails where
/// the silence cannot be built or a bound would be passed.
pub open spec fn release_voice(m: ManagerView, i: int) -> Option<ManagerView> {
    if !flag_matches(m, i) {
        Option::Some(m)
    } else {
        let d = m.flag.1;
        if crate::audiowave::sample_count(44100, d) > crate::audiowave::MAX_SAMPLES as int
            || m.elapsed[i] + d > i64::MAX as int || m.audios[i].duration + d > DUR_MAX as int {
            Option::None
        } else {
            Option::Some(
                ManagerView {
                    voices: m.voices.update(
                        i,
                        (VoiceStateView { waiting: Option::None, ..m.voices[i].0 }, m.voices[i].1),
                    ),
                    audios: m.audios.update(i, released_audio(m.audios[i], d)),
                    elapsed: m.elapsed.update(i, m.elapsed[i] + d),
                    ..m
                },
            )
        }
    }
}

/// The release pass over all voices from index `i` on.
pub open spec fn release_all(m: ManagerView, i: int) -> Option<ManagerView>
    decreases m.voices.len() - i,
{
    if i < 0 || i >= m.voices.len() {
        Option::Some(m)
    } else {
        match release_voice(m, i) {
            Option::None => Option::None,
            Option::Some(m2) => release_all(m2, i + 1),
        }
    }
}

/// What one scheduler iteration yields.
#[verifier::ext_equal]
pub ghost enum SchedRound {
    /// Every voice was already exhausted at entry.
    Done,
    /// The run aborts with this message.
    Fail(Seq<char>),
    /// The iteration's new state.
    Next(ManagerView),
}

/// One act on the chosen voice: the interpreter steps it, its audio is
/// spliced onto its signal, its elapsed time advances, a signalled flag is
/// stored with the duration just produced.
pub open spec fn act_voice(m: ManagerView, idx: int) -> SchedRound {
    let vv = m.voices[idx].0;
    match voice_step(vv) {
        StepOutcome::Exhausted => SchedRound::Next(
            ManagerView { voices: m.voices.update(idx, (vv, true)), ..m },
        ),
        StepOutcome::Failed(msg) => SchedRound::Fail(msg),
        StepOutcome::Drained { perf } => SchedRound::Next(
            ManagerView {
                voices: m.voices.update(
                    idx,
                    (
                        VoiceStateView {
                            contents: ContentView::Processed(Seq::<(Seq<char>, int)>::empty()),
                            perf: perf,
                            waiting: vv.waiting,
                        },
                        m.voices[idx].1,
                    ),
                ),
                ..m
            },
        ),
        StepOutcome::Stepped { perf, rest, audio, flag, waiting } => {
            let v2 = VoiceStateView { contents: ContentView::Processed(rest), perf: perf, waiting: waiting };
            let m1 = ManagerView { voices: m.voices.update(idx, (v2, m.voices[idx].1)), ..m };
            match audio {
                Option::Some(a) => {
                    if m.elapsed[idx] + a.duration > i64::MAX as int {
                        SchedRound::Fail(internal_msg())
                    } else {
                        match concat_spec(m.audios[idx], a, 1000) {
                            Option::None => SchedRound::Fail(internal_msg()),
                            Option::Some(w2) => {
                                let m2 = ManagerView {
                                    audios: m1.audios.update(idx, w2),
                                    elapsed: m1.elapsed.update(idx, m.elapsed[idx] + a.duration),
                                    last: m1.last.update(idx, a.duration),
                                    ..m1
                                };
                                match flag {
                                    Option::Some(f) => SchedRound::Next(
                                        ManagerView { flag: (f, a.duration), ..m2 },
                                    ),
                                    Option::None => SchedRound::Next(m2),
                                }
                            },
                        }
                    }
                },
                Option::None => match flag {
                    Option::Some(f) => SchedRound::Next(
                        ManagerView { flag: (f, m.last[idx]), ..m1 },
                    ),
                    Option::None => SchedRound::Next(m1),
                },
            }
        },
        _ => SchedRound::Fail(Seq::<char>::empty()),
    }
}

/// One full scheduler iteration: stop if all voices are done, release parked
/// voices, act on the least-advanced runnable voice, report a deadlock where
/// neither is possible.
pub open spec fn sched_round(m: ManagerView) -> SchedRound {
    if all_done(m) {
        SchedRound::Done
    } else {
        let sel = select_voice(m, 0, false, 0, i64::MAX as int);
        match release_all(m, 0) {
            Option::None => SchedRound::Fail(internal_msg()),
            Option::Some(m2) => if !sel.0 && !any_release(m) {
                SchedRound::Fail(deadlock_msg())
            } else if sel.0 {
                act_voice(m2, sel.1)
            } else {
                SchedRound::Next(m2)
            },
        }
    }
}

/// The state after `n` undecided scheduler iterations, where one exists.
pub open spec fn after_rounds(m: ManagerView, n: nat) -> Option<ManagerView>
    decreases n,
{
    if n == 0 {
        Option::Some(m)
    } else {
        match sched_round(m) {
            SchedRound::Next(m1) => after_rounds(m1, (n - 1) as nat),
            _ => Option::None,
        }
    }
}

/// One more undecided round extends the chain.
pub proof fn lemma_after_rounds_snoc(m0: ManagerView, n: nat, m: ManagerView, m2: ManagerView)
    requires
        after_rounds(m0, n) == Option::Some(m),
        sched_round(m) == SchedRound::Next(m2),
    ensures
        after_rounds(m0, n + 1) == Option::Some(m2),
    decreases n,
{
    if n == 0 {
        assert(m0 == m);
        assert(after_rounds(m0, 1) == after_rounds(m2, 0));
    } else {
        match sched_round(m0) {
            SchedRound::Next(m1) => {
                lemma_after_rounds_snoc(m1, (n - 1) as nat, m, m2);
                assert(after_rounds(m0, n + 1) == after_rounds(m1, n));
            },
            _ => {
                assert(false);
            },
        }
    }
}

/// The overlay of a signal list onto an accumulator, in order.
pub open spec fn mix_all(audios: Seq<WaveView>, i: int, acc: WaveView) -> Option<WaveView>
    decreases audios.len() - i,
{
    if i < 0 || i >= audios.len() {
        Option::Some(acc)
    } else {
        match mix_spec(acc, audios[i]) {
            Option::None => Option::None,
            Option::Some(acc2) => mix_all(audios, i + 1, acc2),
        }
    }
}

/// The mathematical content of the scheduler.
#[verifier::ext_equal]
pub ghost struct ManagerView {
    pub voices: Seq<(VoiceStateView, bool)>,
    pub audios: Seq<WaveView>,
    pub elapsed: Seq<int>,
    pub flag: (Seq<char>, int),
    pub last: Seq<int>,
}


/// The scheduler's standing invariant over its state.
pub open spec fn sched_inv(m: ManagerView) -> bool {
    &&& m.audios.len() == m.voices.len()
    &&& m.elapsed.len() == m.voices.len()
    &&& m.last.len() == m.voices.len()
    &&& (forall|k: int| 0 <= k < m.voices.len() ==> (#[trigger] m.voices[k]).0.contents is Processed)
    &&& (forall|k: int|
        0 <= k < m.audios.len() ==> wf_view(#[trigger] m.audios[k]) && m.audios[k].samplerate
            == 44100 && m.audios[k].significance == 1000)
    &&& (forall|k: int| 0 <= k < m.elapsed.len() ==> 0 <= #[trigger] m.elapsed[k])
    &&& (forall|k: int| 0 <= k < m.last.len() ==> 0 <= #[trigger] m.last[k] <= DUR_MAX as int)
    &&& 0 <= m.flag.1 <= DUR_MAX as int
}

/// The raw termination measure of a scheduler.
spec fn mgr_measure(m: &Manager) -> nat {
    sched_measure(m.voices@)
}

impl View for Manager {
    type V = ManagerView;

    closed spec fn view(&self) -> ManagerView {
        ManagerView {
            voices: self.voices@.map_values(|p: (Voice, bool)| (p.0@, p.1)),
            audios: self.voice_audios@.map_values(|a: AudioWave| a@),
            elapsed: self.time_elapsed@.map_values(|t: i64| t as int),
            flag: (self.point_flag.0@, self.point_flag.1 as int),
            last: self.last_durations@.map_values(|t: i64| t as int),
        }
    }
}



/// A freshly set-up scheduler satisfies the standing invariant.
proof fn lemma_init_inv(chunks: Seq<Seq<Seq<char>>>)
    ensures
        sched_inv(init_sched(chunks)),
{
    let m = init_sched(chunks);
    assert forall|k: int| 0 <= k < m.audios.len() implies wf_view(#[trigger] m.audios[k])
        && m.audios[k].samplerate == 44100 && m.audios[k].significance == 1000 by {
        assert(m.audios[k] == empty_wave_view());
    }
}

/// What a finished run reports, `n` scheduler iterations in: the mixed
/// signal where the scheduler completed, the failing round's message where
/// it aborted.
pub open spec fn run_outcome(chunks: Seq<Seq<Seq<char>>>, n: nat, r: Result<AudioWave, String>) -> bool {
    match after_rounds(init_sched(chunks), n) {
        Option::None => false,
        Option::Some(mf) => match sched_round(mf) {
            SchedRound::Done => match mix_all(mf.audios, 0, empty_wave_view()) {
                Option::Some(v) => r matches Result::Ok(w) && w@ == v,
                Option::None => r matches Result::Err(m) && m@ == internal_msg(),
            },
            SchedRound::Fail(msg) => r matches Result::Err(m) && m@ == msg,
            SchedRound::Next(_) => false,
        },
    }
}


/// Introduces the iteration-count witness for `run`'s contract.
proof fn lemma_run_witness(
    text: Seq<char>,
    chunksv: Seq<Seq<Seq<char>>>,
    rounds: nat,
    r: Result<AudioWave, String>,
)
    requires
        crate::preprocess::preprocess_spec(text) == Result::<Seq<Seq<Seq<char>>>, Seq<char>>::Ok(
            chunksv,
        ),
        run_outcome(chunksv, rounds, r),
    ensures
        match crate::preprocess::preprocess_spec(text) {
            Result::Err(mv) => true,
            Result::Ok(chunks) => exists|n: nat| #[trigger] run_outcome(chunks, n, r),
        },
{
    let pp = crate::preprocess::preprocess_spec(text);
    assert(run_outcome(pp->Ok_0, rounds, r));
}

/// A found selection names a live, runnable voice.
proof fn lemma_select_found(m: ManagerView, i: int, found: bool, idx: int, best: int)
    requires
        found ==> 0 <= idx < m.voices.len() && !m.voices[idx].1 && m.voices[idx].0.waiting
            is None,
    ensures
        ({
            let s = select_voice(m, i, found, idx, best);
            s.0 ==> 0 <= s.1 < m.voices.len() && !m.voices[s.1].1 && m.voices[s.1].0.waiting
                is None
        }),
    decreases m.voices.len() - i,
{
    if 0 <= i < m.voices.len() {
        if !m.voices[i].1 && m.voices[i].0.waiting is None && (!found || m.elapsed[i] < best) {
            lemma_select_found(m, i + 1, true, i, m.elapsed[i]);
        } else {
            lemma_select_found(m, i + 1, found, idx, best);
        }
    }
}

impl Manager {
    /// A scheduler with no voices and a cleared flag.
    pub fn new() -> (m: Manager)
        ensures
            m@.voices.len() == 0,
            m@.audios.len() == 0,
            m@.elapsed.len() == 0,
            m@.last.len() == 0,
            m@.flag.0.len() == 0,
            m@.flag.1 == 0,
    {
        Manager {
            voices: Vec::new(),
            voice_audios: Vec::new(),
            time_elapsed: Vec::new(),
            point_flag: (String::new(), 0),
            last_durations: Vec::new(),
        }
    }



    /// Releases every voice parked on the shared flag: exactly
    /// `release_all` of the current state. The second component reports
    /// whether any voice was parked on the flag at entry.
    #[verifier::loop_isolation(false)]
    #[verifier::rlimit(100)]
    fn release_pass(&mut self) -> (r: (bool, bool))
        requires
            sched_inv(old(self)@),
        ensures
            match release_all(old(self)@, 0) {
                Option::None => !r.0,
                Option::Some(m2) => {
                    &&& r.0
                    &&& final (self)@ == m2
                    &&& sched_inv(m2)
                    &&& m2.voices.len() == old(self)@.voices.len()
                    &&& r.1 == any_release(old(self)@)
                    &&& (!r.1 ==> m2 == old(self)@ && mgr_measure(final (self)) == mgr_measure(
                        old(self),
                    ))
                    &&& (r.1 ==> mgr_measure(final (self)) < mgr_measure(old(self)))
                    &&& (forall|k: int|
                        0 <= k < m2.voices.len() && !flag_matches(old(self)@, k)
                            ==> #[trigger] m2.voices[k] == old(self)@.voices[k])
                    &&& (forall|k: int|
                        0 <= k < m2.voices.len() ==> (#[trigger] m2.voices[k]).1 == old(
                            self,
                        )@.voices[k].1)
                },
            },
    {
        let ghost m_entry = self@;
        let ghost vs_entry = self.voices@;
        let fname: String = clone_string(&self.point_flag.0);
        let fdur: i64 = self.point_flag.1;
        let len = self.voices.len();
        let mut released: bool = false;
        let mut i: usize = 0;
        proof {
            assert(fname@ == m_entry.flag.0);
        }
        while i < len
            invariant
                i <= len,
                len == self.voices@.len(),
                len == m_entry.voices.len(),
                sched_inv(self@),
                fname@ == m_entry.flag.0,
                fdur as int == m_entry.flag.1,
                0 <= fdur <= DUR_MAX,
                self@.flag == m_entry.flag,
                self@.last == m_entry.last,
                release_all(m_entry, 0) == release_all(self@, i as int),
                forall|k: int|
                    i <= k < len ==> #[trigger] self@.voices[k] == m_entry.voices[k],
                forall|k: int|
                    i <= k < len ==> #[trigger] self@.audios[k] == m_entry.audios[k],
                forall|k: int|
                    i <= k < len ==> #[trigger] self@.elapsed[k] == m_entry.elapsed[k],
                forall|k: int|
                    0 <= k < len && !flag_matches(m_entry, k) ==> #[trigger] self@.voices[k]
                        == m_entry.voices[k],
                forall|k: int|
                    0 <= k < len ==> (#[trigger] self@.voices[k]).1 == m_entry.voices[k].1,
                released == (exists|j: int| 0 <= j < i && flag_matches(m_entry, j)),
                !released ==> self@ == m_entry && sched_measure(self.voices@) == sched_measure(
                    vs_entry,
                ),
                released ==> sched_measure(self.voices@) < sched_measure(vs_entry),
            decreases len - i,
        {
            let ghost cur = self@;
            let ghost vs_before = self.voices@;
            let was_waiting: bool = self.voices[i].0.waiting.is_some();
            proof {
                assert(cur.voices[i as int] == (self.voices@[i as int].0@, self.voices@[i as int].1));
                assert(cur.audios[i as int] == self.voice_audios@[i as int]@);
            }
            let ok = release_one(
                &mut self.voices[i].0,
                &mut self.voice_audios[i],
                &mut self.time_elapsed[i],
                &fname,
                fdur,
            );
            let ghost entry_after = self.voices@[i as int];
            proof {
                assert(self.voices@ =~= vs_before.update(i as int, entry_after));
                lemma_sched_measure_update(vs_before, i as int, entry_after);
            }
            if !ok {
                proof {
                    assert(flag_matches(cur, i as int));
                    assert(release_voice(cur, i as int) is None);
                    assert(release_all(cur, i as int) is None);
                }
                return (false, released);
            }
            proof {
                if flag_matches(cur, i as int) {
                    let d = cur.flag.1;
                    let m2 = release_voice(cur, i as int)->Some_0;
                    assert(self@.voices =~= cur.voices.update(
                        i as int,
                        (
                            VoiceStateView { waiting: Option::None, ..cur.voices[i as int].0 },
                            cur.voices[i as int].1,
                        ),
                    ));
                    assert(self@.audios[i as int] =~= released_audio(cur.audios[i as int], d));
                    assert(self@.audios =~= cur.audios.update(
                        i as int,
                        released_audio(cur.audios[i as int], d),
                    ));
                    assert(self@.elapsed =~= cur.elapsed.update(
                        i as int,
                        cur.elapsed[i as int] + d,
                    ));
                    assert(self@ =~= m2);
                    assert(flag_matches(m_entry, i as int));
                } else {
                    assert(self@ =~= cur);
                    assert(!flag_matches(m_entry, i as int));
                }
                assert(release_all(cur, i as int) == release_all(self@, i + 1));
            }
            if was_waiting && self.voices[i].0.waiting.is_none() {
                released = true;
            }
            i = i + 1;
        }
        (true, released)
    }

    /// Advances one runnable voice: exactly `act_voice` of the current
    /// state, the termination measure strictly falling on success.
    #[verifier::loop_isolation(false)]
    #[verifier::rlimit(100)]
    fn act_on(&mut self, idx: usize) -> (r: Result<(), String>)
        requires
            sched_inv(old(self)@),
            idx < old(self)@.voices.len(),
            old(self)@.voices[idx as int].0.waiting is None,
            !old(self)@.voices[idx as int].1,
        ensures
            match act_voice(old(self)@, idx as int) {
                SchedRound::Next(m2) => r is Ok && final (self)@ == m2 && sched_inv(m2)
                    && m2.voices.len() == old(self)@.voices.len() && mgr_measure(final (self))
                    < mgr_measure(old(self)),
                SchedRound::Fail(msg) => r matches Result::Err(m) && m@ == msg,
                SchedRound::Done => false,
            },
    {
        let ghost m0 = self@;
        let ghost vs_before = self.voices@;
        let ghost vv = self.voices@[idx as int].0@;
        proof {
            assert(vv == m0.voices[idx as int].0);
            assert(m0.audios[idx as int] == self.voice_audios@[idx as int]@);
        }
        let res = self.voices[idx].0.get_audio();
        let ghost entry_after = self.voices@[idx as int];
        proof {
            assert(self.voices@ =~= vs_before.update(idx as int, entry_after));
            lemma_sched_measure_update(vs_before, idx as int, entry_after);
            match vv.contents {
                ContentView::Processed(lines) => {
                    lemma_step_audio_props(vv.perf, lines);
                    lemma_step_rest_shorter(vv.perf, lines);
                    lemma_step_lines_shape(vv.perf, lines);
                },
                ContentView::Raw(_) => {},
            }
        }
        match res {
            Err(e) => {
                if string_eq(&e, "Empty") {
                    let ghost vs_b2 = self.voices@;
                    self.voices[idx].1 = true;
                    proof {
                        let e2 = self.voices@[idx as int];
                        assert(self.voices@ =~= vs_b2.update(idx as int, e2));
                        lemma_sched_measure_update(vs_b2, idx as int, e2);
                        let m2 = act_voice(m0, idx as int)->Next_0;
                        assert(self@.voices =~= m2.voices);
                        assert(self@ =~= m2);
                    }
                    Ok(())
                } else {
                    Err(e)
                }
            },
            Ok(None) => {
                proof {
                    assert(false);
                }
                Ok(())
            },
            Ok(Some(pair)) => {
                match pair.0 {
                    Some(w) => {
                        let dur: i64 = w.get_duration();
                        proof {
                            assert(w.wf());
                            assert(0 <= dur <= DUR_MAX);
                        }
                        if self.time_elapsed[idx] > i64::MAX - dur {
                            return Err(err_internal());
                        }
                        let a: AudioWave = self.voice_audios.remove(idx);
                        let ghost aoldv = a@;
                        let merged: AudioWave = match a.append(w, Some(1000)) {
                            Some(m) => m,
                            None => {
                                proof {
                                    assert(aoldv == m0.audios[idx as int]);
                                }
                                return Err(err_internal());
                            },
                        };
                        self.voice_audios.insert(idx, merged);
                        self.time_elapsed[idx] = self.time_elapsed[idx] + dur;
                        self.last_durations[idx] = dur;
                        proof {
                            assert(aoldv == m0.audios[idx as int]);
                            assert(self.voice_audios@.map_values(|x: AudioWave| x@)
                                =~= m0.audios.update(idx as int, merged@));
                        }
                        match pair.1 {
                            Some(flag) => {
                                self.point_flag = (flag, self.last_durations[idx]);
                            },
                            None => {},
                        }
                        proof {
                            let m2 = act_voice(m0, idx as int)->Next_0;
                            assert(self@.voices =~= m2.voices);
                            assert(self@.audios =~= m2.audios);
                            assert(self@.elapsed =~= m2.elapsed);
                            assert(self@.last =~= m2.last);
                            assert(self@ =~= m2);
                        }
                        Ok(())
                    },
                    None => {
                        match pair.1 {
                            Some(flag) => {
                                self.point_flag = (flag, self.last_durations[idx]);
                            },
                            None => {},
                        }
                        proof {
                            let m2 = act_voice(m0, idx as int)->Next_0;
                            assert(self@.voices =~= m2.voices);
                            assert(self@ =~= m2);
                        }
                        Ok(())
                    },
                }
            },
        }
    }

    /// Builds the per-voice state for a preprocessed script: exactly
    /// `init_sched` of the chunks' views.
    #[verifier::loop_isolation(false)]
    #[verifier::rlimit(100)]
    fn setup_voices(&mut self, chunks: Vec<Vec<String>>)
        ensures
            final (self)@ == init_sched(
                chunks@.map_values(|voice: Vec<String>| voice@.map_values(|l: String| l@)),
            ),
            final (self).voices@.len() == chunks@.len(),
    {
        let ghost chunksv = chunks@.map_values(
            |voice: Vec<String>| voice@.map_values(|l: String| l@),
        );
        let ghost nvoices = chunksv.len();
        let ghost init_m = init_sched(chunksv);
        self.voices = Vec::new();
        self.voice_audios = Vec::new();
        self.time_elapsed = Vec::new();
        self.last_durations = Vec::new();
        self.point_flag = (String::new(), 0);
        let mut remaining = chunks;
        while remaining.len() > 0
            invariant
                self.voices@.len() + remaining@.len() == nvoices,
                self.voice_audios@.len() == self.voices@.len(),
                self.time_elapsed@.len() == self.voices@.len(),
                self.last_durations@.len() == self.voices@.len(),
                remaining@.map_values(|voice: Vec<String>| voice@.map_values(|l: String| l@))
                    =~= chunksv.subrange(self.voices@.len() as int, nvoices as int),
                forall|k: int|
                    0 <= k < self.voices@.len() ==> #[trigger] self@.voices[k]
                        == init_m.voices[k],
                forall|k: int|
                    0 <= k < self.voices@.len() ==> #[trigger] self@.audios[k]
                        == empty_wave_view(),
                forall|k: int| 0 <= k < self.voices@.len() ==> #[trigger] self@.elapsed[k] == 0,
                forall|k: int| 0 <= k < self.voices@.len() ==> #[trigger] self@.last[k] == 0,
                self.point_flag.0@ == Seq::<char>::empty(),
                self.point_flag.1 == 0,
            decreases remaining@.len(),
        {
            let ghost built = self.voices@.len() as int;
            let ghost remv = remaining@.map_values(
                |voice: Vec<String>| voice@.map_values(|l: String| l@),
            );
            let ghost oldrem = remaining@;
            let item: Vec<String> = remaining.remove(0);
            proof {
                assert(item@.map_values(|l: String| l@) == remv[0]);
                assert(remv[0] == chunksv[built]);
                let newremv = remaining@.map_values(
                    |voice: Vec<String>| voice@.map_values(|l: String| l@),
                );
                assert forall|j: int| 0 <= j < newremv.len() implies #[trigger] newremv[j]
                    == chunksv.subrange(built + 1, nvoices as int)[j] by {
                    assert(remaining@[j] == oldrem[j + 1]);
                    assert(remv[j + 1] == chunksv.subrange(built, nvoices as int)[j + 1]);
                }
                assert(newremv =~= chunksv.subrange(built + 1, nvoices as int));
            }
            let mut voice = Voice::new();
            voice.contents = VoiceContent::Raw(item);
            voice.get_time();
            proof {
                assert(voice@.contents == ContentView::Processed(
                    get_time_spec(chunksv[built], 120000, 1000),
                ));
                assert(voice@ =~= init_m.voices[built].0);
            }
            let ghost oldvs = self@.voices;
            let ghost oldau = self@.audios;
            let ghost oldel = self@.elapsed;
            let ghost oldla = self@.last;
            self.voices.push((voice, false));
            self.time_elapsed.push(0);
            self.last_durations.push(0);
            self.voice_audios.push(empty_wave());
            proof {
                assert(self@.voices =~= oldvs.push(init_m.voices[built]));
                assert(self@.audios =~= oldau.push(empty_wave_view()));
                assert(self@.elapsed =~= oldel.push(0));
                assert(self@.last =~= oldla.push(0));
            }
        }
        proof {
            assert(self@.voices =~= init_m.voices);
            assert(self@.audios =~= init_m.audios);
            assert(self@.elapsed =~= init_m.elapsed);
            assert(self@.last =~= init_m.last);
            assert(self@.flag =~= init_m.flag);
            assert(self@ =~= init_m);
        }
    }

    /// Overlays every voice's signal onto the empty base, in order: exactly
    /// `mix_all` of the current audios, an error where it fails.
    #[verifier::loop_isolation(false)]
    #[verifier::rlimit(100)]
    fn mix_voices(&self) -> (r: Result<AudioWave, String>)
        requires
            sched_inv(self@),
        ensures
            match mix_all(self@.audios, 0, empty_wave_view()) {
                Option::Some(v) => r matches Result::Ok(w) && w@ == v && w.wf() && w@.samplerate
                    == 44100 && w@.significance == 1000 * (self@.audios.len() + 1),
                Option::None => r matches Result::Err(m) && m@ == internal_msg(),
            },
    {
        let ghost mf = self@;
        let len = self.voice_audios.len();
        let mut result: AudioWave = empty_wave();
        let mut i: usize = 0;
        while i < len
            invariant
                i <= len,
                len == mf.audios.len(),
                result.wf(),
                result@.samplerate == 44100,
                result@.significance == 1000 * (i + 1),
                mix_all(mf.audios, 0, empty_wave_view()) == mix_all(mf.audios, i as int, result@),
            decreases len - i,
        {
            proof {
                assert(mf.audios[i as int] == self.voice_audios@[i as int]@);
            }
            let a: AudioWave = self.voice_audios[i].duplicate();
            result = match result.add(a) {
                Some(m) => m,
                None => {
                    proof {
                        assert(mix_all(mf.audios, 0, empty_wave_view()) is None);
                    }
                    return Err(err_internal());
                },
            };
            i = i + 1;
        }
        proof {
            assert(mix_all(mf.audios, 0, empty_wave_view()) == Option::Some(result@));
        }
        Ok(result)
    }

    /// Preprocesses a script, interprets its voices in elapsed-time order
    /// honoring synchronization flags, and overlays the per-voice signals:
    /// for some number of iterations, exactly `run_outcome` of the
    /// preprocessed chunks. A preprocessing error is returned unchanged.
    #[verifier::loop_isolation(false)]
    #[verifier::rlimit(100)]
    /// One scheduler iteration: exactly `sched_round` of the current state.
    /// `Ok(true)` reports that every voice was already exhausted.
    #[verifier::loop_isolation(false)]
    #[verifier::rlimit(100)]
    fn sched_step(&mut self) -> (r: Result<bool, String>)
        requires
            sched_inv(old(self)@),
        ensures
            match sched_round(old(self)@) {
                SchedRound::Done => r == Result::<bool, String>::Ok(true) && final (self)@ == old(
                    self,
                )@,
                SchedRound::Fail(msg) => r matches Result::Err(m) && m@ == msg,
                SchedRound::Next(m2) => r == Result::<bool, String>::Ok(false) && final (self)@
                    == m2 && sched_inv(m2) && m2.voices.len() == old(self)@.voices.len()
                    && mgr_measure(final (self)) < mgr_measure(old(self)),
            },
    {
        let ghost m_entry = self@;
        let len = self.voices.len();
        // stop once every voice was exhausted at entry
        let mut completed: bool = true;
        let mut i: usize = 0;
        while i < len
            invariant
                i <= len,
                len == m_entry.voices.len(),
                completed == (forall|j: int| 0 <= j < i ==> (#[trigger] m_entry.voices[j]).1),
            decreases len - i,
        {
            proof {
                assert(m_entry.voices[i as int] == (
                    self.voices@[i as int].0@,
                    self.voices@[i as int].1,
                ));
            }
            let ghost oldc = completed;
            if !self.voices[i].1 {
                completed = false;
            }
            proof {
                if oldc && self.voices@[i as int].1 {
                    assert forall|j: int| 0 <= j < i + 1 implies (
                    #[trigger] m_entry.voices[j]).1 by {}
                }
            }
            i = i + 1;
        }
        if completed {
            proof {
                assert(all_done(m_entry));
            }
            return Ok(true);
        }
        proof {
            assert(!all_done(m_entry));
        }
        // choose the least-advanced runnable voice before releases
        let mut late_one: i64 = i64::MAX;
        let mut late_idx: usize = 0;
        let mut found: bool = false;
        i = 0;
        while i < len
            invariant
                i <= len,
                len == m_entry.voices.len(),
                found ==> late_idx < len,
                select_voice(m_entry, 0, false, 0, i64::MAX as int) == select_voice(
                    m_entry,
                    i as int,
                    found,
                    late_idx as int,
                    late_one as int,
                ),
            decreases len - i,
        {
            proof {
                assert(m_entry.voices[i as int] == (
                    self.voices@[i as int].0@,
                    self.voices@[i as int].1,
                ));
                assert(m_entry.elapsed[i as int] == self.time_elapsed@[i as int] as int);
            }
            if !self.voices[i].1 && self.voices[i].0.waiting.is_none() && (!found
                || self.time_elapsed[i] < late_one) {
                late_one = self.time_elapsed[i];
                late_idx = i;
                found = true;
            }
            i = i + 1;
        }
        let ghost sel = select_voice(m_entry, 0, false, 0, i64::MAX as int);
        proof {
            assert(sel == (found, late_idx as int, late_one as int));
            lemma_select_found(m_entry, 0, false, 0, i64::MAX as int);
        }
        // release every voice parked on the shared flag
        let pr = self.release_pass();
        if !pr.0 {
            proof {
                assert(sched_round(m_entry) == SchedRound::Fail(internal_msg()));
            }
            return Err(err_internal());
        }
        let ghost m2 = self@;
        // a round with nothing runnable and nothing released can never make
        // progress again
        if !found && !pr.1 {
            proof {
                assert(sched_round(m_entry) == SchedRound::Fail(deadlock_msg()));
            }
            return Err(err_deadlock());
        }
        if found {
            proof {
                assert(!flag_matches(m_entry, late_idx as int));
                assert(m2.voices[late_idx as int] == m_entry.voices[late_idx as int]);
            }
            match self.act_on(late_idx) {
                Ok(()) => {
                    proof {
                        assert(sched_round(m_entry) == SchedRound::Next(self@));
                    }
                    Ok(false)
                },
                Err(e) => {
                    proof {
                        match act_voice(m2, late_idx as int) {
                            SchedRound::Fail(msg) => {
                                assert(sched_round(m_entry) == SchedRound::Fail(msg));
                            },
                            _ => {
                                assert(false);
                            },
                        }
                    }
                    Err(e)
                },
            }
        } else {
            proof {
                assert(sched_round(m_entry) == SchedRound::Next(m2));
            }
            Ok(false)
        }
    }

    /// Preprocesses a script, interprets its voices in elapsed-time order
    /// honoring synchronization flags, and overlays the per-voice signals:
    /// for some number of iterations, exactly `run_outcome` of the
    /// preprocessed chunks. A preprocessing error is returned unchanged.
    #[verifier::loop_isolation(false)]
    #[verifier::rlimit(100)]
    pub fn run(&mut self, text: String) -> (r: Result<AudioWave, String>)
        ensures
            (match crate::preprocess::preprocess_spec(text@) {
                Result::Err(mv) => r matches Result::Err(m) && m@ == mv,
                Result::Ok(chunks) => exists|n: nat| #[trigger] run_outcome(chunks, n, r),
            }),
            r matches Result::Ok(w) ==> w.wf() && w@.samplerate == 44100 && (
            crate::preprocess::preprocess_spec(text@) matches Result::Ok(chunks)
                && w@.significance == 1000 * (chunks.len() + 1)),
    {
        let chunks: Vec<Vec<String>> = match crate::preprocess::preprocess(text) {
            Ok(v) => v,
            Err(e) => {
                return Err(e);
            },
        };
        let ghost chunksv = chunks@.map_values(
            |voice: Vec<String>| voice@.map_values(|l: String| l@),
        );
        let ghost init_m = init_sched(chunksv);
        self.setup_voices(chunks);
        proof {
            lemma_init_inv(chunksv);
            assert(after_rounds(init_m, 0) == Option::Some(self@));
        }
        let ghost mut rounds: nat = 0;
        let mut done: bool = false;
        while !done
            invariant
                sched_inv(self@),
                self@.voices.len() == chunksv.len(),
                after_rounds(init_m, rounds) == Option::Some(self@),
                done ==> sched_round(self@) == SchedRound::Done,
            decreases (if done {
                0nat
            } else {
                sched_measure(self.voices@) + 1
            }),
        {
            let ghost m_entry = self@;
            match self.sched_step() {
                Ok(d) => {
                    if d {
                        proof {
                            assert(sched_round(self@) == SchedRound::Done);
                        }
                        done = true;
                    } else {
                        proof {
                            assert(sched_round(m_entry) == SchedRound::Next(self@));
                            lemma_after_rounds_snoc(init_m, rounds, m_entry, self@);
                            rounds = rounds + 1nat;
                        }
                    }
                },
                Err(e) => {
                    proof {
                        assert(after_rounds(init_sched(chunksv), rounds) == Option::Some(
                            m_entry,
                        ));
                        match sched_round(m_entry) {
                            SchedRound::Fail(msg) => {
                                assert(e@ == msg);
                                assert(run_outcome(
                                    chunksv,
                                    rounds,
                                    Result::<AudioWave, String>::Err(e),
                                ));
                                lemma_run_witness(
                                    text@,
                                    chunksv,
                                    rounds,
                                    Result::<AudioWave, String>::Err(e),
                                );
                            },
                            _ => {
                                assert(false);
                            },
                        }
                    }
                    return Err(e);
                },
            }
        }
        // overlay the per-voice signals
        let r = self.mix_voices();
        proof {
            assert(after_rounds(init_sched(chunksv), rounds) == Option::Some(self@));
            assert(self@.audios.len() == chunksv.len());
            match mix_all(self@.audios, 0, empty_wave_view()) {
                Option::Some(v) => {
                    assert(run_outcome(chunksv, rounds, r));
                },
                Option::None => {
                    assert(run_outcome(chunksv, rounds, r));
                },
            }
            lemma_run_witness(text@, chunksv, rounds, r);
        }
        r
    }
}

/// The error reported where signals of one run can no longer combine.
fn err_internal() -> (r: String)
    ensures
        r@ == internal_msg(),
{
    String::from_str("Error: signals of one run no longer combine")
}

/// The error reported where every remaining voice waits on a flag nobody
/// can signal any more.
fn err_deadlock() -> (r: String)
    ensures
        r@ == deadlock_msg(),
{
    String::from_str("Error: every remaining voice waits on a flag that can never arrive")
}

} // verus!
