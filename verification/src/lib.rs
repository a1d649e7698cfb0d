//! A verified renderer for a compact textual music-notation language.
//!
//! A script describes one or more concurrent voices, each a sequence of
//! directives: notes, chords, rests, glissandi, trills, tempo and tuning
//! changes, and synchronization points. The crate expands structural
//! directives (named sections and repeated jumps) into flat per-voice
//! instruction lists, interprets each voice into timed audio segments, and
//! interleaves the voices into one mixed waveform.
//!
//! Real-valued quantities (seconds, semitones, hertz, amplitudes) are carried
//! as fixed-point integers in thousandths of a unit; see [`fixed`].

pub mod audiowave;
pub mod fixed;
pub mod function;
pub mod parser;
pub mod preprocess;
pub mod voice;
pub mod wavemath;
