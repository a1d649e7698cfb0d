use notesynth::parser::{get_freq_value, note_to_semitone, Semitone};

fn semi(token: &str) -> Option<Semitone> {
    note_to_semitone(&token.to_string(), &None)
}

fn semi_val(token: &str) -> i64 {
    match semi(token) {
        Some(Semitone::Semitone(v)) => v,
        other => panic!("{} did not resolve to an offset: {:?}", token, other),
    }
}

#[test]
fn base_table_a_c_g() {
    assert_eq!(semi_val("A"), 0);
    assert_eq!(semi_val("C"), -9_000);
    assert_eq!(semi_val("G"), -2_000);
}

#[test]
fn base_table_rest_of_letters() {
    assert_eq!(semi_val("B"), 2_000);
    assert_eq!(semi_val("D"), -7_000);
    assert_eq!(semi_val("E"), -5_000);
    assert_eq!(semi_val("F"), -4_000);
}

#[test]
fn c_is_adjacent_to_b_and_accidentals_commute() {
    // C sits one semitone above B before the table's octave-down shift,
    // and a sharp shifts both sides of that relation alike.
    assert_eq!(semi_val("C"), semi_val("B") + 1_000 - 12_000);
    assert_eq!(semi_val("C#"), semi_val("B#") + 1_000 - 12_000);
    assert_eq!(semi_val("C#"), semi_val("C") + 1_000);
}

#[test]
fn sharps_and_flats_accumulate() {
    assert_eq!(semi_val("A#"), 1_000);
    assert_eq!(semi_val("Ab"), -1_000);
    assert_eq!(semi_val("A##bb"), 0);
}

#[test]
fn microtone_adds_fractional_semitones() {
    assert_eq!(semi_val("C(50c)"), -9_000 + 500);
    assert_eq!(semi_val("A(12.5c)"), 125);
    assert_eq!(semi_val("A(-100c)"), -1_000);
}

#[test]
fn relative_octave_marks_repeat() {
    assert_eq!(semi_val("A+"), 12_000);
    assert_eq!(semi_val("A++"), 24_000);
    assert_eq!(semi_val("A--"), -24_000);
}

#[test]
fn absolute_octave_digit_uses_default_octave() {
    assert_eq!(semi_val("A5"), 12_000);
    assert_eq!(semi_val("A3"), -12_000);
    let low = note_to_semitone(&"A6".to_string(), &Some(6));
    assert_eq!(low, Some(Semitone::Semitone(0)));
}

#[test]
fn absolute_and_relative_octaves_conflict() {
    assert_eq!(semi("C+3"), None);
    assert_eq!(semi("C-5"), None);
    assert_eq!(semi("C(50c)+2"), None);
}

#[test]
fn rest_token_resolves_to_rest() {
    assert_eq!(semi("_"), Some(Semitone::Rest));
}

#[test]
fn malformed_tokens_fail() {
    assert_eq!(semi("H"), None);
    assert_eq!(semi(""), None);
    assert_eq!(semi("C)"), None);
    assert_eq!(semi("A!"), None);
    assert_eq!(semi("C(xc)"), None);
}

#[test]
fn frequency_of_reference_pitch_is_the_tuning() {
    // A resolves to offset zero, so its frequency is the tuning itself.
    let f = get_freq_value(&"A".to_string(), &4, &440_000).unwrap();
    assert_eq!(f, 440_000);
}

#[test]
fn frequency_of_octave_up_doubles() {
    let f = get_freq_value(&"A+".to_string(), &4, &440_000).unwrap();
    assert_eq!(f, 880_000);
}

#[test]
fn hz_token_is_a_literal_frequency() {
    let f = get_freq_value(&"123.5Hz".to_string(), &4, &440_000).unwrap();
    assert_eq!(f, 123_500);
    assert!(get_freq_value(&"xHz".to_string(), &4, &440_000).is_err());
}

#[test]
fn rest_has_frequency_zero() {
    let f = get_freq_value(&"_".to_string(), &4, &440_000).unwrap();
    assert_eq!(f, 0);
}

#[test]
fn unknown_note_is_an_error() {
    assert!(get_freq_value(&"Q".to_string(), &4, &440_000).is_err());
}

#[test]
fn absolute_octave_after_microtone_is_accepted() {
    assert_eq!(semi_val("A(0c)5"), 12_000);
}

#[test]
fn note_resolution_ends_at_an_unknown_octave_character() {
    // in the octave state an unrecognized character ends the scan quietly
    assert_eq!(semi_val("A(0c)x"), 0);
}

#[test]
fn note_errors_name_the_token() {
    let e = match get_freq_value(&"Q".to_string(), &4, &440_000) {
        Err(e) => e,
        Ok(_) => panic!("unknown note was accepted"),
    };
    assert_eq!(e, "Could not understand 'Q' as a note name");
    let e = match get_freq_value(&"xHz".to_string(), &4, &440_000) {
        Err(e) => e,
        Ok(_) => panic!("bad literal was accepted"),
    };
    assert_eq!(e, "Error: 'xHz' is not a valid number");
}
