//! The note resolver and text utilities.
//!
//! A note token is a letter `A`–`G` followed by accidentals (`#`, `b`), an
//! optional microtone in cents (`(50c)`), and octave marks: repeatable
//! relative `+`/`-`, or one absolute digit `1`–`9` measured against the
//! default octave. Mixing relative marks with an absolute digit fails. The
//! bare token `_` is a rest. All offsets are in thousandths of a semitone.

use vstd::prelude::*;
use crate::fixed::{div_trunc, parse_fixed_chars, parse_fixed_spec, chars_of};
use crate::function::FREQ_MAX;
use crate::wavemath::{exp2_fixed, exp2_fixed_spec};

verus! {

/// Semitone offsets saturate at this magnitude (a hundred thousand
/// semitones).
pub const SEMI_MAX: i64 = 100_000_000;

/// A resolved note: a signed offset from the reference pitch in thousandths
/// of a semitone, or a rest.
#[derive(Debug, Clone, Copy, PartialEq, Eq, Structural)]
pub enum Semitone {
    Semitone(i64),
    Rest,
}

/// The base offset of a note letter, in thousandths of a semitone from `A`.
pub open spec fn base_semitone(c: char) -> Option<int> {
    if c == 'A' {
        Option::Some(0)
    } else if c == 'B' {
        Option::Some(2000)
    } else if c == 'C' {
        Option::Some(-9000)
    } else if c == 'D' {
        Option::Some(-7000)
    } else if c == 'E' {
        Option::Some(-5000)
    } else if c == 'F' {
        Option::Some(-4000)
    } else if c == 'G' {
        Option::Some(-2000)
    } else {
        Option::None
    }
}

/// Saturation of a semitone offset to `[-SEMI_MAX, SEMI_MAX]`.
pub open spec fn sat_semi(x: int) -> int {
    if x > SEMI_MAX as int {
        SEMI_MAX as int
    } else if x < -(SEMI_MAX as int) {
        -(SEMI_MAX as int)
    } else {
        x
    }
}

pub open spec fn is_digit19(c: char) -> bool {
    49 <= c as u32 <= 57
}

/// The modifier scanner. State 0 reads accidentals, state 1 a microtone
/// buffer, state 2 octave marks; `isrel` records that a relative mark was
/// seen, which an absolute digit then contradicts.
pub open spec fn scan_note(
    chars: Seq<char>,
    i: int,
    state: int,
    s: int,
    isrel: bool,
    buf: Seq<char>,
    oct: int,
) -> Option<int>
    decreases chars.len() - i,
{
    if i < 0 || i >= chars.len() {
        Option::Some(s)
    } else {
        let c = chars[i];
        if state == 0 {
            if c == '#' {
                scan_note(chars, i + 1, 0, sat_semi(s + 1000), isrel, buf, oct)
            } else if c == 'b' {
                scan_note(chars, i + 1, 0, sat_semi(s - 1000), isrel, buf, oct)
            } else if c == ')' {
                Option::None
            } else if c == '(' {
                scan_note(chars, i + 1, 1, s, isrel, buf, oct)
            } else if c == '+' {
                scan_note(chars, i + 1, 2, sat_semi(s + 12000), true, buf, oct)
            } else if c == '-' {
                scan_note(chars, i + 1, 2, sat_semi(s - 12000), true, buf, oct)
            } else if is_digit19(c) {
                if isrel {
                    Option::None
                } else {
                    Option::Some(sat_semi(s + 12000 * (c as u32 - 48 - oct)))
                }
            } else {
                Option::None
            }
        } else if state == 1 {
            if c == 'c' {
                match parse_fixed_spec(buf) {
                    Option::Some(v) => scan_note(
                        chars,
                        i + 1,
                        1,
                        sat_semi(s + div_trunc(v as int, 100)),
                        isrel,
                        Seq::<char>::empty(),
                        oct,
                    ),
                    Option::None => Option::None,
                }
            } else if c == ')' {
                scan_note(chars, i + 1, 2, s, isrel, buf, oct)
            } else {
                scan_note(chars, i + 1, 1, s, isrel, buf.push(c), oct)
            }
        } else {
            if is_digit19(c) {
                if isrel {
                    Option::None
                } else {
                    Option::Some(sat_semi(s + 12000 * (c as u32 - 48 - oct)))
                }
            } else if c == '+' {
                scan_note(chars, i + 1, 2, sat_semi(s + 12000), true, buf, oct)
            } else if c == '-' {
                scan_note(chars, i + 1, 2, sat_semi(s - 12000), true, buf, oct)
            } else {
                Option::Some(s)
            }
        }
    }
}

/// What resolving a note token yields: a rest for `_`, otherwise the base
/// letter's offset adjusted by the scanned modifiers.
pub open spec fn note_to_semitone_spec(s: Seq<char>, oct: int) -> Option<Semitone> {
    if s.len() == 1 && s[0] == '_' {
        Option::Some(Semitone::Rest)
    } else if s.len() == 0 {
        Option::None
    } else {
        match base_semitone(s[0]) {
            Option::None => Option::None,
            Option::Some(b) => match scan_note(s, 1, 0, b, false, Seq::<char>::empty(), oct) {
                Option::Some(v) => Option::Some(Semitone::Semitone(v as i64)),
                Option::None => Option::None,
            },
        }
    }
}

/// Every value the scanner carries or yields stays within `SEMI_MAX`
/// saturation, so it fits an `i64`.
pub proof fn lemma_scan_note_bounded(
    chars: Seq<char>,
    i: int,
    state: int,
    s: int,
    isrel: bool,
    buf: Seq<char>,
    oct: int,
)
    requires
        -(SEMI_MAX as int) <= s <= SEMI_MAX as int,
    ensures
        match scan_note(chars, i, state, s, isrel, buf, oct) {
            Option::Some(v) => -(SEMI_MAX as int) <= v <= SEMI_MAX as int,
            Option::None => true,
        },
    decreases chars.len() - i,
{
    if 0 <= i < chars.len() {
        let c = chars[i];
        if state == 0 {
            if c == '#' {
                lemma_scan_note_bounded(chars, i + 1, 0, sat_semi(s + 1000), isrel, buf, oct);
            } else if c == 'b' {
                lemma_scan_note_bounded(chars, i + 1, 0, sat_semi(s - 1000), isrel, buf, oct);
            } else if c == '(' {
                lemma_scan_note_bounded(chars, i + 1, 1, s, isrel, buf, oct);
            } else if c == '+' {
                lemma_scan_note_bounded(chars, i + 1, 2, sat_semi(s + 12000), true, buf, oct);
            } else if c == '-' {
                lemma_scan_note_bounded(chars, i + 1, 2, sat_semi(s - 12000), true, buf, oct);
            }
        } else if state == 1 {
            if c == 'c' {
                match parse_fixed_spec(buf) {
                    Option::Some(v) => {
                        lemma_scan_note_bounded(
                            chars,
                            i + 1,
                            1,
                            sat_semi(s + div_trunc(v as int, 100)),
                            isrel,
                            Seq::<char>::empty(),
                            oct,
                        );
                    },
                    Option::None => {},
                }
            } else if c == ')' {
                lemma_scan_note_bounded(chars, i + 1, 2, s, isrel, buf, oct);
            } else {
                lemma_scan_note_bounded(chars, i + 1, 1, s, isrel, buf.push(c), oct);
            }
        } else {
            if c == '+' {
                lemma_scan_note_bounded(chars, i + 1, 2, sat_semi(s + 12000), true, buf, oct);
            } else if c == '-' {
                lemma_scan_note_bounded(chars, i + 1, 2, sat_semi(s - 12000), true, buf, oct);
            }
        }
    }
}

/// Resolves one note token against a default octave (4 where none is
/// given): exactly `note_to_semitone_spec`.
#[verifier::loop_isolation(false)]
pub fn note_to_semitone(note: &String, default_octave: &Option<u8>) -> (r: Option<Semitone>)
    ensures
        r == note_to_semitone_spec(
            note@,
            (match default_octave {
                Option::Some(o) => *o as int,
                Option::None => 4,
            }),
        ),
        r matches Option::Some(Semitone::Semitone(x)) ==> -SEMI_MAX <= x <= SEMI_MAX,
{
    let oct: u8 = match default_octave {
        Some(o) => *o,
        None => 4,
    };
    let ghost goct = oct as int;
    let chars = chars_of(note.as_str());
    let n = chars.len();
    if n == 1 && chars[0] == '_' {
        return Some(Semitone::Rest);
    }
    if n == 0 {
        return None;
    }
    let c0 = chars[0];
    let base: i64 = if c0 == 'A' {
        0
    } else if c0 == 'B' {
        2000
    } else if c0 == 'C' {
        -9000
    } else if c0 == 'D' {
        -7000
    } else if c0 == 'E' {
        -5000
    } else if c0 == 'F' {
        -4000
    } else if c0 == 'G' {
        -2000
    } else {
        return None;
    };
    let mut i: usize = 1;
    let mut state: u8 = 0;
    let mut s: i64 = base;
    let mut isrel: bool = false;
    let mut buf: Vec<char> = Vec::new();
    proof {
        lemma_scan_note_bounded(note@, 1, 0, base as int, false, Seq::<char>::empty(), goct);
    }
    while i < n
        invariant
            1 <= i <= n,
            state == 0 || state == 1 || state == 2,
            -SEMI_MAX <= s <= SEMI_MAX,
            scan_note(note@, i as int, state as int, s as int, isrel, buf@, goct) == scan_note(
                note@,
                1,
                0,
                base as int,
                false,
                Seq::<char>::empty(),
                goct,
            ),
        decreases n - i,
    {
        proof {
            lemma_scan_note_bounded(note@, i as int, state as int, s as int, isrel, buf@, goct);
        }
        let c = chars[i];
        if state == 0 {
            if c == '#' {
                s = sat_semi_exec(s + 1000);
            } else if c == 'b' {
                s = sat_semi_exec(s - 1000);
            } else if c == ')' {
                return None;
            } else if c == '(' {
                state = 1;
            } else if c == '+' {
                isrel = true;
                state = 2;
                s = sat_semi_exec(s + 12000);
            } else if c == '-' {
                isrel = true;
                state = 2;
                s = sat_semi_exec(s - 12000);
            } else {
                let u = c as u32;
                if 49 <= u && u <= 57 {
                    if isrel {
                        return None;
                    }
                    let v: i64 = sat_semi_exec(s + 12000 * ((u as i64) - 48 - (oct as i64)));
                    return Some(Semitone::Semitone(v));
                }
                return None;
            }
        } else if state == 1 {
            if c == 'c' {
                match parse_fixed_chars(&buf) {
                    Some(v) => {
                        proof {
                            crate::fixed::lemma_div_trunc_bound(v as int, 100);
                            if v as int >= 0 {
                                vstd::arithmetic::div_mod::lemma_div_is_ordered(
                                    v as int,
                                    i64::MAX as int,
                                    100,
                                );
                            } else {
                                vstd::arithmetic::div_mod::lemma_div_is_ordered(
                                    (v as int) * -1,
                                    i64::MAX as int + 1,
                                    100,
                                );
                            }
                        }
                        let cents: i64 = crate::fixed::div_i64(v, 100);
                        s = sat_semi_exec(s + cents);
                        buf = Vec::new();
                    },
                    None => {
                        return None;
                    },
                }
            } else if c == ')' {
                state = 2;
            } else {
                buf.push(c);
            }
        } else {
            let u = c as u32;
            if 49 <= u && u <= 57 {
                if isrel {
                    return None;
                }
                let v: i64 = sat_semi_exec(s + 12000 * ((u as i64) - 48 - (oct as i64)));
                return Some(Semitone::Semitone(v));
            } else if c == '+' {
                isrel = true;
                s = sat_semi_exec(s + 12000);
            } else if c == '-' {
                isrel = true;
                s = sat_semi_exec(s - 12000);
            } else {
                return Some(Semitone::Semitone(s));
            }
        }
        i = i + 1;
    }
    Some(Semitone::Semitone(s))
}

/// Saturates a semitone offset to `[-SEMI_MAX, SEMI_MAX]`.
fn sat_semi_exec(x: i64) -> (r: i64)
    ensures
        r as int == sat_semi(x as int),
{
    if x > SEMI_MAX {
        SEMI_MAX
    } else if x < -SEMI_MAX {
        -SEMI_MAX
    } else {
        x
    }
}


/// The frequency of a semitone offset: `tuning * 2^(semi/12)` in fixed
/// point, saturating at `FREQ_MAX`.
pub open spec fn freq_of_semitone(tuning: int, semi: int) -> int {
    let e = div_trunc(semi * 65536, 12000);
    let w = exp2_fixed_spec(e);
    let f = div_trunc(tuning * w, 65536);
    if f > FREQ_MAX as int {
        FREQ_MAX as int
    } else if f < -(FREQ_MAX as int) {
        -(FREQ_MAX as int)
    } else {
        f
    }
}

/// The message `get_freq_value` reports for a token it cannot use.
pub open spec fn freq_err_msg(s: Seq<char>) -> Seq<char> {
    if s.len() >= 2 && s[s.len() - 2] == 'H' && s[s.len() - 1] == 'z' {
        "Error: '"@ + s + "' is not a valid number"@
    } else {
        "Could not understand '"@ + s + "' as a note name"@
    }
}

/// What `get_freq_value` yields, `None` standing for its error: a literal
/// for a token ending in `Hz`, zero for a rest, otherwise the resolved
/// note's frequency.
pub open spec fn freq_value_spec(s: Seq<char>, oct: int, tuning: int) -> Option<i64> {
    if s.len() >= 2 && s[s.len() - 2] == 'H' && s[s.len() - 1] == 'z' {
        parse_fixed_spec(s.subrange(0, s.len() - 2))
    } else {
        match note_to_semitone_spec(s, oct) {
            Option::Some(Semitone::Semitone(x)) => Option::Some(
                freq_of_semitone(tuning, x as int) as i64,
            ),
            Option::Some(Semitone::Rest) => Option::Some(0i64),
            Option::None => Option::None,
        }
    }
}

/// The frequency a token denotes: a `Hz` literal, a rest (zero), or a note
/// resolved and tuned. `Ok` exactly where `freq_value_spec` is `Some`; the
/// error carries the offending token.
pub fn get_freq_value(string: &String, octave: &u8, tuning: &i64) -> (r: Result<i64, String>)
    ensures
        match r {
            Result::Ok(f) => freq_value_spec(string@, *octave as int, *tuning as int)
                == Option::Some(f),
            Result::Err(m) => freq_value_spec(string@, *octave as int, *tuning as int) is None
                && m@ == freq_err_msg(string@) && m@ != "Empty"@,
        },
{
    proof {
        reveal_strlit("Empty");
        reveal_strlit("Error: '");
        reveal_strlit("Could not understand '");
    }
    let chars = chars_of(string.as_str());
    let n = chars.len();
    if n >= 2 && chars[n - 2] == 'H' && chars[n - 1] == 'z' {
        let mut prefix: Vec<char> = Vec::new();
        let mut i: usize = 0;
        while i < n - 2
            invariant
                i <= n - 2,
                n == string@.len(),
                n >= 2,
                chars@ == string@,
                prefix@ == string@.subrange(0, i as int),
            decreases n - 2 - i,
        {
            prefix.push(chars[i]);
            i = i + 1;
            proof {
                assert(prefix@ =~= string@.subrange(0, i as int));
            }
        }
        match parse_fixed_chars(&prefix) {
            Some(v) => Ok(v),
            None => {
                let m = err_with_token("Error: '", string, "' is not a valid number");
                proof {
                    reveal_strlit("' is not a valid number");
                    assert(m@.len() >= 8);
                }
                Err(m)
            },
        }
    } else {
        match note_to_semitone(string, &Some(*octave)) {
            Some(v) => match v {
                Semitone::Semitone(x) => Ok(semitone_to_freq(*tuning, x)),
                Semitone::Rest => Ok(0),
            },
            None => {
                let m = err_with_token("Could not understand '", string, "' as a note name");
                proof {
                    reveal_strlit("' as a note name");
                    assert(m@.len() >= 22);
                }
                Err(m)
            },
        }
    }
}

/// Computes `freq_of_semitone` on machine integers.
pub fn semitone_to_freq(tuning: i64, semi: i64) -> (r: i64)
    requires
        -SEMI_MAX <= semi <= SEMI_MAX,
    ensures
        r as int == freq_of_semitone(tuning as int, semi as int),
        -FREQ_MAX <= r <= FREQ_MAX,
{
    proof {
        crate::fixed::lemma_div_trunc_bound(semi as int * 65536, 12000);
        assert(vstd::math::abs(semi as int * 65536) <= 100_000_000 * 65536) by (nonlinear_arith)
            requires
                -(100_000_000int) <= semi as int <= 100_000_000int,
        ;
    }
    let e: i64 = crate::fixed::mul_div_i64(semi, 65536, 12000);
    let w: i64 = exp2_fixed(e);
    proof {
        assert(i128::MIN <= (tuning as int) * (w as int) <= i128::MAX) by (nonlinear_arith)
            requires
                i64::MIN <= tuning as int <= i64::MAX,
                0 <= w as int <= i64::MAX,
        ;
    }
    let p: i128 = (tuning as i128) * (w as i128);
    let f: i128 = match p.checked_div(65536) {
        Some(q) => q,
        None => 0,
    };
    proof {
        crate::fixed::lemma_div_trunc_bound(p as int, 65536);
    }
    if f > FREQ_MAX as i128 {
        FREQ_MAX
    } else if f < -(FREQ_MAX as i128) {
        -FREQ_MAX
    } else {
        f as i64
    }
}

/// Builds an error message of the form `prefix token suffix`.
pub(crate) fn err_with_token(prefix: &str, token: &String, suffix: &str) -> (r: String)
    ensures
        r@ == prefix@ + token@ + suffix@,
{
    let mut m = String::from_str(prefix);
    m.append(token.as_str());
    m.append(suffix);
    m
}

/// The whitespace the splitter and trimmer recognize.
pub open spec fn is_space(c: char) -> bool {
    c == ' ' || c == '\t' || c == '\n' || c == '\r'
}

/// True exactly when `c` is recognized whitespace.
pub fn is_space_exec(c: char) -> (b: bool)
    ensures
        b == is_space(c),
{
    c == ' ' || c == '\t' || c == '\n' || c == '\r'
}

/// The splitter's recursion: accumulate characters into the current word,
/// close the word at whitespace, keep only nonempty words.
pub open spec fn split_ws(s: Seq<char>, i: int, cur: Seq<char>, acc: Seq<Seq<char>>) -> Seq<
    Seq<char>,
>
    decreases s.len() - i,
{
    if i < 0 || i >= s.len() {
        if cur.len() > 0 {
            acc.push(cur)
        } else {
            acc
        }
    } else if is_space(s[i]) {
        if cur.len() > 0 {
            split_ws(s, i + 1, Seq::<char>::empty(), acc.push(cur))
        } else {
            split_ws(s, i + 1, Seq::<char>::empty(), acc)
        }
    } else {
        split_ws(s, i + 1, cur.push(s[i]), acc)
    }
}

/// The whitespace-separated words of `s`, in order, each nonempty.
pub open spec fn split_by_whitespace_spec(s: Seq<char>) -> Seq<Seq<char>> {
    split_ws(s, 0, Seq::<char>::empty(), Seq::<Seq<char>>::empty())
}

/// Splits a line into whitespace-separated words: exactly
/// `split_by_whitespace_spec`.
#[verifier::loop_isolation(false)]
pub fn split_by_whitespace(text: &String) -> (r: Vec<String>)
    ensures
        r@.map_values(|w: String| w@) == split_by_whitespace_spec(text@),
{
    let chars = chars_of(text.as_str());
    let n = chars.len();
    let mut result: Vec<String> = Vec::new();
    let mut i: usize = 0;
    let mut start: usize = 0;
    let mut in_word: bool = false;
    proof {
        assert(result@.map_values(|w: String| w@) =~= Seq::<Seq<char>>::empty());
    }
    while i < n
        invariant
            i <= n,
            n == text@.len(),
            chars@ == text@,
            in_word ==> start < i,
            split_by_whitespace_spec(text@) == split_ws(
                text@,
                i as int,
                (if in_word {
                    text@.subrange(start as int, i as int)
                } else {
                    Seq::<char>::empty()
                }),
                result@.map_values(|w: String| w@),
            ),
        decreases n - i,
    {
        let ghost cur = if in_word {
            text@.subrange(start as int, i as int)
        } else {
            Seq::<char>::empty()
        };
        let ghost acc = result@.map_values(|w: String| w@);
        let c = chars[i];
        if is_space_exec(c) {
            if in_word {
                let word: String = text.as_str().substring_char(start, i).to_owned();
                result.push(word);
                proof {
                    assert(result@.map_values(|w: String| w@) =~= acc.push(
                        text@.subrange(start as int, i as int),
                    ));
                    assert(split_ws(text@, i as int, cur, acc) == split_ws(
                        text@,
                        i + 1,
                        Seq::<char>::empty(),
                        acc.push(cur),
                    ));
                }
                in_word = false;
            } else {
                proof {
                    assert(split_ws(text@, i as int, cur, acc) == split_ws(
                        text@,
                        i + 1,
                        Seq::<char>::empty(),
                        acc,
                    ));
                }
            }
        } else {
            if !in_word {
                start = i;
                in_word = true;
            }
            proof {
                assert(text@.subrange(start as int, i + 1) =~= text@.subrange(
                    start as int,
                    i as int,
                ).push(text@[i as int]));
                if start == i {
                    assert(text@.subrange(start as int, i as int) =~= cur);
                }
                assert(split_ws(text@, i as int, cur, acc) == split_ws(
                    text@,
                    i + 1,
                    cur.push(text@[i as int]),
                    acc,
                ));
            }
        }
        i = i + 1;
    }
    if in_word {
        let ghost oldacc = result@.map_values(|w: String| w@);
        let word: String = text.as_str().substring_char(start, n).to_owned();
        result.push(word);
        proof {
            assert(result@.map_values(|w: String| w@) =~= oldacc.push(
                text@.subrange(start as int, n as int),
            ));
        }
    }
    result
}

/// True exactly when the string is empty or all recognized whitespace.
pub fn str_is_whitespace_or_empty(s: &String) -> (b: bool)
    ensures
        b == (forall|i: int| 0 <= i < s@.len() ==> is_space(#[trigger] s@[i])),
{
    let chars = chars_of(s.as_str());
    let n = chars.len();
    let mut i: usize = 0;
    while i < n
        invariant
            i <= n,
            n == s@.len(),
            chars@ == s@,
            forall|j: int| 0 <= j < i ==> is_space(#[trigger] s@[j]),
        decreases n - i,
    {
        if !is_space_exec(chars[i]) {
            return false;
        }
        i = i + 1;
    }
    true
}

} // verus!
