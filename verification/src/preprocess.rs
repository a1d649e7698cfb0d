//! The structural preprocessor.
//!
//! A script is split on `%` into voices and on `;` into lines. Named
//! `section` blocks are collected into a table; `jump <name> [count]`
//! expands a closed section's lines into the current voice; other lines
//! pass through. Comments (leading `$`) and blank lines are dropped. The
//! table persists across voices, and only a closed section can be jumped
//! to, so expansion never recurses.

use vstd::prelude::*;
use crate::fixed::{parse_u32_spec, parse_u32_chars, chars_of};
use crate::parser::{is_space, is_space_exec, split_by_whitespace, split_by_whitespace_spec};

verus! {

/// `s` with leading whitespace dropped.
pub open spec fn trim_start(s: Seq<char>) -> Seq<char>
    decreases s.len(),
{
    if s.len() > 0 && is_space(s[0]) {
        trim_start(s.drop_first())
    } else {
        s
    }
}

/// `s` with trailing whitespace dropped.
pub open spec fn trim_end(s: Seq<char>) -> Seq<char>
    decreases s.len(),
{
    if s.len() > 0 && is_space(s.last()) {
        trim_end(s.drop_last())
    } else {
        s
    }
}

/// `s` with whitespace dropped from both ends.
pub open spec fn trim_spec(s: Seq<char>) -> Seq<char> {
    trim_end(trim_start(s))
}

/// Where the leading run of whitespace is known, `trim_start` drops it.
proof fn lemma_trim_start_at(s: Seq<char>, k: int)
    requires
        0 <= k <= s.len(),
        forall|i: int| 0 <= i < k ==> is_space(s[i]),
        k < s.len() ==> !is_space(s[k]),
    ensures
        trim_start(s) =~= s.subrange(k, s.len() as int),
    decreases s.len(),
{
    if s.len() > 0 && is_space(s[0]) {
        lemma_trim_start_at(s.drop_first(), k - 1);
        assert(s.drop_first().subrange(k - 1, s.drop_first().len() as int) =~= s.subrange(
            k,
            s.len() as int,
        ));
    } else {
        assert(s.subrange(0, s.len() as int) =~= s);
    }
}

/// Where the trailing run of whitespace is known, `trim_end` drops it.
proof fn lemma_trim_end_at(s: Seq<char>, m: int)
    requires
        0 <= m <= s.len(),
        forall|i: int| m <= i < s.len() ==> is_space(s[i]),
        m > 0 ==> !is_space(s[m - 1]),
    ensures
        trim_end(s) =~= s.subrange(0, m),
    decreases s.len(),
{
    if s.len() > 0 && is_space(s.last()) {
        lemma_trim_end_at(s.drop_last(), m);
        assert(s.drop_last().subrange(0, m) =~= s.subrange(0, m));
    } else {
        assert(s.subrange(0, s.len() as int) =~= s);
    }
}

/// Trims recognized whitespace from both ends: exactly `trim_spec`.
#[verifier::loop_isolation(false)]
pub fn trim_string(s: &String) -> (r: String)
    ensures
        r@ == trim_spec(s@),
{
    let chars = chars_of(s.as_str());
    let n = chars.len();
    let mut k: usize = 0;
    while k < n && is_space_exec(chars[k])
        invariant
            k <= n,
            n == s@.len(),
            chars@ == s@,
            forall|i: int| 0 <= i < k ==> is_space(#[trigger] s@[i]),
        decreases n - k,
    {
        k = k + 1;
    }
    proof {
        lemma_trim_start_at(s@, k as int);
    }
    if k == n {
        proof {
            assert(trim_spec(s@) =~= Seq::<char>::empty());
        }
        return String::new();
    }
    let mut m: usize = n;
    while m > k && is_space_exec(chars[m - 1])
        invariant
            k <= m <= n,
            n == s@.len(),
            chars@ == s@,
            forall|i: int| m <= i < n ==> is_space(#[trigger] s@[i]),
        decreases m,
    {
        m = m - 1;
    }
    proof {
        // m > k here: position k is not whitespace, so the scan stopped at m > k
        let t = s@.subrange(k as int, n as int);
        assert(!is_space(t[0]));
        assert(m > k);
        assert forall|i: int| m - k <= i < t.len() implies is_space(#[trigger] t[i]) by {
            assert(t[i] == s@[k + i]);
        }
        assert(!is_space(t[m - k - 1]) ==> true);
        assert(t[(m - k) as int - 1] == s@[m as int - 1]);
        lemma_trim_end_at(t, m - k as int);
        assert(t.subrange(0, m - k as int) =~= s@.subrange(k as int, m as int));
    }
    text_slice_owned(s, k, m)
}

/// The substring `s[from..to]` as an owned string.
fn text_slice_owned(s: &String, from: usize, to: usize) -> (r: String)
    requires
        from <= to <= s@.len(),
    ensures
        r@ == s@.subrange(from as int, to as int),
{
    s.as_str().substring_char(from, to).to_owned()
}

/// `p` is a prefix of `s`.
pub open spec fn starts_with_spec(s: Seq<char>, p: Seq<char>) -> bool {
    s.len() >= p.len() && s.subrange(0, p.len() as int) == p
}

/// True exactly when the pattern is a prefix of the string.
#[verifier::loop_isolation(false)]
pub fn has_prefix(s: &String, p: &str) -> (b: bool)
    ensures
        b == starts_with_spec(s@, p@),
{
    let sv = chars_of(s.as_str());
    let pv = chars_of(p);
    if sv.len() < pv.len() {
        return false;
    }
    let m = pv.len();
    let mut i: usize = 0;
    while i < m
        invariant
            i <= m,
            m == p@.len() <= s@.len(),
            sv@ == s@,
            pv@ == p@,
            forall|j: int| 0 <= j < i ==> s@[j] == p@[j],
        decreases m - i,
    {
        if sv[i] != pv[i] {
            proof {
                assert(s@.subrange(0, m as int)[i as int] != p@[i as int]);
            }
            return false;
        }
        i = i + 1;
    }
    proof {
        assert(s@.subrange(0, m as int) =~= p@);
    }
    true
}

/// The separator-splitting recursion: every segment is kept, empty ones
/// included.
pub open spec fn split_sep(s: Seq<char>, sep: char, i: int, cur: Seq<char>, acc: Seq<Seq<char>>) -> Seq<
    Seq<char>,
>
    decreases s.len() - i,
{
    if i < 0 || i >= s.len() {
        acc.push(cur)
    } else if s[i] == sep {
        split_sep(s, sep, i + 1, Seq::<char>::empty(), acc.push(cur))
    } else {
        split_sep(s, sep, i + 1, cur.push(s[i]), acc)
    }
}

/// The segments of `s` between occurrences of `sep`, in order; one more
/// segment than separators, empties kept.
pub open spec fn split_char_spec(s: Seq<char>, sep: char) -> Seq<Seq<char>> {
    split_sep(s, sep, 0, Seq::<char>::empty(), Seq::<Seq<char>>::empty())
}

/// Splits on a separator character: exactly `split_char_spec`.
#[verifier::loop_isolation(false)]
pub fn split_on_char(text: &String, sep: char) -> (r: Vec<String>)
    ensures
        r@.map_values(|w: String| w@) == split_char_spec(text@, sep),
{
    let chars = chars_of(text.as_str());
    let n = chars.len();
    let mut result: Vec<String> = Vec::new();
    let mut i: usize = 0;
    let mut start: usize = 0;
    proof {
        assert(result@.map_values(|w: String| w@) =~= Seq::<Seq<char>>::empty());
        assert(text@.subrange(0, 0) =~= Seq::<char>::empty());
    }
    while i < n
        invariant
            start <= i <= n,
            n == text@.len(),
            chars@ == text@,
            split_char_spec(text@, sep) == split_sep(
                text@,
                sep,
                i as int,
                text@.subrange(start as int, i as int),
                result@.map_values(|w: String| w@),
            ),
        decreases n - i,
    {
        let ghost cur = text@.subrange(start as int, i as int);
        let ghost acc = result@.map_values(|w: String| w@);
        let c = chars[i];
        if c == sep {
            let seg = text_slice_owned(text, start, i);
            result.push(seg);
            proof {
                assert(result@.map_values(|w: String| w@) =~= acc.push(cur));
            }
            start = i + 1;
            proof {
                assert(text@.subrange(start as int, i + 1) =~= Seq::<char>::empty());
            }
        } else {
            proof {
                assert(text@.subrange(start as int, i + 1) =~= cur.push(text@[i as int]));
            }
        }
        i = i + 1;
    }
    let ghost acc = result@.map_values(|w: String| w@);
    let seg = text_slice_owned(text, start, n);
    result.push(seg);
    proof {
        assert(result@.map_values(|w: String| w@) =~= acc.push(
            text@.subrange(start as int, n as int),
        ));
    }
    result
}


/// The first table index holding `name`, or the table's length.
pub open spec fn tbl_index(t: Seq<(Seq<char>, Seq<Seq<char>>)>, name: Seq<char>) -> int
    decreases t.len(),
{
    if t.len() == 0 {
        0
    } else if t[0].0 == name {
        0
    } else {
        1 + tbl_index(t.drop_first(), name)
    }
}

pub open spec fn tbl_contains(t: Seq<(Seq<char>, Seq<Seq<char>>)>, name: Seq<char>) -> bool {
    tbl_index(t, name) < t.len()
}

pub proof fn lemma_tbl_index(t: Seq<(Seq<char>, Seq<Seq<char>>)>, name: Seq<char>)
    ensures
        0 <= tbl_index(t, name) <= t.len(),
        forall|i: int| 0 <= i < tbl_index(t, name) ==> (#[trigger] t[i]).0 != name,
        tbl_index(t, name) < t.len() ==> t[tbl_index(t, name)].0 == name,
    decreases t.len(),
{
    if t.len() > 0 && t[0].0 != name {
        lemma_tbl_index(t.drop_first(), name);
        assert forall|i: int| 0 <= i < tbl_index(t, name) implies (#[trigger] t[i]).0 != name by {
            if i > 0 {
                assert(t.drop_first()[i - 1] == t[i]);
            }
        }
    }
}

/// `v` repeated `n` times, in order.
pub open spec fn repeat_lines(v: Seq<Seq<char>>, n: nat) -> Seq<Seq<char>>
    decreases n,
{
    if n == 0 {
        Seq::<Seq<char>>::empty()
    } else {
        repeat_lines(v, (n - 1) as nat) + v
    }
}

/// The preprocessor's state: the table of sections (closed and open), the
/// in-section flag, and the open section's name.
#[verifier::ext_equal]
pub ghost struct PreState {
    pub tbl: Seq<(Seq<char>, Seq<Seq<char>>)>,
    pub onsec: bool,
    pub cursec: Seq<char>,
}

/// One raw line of a voice: dropped if blank or a comment, a structural
/// directive applied to the state, or lines handed to the current voice.
/// A structural error carries its message.
pub open spec fn proc_line(st: PreState, line: Seq<char>) -> Result<
    (PreState, Seq<Seq<char>>),
    Seq<char>,
> {
    if forall|i: int| 0 <= i < line.len() ==> is_space(#[trigger] line[i]) {
        Result::Ok((st, Seq::<Seq<char>>::empty()))
    } else {
        let l = trim_spec(line);
        if starts_with_spec(l, "$"@) {
            Result::Ok((st, Seq::<Seq<char>>::empty()))
        } else if starts_with_spec(l, "section"@) {
            if st.onsec {
                Result::Err("Invalid syntax on line: "@ + l + "\nAlready on a section"@)
            } else {
                let words = split_by_whitespace_spec(l);
                if words.len() < 2 {
                    Result::Err("Invalid syntax on line: "@ + l + "\nMissing section name"@)
                } else if tbl_contains(st.tbl, words[1]) {
                    Result::Err(
                        "Invalid syntax on line: "@ + l
                            + "\nSection already defined (or being defined)"@,
                    )
                } else {
                    Result::Ok(
                        (
                            PreState {
                                tbl: st.tbl.push((words[1], Seq::<Seq<char>>::empty())),
                                onsec: true,
                                cursec: words[1],
                            },
                            Seq::<Seq<char>>::empty(),
                        ),
                    )
                }
            }
        } else if starts_with_spec(l, "end"@) {
            if !st.onsec {
                Result::Err("Invalid syntax on line: "@ + l + "\nNo section to end"@)
            } else {
                Result::Ok((PreState { onsec: false, ..st }, Seq::<Seq<char>>::empty()))
            }
        } else if starts_with_spec(l, "jump"@) {
            let words = split_by_whitespace_spec(l);
            if words.len() < 2 {
                Result::Err("Invalid syntax on line: "@ + l + "\nMissing section name"@)
            } else if !tbl_contains(st.tbl, words[1]) {
                Result::Err("Error on line: "@ + l + "\nNo section by that name"@)
            } else if st.onsec && words[1] == st.cursec {
                Result::Err("Error on line: "@ + l + "\nThat section is still open"@)
            } else {
                let sec = st.tbl[tbl_index(st.tbl, words[1])].1;
                let reps = if words.len() >= 3 {
                    parse_u32_spec(words[2])
                } else {
                    Option::Some(1u32)
                };
                match reps {
                    Option::None => Result::Err(
                        "Invalid syntax on line: "@ + l + "\nBad repetition count"@,
                    ),
                    Option::Some(k) => Result::Ok((st, repeat_lines(sec, k as nat))),
                }
            }
        } else if st.onsec {
            if st.cursec.len() == 0 {
                Result::Err("Error on line: "@ + l + "\nCannot insert data on unnamed section"@)
            } else {
                let idx = tbl_index(st.tbl, st.cursec);
                if idx < st.tbl.len() {
                    let entry = st.tbl[idx];
                    Result::Ok(
                        (
                            PreState { tbl: st.tbl.update(idx, (entry.0, entry.1.push(l))), ..st },
                            Seq::<Seq<char>>::empty(),
                        ),
                    )
                } else {
                    Result::Ok((st, Seq::<Seq<char>>::empty()))
                }
            }
        } else {
            Result::Ok((st, seq![l]))
        }
    }
}

/// A voice's lines processed in order, accumulating its flat instruction
/// list.
pub open spec fn proc_voice(st: PreState, lines: Seq<Seq<char>>, i: int, acc: Seq<Seq<char>>) -> Result<
    (PreState, Seq<Seq<char>>),
    Seq<char>,
>
    decreases lines.len() - i,
{
    if i < 0 || i >= lines.len() {
        Result::Ok((st, acc))
    } else {
        match proc_line(st, lines[i]) {
            Result::Err(m) => Result::Err(m),
            Result::Ok((st2, add)) => proc_voice(st2, lines, i + 1, acc + add),
        }
    }
}

/// All voices processed in order, the section table carried across them.
pub open spec fn proc_voices(st: PreState, voices: Seq<Seq<char>>, i: int, acc: Seq<Seq<Seq<char>>>) -> Result<
    Seq<Seq<Seq<char>>>,
    Seq<char>,
>
    decreases voices.len() - i,
{
    if i < 0 || i >= voices.len() {
        Result::Ok(acc)
    } else {
        match proc_voice(st, split_char_spec(voices[i], ';'), 0, Seq::<Seq<char>>::empty()) {
            Result::Err(m) => Result::Err(m),
            Result::Ok((st2, voicelines)) => proc_voices(st2, voices, i + 1, acc.push(voicelines)),
        }
    }
}

/// The initial preprocessor state: an empty table, not in a section.
pub open spec fn init_state() -> PreState {
    PreState { tbl: Seq::empty(), onsec: false, cursec: Seq::<char>::empty() }
}

/// What preprocessing a whole script yields: one flat line list per voice,
/// or a structural error with its message.
pub open spec fn preprocess_spec(text: Seq<char>) -> Result<Seq<Seq<Seq<char>>>, Seq<char>> {
    proc_voices(init_state(), split_char_spec(text, '%'), 0, Seq::empty())
}

/// The view of the executable section table.
pub open spec fn tbl_view(t: Seq<(String, Vec<String>)>) -> Seq<(Seq<char>, Seq<Seq<char>>)> {
    t.map_values(|e: (String, Vec<String>)| (e.0@, e.1@.map_values(|l: String| l@)))
}

/// The first table index holding `name`, if any.
#[verifier::loop_isolation(false)]
fn find_section(sections: &Vec<(String, Vec<String>)>, name: &String) -> (r: Option<usize>)
    ensures
        match r {
            Option::Some(i) => i as int == tbl_index(tbl_view(sections@), name@) && (i as int)
                < sections@.len(),
            Option::None => tbl_index(tbl_view(sections@), name@) == sections@.len() as int,
        },
{
    proof {
        lemma_tbl_index(tbl_view(sections@), name@);
    }
    let n = sections.len();
    let mut i: usize = 0;
    while i < n
        invariant
            i <= n,
            n == sections@.len(),
            forall|j: int| 0 <= j < i ==> (#[trigger] tbl_view(sections@)[j]).0 != name@,
        decreases n - i,
    {
        if sections[i].0 == *name {
            proof {
                assert(tbl_view(sections@)[i as int].0 == name@);
                lemma_tbl_index_unique(tbl_view(sections@), name@, i as int);
            }
            return Some(i);
        }
        proof {
            assert(tbl_view(sections@)[i as int].0 == sections@[i as int].0@);
        }
        i = i + 1;
    }
    proof {
        lemma_tbl_index_none(tbl_view(sections@), name@);
    }
    None
}

/// Where an index holding `name` is known and none before it does,
/// `tbl_index` is that index.
proof fn lemma_tbl_index_unique(t: Seq<(Seq<char>, Seq<Seq<char>>)>, name: Seq<char>, d: int)
    requires
        0 <= d < t.len(),
        forall|i: int| 0 <= i < d ==> (#[trigger] t[i]).0 != name,
        t[d].0 == name,
    ensures
        tbl_index(t, name) == d,
    decreases t.len(),
{
    if t.len() > 0 && t[0].0 != name {
        assert forall|i: int| 0 <= i < d - 1 implies (#[trigger] t.drop_first()[i]).0 != name by {
            assert(t.drop_first()[i] == t[i + 1]);
        }
        assert(t.drop_first()[d - 1] == t[d]);
        lemma_tbl_index_unique(t.drop_first(), name, d - 1);
    }
}

/// Where no index holds `name`, `tbl_index` is the length.
proof fn lemma_tbl_index_none(t: Seq<(Seq<char>, Seq<Seq<char>>)>, name: Seq<char>)
    requires
        forall|i: int| 0 <= i < t.len() ==> (#[trigger] t[i]).0 != name,
    ensures
        tbl_index(t, name) == t.len(),
    decreases t.len(),
{
    if t.len() > 0 {
        assert forall|i: int| 0 <= i < t.len() - 1 implies (#[trigger] t.drop_first()[i]).0
            != name by {
            assert(t.drop_first()[i] == t[i + 1]);
        }
        lemma_tbl_index_none(t.drop_first(), name);
    }
}


/// The executable preprocessor state as one view.
pub open spec fn state_view(tbl: Seq<(String, Vec<String>)>, onsec: bool, cursec: Seq<char>) -> PreState {
    PreState { tbl: tbl_view(tbl), onsec: onsec, cursec: cursec }
}

/// Expands one voice's raw lines against the shared section state: exactly
/// `proc_voice`, errors where it is `None`.
#[verifier::loop_isolation(false)]
#[verifier::rlimit(60)]
fn process_voice(
    sections: &mut Vec<(String, Vec<String>)>,
    onsection: &mut bool,
    current_section: &mut String,
    lines: &Vec<String>,
) -> (r: Result<Vec<String>, String>)
    ensures
        match r {
            Result::Ok(v) => proc_voice(
                state_view(old(sections)@, *old(onsection), old(current_section)@),
                lines@.map_values(|l: String| l@),
                0,
                Seq::<Seq<char>>::empty(),
            ) == Result::<(PreState, Seq<Seq<char>>), Seq<char>>::Ok(
                (
                    state_view(final(sections)@, *final(onsection), final(current_section)@),
                    v@.map_values(|l: String| l@),
                ),
            ),
            Result::Err(m) => proc_voice(
                state_view(old(sections)@, *old(onsection), old(current_section)@),
                lines@.map_values(|l: String| l@),
                0,
                Seq::<Seq<char>>::empty(),
            ) matches Result::Err(mv) && m@ == mv,
        },
{
    let ghost st0 = state_view(sections@, *onsection, current_section@);
    let ghost linesv = lines@.map_values(|l: String| l@);
    let mut voicevec: Vec<String> = Vec::new();
    let n = lines.len();
    let mut li: usize = 0;
    proof {
        assert(voicevec@.map_values(|l: String| l@) =~= Seq::<Seq<char>>::empty());
    }
    while li < n
        invariant
            li <= n,
            n == lines@.len(),
            linesv == lines@.map_values(|l: String| l@),
            proc_voice(st0, linesv, 0, Seq::<Seq<char>>::empty()) == proc_voice(
                state_view(sections@, *onsection, current_section@),
                linesv,
                li as int,
                voicevec@.map_values(|l: String| l@),
            ),
        decreases n - li,
    {
        let ghost cur_st = state_view(sections@, *onsection, current_section@);
        let ghost acc = voicevec@.map_values(|l: String| l@);
        let ghost linev = linesv[li as int];
        proof {
            assert(linev == lines@[li as int]@);
        }
        let line: &String = &lines[li];
        if str_is_whitespace_or_empty_pre(line) {
            proof {
                assert(proc_line(cur_st, linev) == Result::<(PreState, Seq<Seq<char>>), Seq<char>>::Ok((cur_st, Seq::<Seq<char>>::empty())));
                assert(acc + Seq::<Seq<char>>::empty() =~= acc);
            }
            li = li + 1;
            continue ;
        }
        let l: String = trim_string(line);
        let ghost lv = trim_spec(linev);
        if has_prefix(&l, "$") {
            proof {
                assert(acc + Seq::<Seq<char>>::empty() =~= acc);
            }
            li = li + 1;
            continue ;
        }
        if has_prefix(&l, "section") {
            if *onsection {
                return Err(crate::parser::err_with_token(
                    "Invalid syntax on line: ",
                    &l,
                    "\nAlready on a section",
                ));
            }
            let aux: Vec<String> = split_by_whitespace(&l);
            if aux.len() < 2 {
                return Err(crate::parser::err_with_token(
                    "Invalid syntax on line: ",
                    &l,
                    "\nMissing section name",
                ));
            }
            let section_name: String = clone_string(&aux[1]);
            match find_section(sections, &section_name) {
                Some(_) => {
                    return Err(crate::parser::err_with_token(
                        "Invalid syntax on line: ",
                        &l,
                        "\nSection already defined (or being defined)",
                    ));
                },
                None => {},
            }
            let ghost oldtbl = tbl_view(sections@);
            *current_section = clone_string(&section_name);
            sections.push((section_name, Vec::new()));
            *onsection = true;
            proof {
                assert(tbl_view(sections@) =~= oldtbl.push(
                    (aux@[1]@, Seq::<Seq<char>>::empty()),
                ));
                assert(state_view(sections@, *onsection, current_section@) =~= (PreState {
                    tbl: oldtbl.push((split_by_whitespace_spec(lv)[1], Seq::<Seq<char>>::empty())),
                    onsec: true,
                    cursec: split_by_whitespace_spec(lv)[1],
                }));
                assert(acc + Seq::<Seq<char>>::empty() =~= acc);
            }
            li = li + 1;
            continue ;
        }
        if has_prefix(&l, "end") {
            if !*onsection {
                return Err(crate::parser::err_with_token(
                    "Invalid syntax on line: ",
                    &l,
                    "\nNo section to end",
                ));
            }
            *onsection = false;
            proof {
                assert(state_view(sections@, false, current_section@) =~= (PreState {
                    onsec: false,
                    ..cur_st
                }));
                assert(acc + Seq::<Seq<char>>::empty() =~= acc);
            }
            li = li + 1;
            continue ;
        }
        if has_prefix(&l, "jump") {
            let aux: Vec<String> = split_by_whitespace(&l);
            if aux.len() < 2 {
                return Err(crate::parser::err_with_token(
                    "Invalid syntax on line: ",
                    &l,
                    "\nMissing section name",
                ));
            }
            let idx: usize = match find_section(sections, &aux[1]) {
                Some(i) => i,
                None => {
                    return Err(crate::parser::err_with_token(
                        "Error on line: ",
                        &l,
                        "\nNo section by that name",
                    ));
                },
            };
            // only a closed section can be expanded
            if *onsection && aux[1] == *current_section {
                return Err(crate::parser::err_with_token(
                    "Error on line: ",
                    &l,
                    "\nThat section is still open",
                ));
            }
            let mut repetitions: u32 = 1;
            if aux.len() >= 3 {
                let repchars = chars_of(aux[2].as_str());
                match parse_u32_chars(&repchars) {
                    Some(u) => {
                        repetitions = u;
                    },
                    None => {
                        return Err(crate::parser::err_with_token(
                            "Invalid syntax on line: ",
                            &l,
                            "\nBad repetition count",
                        ));
                    },
                }
            }
            let ghost secv = tbl_view(sections@)[idx as int].1;
            let mut rep: u32 = 0;
            while rep < repetitions
                invariant
                    rep <= repetitions,
                    idx < sections@.len(),
                    secv == tbl_view(sections@)[idx as int].1,
                    voicevec@.map_values(|l2: String| l2@) =~= acc + repeat_lines(
                        secv,
                        rep as nat,
                    ),
                decreases repetitions - rep,
            {
                let m = sections[idx].1.len();
                let mut j: usize = 0;
                while j < m
                    invariant
                        j <= m,
                        rep < repetitions,
                        idx < sections@.len(),
                        m == sections@[idx as int].1@.len(),
                        secv == tbl_view(sections@)[idx as int].1,
                        voicevec@.map_values(|l2: String| l2@) =~= acc + repeat_lines(
                            secv,
                            rep as nat,
                        ) + secv.subrange(0, j as int),
                    decreases m - j,
                {
                    let ghost prev = voicevec@.map_values(|l2: String| l2@);
                    let item: String = clone_string(&sections[idx].1[j]);
                    voicevec.push(item);
                    proof {
                        assert(secv[j as int] == sections@[idx as int].1@[j as int]@);
                        assert(voicevec@.map_values(|l2: String| l2@) =~= prev.push(
                            secv[j as int],
                        ));
                        assert((acc + repeat_lines(secv, rep as nat) + secv.subrange(
                            0,
                            j as int,
                        )).push(secv[j as int]) =~= acc + repeat_lines(secv, rep as nat)
                            + secv.subrange(0, j + 1));
                    }
                    j = j + 1;
                }
                proof {
                    assert(secv.subrange(0, secv.len() as int) =~= secv);
                    assert(acc + repeat_lines(secv, rep as nat) + secv =~= acc + repeat_lines(
                        secv,
                        (rep + 1) as nat,
                    ));
                }
                rep = rep + 1;
            }
            proof {
                assert(state_view(sections@, *onsection, current_section@) =~= cur_st);
            }
            li = li + 1;
            continue ;
        }
        if *onsection {
            if current_section.as_str().is_empty() {
                return Err(crate::parser::err_with_token(
                    "Error on line: ",
                    &l,
                    "\nCannot insert data on unnamed section",
                ));
            }
            match find_section(sections, current_section) {
                Some(idx) => {
                    let ghost oldtbl = tbl_view(sections@);
                    let ghost goldseq = sections@;
                    let mut entry: (String, Vec<String>) = sections.remove(idx);
                    let ghost gentry1 = entry.1@;
                    entry.1.push(l);
                    sections.insert(idx, entry);
                    proof {
                        let name = current_section@;
                        let e = oldtbl[idx as int];
                        assert(sections@ =~= goldseq.update(idx as int, sections@[idx as int]));
                        assert(sections@[idx as int].1@ =~= gentry1.push(l));
                        assert(sections@[idx as int].1@.map_values(|l2: String| l2@) =~= e.1.push(
                            lv,
                        ));
                        assert(tbl_view(sections@) =~= oldtbl.update(
                            idx as int,
                            (e.0, e.1.push(lv)),
                        ));
                        assert(state_view(sections@, *onsection, current_section@) =~= (PreState {
                            tbl: oldtbl.update(idx as int, (e.0, e.1.push(lv))),
                            ..cur_st
                        }));
                        assert(acc + Seq::<Seq<char>>::empty() =~= acc);
                    }
                },
                None => {
                    proof {
                        assert(acc + Seq::<Seq<char>>::empty() =~= acc);
                    }
                },
            }
            li = li + 1;
            continue ;
        }
        voicevec.push(l);
        proof {
            assert(voicevec@.map_values(|l2: String| l2@) =~= acc + seq![lv]);
        }
        li = li + 1;
    }
    Ok(voicevec)
}

/// A checked clone of a string.
fn clone_string(s: &String) -> (r: String)
    ensures
        r@ == s@,
{
    s.clone()
}

/// True exactly when the string is empty or all recognized whitespace.
fn str_is_whitespace_or_empty_pre(s: &String) -> (b: bool)
    ensures
        b == (forall|i: int| 0 <= i < s@.len() ==> is_space(#[trigger] s@[i])),
{
    crate::parser::str_is_whitespace_or_empty(s)
}

/// Splits a script into voices and expands each voice's structural
/// directives: exactly `preprocess_spec`, with an error where it is `None`.
#[verifier::loop_isolation(false)]
pub fn preprocess(text: String) -> (r: Result<Vec<Vec<String>>, String>)
    ensures
        match r {
            Result::Ok(v) => preprocess_spec(text@) == Result::<
                Seq<Seq<Seq<char>>>,
                Seq<char>,
            >::Ok(v@.map_values(|voice: Vec<String>| voice@.map_values(|l: String| l@))),
            Result::Err(m) => preprocess_spec(text@) matches Result::Err(mv) && m@ == mv,
        },
{
    let voices: Vec<String> = split_on_char(&text, '%');
    let ghost voicesv = voices@.map_values(|w: String| w@);
    let mut chunks: Vec<Vec<String>> = Vec::new();
    let mut sections: Vec<(String, Vec<String>)> = Vec::new();
    let mut onsection: bool = false;
    let mut current_section: String = String::new();
    let nv = voices.len();
    let mut vi: usize = 0;
    proof {
        assert(tbl_view(sections@) =~= Seq::<(Seq<char>, Seq<Seq<char>>)>::empty());
        assert(state_view(sections@, onsection, current_section@) =~= init_state());
        assert(chunks@.map_values(|voice: Vec<String>| voice@.map_values(|l: String| l@))
            =~= Seq::<Seq<Seq<char>>>::empty());
    }
    while vi < nv
        invariant
            vi <= nv,
            nv == voices@.len(),
            voicesv == voices@.map_values(|w: String| w@),
            preprocess_spec(text@) == proc_voices(
                state_view(sections@, onsection, current_section@),
                voicesv,
                vi as int,
                chunks@.map_values(|voice: Vec<String>| voice@.map_values(|l: String| l@)),
            ),
        decreases nv - vi,
    {
        let ghost prevchunks = chunks@.map_values(
            |voice: Vec<String>| voice@.map_values(|l: String| l@),
        );
        let lines: Vec<String> = split_on_char(&voices[vi], ';');
        proof {
            assert(lines@.map_values(|l: String| l@) == split_char_spec(
                voicesv[vi as int],
                ';',
            ));
        }
        match process_voice(&mut sections, &mut onsection, &mut current_section, &lines) {
            Ok(voicevec) => {
                let ghost vv = voicevec@.map_values(|l: String| l@);
                chunks.push(voicevec);
                proof {
                    assert(chunks@.map_values(
                        |voice: Vec<String>| voice@.map_values(|l: String| l@),
                    ) =~= prevchunks.push(vv));
                }
            },
            Err(e) => {
                return Err(e);
            },
        }
        vi = vi + 1;
    }
    Ok(chunks)
}


/// A line that the trimmer and blank filter pass through unchanged.
pub open spec fn clean_line(l: Seq<char>) -> bool {
    l.len() > 0 && !is_space(l[0]) && trim_spec(l) == l
}

/// A clean line that is no comment and no structural directive: it passes
/// through to its voice, or fills the open section.
pub open spec fn plain_line(l: Seq<char>) -> bool {
    &&& clean_line(l)
    &&& !starts_with_spec(l, "$"@)
    &&& !starts_with_spec(l, "section"@)
    &&& !starts_with_spec(l, "end"@)
    &&& !starts_with_spec(l, "jump"@)
}

/// Under the same key, updating an entry keeps its table index.
proof fn lemma_tbl_index_stable(
    t: Seq<(Seq<char>, Seq<Seq<char>>)>,
    name: Seq<char>,
    v: Seq<Seq<char>>,
)
    requires
        tbl_index(t, name) < t.len(),
    ensures
        tbl_index(t.update(tbl_index(t, name), (name, v)), name) == tbl_index(t, name),
{
    let p = tbl_index(t, name);
    lemma_tbl_index(t, name);
    let t2 = t.update(p, (name, v));
    assert forall|i: int| 0 <= i < p implies (#[trigger] t2[i]).0 != name by {
        assert(t2[i] == t[i]);
    }
    lemma_tbl_index_unique(t2, name, p);
}

/// Filling an open section and closing it with `end; jump <name> <count>;`
/// expands the section's collected lines `count` times.
proof fn lemma_fill_and_finish(
    st: PreState,
    lines: Seq<Seq<char>>,
    i: int,
    acc: Seq<Seq<char>>,
    name: Seq<char>,
    count_word: Seq<char>,
    k: u32,
)
    requires
        0 <= i <= lines.len() - 2,
        st.onsec,
        st.cursec == name,
        name.len() > 0,
        tbl_index(st.tbl, name) < st.tbl.len(),
        st.tbl[tbl_index(st.tbl, name)].0 == name,
        forall|j: int| i <= j < lines.len() - 2 ==> plain_line(#[trigger] lines[j]),
        clean_line(lines[lines.len() - 2]),
        starts_with_spec(lines[lines.len() - 2], "end"@),
        clean_line(lines[lines.len() - 1]),
        starts_with_spec(lines[lines.len() - 1], "jump"@),
        split_by_whitespace_spec(lines[lines.len() - 1]) =~= seq!["jump"@, name, count_word],
        parse_u32_spec(count_word) == Option::Some(k),
    ensures
        ({
            let p = tbl_index(st.tbl, name);
            let full = st.tbl[p].1 + lines.subrange(i, lines.len() - 2);
            proc_voice(st, lines, i, acc) == Result::<
                (PreState, Seq<Seq<char>>),
                Seq<char>,
            >::Ok(
                (
                    PreState { tbl: st.tbl.update(p, (name, full)), onsec: false, cursec: name },
                    acc + repeat_lines(full, k as nat),
                ),
            )
        }),
    decreases lines.len() - i,
{
    let p = tbl_index(st.tbl, name);
    lemma_tbl_index(st.tbl, name);
    proof_prefix_facts();
    if i < lines.len() - 2 {
        let l = lines[i];
        assert(plain_line(l));
        assert(!is_space(l[0]));
        assert(!(forall|q: int| 0 <= q < l.len() ==> is_space(#[trigger] l[q])));
        let entry = st.tbl[p];
        let st2 = PreState { tbl: st.tbl.update(p, (entry.0, entry.1.push(l))), ..st };
        assert(proc_line(st, l) == Result::<(PreState, Seq<Seq<char>>), Seq<char>>::Ok((st2, Seq::<Seq<char>>::empty())));
        assert(proc_voice(st, lines, i, acc) == proc_voice(
            st2,
            lines,
            i + 1,
            acc + Seq::<Seq<char>>::empty(),
        ));
        lemma_tbl_index_stable(st.tbl, name, entry.1.push(l));
        assert(tbl_index(st2.tbl, name) == p);
        assert(st2.tbl[p].0 == name);
        lemma_fill_and_finish(st2, lines, i + 1, acc + Seq::<Seq<char>>::empty(), name, count_word, k);
        let full2 = st2.tbl[p].1 + lines.subrange(i + 1, lines.len() - 2);
        let full = st.tbl[p].1 + lines.subrange(i, lines.len() - 2);
        assert(full2 =~= full);
        assert(st2.tbl.update(p, (name, full2)) =~= st.tbl.update(p, (name, full)));
        assert(acc + Seq::<Seq<char>>::empty() =~= acc);
        assert((PreState {
            tbl: st2.tbl.update(p, (name, full2)),
            onsec: false,
            cursec: name,
        }) =~= (PreState { tbl: st.tbl.update(p, (name, full)), onsec: false, cursec: name }));
        assert((acc + Seq::<Seq<char>>::empty()) + repeat_lines(full2, k as nat) =~= acc
            + repeat_lines(full, k as nat));
    } else {
        // the `end` line
        let lend = lines[i];
        assert(lend == lines[lines.len() - 2]);
        assert(!is_space(lend[0]));
        assert(!(forall|q: int| 0 <= q < lend.len() ==> is_space(#[trigger] lend[q])));
        assert(!starts_with_spec(lend, "$"@) && !starts_with_spec(lend, "section"@)) by {
            assert(lend[0] == 'e');
            if starts_with_spec(lend, "$"@) {
                assert(lend.subrange(0, 1)[0] == '$');
            }
            if starts_with_spec(lend, "section"@) {
                assert(lend.subrange(0, 7)[0] == 's');
            }
        }
        let st2 = PreState { onsec: false, ..st };
        assert(proc_line(st, lend) == Result::<(PreState, Seq<Seq<char>>), Seq<char>>::Ok((st2, Seq::<Seq<char>>::empty())));
        assert(proc_voice(st, lines, i, acc) == proc_voice(
            st2,
            lines,
            i + 1,
            acc + Seq::<Seq<char>>::empty(),
        ));
        // the `jump` line
        let lj = lines[lines.len() - 1];
        assert(!is_space(lj[0]));
        assert(!(forall|q: int| 0 <= q < lj.len() ==> is_space(#[trigger] lj[q])));
        let words = split_by_whitespace_spec(lj);
        assert(!starts_with_spec(lj, "$"@) && !starts_with_spec(lj, "section"@)
            && !starts_with_spec(lj, "end"@)) by {
            assert(lj[0] == 'j');
            if starts_with_spec(lj, "$"@) {
                assert(lj.subrange(0, 1)[0] == '$');
            }
            if starts_with_spec(lj, "section"@) {
                assert(lj.subrange(0, 7)[0] == 's');
            }
            if starts_with_spec(lj, "end"@) {
                assert(lj.subrange(0, 3)[0] == 'e');
            }
        }
        assert(words[1] == name);
        assert(tbl_index(st2.tbl, name) == p);
        assert(tbl_contains(st2.tbl, name));
        let sec = st2.tbl[p].1;
        assert(proc_line(st2, lj) == Result::<(PreState, Seq<Seq<char>>), Seq<char>>::Ok((st2, repeat_lines(sec, k as nat))));
        assert(proc_voice(st2, lines, i + 1, acc + Seq::<Seq<char>>::empty()) == proc_voice(
            st2,
            lines,
            i + 2,
            acc + Seq::<Seq<char>>::empty() + repeat_lines(sec, k as nat),
        ));
        assert(i + 2 == lines.len());
        assert(proc_voice(st2, lines, i + 2, acc + Seq::<Seq<char>>::empty() + repeat_lines(
            sec,
            k as nat,
        )) == Result::<(PreState, Seq<Seq<char>>), Seq<char>>::Ok((st2, acc + Seq::<Seq<char>>::empty() + repeat_lines(sec, k as nat))));
        let full = st.tbl[p].1 + lines.subrange(i, lines.len() - 2);
        assert(lines.subrange(i, lines.len() - 2) =~= Seq::<Seq<char>>::empty());
        assert(full =~= st.tbl[p].1);
        assert(st.tbl.update(p, (name, full)) =~= st.tbl);
        assert(st2 =~= (PreState { tbl: st.tbl.update(p, (name, full)), onsec: false, cursec: name }));
        assert(acc + Seq::<Seq<char>>::empty() + repeat_lines(sec, k as nat) =~= acc
            + repeat_lines(full, k as nat));
    }
}

/// Facts distinguishing the directive keywords by their first characters.
proof fn proof_prefix_facts()
    ensures
        "$"@.len() == 1 && "$"@[0] == '$',
        "section"@.len() == 7 && "section"@[0] == 's',
        "end"@.len() == 3 && "end"@[0] == 'e',
        "jump"@.len() == 4 && "jump"@[0] == 'j',
{
    reveal_strlit("$");
    reveal_strlit("section");
    reveal_strlit("end");
    reveal_strlit("jump");
}

/// The round trip: a voice of the form `section X ; <lines> ; end ;
/// jump X <count> ;`, against a table that does not yet know `X`, expands
/// to exactly `<lines>` repeated `<count>` times, in order, and records the
/// section.
pub proof fn lemma_section_jump_round_trip(
    st: PreState,
    sec_line: Seq<char>,
    name: Seq<char>,
    body: Seq<Seq<char>>,
    end_line: Seq<char>,
    jump_line: Seq<char>,
    count_word: Seq<char>,
    k: u32,
)
    requires
        !st.onsec,
        !tbl_contains(st.tbl, name),
        name.len() > 0,
        clean_line(sec_line),
        starts_with_spec(sec_line, "section"@),
        split_by_whitespace_spec(sec_line) =~= seq!["section"@, name],
        forall|j: int| 0 <= j < body.len() ==> plain_line(#[trigger] body[j]),
        clean_line(end_line),
        starts_with_spec(end_line, "end"@),
        clean_line(jump_line),
        starts_with_spec(jump_line, "jump"@),
        split_by_whitespace_spec(jump_line) =~= seq!["jump"@, name, count_word],
        parse_u32_spec(count_word) == Option::Some(k),
    ensures
        proc_voice(
            st,
            seq![sec_line] + body + seq![end_line, jump_line],
            0,
            Seq::<Seq<char>>::empty(),
        ) == Result::<(PreState, Seq<Seq<char>>), Seq<char>>::Ok(
            (
                PreState { tbl: st.tbl.push((name, body)), onsec: false, cursec: name },
                repeat_lines(body, k as nat),
            ),
        ),
{
    proof_prefix_facts();
    let lines = seq![sec_line] + body + seq![end_line, jump_line];
    lemma_tbl_index(st.tbl, name);
    // the header opens the section
    assert(lines[0] == sec_line);
    assert(!is_space(sec_line[0]));
    assert(!(forall|q: int| 0 <= q < sec_line.len() ==> is_space(#[trigger] sec_line[q])));
    assert(!starts_with_spec(sec_line, "$"@)) by {
        assert(sec_line[0] == 's');
        if starts_with_spec(sec_line, "$"@) {
            assert(sec_line.subrange(0, 1)[0] == '$');
        }
    }
    let st2 = PreState {
        tbl: st.tbl.push((name, Seq::<Seq<char>>::empty())),
        onsec: true,
        cursec: name,
    };
    assert(proc_line(st, sec_line) == Result::<(PreState, Seq<Seq<char>>), Seq<char>>::Ok((st2, Seq::<Seq<char>>::empty())));
    assert(tbl_index(st2.tbl, name) == st.tbl.len()) by {
        assert forall|q: int| 0 <= q < st.tbl.len() implies (#[trigger] st2.tbl[q]).0 != name by {
            assert(st2.tbl[q] == st.tbl[q]);
        }
        lemma_tbl_index_unique(st2.tbl, name, st.tbl.len() as int);
    }
    // the body fills it, `end` closes it, the jump expands it
    assert(forall|j: int| 1 <= j < lines.len() - 2 ==> plain_line(#[trigger] lines[j]));
    assert(lines[lines.len() - 2] == end_line);
    assert(lines[lines.len() - 1] == jump_line);
    lemma_fill_and_finish(st2, lines, 1, Seq::<Seq<char>>::empty(), name, count_word, k);
    let p = st.tbl.len() as int;
    let full = st2.tbl[p].1 + lines.subrange(1, lines.len() - 2);
    assert(lines.subrange(1, lines.len() - 2) =~= body);
    assert(full =~= body);
    assert(st2.tbl.update(p, (name, full)) =~= st.tbl.push((name, body)));
    assert(Seq::<Seq<char>>::empty() + repeat_lines(full, k as nat) =~= repeat_lines(
        body,
        k as nat,
    ));
}

} // verus!
