//! Fixed-point arithmetic and numeric parsing.
//!
//! Every real-valued quantity in this crate (seconds, semitones, hertz,
//! amplitudes, significance weights) is carried as a signed integer holding
//! thousandths of a unit, so `1500` stands for `1.5`. All rounding truncates
//! toward zero, like Rust's integer division.

use vstd::prelude::*;

verus! {

/// Number of fixed-point steps in one unit: values are thousandths.
pub const SCALE: i64 = 1000;

/// Truncating (round-toward-zero) integer division, the result Rust's `/`
/// yields on signed integers.
pub open spec fn div_trunc(x: int, d: int) -> int {
    if x == 0 {
        0
    } else if x > 0 && d > 0 {
        x / d
    } else if x < 0 && d < 0 {
        (x * -1) / (d * -1)
    } else if x < 0 {
        ((x * -1) / d) * -1
    } else {
        (x / (d * -1)) * -1
    }
}

/// The magnitude of a truncating quotient never exceeds the dividend's.
pub proof fn lemma_div_trunc_bound(x: int, d: int)
    requires
        d != 0,
    ensures
        vstd::math::abs(div_trunc(x, d)) <= vstd::math::abs(x),
        x >= 0 && d > 0 ==> div_trunc(x, d) >= 0,
{
    if x > 0 && d > 0 {
        vstd::arithmetic::div_mod::lemma_div_nonincreasing(x, d);
        vstd::arithmetic::div_mod::lemma_div_pos_is_pos(x, d);
    } else if x < 0 && d < 0 {
        vstd::arithmetic::div_mod::lemma_div_nonincreasing(x * -1, d * -1);
        vstd::arithmetic::div_mod::lemma_div_pos_is_pos(x * -1, d * -1);
    } else if x < 0 {
        vstd::arithmetic::div_mod::lemma_div_nonincreasing(x * -1, d);
        vstd::arithmetic::div_mod::lemma_div_pos_is_pos(x * -1, d);
    } else if x > 0 {
        vstd::arithmetic::div_mod::lemma_div_nonincreasing(x, d * -1);
        vstd::arithmetic::div_mod::lemma_div_pos_is_pos(x, d * -1);
    }
}

/// On `i64` operands the truncating quotient stays in `i64` range, except
/// for `i64::MIN / -1`.
pub proof fn lemma_div_trunc_i64_range(x: int, d: int)
    requires
        i64::MIN <= x <= i64::MAX,
        i64::MIN <= d <= i64::MAX,
        d != 0,
        !(x == i64::MIN && d == -1),
    ensures
        i64::MIN <= div_trunc(x, d) <= i64::MAX,
{
    lemma_div_trunc_bound(x, d);
    if x == i64::MIN && d < 0 {
        // the one case where |quotient| <= |x| is not enough
        vstd::arithmetic::div_mod::lemma_div_is_ordered_by_denominator(x * -1, 2, d * -1);
        assert((x * -1) / 2 == 0x4000_0000_0000_0000);
    }
}

/// Truncating division on `i64`, as `/` would compute it.
pub fn div_i64(a: i64, b: i64) -> (q: i64)
    requires
        b != 0,
        !(a == i64::MIN && b == -1),
    ensures
        q == div_trunc(a as int, b as int),
{
    proof {
        lemma_div_trunc_i64_range(a as int, b as int);
    }
    match a.checked_div(b) {
        Some(q) => q,
        None => 0,
    }
}

/// `(a * b) / c` with truncation, computed without intermediate overflow.
pub fn mul_div_i64(a: i64, b: i64, c: i64) -> (r: i64)
    requires
        c != 0,
        i64::MIN <= div_trunc(a as int * b as int, c as int) <= i64::MAX,
    ensures
        r == div_trunc(a as int * b as int, c as int),
{
    proof {
        assert(i128::MIN <= (a as int) * (b as int) <= i128::MAX) by (nonlinear_arith)
            requires
                i64::MIN <= a as int <= i64::MAX,
                i64::MIN <= b as int <= i64::MAX,
        ;
    }
    let p: i128 = (a as i128) * (b as i128);
    proof {
        lemma_div_trunc_bound(p as int, c as int);
    }
    let q: i128 = match p.checked_div(c as i128) {
        Some(q) => q,
        None => 0,
    };
    q as i64
}

/// Fixed-point division: `(a * SCALE) / b`.
pub fn fx_div(a: i64, b: i64) -> (r: i64)
    requires
        b != 0,
        i64::MIN <= div_trunc(a as int * SCALE as int, b as int) <= i64::MAX,
    ensures
        r == div_trunc(a as int * SCALE as int, b as int),
{
    mul_div_i64(a, SCALE, b)
}

/// The characters of `s`, in order, as a vector.
pub fn chars_of(s: &str) -> (v: Vec<char>)
    ensures
        v@ == s@,
{
    let n: usize = s.unicode_len();
    let mut v: Vec<char> = Vec::new();
    let mut i: usize = 0;
    while i < n
        invariant
            i <= n,
            n == s@.len(),
            v@ == s@.subrange(0, i as int),
        decreases n - i,
    {
        v.push(s.get_char(i));
        i = i + 1;
        proof {
            assert(v@ =~= s@.subrange(0, i as int));
        }
    }
    proof {
        assert(v@ =~= s@);
    }
    v
}

pub open spec fn is_digit_char(c: char) -> bool {
    48 <= c as u32 <= 57
}

pub open spec fn digit_val(c: char) -> int {
    c as u32 - 48
}

pub open spec fn all_digits(s: Seq<char>) -> bool {
    forall|i: int| 0 <= i < s.len() ==> is_digit_char(#[trigger] s[i])
}

/// The value of a digit string read left to right.
pub open spec fn digits_val(s: Seq<char>) -> int
    decreases s.len(),
{
    if s.len() == 0 {
        0
    } else {
        digits_val(s.drop_last()) * 10 + digit_val(s.last())
    }
}

/// The value in thousandths of up to three digits read as a fraction:
/// `"5"` is 500, `"125"` is 125, digits past the third are ignored.
pub open spec fn frac_val_milli(s: Seq<char>) -> int {
    (if s.len() >= 1 {
        digit_val(s[0]) * 100
    } else {
        0
    }) + (if s.len() >= 2 {
        digit_val(s[1]) * 10
    } else {
        0
    }) + (if s.len() >= 3 {
        digit_val(s[2])
    } else {
        0
    })
}

/// Index of the first `'.'` in `s`, or `s.len()` if there is none.
pub open spec fn dot_index(s: Seq<char>) -> int
    decreases s.len(),
{
    if s.len() == 0 {
        0
    } else if s[0] == '.' {
        0
    } else {
        1 + dot_index(s.drop_first())
    }
}

/// Where the first dot of `s` is known, `dot_index` agrees.
pub proof fn lemma_dot_index_unique(s: Seq<char>, d: int)
    requires
        0 <= d <= s.len(),
        forall|i: int| 0 <= i < d ==> s[i] != '.',
        d < s.len() ==> s[d] == '.',
    ensures
        dot_index(s) == d,
    decreases s.len(),
{
    if s.len() > 0 && s[0] != '.' {
        lemma_dot_index_unique(s.drop_first(), d - 1);
    }
}

/// The value of an unsigned fixed-point literal in thousandths: digits, at
/// most one dot, at least one digit in all. `None` where the shape is wrong.
pub open spec fn parse_unsigned_fixed(s: Seq<char>) -> Option<int> {
    let d = dot_index(s);
    let ip = s.subrange(0, d);
    let fp = if d < s.len() {
        s.subrange(d + 1, s.len() as int)
    } else {
        Seq::<char>::empty()
    };
    if all_digits(ip) && all_digits(fp) && ip.len() + fp.len() > 0 {
        Some(digits_val(ip) * SCALE + frac_val_milli(fp))
    } else {
        None
    }
}

/// The value of a signed fixed-point literal in thousandths. `None` where
/// the shape is wrong or the value does not fit an `i64`.
pub open spec fn parse_fixed_spec(s: Seq<char>) -> Option<i64> {
    let body = if s.len() > 0 && (s[0] == '-' || s[0] == '+') {
        parse_unsigned_fixed(s.drop_first())
    } else {
        parse_unsigned_fixed(s)
    };
    match body {
        Option::None => Option::None,
        Option::Some(v) => {
            if 0 <= v <= i64::MAX {
                if s.len() > 0 && s[0] == '-' {
                    Option::Some((-v) as i64)
                } else {
                    Option::Some(v as i64)
                }
            } else {
                Option::None
            }
        },
    }
}

/// The value of a digit string is nonnegative and no prefix exceeds it.
pub proof fn lemma_digits_val_grows(s: Seq<char>)
    requires
        all_digits(s),
    ensures
        digits_val(s) >= 0,
        forall|i: int|
            0 <= i <= s.len() ==> digits_val(#[trigger] s.subrange(0, i)) <= digits_val(s),
    decreases s.len(),
{
    if s.len() == 0 {
        assert(forall|i: int| 0 <= i <= s.len() ==> #[trigger] s.subrange(0, i) =~= s);
    } else {
        let p = s.drop_last();
        assert(all_digits(p));
        lemma_digits_val_grows(p);
        assert(is_digit_char(s.last()));
        assert(digits_val(p) * 10 >= digits_val(p)) by {
            vstd::arithmetic::mul::lemma_mul_inequality(1, 10, digits_val(p));
        }
        assert forall|i: int| 0 <= i <= s.len() implies digits_val(
            #[trigger] s.subrange(0, i),
        ) <= digits_val(s) by {
            if i < s.len() {
                assert(s.subrange(0, i) =~= p.subrange(0, i));
            } else {
                assert(s.subrange(0, i) =~= s);
            }
        }
    }
}

/// Reads the digits `s[from..to]` left to right: the `digits_val` loop with
/// an early `None` once the value can no longer fit an `i64`.
fn parse_digits(s: &Vec<char>, from: usize, to: usize) -> (r: Option<i64>)
    requires
        from <= to <= s@.len(),
        all_digits(s@.subrange(from as int, to as int)),
    ensures
        ({
            let v = digits_val(s@.subrange(from as int, to as int));
            match r {
                Option::Some(x) => x == v,
                Option::None => v > i64::MAX,
            }
        }),
{
    let ghost whole = s@.subrange(from as int, to as int);
    proof {
        lemma_digits_val_grows(whole);
    }
    let mut acc: i64 = 0;
    let mut i: usize = from;
    while i < to
        invariant
            from <= i <= to <= s@.len(),
            whole == s@.subrange(from as int, to as int),
            all_digits(whole),
            digits_val(whole) >= 0,
            forall|j: int|
                0 <= j <= whole.len() ==> digits_val(#[trigger] whole.subrange(0, j))
                    <= digits_val(whole),
            0 <= acc,
            acc == digits_val(whole.subrange(0, i - from)),
        decreases to - i,
    {
        let c = s[i];
        proof {
            assert(whole[i - from] == c);
            assert(is_digit_char(c));
            assert(whole.subrange(0, i + 1 - from).drop_last() =~= whole.subrange(0, i - from));
            assert(whole.subrange(0, i + 1 - from).last() == c);
        }
        let d: i64 = (c as u32) as i64 - 48;
        let limit: i64 = (i64::MAX - d) / 10;
        proof {
            assert(((i64::MAX - d as int) / 10) * 10 + 10 > i64::MAX - d as int) by {
                vstd::arithmetic::div_mod::lemma_fundamental_div_mod(i64::MAX - d as int, 10);
            }
        }
        if acc > limit {
            proof {
                assert(digits_val(whole.subrange(0, i + 1 - from)) == acc * 10 + d);
                assert(acc * 10 >= (limit as int + 1) * 10) by {
                    vstd::arithmetic::mul::lemma_mul_inequality(limit as int + 1, acc as int, 10);
                }
                assert(acc * 10 + d > i64::MAX);
                assert(digits_val(whole) >= digits_val(whole.subrange(0, i + 1 - from)));
            }
            return None;
        }
        proof {
            assert(acc * 10 <= limit * 10) by {
                vstd::arithmetic::mul::lemma_mul_inequality(acc as int, limit as int, 10);
            }
        }
        acc = acc * 10 + d;
        i = i + 1;
    }
    proof {
        assert(whole.subrange(0, to - from) =~= whole);
    }
    Some(acc)
}

/// True exactly when every character of `s[from..to]` is a decimal digit.
fn check_all_digits(s: &Vec<char>, from: usize, to: usize) -> (b: bool)
    requires
        from <= to <= s@.len(),
    ensures
        b == all_digits(s@.subrange(from as int, to as int)),
{
    let ghost whole = s@.subrange(from as int, to as int);
    let mut i: usize = from;
    while i < to
        invariant
            from <= i <= to <= s@.len(),
            whole == s@.subrange(from as int, to as int),
            forall|j: int| from <= j < i ==> is_digit_char(#[trigger] s@[j]),
        decreases to - i,
    {
        let c = s[i];
        let u = c as u32;
        if u < 48 || u > 57 {
            proof {
                assert(whole[i - from] == s@[i as int]);
            }
            return false;
        }
        i = i + 1;
    }
    proof {
        assert forall|j: int| 0 <= j < whole.len() implies is_digit_char(#[trigger] whole[j]) by {
            assert(whole[j] == s@[from + j]);
        }
    }
    true
}

/// Reads a signed decimal literal as thousandths of a unit: an optional
/// sign, digits, at most one dot. Exactly `parse_fixed_spec` of the input.
#[verifier::rlimit(30)]
pub fn parse_fixed_chars(s: &Vec<char>) -> (r: Option<i64>)
    ensures
        r == parse_fixed_spec(s@),
{
    let n = s.len();
    let has_sign: bool = n > 0 && (s[0] == '-' || s[0] == '+');
    let negative: bool = n > 0 && s[0] == '-';
    let start: usize = if has_sign {
        1
    } else {
        0
    };
    let ghost body = s@.subrange(start as int, n as int);
    proof {
        if has_sign {
            assert(body =~= s@.drop_first());
        } else {
            assert(body =~= s@);
        }
    }
    // find the first dot
    let mut dot: usize = start;
    while dot < n && s[dot] != '.'
        invariant
            start <= dot <= n,
            n == s@.len(),
            forall|i: int| start <= i < dot ==> s@[i] != '.',
        decreases n - dot,
    {
        dot = dot + 1;
    }
    proof {
        assert forall|i: int| 0 <= i < dot - start implies body[i] != '.' by {
            assert(body[i] == s@[start + i]);
        }
        lemma_dot_index_unique(body, dot - start);
    }
    let ghost ip = body.subrange(0, dot - start);
    let ghost fp = if dot < n {
        body.subrange(dot - start + 1, body.len() as int)
    } else {
        Seq::<char>::empty()
    };
    if !check_all_digits(s, start, dot) {
        proof {
            assert(s@.subrange(start as int, dot as int) =~= ip);
        }
        return None;
    }
    let fstart: usize = if dot < n {
        dot + 1
    } else {
        n
    };
    if !check_all_digits(s, fstart, n) {
        proof {
            assert(dot < n);
            assert(s@.subrange(fstart as int, n as int) =~= fp);
        }
        return None;
    }
    proof {
        assert(s@.subrange(start as int, dot as int) =~= ip);
        if dot < n {
            assert(s@.subrange(fstart as int, n as int) =~= fp);
        }
        assert(all_digits(ip));
        assert(all_digits(fp));
        lemma_digits_val_grows(ip);
    }
    if dot == start && fstart == n {
        // no digits at all
        proof {
            assert(ip.len() + fp.len() == 0);
        }
        return None;
    }
    // integer part
    let ipv: i64 = match parse_digits(s, start, dot) {
        Some(v) => v,
        None => {
            proof {
                assert(digits_val(ip) * SCALE + frac_val_milli(fp) > i64::MAX) by {
                    vstd::arithmetic::mul::lemma_mul_inequality(1, digits_val(ip), SCALE as int);
                }
            }
            return None;
        },
    };
    // fractional part: at most the first three digits
    let mut fv: i64 = 0;
    if fstart < n {
        fv = fv + ((s[fstart] as u32) as i64 - 48) * 100;
        proof {
            assert(fp[0] == s@[fstart as int]);
        }
        if fstart + 1 < n {
            fv = fv + ((s[fstart + 1] as u32) as i64 - 48) * 10;
            proof {
                assert(fp[1] == s@[fstart + 1]);
            }
            if fstart + 2 < n {
                fv = fv + ((s[fstart + 2] as u32) as i64 - 48);
                proof {
                    assert(fp[2] == s@[fstart + 2]);
                }
            }
        }
    }
    proof {
        assert(fv == frac_val_milli(fp));
        assert(0 <= fv < 1000);
    }
    // assemble, watching the i64 range
    let limit: i64 = (i64::MAX - fv) / SCALE;
    proof {
        assert((limit as int) * 1000 + 1000 > i64::MAX - fv as int) by {
            vstd::arithmetic::div_mod::lemma_fundamental_div_mod(i64::MAX - fv as int, 1000);
        }
    }
    if ipv > limit {
        proof {
            assert(ipv * 1000 >= (limit as int + 1) * 1000) by {
                vstd::arithmetic::mul::lemma_mul_inequality(limit as int + 1, ipv as int, 1000);
            }
            assert(digits_val(ip) * SCALE + frac_val_milli(fp) > i64::MAX);
        }
        return None;
    }
    proof {
        assert(ipv * 1000 <= limit * 1000) by {
            vstd::arithmetic::mul::lemma_mul_inequality(ipv as int, limit as int, 1000);
        }
    }
    let magnitude: i64 = ipv * SCALE + fv;
    if negative {
        Some(-magnitude)
    } else {
        Some(magnitude)
    }
}

/// Reads a signed decimal literal from a string slice.
pub fn parse_fixed(s: &str) -> (r: Option<i64>)
    ensures
        r == parse_fixed_spec(s@),
{
    let v = chars_of(s);
    parse_fixed_chars(&v)
}

/// The value of an unsigned integer literal: an optional `+`, then digits.
/// `None` where the shape is wrong or the value exceeds `u32::MAX`.
pub open spec fn parse_u32_spec(s: Seq<char>) -> Option<u32> {
    let body = if s.len() > 0 && s[0] == '+' {
        s.drop_first()
    } else {
        s
    };
    if all_digits(body) && body.len() > 0 {
        if digits_val(body) <= u32::MAX {
            Option::Some(digits_val(body) as u32)
        } else {
            Option::None
        }
    } else {
        Option::None
    }
}

/// Reads an unsigned integer literal. Exactly `parse_u32_spec` of the input.
pub fn parse_u32_chars(s: &Vec<char>) -> (r: Option<u32>)
    ensures
        r == parse_u32_spec(s@),
{
    let n = s.len();
    let start: usize = if n > 0 && s[0] == '+' {
        1
    } else {
        0
    };
    let ghost body = s@.subrange(start as int, n as int);
    proof {
        if start == 1 {
            assert(body =~= s@.drop_first());
        } else {
            assert(body =~= s@);
        }
    }
    if start == n {
        return None;
    }
    if !check_all_digits(s, start, n) {
        proof {
            assert(s@.subrange(start as int, n as int) =~= body);
        }
        return None;
    }
    proof {
        assert(s@.subrange(start as int, n as int) =~= body);
        lemma_digits_val_grows(body);
    }
    match parse_digits(s, start, n) {
        Some(v) => {
            if v > u32::MAX as i64 {
                None
            } else {
                Some(v as u32)
            }
        },
        None => None,
    }
}

} // verus!
