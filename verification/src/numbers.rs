//! Decimal text: recognizing the integer and floating-point literal grammars
//! that stop fields use, and rendering unsigned integers.

use vstd::prelude::*;

verus! {

/// `c` is a decimal digit.
pub open spec fn is_digit(c: char) -> bool {
    48 <= c as u32 && c as u32 <= 57
}

/// Numeric value of a digit.
pub open spec fn digit_value(c: char) -> int {
    c as u32 - 48
}

/// Every character of `s` is a decimal digit.
pub open spec fn all_digits(s: Seq<char>) -> bool {
    forall|i: int| 0 <= i < s.len() ==> is_digit(#[trigger] s[i])
}

/// Numeric value of a digit string, most significant digit first.
pub open spec fn digits_value(s: Seq<char>) -> int
    decreases s.len(),
{
    if s.len() == 0 {
        0
    } else {
        digits_value(s.drop_last()) * 10 + digit_value(s.last())
    }
}

proof fn lemma_digits_value_nonneg(s: Seq<char>)
    requires
        all_digits(s),
    ensures
        digits_value(s) >= 0,
    decreases s.len(),
{
    if s.len() > 0 {
        assert(all_digits(s.drop_last()));
        lemma_digits_value_nonneg(s.drop_last());
    }
}

fn char_to_digit(c: char) -> (r: Option<u8>)
    ensures
        r == if is_digit(c) {
            Some(digit_value(c) as u8)
        } else {
            None::<u8>
        },
{
    let u = c as u32;
    if 48 <= u && u <= 57 {
        Some((u - 48) as u8)
    } else {
        None
    }
}

/// The digits of an optionally signed decimal string.
pub open spec fn spec_u8_digits(s: Seq<char>) -> Seq<char> {
    if s.len() > 0 && (s[0] == '+' || s[0] == '-') {
        s.subrange(1, s.len() as int)
    } else {
        s
    }
}

/// The string starts with a minus sign.
pub open spec fn spec_u8_negative(s: Seq<char>) -> bool {
    s.len() > 0 && s[0] == '-'
}

/// The unsigned byte grammar: an optional `+` sign followed by one or more
/// digits, whose value fits in a byte; a minus sign is rejected outright.
pub open spec fn spec_parse_u8(s: Seq<char>) -> Option<u8> {
    let digits = spec_u8_digits(s);
    if spec_u8_negative(s) {
        None
    } else if digits.len() == 0 || !all_digits(digits) {
        None
    } else if digits_value(digits) <= 255 {
        Some(digits_value(digits) as u8)
    } else {
        None
    }
}

/// Reads an unsigned byte written in decimal, exactly as the stop table's
/// small integer fields are written.
pub fn parse_u8(s: &str) -> (r: Option<u8>)
    ensures
        r == spec_parse_u8(s@),
{
    let n = s.unicode_len();
    let mut start: usize = 0;
    if n > 0 {
        let c0 = s.get_char(0);
        if c0 == '-' {
            return None;
        }
        if c0 == '+' {
            start = 1;
        }
    }
    let ghost digits = spec_u8_digits(s@);
    assert(digits =~= s@.subrange(start as int, n as int));
    if start >= n {
        return None;
    }
    // v tracks the value of the digits read so far, capped at 256.
    let mut v: u32 = 0;
    let mut j: usize = start;
    while j < n
        invariant
            start <= j <= n,
            n == s@.len(),
            start <= 1,
            digits == spec_u8_digits(s@),
            !spec_u8_negative(s@),
            digits == s@.subrange(start as int, n as int),
            all_digits(digits.subrange(0, j - start)),
            v == if digits_value(digits.subrange(0, j - start)) > 255 {
                256int
            } else {
                digits_value(digits.subrange(0, j - start))
            },
        decreases n - j,
    {
        let c = s.get_char(j);
        let ghost prefix = digits.subrange(0, j - start);
        let ghost prefix1 = digits.subrange(0, j + 1 - start);
        assert(prefix1.drop_last() =~= prefix);
        assert(prefix1.last() == digits[j - start]);
        match char_to_digit(c) {
            None => {
                assert(!is_digit(digits[j - start]));
                return None;
            },
            Some(d) => {
                proof {
                    lemma_digits_value_nonneg(prefix);
                }
                if v >= 256 {
                    v = 256;
                } else {
                    let w = v * 10 + d as u32;
                    v = if w > 255 {
                        256
                    } else {
                        w
                    };
                }
            },
        }
        j += 1;
    }
    assert(digits.subrange(0, n - start) =~= digits);
    proof {
        lemma_digits_value_nonneg(digits);
    }
    if v <= 255 {
        Some(v as u8)
    } else {
        None
    }
}

/// The decimal digit character for `d`, for `d` in 0..10.
pub open spec fn spec_digit_char(d: int) -> char {
    if d == 0 {
        '0'
    } else if d == 1 {
        '1'
    } else if d == 2 {
        '2'
    } else if d == 3 {
        '3'
    } else if d == 4 {
        '4'
    } else if d == 5 {
        '5'
    } else if d == 6 {
        '6'
    } else if d == 7 {
        '7'
    } else if d == 8 {
        '8'
    } else {
        '9'
    }
}

/// The decimal rendering of `n`, most significant digit first, no sign and
/// no leading zero except for zero itself.
pub open spec fn spec_u32_string(n: nat) -> Seq<char>
    decreases n,
{
    if n <= 9 {
        seq![spec_digit_char(n as int)]
    } else {
        spec_u32_string(n / 10).push(spec_digit_char((n % 10) as int))
    }
}

/// Appends the decimal rendering of `n` to `out`.
pub fn push_u32(out: &mut String, n: u32)
    ensures
        final (out)@ == old(out)@ + spec_u32_string(n as nat),
    decreases n,
{
    if n >= 10 {
        push_u32(out, n / 10);
    }
    let d = n % 10;
    let ds: &str = if d == 0 {
        "0"
    } else if d == 1 {
        "1"
    } else if d == 2 {
        "2"
    } else if d == 3 {
        "3"
    } else if d == 4 {
        "4"
    } else if d == 5 {
        "5"
    } else if d == 6 {
        "6"
    } else if d == 7 {
        "7"
    } else if d == 8 {
        "8"
    } else {
        "9"
    };
    proof {
        reveal_strlit("0");
        reveal_strlit("1");
        reveal_strlit("2");
        reveal_strlit("3");
        reveal_strlit("4");
        reveal_strlit("5");
        reveal_strlit("6");
        reveal_strlit("7");
        reveal_strlit("8");
        reveal_strlit("9");
        assert(ds@ =~= seq![spec_digit_char((n % 10) as int)]);
    }
    out.append(ds);
    proof {
        if n <= 9 {
            assert(spec_u32_string(n as nat) =~= seq![spec_digit_char(n as int)]);
        } else {
            assert(spec_u32_string(n as nat) =~= spec_u32_string((n / 10) as nat).push(
                spec_digit_char((n % 10) as int),
            ));
        }
    }
}

/// `c` is an explicit sign character.
pub open spec fn is_sign(c: char) -> bool {
    c == '+' || c == '-'
}

/// `s` without its leading sign, if any.
pub open spec fn strip_sign(s: Seq<char>) -> Seq<char> {
    if s.len() > 0 && is_sign(s[0]) {
        s.subrange(1, s.len() as int)
    } else {
        s
    }
}

/// `c` equals the lowercase letter `l` ignoring ASCII case.
pub open spec fn matches_lower(c: char, l: char) -> bool {
    c == l || c as u32 + 32 == l as u32
}

pub open spec fn is_kw_inf(t: Seq<char>) -> bool {
    t.len() == 3 && matches_lower(t[0], 'i') && matches_lower(t[1], 'n') && matches_lower(
        t[2],
        'f',
    )
}

pub open spec fn is_kw_infinity(t: Seq<char>) -> bool {
    t.len() == 8 && matches_lower(t[0], 'i') && matches_lower(t[1], 'n') && matches_lower(t[2], 'f')
        && matches_lower(t[3], 'i') && matches_lower(t[4], 'n') && matches_lower(t[5], 'i')
        && matches_lower(t[6], 't') && matches_lower(t[7], 'y')
}

pub open spec fn is_kw_nan(t: Seq<char>) -> bool {
    t.len() == 3 && matches_lower(t[0], 'n') && matches_lower(t[1], 'a') && matches_lower(
        t[2],
        'n',
    )
}

/// One of the non-finite keywords, ignoring ASCII case.
pub open spec fn is_float_keyword(t: Seq<char>) -> bool {
    is_kw_inf(t) || is_kw_infinity(t) || is_kw_nan(t)
}

/// Digits with at most one dot, and at least one digit.
pub open spec fn is_mantissa(m: Seq<char>) -> bool {
    &&& forall|i: int| 0 <= i < m.len() ==> is_digit(#[trigger] m[i]) || m[i] == '.'
    &&& exists|i: int| 0 <= i < m.len() && is_digit(#[trigger] m[i])
    &&& forall|i: int, j: int|
        #![trigger m[i], m[j]]
        0 <= i < j < m.len() ==> !(m[i] == '.' && m[j] == '.')
}

/// An optional sign followed by one or more digits.
pub open spec fn is_exponent(x: Seq<char>) -> bool {
    strip_sign(x).len() > 0 && all_digits(strip_sign(x))
}

pub open spec fn is_e(c: char) -> bool {
    c == 'e' || c == 'E'
}

/// Index of the first exponent separator in `t`, if any.
pub open spec fn find_e(t: Seq<char>) -> Option<int>
    decreases t.len(),
{
    if t.len() == 0 {
        None
    } else if is_e(t[0]) {
        Some(0)
    } else {
        match find_e(t.subrange(1, t.len() as int)) {
            None => None,
            Some(i) => Some(i + 1),
        }
    }
}

proof fn lemma_find_e_char(t: Seq<char>)
    ensures
        match find_e(t) {
            None => forall|i: int| 0 <= i < t.len() ==> !is_e(#[trigger] t[i]),
            Some(i) => 0 <= i < t.len() && is_e(t[i]) && forall|k: int|
                0 <= k < i ==> !is_e(#[trigger] t[k]),
        },
    decreases t.len(),
{
    if t.len() > 0 && !is_e(t[0]) {
        let rest = t.subrange(1, t.len() as int);
        lemma_find_e_char(rest);
        assert(forall|i: int| 1 <= i < t.len() ==> #[trigger] t[i] == rest[i - 1]);
        assert(forall|i: int| 0 <= i < rest.len() ==> #[trigger] rest[i] == t[i + 1]);
    }
}

/// Mantissa with an optional exponent part after the first `e` or `E`.
pub open spec fn is_number(t: Seq<char>) -> bool {
    match find_e(t) {
        None => is_mantissa(t),
        Some(i) => is_mantissa(t.subrange(0, i)) && is_exponent(
            t.subrange(i + 1, t.len() as int),
        ),
    }
}

/// The floating-point literal grammar of the coordinate fields: an optional
/// sign, then `inf`, `infinity` or `nan` ignoring ASCII case, or digits with
/// at most one dot and an optional exponent.
pub open spec fn spec_is_float_literal(s: Seq<char>) -> bool {
    is_float_keyword(strip_sign(s)) || is_number(strip_sign(s))
}

fn is_digit_exec(c: char) -> (r: bool)
    ensures
        r == is_digit(c),
{
    let u = c as u32;
    48 <= u && u <= 57
}

fn eq_ci(c: char, l: char) -> (r: bool)
    ensures
        r == matches_lower(c, l),
{
    c == l || c as u32 + 32 == l as u32
}

fn check_keyword(s: &str, start: usize) -> (r: bool)
    requires
        start <= s@.len(),
    ensures
        r == is_float_keyword(s@.subrange(start as int, s@.len() as int)),
{
    let n = s.unicode_len();
    let ghost t = s@.subrange(start as int, s@.len() as int);
    if n - start == 3 {
        let c0 = s.get_char(start);
        let c1 = s.get_char(start + 1);
        let c2 = s.get_char(start + 2);
        assert(t[0] == s@[start as int] && t[1] == s@[start + 1] && t[2] == s@[start + 2]);
        (eq_ci(c0, 'i') && eq_ci(c1, 'n') && eq_ci(c2, 'f')) || (eq_ci(c0, 'n') && eq_ci(c1, 'a')
            && eq_ci(c2, 'n'))
    } else if n - start == 8 {
        let c0 = s.get_char(start);
        let c1 = s.get_char(start + 1);
        let c2 = s.get_char(start + 2);
        let c3 = s.get_char(start + 3);
        let c4 = s.get_char(start + 4);
        let c5 = s.get_char(start + 5);
        let c6 = s.get_char(start + 6);
        let c7 = s.get_char(start + 7);
        assert(forall|i: int| 0 <= i < t.len() ==> t[i] == s@[start + i]);
        eq_ci(c0, 'i') && eq_ci(c1, 'n') && eq_ci(c2, 'f') && eq_ci(c3, 'i') && eq_ci(c4, 'n')
            && eq_ci(c5, 'i') && eq_ci(c6, 't') && eq_ci(c7, 'y')
    } else {
        false
    }
}

fn check_mantissa(s: &str, from: usize, to: usize) -> (r: bool)
    requires
        from <= to <= s@.len(),
    ensures
        r == is_mantissa(s@.subrange(from as int, to as int)),
{
    let ghost m = s@.subrange(from as int, to as int);
    let mut seen_digit = false;
    let mut seen_dot = false;
    let mut j = from;
    while j < to
        invariant
            from <= j <= to <= s@.len(),
            m == s@.subrange(from as int, to as int),
            forall|i: int| 0 <= i < j - from ==> is_digit(#[trigger] m[i]) || m[i] == '.',
            seen_digit == exists|i: int| 0 <= i < j - from && is_digit(#[trigger] m[i]),
            seen_dot == exists|i: int| 0 <= i < j - from && #[trigger] m[i] == '.',
            forall|i: int, k: int|
                #![trigger m[i], m[k]]
                0 <= i < k < j - from ==> !(m[i] == '.' && m[k] == '.'),
        decreases to - j,
    {
        let c = s.get_char(j);
        assert(m[j - from] == s@[j as int]);
        if is_digit_exec(c) {
            seen_digit = true;
        } else if c == '.' {
            if seen_dot {
                proof {
                    let i0 = choose|i: int| 0 <= i < j - from && #[trigger] m[i] == '.';
                    assert(m[i0] == '.' && m[j - from] == '.');
                }
                return false;
            }
            seen_dot = true;
        } else {
            return false;
        }
        j += 1;
    }
    assert(m =~= s@.subrange(from as int, to as int));
    seen_digit
}

fn check_exponent(s: &str, from: usize, to: usize) -> (r: bool)
    requires
        from <= to <= s@.len(),
    ensures
        r == is_exponent(s@.subrange(from as int, to as int)),
{
    let ghost x = s@.subrange(from as int, to as int);
    let mut j = from;
    if j < to {
        let c = s.get_char(j);
        if c == '+' || c == '-' {
            j += 1;
        }
    }
    let ghost d = strip_sign(x);
    assert(d =~= s@.subrange(j as int, to as int));
    if j >= to {
        return false;
    }
    let start = j;
    while j < to
        invariant
            from <= start <= j <= to <= s@.len(),
            d == strip_sign(s@.subrange(from as int, to as int)),
            d == s@.subrange(start as int, to as int),
            forall|i: int| 0 <= i < j - start ==> is_digit(#[trigger] d[i]),
        decreases to - j,
    {
        let c = s.get_char(j);
        assert(d[j - start] == s@[j as int]);
        if !is_digit_exec(c) {
            return false;
        }
        j += 1;
    }
    assert(forall|i: int| 0 <= i < d.len() ==> is_digit(#[trigger] d[i]));
    true
}

/// Recognizes the text a coordinate field must hold to decode as a number.
pub fn is_float_literal(s: &str) -> (r: bool)
    ensures
        r == spec_is_float_literal(s@),
{
    let n = s.unicode_len();
    let mut start: usize = 0;
    if n > 0 {
        let c0 = s.get_char(0);
        if c0 == '+' || c0 == '-' {
            start = 1;
        }
    }
    let ghost t = strip_sign(s@);
    assert(t =~= s@.subrange(start as int, n as int));
    if check_keyword(s, start) {
        return true;
    }
    // Find the first exponent separator, if any.
    let mut epos: usize = n;
    let mut j = start;
    while j < n && epos == n
        invariant
            start <= j <= n,
            n == s@.len(),
            t == s@.subrange(start as int, n as int),
            epos == n || (start <= epos < n && j == epos && is_e(t[epos - start])),
            forall|i: int| 0 <= i < j - start && i != epos - start ==> !is_e(#[trigger] t[i]),
        decreases n - j + (if epos == n {
            1int
        } else {
            0int
        }),
    {
        let c = s.get_char(j);
        assert(t[j - start] == s@[j as int]);
        if c == 'e' || c == 'E' {
            epos = j;
        } else {
            j += 1;
        }
    }
    proof {
        lemma_find_e_char(t);
    }
    if epos == n {
        assert(find_e(t) is None);
        check_mantissa(s, start, n)
    } else {
        assert(find_e(t) == Some(epos - start as int));
        assert(t.subrange(0, epos - start as int) =~= s@.subrange(start as int, epos as int));
        assert(t.subrange(epos - start as int + 1, t.len() as int) =~= s@.subrange(
            epos as int + 1,
            n as int,
        ));
        let m_ok = check_mantissa(s, start, epos);
        let e_ok = check_exponent(s, epos + 1, n);
        m_ok && e_ok
    }
}

} // verus!
