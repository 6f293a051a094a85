//! Recognisers for the textual forms that users type in for typed variables:
//! decimal integers, booleans and floating-point literals.
use vstd::prelude::*;

verus! {

pub open spec fn is_digit(c: char) -> bool {
    '0' <= c && c <= '9'
}

pub open spec fn digit_value(c: char) -> nat {
    (c as u32 - '0' as u32) as nat
}

pub open spec fn all_digits(s: Seq<char>) -> bool {
    forall|i: int| 0 <= i < s.len() ==> is_digit(#[trigger] s[i])
}

/// Value of a string of decimal digits.
pub open spec fn digits_value(s: Seq<char>) -> nat
    decreases s.len(),
{
    if s.len() == 0 {
        0
    } else {
        10 * digits_value(s.drop_last()) + digit_value(s.last())
    }
}

pub open spec fn has_sign(s: Seq<char>) -> bool {
    s.len() > 0 && (s[0] == '+' || s[0] == '-')
}

/// The text after an optional leading sign.
pub open spec fn unsigned_part(s: Seq<char>) -> Seq<char> {
    if has_sign(s) {
        s.drop_first()
    } else {
        s
    }
}

/// What `str::parse::<i64>` gives: an optional `+` or `-`, then one or more
/// decimal digits, whose value must lie in the range of `i64`.
pub open spec fn parse_i64_spec(s: Seq<char>) -> Option<i64> {
    let body = unsigned_part(s);
    let magnitude = digits_value(body) as int;
    let v = if s.len() > 0 && s[0] == '-' {
        -magnitude
    } else {
        magnitude
    };
    if body.len() > 0 && all_digits(body) && i64::MIN <= v <= i64::MAX {
        Some(v as i64)
    } else {
        None
    }
}

/// What `str::parse::<bool>` gives: exactly `true` or `false`.
pub open spec fn parse_bool_spec(s: Seq<char>) -> Option<bool> {
    if s == seq!['t', 'r', 'u', 'e'] {
        Some(true)
    } else if s == seq!['f', 'a', 'l', 's', 'e'] {
        Some(false)
    } else {
        None
    }
}

/// Upper-case form of the lower-case letters that float literals use.
pub open spec fn ascii_upper(c: char) -> char {
    if c == 'a' {
        'A'
    } else if c == 'e' {
        'E'
    } else if c == 'f' {
        'F'
    } else if c == 'i' {
        'I'
    } else if c == 'n' {
        'N'
    } else if c == 't' {
        'T'
    } else if c == 'y' {
        'Y'
    } else {
        c
    }
}

/// `s` equals the lower-case word `w` when ASCII case is ignored.
pub open spec fn equals_ignoring_case(s: Seq<char>, w: Seq<char>) -> bool {
    &&& s.len() == w.len()
    &&& forall|i: int| 0 <= i < s.len() ==> (#[trigger] s[i] == w[i] || s[i] == ascii_upper(w[i]))
}

pub open spec fn is_exp_marker(c: char) -> bool {
    c == 'e' || c == 'E'
}

/// Index of the first exponent marker, or the length when there is none.
pub open spec fn exp_index(t: Seq<char>) -> int
    decreases t.len(),
{
    if t.len() == 0 {
        0
    } else if is_exp_marker(t[0]) {
        0
    } else {
        1 + exp_index(t.drop_first())
    }
}

/// Number of decimal points in `m`.
pub open spec fn dot_count(m: Seq<char>) -> nat
    decreases m.len(),
{
    if m.len() == 0 {
        0
    } else {
        dot_count(m.drop_last()) + if m.last() == '.' {
            1nat
        } else {
            0nat
        }
    }
}

/// Number of decimal digits in `m`.
pub open spec fn digit_count(m: Seq<char>) -> nat
    decreases m.len(),
{
    if m.len() == 0 {
        0
    } else {
        digit_count(m.drop_last()) + if is_digit(m.last()) {
            1nat
        } else {
            0nat
        }
    }
}

/// Digits with at most one decimal point and at least one digit.
pub open spec fn is_mantissa(m: Seq<char>) -> bool {
    &&& forall|i: int| 0 <= i < m.len() ==> is_digit(#[trigger] m[i]) || m[i] == '.'
    &&& dot_count(m) <= 1
    &&& digit_count(m) > 0
}

/// An optional sign followed by one or more digits.
pub open spec fn is_exponent(x: Seq<char>) -> bool {
    unsigned_part(x).len() > 0 && all_digits(unsigned_part(x))
}

pub open spec fn is_decimal(t: Seq<char>) -> bool {
    let e = exp_index(t);
    &&& is_mantissa(t.take(e))
    &&& (e == t.len() || is_exponent(t.skip(e + 1)))
}

/// The text of a float as `str::parse::<f64>` accepts it: an optional sign,
/// then `inf`, `infinity`, `nan` (in any ASCII case) or a decimal number with
/// an optional exponent.
pub open spec fn is_float_text(s: Seq<char>) -> bool {
    let t = unsigned_part(s);
    ||| equals_ignoring_case(t, seq!['i', 'n', 'f'])
    ||| equals_ignoring_case(t, seq!['i', 'n', 'f', 'i', 'n', 'i', 't', 'y'])
    ||| equals_ignoring_case(t, seq!['n', 'a', 'n'])
    ||| is_decimal(t)
}


/// The characters of a string.
pub fn chars_of(s: &str) -> (v: Vec<char>)
    ensures
        v@ == s@,
{
    let n = s.unicode_len();
    let mut v: Vec<char> = Vec::new();
    let mut i: usize = 0;
    while i < n
        invariant
            n == s@.len(),
            i <= n,
            v@ =~= s@.take(i as int),
        decreases n - i,
    {
        v.push(s.get_char(i));
        i = i + 1;
    }
    assert(s@.take(n as int) =~= s@);
    v
}

pub fn is_digit_char(c: char) -> (r: bool)
    ensures
        r == is_digit(c),
{
    '0' <= c && c <= '9'
}

/// Decimal value of digits, saturated at `cap`.
fn saturated_digits(v: &Vec<char>, start: usize, cap: u128) -> (r: Option<u128>)
    requires
        start <= v.len(),
        cap < 0x1_0000_0000_0000_0000_0000_0000_0000,
    ensures
        r is Some <==> all_digits(v@.skip(start as int)),
        r matches Some(m) ==> m == if digits_value(v@.skip(start as int)) < cap {
            digits_value(v@.skip(start as int)) as int
        } else {
            cap as int
        },
{
    let ghost body = v@.skip(start as int);
    let mut m: u128 = 0;
    let mut i: usize = start;
    while i < v.len()
        invariant
            start <= i <= v.len(),
            body == v@.skip(start as int),
            cap < 0x1_0000_0000_0000_0000_0000_0000_0000,
            all_digits(body.take(i - start)),
            m == if digits_value(body.take(i - start)) < cap {
                digits_value(body.take(i - start)) as int
            } else {
                cap as int
            },
        decreases v.len() - i,
    {
        let c = v[i];
        if !is_digit_char(c) {
            assert(!all_digits(body)) by {
                assert(body[i - start] == c);
            }
            return None;
        }
        let d = (c as u32 - '0' as u32) as u128;
        assert(body.take(i + 1 - start).drop_last() =~= body.take(i - start));
        assert(body.take(i + 1 - start).last() == c);
        if m >= cap {
            m = cap;
        } else {
            let next = m * 10 + d;
            m = if next < cap { next } else { cap };
        }
        i = i + 1;
    }
    assert(body.take(v.len() - start) =~= body);
    Some(m)
}

/// `str::parse::<i64>`, as `parse_i64_spec` describes it.
pub fn parse_i64(s: &str) -> (r: Option<i64>)
    ensures
        r == parse_i64_spec(s@),
{
    let v = chars_of(s);
    let n = v.len();
    let negative = n > 0 && v[0] == '-';
    let start: usize = if n > 0 && (v[0] == '+' || v[0] == '-') {
        1
    } else {
        0
    };
    assert(unsigned_part(s@) =~= v@.skip(start as int));
    if start >= n {
        return None;
    }
    let cap: u128 = 0x8000_0000_0000_0001;
    match saturated_digits(&v, start, cap) {
        None => None,
        Some(m) => {
            if negative {
                if m > 0x8000_0000_0000_0000 {
                    None
                } else {
                    let x: i128 = 0i128 - (m as i128);
                    Some(x as i64)
                }
            } else {
                if m > 0x7fff_ffff_ffff_ffff {
                    None
                } else {
                    Some(m as i64)
                }
            }
        },
    }
}

/// `str::parse::<bool>`, as `parse_bool_spec` describes it.
pub fn parse_bool(s: &str) -> (r: Option<bool>)
    ensures
        r == parse_bool_spec(s@),
{
    let v = chars_of(s);
    if v.len() == 4 && v[0] == 't' && v[1] == 'r' && v[2] == 'u' && v[3] == 'e' {
        assert(v@ =~= seq!['t', 'r', 'u', 'e']);
        Some(true)
    } else if v.len() == 5 && v[0] == 'f' && v[1] == 'a' && v[2] == 'l' && v[3] == 's' && v[4]
        == 'e' {
        assert(v@ =~= seq!['f', 'a', 'l', 's', 'e']);
        Some(false)
    } else {
        assert(v@ != seq!['t', 'r', 'u', 'e']) by {
            if v@ == seq!['t', 'r', 'u', 'e'] {
                assert(v@[0] == 't' && v@[1] == 'r' && v@[2] == 'u' && v@[3] == 'e');
            }
        }
        assert(v@ != seq!['f', 'a', 'l', 's', 'e']) by {
            if v@ == seq!['f', 'a', 'l', 's', 'e'] {
                assert(v@[0] == 'f' && v@[1] == 'a' && v@[2] == 'l' && v@[3] == 's' && v@[4]
                    == 'e');
            }
        }
        None
    }
}


proof fn lemma_exp_index(t: Seq<char>, i: int)
    requires
        0 <= i <= t.len(),
        forall|j: int| 0 <= j < i ==> !is_exp_marker(#[trigger] t[j]),
    ensures
        exp_index(t) == i + exp_index(t.skip(i)),
    decreases i,
{
    if i > 0 {
        let rest = t.drop_first();
        assert forall|j: int| 0 <= j < i - 1 implies !is_exp_marker(#[trigger] rest[j]) by {
            assert(rest[j] == t[j + 1]);
        }
        lemma_exp_index(rest, i - 1);
        assert(rest.skip(i - 1) =~= t.skip(i));
    } else {
        assert(t.skip(0) =~= t);
    }
}

/// `c` is the lower-case letter `w` or its upper-case form.
fn char_is(c: char, w: char) -> (r: bool)
    ensures
        r == (c == w || c == ascii_upper(w)),
{
    let upper = if w == 'a' {
        'A'
    } else if w == 'e' {
        'E'
    } else if w == 'f' {
        'F'
    } else if w == 'i' {
        'I'
    } else if w == 'n' {
        'N'
    } else if w == 't' {
        'T'
    } else if w == 'y' {
        'Y'
    } else {
        w
    };
    c == w || c == upper
}

/// The characters of `v` from `start` spell the lower-case word `w`, ignoring ASCII case.
fn word_from(v: &Vec<char>, start: usize, w: &Vec<char>) -> (r: bool)
    requires
        start <= v.len(),
    ensures
        r == equals_ignoring_case(v@.skip(start as int), w@),
{
    let ghost t = v@.skip(start as int);
    if v.len() - start != w.len() {
        return false;
    }
    let mut i: usize = 0;
    while i < w.len()
        invariant
            t == v@.skip(start as int),
            v.len() - start == w.len(),
            i <= w.len(),
            forall|j: int| 0 <= j < i ==> (#[trigger] t[j] == w@[j] || t[j] == ascii_upper(w@[j])),
        decreases w.len() - i,
    {
        if !char_is(v[start + i], w[i]) {
            assert(t[i as int] == v@[start + i]);
            return false;
        }
        i = i + 1;
    }
    true
}

/// Whether `v[from..to]` is a mantissa: digits with at most one point and at least one digit.
fn mantissa_between(v: &Vec<char>, from: usize, to: usize) -> (r: bool)
    requires
        from <= to <= v.len(),
    ensures
        r == is_mantissa(v@.subrange(from as int, to as int)),
{
    let ghost m = v@.subrange(from as int, to as int);
    let mut dots: usize = 0;
    let mut digits: usize = 0;
    let mut i: usize = from;
    while i < to
        invariant
            from <= i <= to <= v.len(),
            m == v@.subrange(from as int, to as int),
            forall|j: int| 0 <= j < i - from ==> is_digit(#[trigger] m[j]) || m[j] == '.',
            dots == dot_count(m.take(i - from)),
            digits == digit_count(m.take(i - from)),
            dots <= 1,
            digits <= i - from,
        decreases to - i,
    {
        let c = v[i];
        assert(m.take(i + 1 - from).drop_last() =~= m.take(i - from));
        assert(m[i - from] == c);
        if c == '.' {
            if dots == 1 {
                assert(dot_count(m.take(i + 1 - from)) == 2);
                proof {
                    lemma_dot_count_prefix(m, i + 1 - from, m.len() as int);
                    assert(m.take(m.len() as int) =~= m);
                }
                return false;
            }
            dots = dots + 1;
        } else if is_digit_char(c) {
            digits = digits + 1;
        } else {
            return false;
        }
        i = i + 1;
    }
    assert(m.take(to - from) =~= m);
    digits > 0
}

proof fn lemma_dot_count_prefix(m: Seq<char>, k: int, n: int)
    requires
        0 <= k <= n <= m.len(),
    ensures
        dot_count(m.take(k)) <= dot_count(m.take(n)),
    decreases n - k,
{
    if k < n {
        lemma_dot_count_prefix(m, k, n - 1);
        assert(m.take(n).drop_last() =~= m.take(n - 1));
    }
}

/// Whether `v[from..]` is an exponent: an optional sign and one or more digits.
fn exponent_from(v: &Vec<char>, from: usize) -> (r: bool)
    requires
        from <= v.len(),
    ensures
        r == is_exponent(v@.skip(from as int)),
{
    let ghost x = v@.skip(from as int);
    let start = if from < v.len() && (v[from] == '+' || v[from] == '-') {
        from + 1
    } else {
        from
    };
    assert(unsigned_part(x) =~= v@.skip(start as int));
    if start >= v.len() {
        return false;
    }
    saturated_digits(v, start, 1).is_some()
}

/// Whether the text is a float literal as `str::parse::<f64>` accepts it.
pub fn is_float_literal(s: &str) -> (r: bool)
    ensures
        r == is_float_text(s@),
{
    let v = chars_of(s);
    let start: usize = if v.len() > 0 && (v[0] == '+' || v[0] == '-') {
        1
    } else {
        0
    };
    let ghost t = unsigned_part(s@);
    assert(t =~= v@.skip(start as int));
    let inf = vec!['i', 'n', 'f'];
    let infinity = vec!['i', 'n', 'f', 'i', 'n', 'i', 't', 'y'];
    let nan = vec!['n', 'a', 'n'];
    assert(inf@ =~= seq!['i', 'n', 'f']);
    assert(infinity@ =~= seq!['i', 'n', 'f', 'i', 'n', 'i', 't', 'y']);
    assert(nan@ =~= seq!['n', 'a', 'n']);
    if word_from(&v, start, &inf) || word_from(&v, start, &infinity) || word_from(&v, start, &nan) {
        return true;
    }
    let mut e: usize = start;
    while e < v.len() && !(v[e] == 'e' || v[e] == 'E')
        invariant
            start <= e <= v.len(),
            t == v@.skip(start as int),
            forall|j: int| 0 <= j < e - start ==> !is_exp_marker(#[trigger] t[j]),
        decreases v.len() - e,
    {
        assert(t[e - start] == v@[e as int]);
        e = e + 1;
    }
    proof {
        lemma_exp_index(t, e - start);
        if e < v.len() {
            assert(t.skip(e - start)[0] == v@[e as int]);
        }
    }
    assert(t.take(e - start) =~= v@.subrange(start as int, e as int));
    let mantissa = mantissa_between(&v, start, e);
    if !mantissa {
        return false;
    }
    if e == v.len() {
        true
    } else {
        assert(t.skip(e - start + 1) =~= v@.skip(e + 1));
        exponent_from(&v, e + 1)
    }
}

} // verus!
