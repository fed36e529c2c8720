//! Numbers written in decimal.
use crate::text::{chars_of, slice_from, slice_to};
use vstd::prelude::*;

verus! {

/// An ASCII digit.
pub open spec fn is_digit(c: char) -> bool {
    '0' <= c <= '9'
}

/// Whether the character is an ASCII digit.
fn digit(c: char) -> (r: bool)
    ensures
        r == is_digit(c),
{
    '0' <= c && c <= '9'
}

/// Every character is a digit.
pub open spec fn all_digits(s: Seq<char>) -> bool {
    forall|i: int| 0 <= i < s.len() ==> is_digit(#[trigger] s[i])
}

/// The number that the digits write.
pub open spec fn digits_value(s: Seq<char>) -> nat
    decreases s.len(),
{
    if s.len() == 0 {
        0
    } else {
        (digits_value(s.drop_last()) * 10 + (s.last() as int - '0' as int)) as nat
    }
}

/// The text without a plus sign in front.
pub open spec fn without_plus(s: Seq<char>) -> Seq<char> {
    if s.len() > 0 && s[0] == '+' {
        s.skip(1)
    } else {
        s
    }
}

/// The number, at most `max`, that `s` writes: digits, at least one, behind an optional plus sign.
pub open spec fn unsigned_value(s: Seq<char>, max: nat) -> Option<nat> {
    let d = without_plus(s);
    if d.len() > 0 && all_digits(d) && digits_value(d) <= max {
        Some(digits_value(d))
    } else {
        None
    }
}

proof fn lemma_value_of_prefix(s: Seq<char>, n: int)
    requires
        all_digits(s),
        0 <= n <= s.len(),
    ensures
        digits_value(s.take(n)) <= digits_value(s),
    decreases s.len(),
{
    if n < s.len() {
        assert(all_digits(s.drop_last()));
        lemma_value_of_prefix(s.drop_last(), n);
        assert(s.drop_last().take(n) =~= s.take(n));
        assert(is_digit(s.last()));
    } else {
        assert(s.take(n) =~= s);
    }
}

/// The number, at most `max`, that the characters write.
pub fn parse_unsigned(cs: &[char], max: u64) -> (r: Option<u64>)
    ensures
        match r {
            Some(v) => unsigned_value(cs@, max as nat) == Some(v as nat) && v <= max,
            None => unsigned_value(cs@, max as nat) is None,
        },
{
    let d: &[char] = if cs.len() > 0 && cs[0] == '+' {
        slice_from(cs, 1)
    } else {
        cs
    };
    assert(d@ == without_plus(cs@));
    if d.len() == 0 {
        return None;
    }
    let mut value: u64 = 0;
    let mut i: usize = 0;
    while i < d.len()
        invariant
            i <= d@.len(),
            d@ == without_plus(cs@),
            forall|k: int| 0 <= k < i ==> is_digit(#[trigger] d@[k]),
            value == digits_value(d@.take(i as int)),
            value <= max,
        decreases d@.len() - i,
    {
        let c: char = d[i];
        if !digit(c) {
            assert(!is_digit(d@[i as int]));
            return None;
        }
        let unit: u64 = (c as u32 - '0' as u32) as u64;
        let ghost next = d@.take(i + 1);
        assert(next.drop_last() =~= d@.take(i as int));
        assert(digits_value(next) == value * 10 + unit);
        proof {
            if all_digits(d@) {
                lemma_value_of_prefix(d@, i + 1);
            }
        }
        if unit > max || value > (max - unit) / 10 {
            return None;
        }
        value = value * 10 + unit;
        i += 1;
    }
    assert(d@.take(i as int) =~= d@);
    Some(value)
}

/// The text without a sign in front.
pub open spec fn without_sign(s: Seq<char>) -> Seq<char> {
    if s.len() > 0 && (s[0] == '+' || s[0] == '-') {
        s.skip(1)
    } else {
        s
    }
}

/// Digits, at least one, with at most one point before, among or behind them.
pub open spec fn is_mantissa(s: Seq<char>) -> bool {
    exists|d: int| is_mantissa_cut(s, d)
}

/// `d` digits, then the end or a point and digits to the end; at least one digit in all.
pub open spec fn is_mantissa_cut(s: Seq<char>, d: int) -> bool {
    &&& 0 <= d <= s.len()
    &&& all_digits(s.take(d))
    &&& if d == s.len() {
        d > 0
    } else {
        s[d] == '.' && all_digits(s.skip(d + 1)) && s.len() > 1
    }
}

/// The letter that starts an exponent.
pub open spec fn is_exponent_mark(c: char) -> bool {
    c == 'e' || c == 'E'
}

/// Nothing, or an exponent: the mark, an optional sign and digits, at least one.
pub open spec fn is_exponent(s: Seq<char>) -> bool {
    s.len() > 0 ==> {
        &&& is_exponent_mark(s[0])
        &&& without_sign(s.skip(1)).len() > 0
        &&& all_digits(without_sign(s.skip(1)))
    }
}

/// `k` characters of mantissa, then the exponent.
pub open spec fn is_number_cut(s: Seq<char>, k: int) -> bool {
    0 <= k <= s.len() && is_mantissa(s.take(k)) && is_exponent(s.skip(k))
}

/// A mantissa and, optionally, an exponent.
pub open spec fn is_number(s: Seq<char>) -> bool {
    exists|k: int| is_number_cut(s, k)
}

/// The lower case of an ASCII letter; any other character as it is.
pub open spec fn ascii_lower(c: char) -> char {
    if 'A' <= c <= 'Z' {
        (c as u32 + 32) as char
    } else {
        c
    }
}

/// `s` is `word`, whatever the case of its ASCII letters.
pub open spec fn is_word(s: Seq<char>, word: Seq<char>) -> bool {
    s.len() == word.len() && forall|i: int| 0 <= i < s.len() ==> ascii_lower(#[trigger] s[i]) == word[i]
}

/// A floating-point literal: an optional sign, then a number, an infinity or a not-a-number.
pub open spec fn is_float(s: Seq<char>) -> bool {
    let u = without_sign(s);
    ||| is_number(u)
    ||| is_word(u, "inf"@)
    ||| is_word(u, "infinity"@)
    ||| is_word(u, "nan"@)
}

/// Whether every character is a digit.
fn only_digits(cs: &[char]) -> (r: bool)
    ensures
        r == all_digits(cs@),
{
    let mut i: usize = 0;
    while i < cs.len()
        invariant
            i <= cs@.len(),
            forall|k: int| 0 <= k < i ==> is_digit(#[trigger] cs@[k]),
        decreases cs@.len() - i,
    {
        if !digit(cs[i]) {
            assert(!is_digit(cs@[i as int]));
            return false;
        }
        i += 1;
    }
    true
}

/// The characters without a sign in front.
fn skip_sign<'a>(cs: &'a [char]) -> (r: &'a [char])
    ensures
        r@ == without_sign(cs@),
{
    if cs.len() > 0 && (cs[0] == '+' || cs[0] == '-') {
        slice_from(cs, 1)
    } else {
        cs
    }
}

/// Whether the characters are a mantissa.
fn mantissa(cs: &[char]) -> (r: bool)
    ensures
        r == is_mantissa(cs@),
{
    let mut d: usize = 0;
    while d < cs.len() && digit(cs[d])
        invariant
            d <= cs@.len(),
            forall|k: int| 0 <= k < d ==> is_digit(#[trigger] cs@[k]),
        decreases cs@.len() - d,
    {
        d += 1;
    }
    let r = if d == cs.len() {
        d > 0
    } else {
        cs[d] == '.' && only_digits(slice_from(cs, d + 1)) && cs.len() > 1
    };
    proof {
        assert(all_digits(cs@.take(d as int)));
        assert(r == is_mantissa_cut(cs@, d as int));
        if is_mantissa(cs@) {
            let e = choose|e: int| is_mantissa_cut(cs@, e);
            // Only digits stand in front of the cut, and none at it.
            if d < e {
                assert(cs@.take(e)[d as int] == cs@[d as int]);
                assert(is_digit(cs@.take(e)[d as int]));
            }
            if e < d {
                assert(is_digit(cs@[e]));
            }
            assert(e == d);
        }
    }
    r
}

/// Whether the characters are nothing or an exponent.
fn exponent(cs: &[char]) -> (r: bool)
    ensures
        r == is_exponent(cs@),
{
    if cs.len() == 0 {
        return true;
    }
    if cs[0] != 'e' && cs[0] != 'E' {
        return false;
    }
    let d = skip_sign(slice_from(cs, 1));
    d.len() > 0 && only_digits(d)
}

proof fn lemma_mantissa_has_no_mark(s: Seq<char>)
    requires
        is_mantissa(s),
    ensures
        forall|i: int| 0 <= i < s.len() ==> !is_exponent_mark(#[trigger] s[i]),
{
    let d = choose|d: int| is_mantissa_cut(s, d);
    assert forall|i: int| 0 <= i < s.len() implies !is_exponent_mark(#[trigger] s[i]) by {
        if i < d {
            assert(is_digit(s.take(d)[i]));
        } else if i > d {
            assert(is_digit(s.skip(d + 1)[i - d - 1]));
        }
    }
}

/// Whether the characters are a number.
fn number(cs: &[char]) -> (r: bool)
    ensures
        r == is_number(cs@),
{
    let mut k: usize = 0;
    while k < cs.len() && cs[k] != 'e' && cs[k] != 'E'
        invariant
            k <= cs@.len(),
            forall|i: int| 0 <= i < k ==> !is_exponent_mark(#[trigger] cs@[i]),
        decreases cs@.len() - k,
    {
        k += 1;
    }
    let r = mantissa(slice_to(cs, k)) && exponent(slice_from(cs, k));
    proof {
        assert(r == is_number_cut(cs@, k as int));
        if is_number(cs@) {
            let m = choose|m: int| is_number_cut(cs@, m);
            lemma_mantissa_has_no_mark(cs@.take(m));
            // No mark stands in front of the cut, and one stands at it.
            if k < m {
                assert(!is_exponent_mark(cs@.take(m)[k as int]));
            }
            if m < k {
                assert(cs@.skip(m)[0] == cs@[m]);
                assert(!is_exponent_mark(cs@[m]));
            }
            assert(m == k);
        }
    }
    r
}

/// Whether the characters are the word, whatever their case.
fn word(cs: &[char], w: &str) -> (r: bool)
    ensures
        r == is_word(cs@, w@),
{
    let t = chars_of(w);
    if cs.len() != t.len() {
        return false;
    }
    let mut i: usize = 0;
    while i < cs.len()
        invariant
            i <= cs@.len(),
            cs@.len() == t@.len(),
            t@ == w@,
            forall|k: int| 0 <= k < i ==> ascii_lower(#[trigger] cs@[k]) == t@[k],
        decreases cs@.len() - i,
    {
        let c: char = cs[i];
        let low: char = if 'A' <= c && c <= 'Z' {
            ((c as u8) + 32) as char
        } else {
            c
        };
        assert(low == ascii_lower(cs@[i as int]));
        if low != t[i] {
            return false;
        }
        i += 1;
    }
    true
}

/// Whether the characters are a floating-point literal.
pub fn is_float_text(cs: &[char]) -> (r: bool)
    ensures
        r == is_float(cs@),
{
    let u = skip_sign(cs);
    number(u) || word(u, "inf") || word(u, "infinity") || word(u, "nan")
}

/// The digit for a number below ten.
pub open spec fn digit_for(n: nat) -> char {
    seq!['0', '1', '2', '3', '4', '5', '6', '7', '8', '9'][n as int]
}

/// The number in decimal, without zeros in front.
pub open spec fn decimal(n: nat) -> Seq<char>
    decreases n,
{
    if n < 10 {
        seq![digit_for(n)]
    } else {
        decimal(n / 10).push(digit_for(n % 10))
    }
}

proof fn lemma_digit_for(n: nat)
    requires
        n < 10,
    ensures
        is_digit(digit_for(n)),
        digit_for(n) as int - '0' as int == n,
{
}

proof fn lemma_decimal(n: nat)
    ensures
        decimal(n).len() > 0,
        all_digits(decimal(n)),
        digits_value(decimal(n)) == n,
    decreases n,
{
    if n < 10 {
        lemma_digit_for(n);
        assert(decimal(n).drop_last() =~= seq![]);
        assert(digits_value(decimal(n).drop_last()) == 0);
    } else {
        lemma_digit_for(n % 10);
        lemma_decimal(n / 10);
        assert(decimal(n).drop_last() =~= decimal(n / 10));
    }
}

/// A number written in decimal is read back, with a plus sign in front or without, exactly where it
/// is not beyond the limit.
pub proof fn law_decimal_is_read_back(n: nat, max: nat)
    ensures
        unsigned_value(decimal(n), max) == if n <= max {
            Some(n)
        } else {
            None
        },
        unsigned_value(seq!['+'] + decimal(n), max) == unsigned_value(decimal(n), max),
{
    lemma_decimal(n);
    assert(is_digit(decimal(n)[0]));
    assert((seq!['+'] + decimal(n)).skip(1) =~= decimal(n));
}

proof fn lemma_zero_in_front(s: Seq<char>)
    ensures
        digits_value(seq!['0'] + s) == digits_value(s),
    decreases s.len(),
{
    let whole = seq!['0'] + s;
    if s.len() == 0 {
        assert(whole.drop_last() =~= s);
    } else {
        assert(whole.drop_last() =~= seq!['0'] + s.drop_last());
        lemma_zero_in_front(s.drop_last());
    }
}

/// A zero in front of the digits makes no difference.
pub proof fn law_zeros_in_front_count_for_nothing(s: Seq<char>, max: nat)
    requires
        s.len() > 0,
        s[0] != '+',
    ensures
        unsigned_value(seq!['0'] + s, max) == unsigned_value(s, max),
{
    let whole = seq!['0'] + s;
    lemma_zero_in_front(s);
    if all_digits(s) {
        assert forall|i: int| 0 <= i < whole.len() implies is_digit(#[trigger] whole[i]) by {
            if i > 0 {
                assert(whole[i] == s[i - 1]);
            }
        }
    }
    if all_digits(whole) {
        assert forall|i: int| 0 <= i < s.len() implies is_digit(#[trigger] s[i]) by {
            assert(whole[i + 1] == s[i]);
        }
    }
}

/// Only digits write a number, and at least one: a text with anything else in it, but for one plus
/// sign in front, writes none.
pub proof fn law_only_digits_write_a_number(s: Seq<char>, max: nat, i: int)
    requires
        0 <= i < s.len(),
        !('0' <= s[i] <= '9'),
        s[i] != '+' || i > 0 || s.len() == 1,
    ensures
        unsigned_value(s, max) is None,
        unsigned_value(Seq::<char>::empty(), max) is None,
{
    let d = without_plus(s);
    if s[0] == '+' {
        if i > 0 {
            assert(d[i - 1] == s[i]);
            assert(!is_digit(d[i - 1]));
        }
    } else {
        assert(!is_digit(d[i]));
    }
}

proof fn lemma_mantissa(whole: Seq<char>, part: Seq<char>)
    requires
        all_digits(whole),
        all_digits(part),
        whole.len() + part.len() > 0,
    ensures
        whole.len() > 0 ==> is_mantissa(whole),
        is_mantissa(whole + seq!['.'] + part),
{
    if whole.len() > 0 {
        assert(whole.take(whole.len() as int) =~= whole);
        assert(is_mantissa_cut(whole, whole.len() as int));
    }
    let s = whole + seq!['.'] + part;
    assert(s.take(whole.len() as int) =~= whole);
    assert(s.skip(whole.len() as int + 1) =~= part);
    assert(is_mantissa_cut(s, whole.len() as int));
}

/// Digits with a point before, among or behind them are a floating-point literal, with a sign or
/// without, and so are they with an exponent, with or without a sign of its own.
pub proof fn law_digits_are_a_float(
    sign: Seq<char>,
    whole: Seq<char>,
    part: Seq<char>,
    mark: char,
    exponent_sign: Seq<char>,
    power: Seq<char>,
)
    requires
        sign.len() == 0 || sign == seq!['+'] || sign == seq!['-'],
        exponent_sign.len() == 0 || exponent_sign == seq!['+'] || exponent_sign == seq!['-'],
        forall|i: int| 0 <= i < whole.len() ==> '0' <= #[trigger] whole[i] <= '9',
        forall|i: int| 0 <= i < part.len() ==> '0' <= #[trigger] part[i] <= '9',
        forall|i: int| 0 <= i < power.len() ==> '0' <= #[trigger] power[i] <= '9',
        whole.len() + part.len() > 0,
        mark == 'e' || mark == 'E',
        power.len() > 0,
    ensures
        whole.len() > 0 ==> is_float(sign + whole),
        is_float(sign + (whole + seq!['.'] + part)),
        whole.len() > 0 ==> is_float(sign + (whole + (seq![mark] + exponent_sign + power))),
        is_float(sign + (whole + seq!['.'] + part + (seq![mark] + exponent_sign + power))),
{
    lemma_mantissa(whole, part);
    let none = Seq::<char>::empty();
    let pointed = whole + seq!['.'] + part;
    let exponent = seq![mark] + exponent_sign + power;
    assert(exponent.skip(1) =~= exponent_sign + power);
    assert(without_sign(exponent_sign + power) =~= power) by {
        assert(is_digit(power[0]));
        if exponent_sign.len() == 0 {
            assert(exponent_sign + power =~= power);
        } else {
            assert((exponent_sign + power).skip(1) =~= power);
        }
    }
    assert(is_exponent(exponent));
    assert(pointed[0] == if whole.len() > 0 {
        whole[0]
    } else {
        '.'
    });
    lemma_signed_number(sign, pointed, none);
    lemma_signed_number(sign, pointed, exponent);
    assert(pointed + none =~= pointed);
    if whole.len() > 0 {
        assert(is_digit(whole[0]));
        lemma_signed_number(sign, whole, none);
        lemma_signed_number(sign, whole, exponent);
        assert(whole + none =~= whole);
    }
}

proof fn lemma_signed_number(sign: Seq<char>, mantissa: Seq<char>, exponent: Seq<char>)
    requires
        sign.len() == 0 || sign == seq!['+'] || sign == seq!['-'],
        is_mantissa(mantissa),
        is_exponent(exponent),
        mantissa.len() > 0,
        mantissa[0] != '+' && mantissa[0] != '-',
    ensures
        is_float(sign + (mantissa + exponent)),
{
    let u = mantissa + exponent;
    let s = sign + u;
    assert(u.take(mantissa.len() as int) =~= mantissa);
    assert(u.skip(mantissa.len() as int) =~= exponent);
    assert(is_number_cut(u, mantissa.len() as int));
    if sign.len() == 0 {
        assert(s =~= u);
    } else {
        assert(s.skip(1) =~= u);
    }
}

/// The word is spelled with these letters, each of them small or capital.
pub open spec fn is_spelled(s: Seq<char>, small: Seq<char>, capital: Seq<char>) -> bool {
    &&& s.len() == small.len() == capital.len()
    &&& forall|i: int| 0 <= i < s.len() ==> #[trigger] s[i] == small[i] || s[i] == capital[i]
}

/// Infinity and not-a-number may be spelled with small and capital letters, and not otherwise.
pub proof fn law_float_words(s: Seq<char>)
    ensures
        is_spelled(s, "inf"@, "INF"@) ==> is_float(s),
        is_spelled(s, "infinity"@, "INFINITY"@) ==> is_float(s),
        is_spelled(s, "nan"@, "NAN"@) ==> is_float(s),
        is_word(s, "inf"@) ==> is_spelled(s, "inf"@, "INF"@),
        is_word(s, "infinity"@) ==> is_spelled(s, "infinity"@, "INFINITY"@),
        is_word(s, "nan"@) ==> is_spelled(s, "nan"@, "NAN"@),
{
    reveal_strlit("inf");
    reveal_strlit("INF");
    reveal_strlit("infinity");
    reveal_strlit("INFINITY");
    reveal_strlit("nan");
    reveal_strlit("NAN");
}

/// A floating-point literal has a digit in it, or is an infinity or a not-a-number by name; and
/// where it has a digit, there is nothing in it but digits, signs, points and exponent marks.
pub proof fn law_float_is_made_of_digits(s: Seq<char>)
    requires
        is_float(s),
    ensures
        ({
            let u = if s.len() > 0 && (s[0] == '+' || s[0] == '-') {
                s.skip(1)
            } else {
                s
            };
            ||| is_spelled(u, "inf"@, "INF"@)
            ||| is_spelled(u, "infinity"@, "INFINITY"@)
            ||| is_spelled(u, "nan"@, "NAN"@)
            ||| {
                &&& exists|i: int| 0 <= i < s.len() && '0' <= #[trigger] s[i] <= '9'
                &&& forall|i: int|
                    0 <= i < s.len() ==> {
                        ||| '0' <= #[trigger] s[i] <= '9'
                        ||| s[i] == '+' || s[i] == '-' || s[i] == '.'
                        ||| s[i] == 'e' || s[i] == 'E'
                    }
            }
        }),
{
    let u = without_sign(s);
    law_float_words(u);
    let shift = s.len() - u.len();
    assert forall|i: int| 0 <= i < u.len() implies #[trigger] u[i] == s[i + shift] by {}
    if is_number(u) {
        let k = choose|k: int| is_number_cut(u, k);
        let m = u.take(k);
        let e = u.skip(k);
        let d = choose|d: int| is_mantissa_cut(m, d);
        if d > 0 {
            assert(is_digit(m.take(d)[0]));
            assert(is_digit(u[0]));
            assert(is_digit(s[shift]));
        } else {
            assert(is_digit(m.skip(1)[0]));
            assert(is_digit(u[1]));
            assert(is_digit(s[1 + shift]));
        }
        assert forall|i: int| 0 <= i < s.len() implies {
            ||| '0' <= #[trigger] s[i] <= '9'
            ||| s[i] == '+' || s[i] == '-' || s[i] == '.'
            ||| s[i] == 'e' || s[i] == 'E'
        } by {
            let j = i - shift;
            if j >= 0 {
                assert(u[j] == s[i]);
                if j < d {
                    assert(is_digit(m.take(d)[j]));
                } else if j < k {
                    assert(m[j] == u[j]);
                    if j > d {
                        assert(is_digit(m.skip(d + 1)[j - d - 1]));
                    }
                } else {
                    assert(e[j - k] == u[j]);
                    if j > k {
                        let tail = e.skip(1);
                        let power = without_sign(tail);
                        assert(tail[j - k - 1] == u[j]);
                        let cut = tail.len() - power.len();
                        if j - k - 1 >= cut {
                            assert(power[j - k - 1 - cut] == u[j]);
                            assert(is_digit(power[j - k - 1 - cut]));
                        }
                    }
                }
            }
        }
    }
}

} // verus!
