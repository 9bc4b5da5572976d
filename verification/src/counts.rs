//! Token counts. They use decimal units, not binary byte units.
use crate::text::{self, decimal, digit_value, digits_value, is_digit};
use vstd::arithmetic::power::{lemma_pow0, lemma_pow_adds, lemma_pow_positive, pow};
use vstd::arithmetic::power2::{lemma2_to64, lemma2_to64_rest, lemma_pow2_adds, lemma_pow2_pos, lemma_pow2_strictly_increases, lemma_pow2_unfold, pow2};
use vstd::prelude::*;
use vstd::string::StringExecFns;

verus! {

/// What the unit `c` stands for, in either case; `g` is read as `b`.
pub open spec fn unit(c: char) -> Option<nat> {
    if c == 'k' || c == 'K' {
        Some(1_000)
    } else if c == 'm' || c == 'M' {
        Some(1_000_000)
    } else if c == 'b' || c == 'B' || c == 'g' || c == 'G' {
        Some(1_000_000_000)
    } else if c == 't' || c == 'T' {
        Some(1_000_000_000_000)
    } else if c == 'p' || c == 'P' {
        Some(1_000_000_000_000_000)
    } else if c == 'e' || c == 'E' {
        Some(1_000_000_000_000_000_000)
    } else {
        None
    }
}

/// Whether `s` is made of ASCII digits, at least one.
pub open spec fn all_digits(s: Seq<char>) -> bool {
    s.len() > 0 && forall|k: int| 0 <= k < s.len() ==> is_digit(#[trigger] s[k])
}

/// The whole number that `s` spells: digits, perhaps behind a plus sign.
pub open spec fn whole(s: Seq<char>) -> Option<nat> {
    let digits = if s.len() > 0 && s[0] == '+' {
        s.skip(1)
    } else {
        s
    };
    if all_digits(digits) {
        Some(digits_value(digits))
    } else {
        None
    }
}

/// The count of `number` in units of `scale`. A fraction needs a unit, and must
/// come to a whole count: nothing is rounded.
pub open spec fn scaled(number: Seq<char>, scale: nat) -> Option<nat> {
    let point = text::first(number, '.');
    if point == number.len() {
        match whole(number) {
            Some(n) => Some(n * scale),
            None => None,
        }
    } else {
        let before = number.take(point);
        let fraction = number.skip(point + 1);
        let n = if before.len() == 0 {
            Some(0nat)
        } else {
            whole(before)
        };
        let tenths = pow(10, fraction.len());
        if scale > 1 && all_digits(fraction) && n is Some {
            let parts = (n->0 * tenths + digits_value(fraction)) * scale;
            if parts % tenths == 0 {
                Some((parts / tenths) as nat)
            } else {
                None
            }
        } else {
            None
        }
    }
}

/// The count that `s` spells.
pub open spec fn count_of(s: Seq<char>) -> Option<nat> {
    if s.len() == 0 {
        None
    } else {
        match unit(s.last()) {
            Some(scale) => scaled(s.drop_last(), scale),
            None => scaled(s, 1),
        }
    }
}

/// The count that `s` spells, where it is one: above zero, and no larger than
/// can be held.
pub open spec fn valid_count(s: Seq<char>) -> Option<u64> {
    match count_of(s) {
        Some(n) => if 0 < n <= u64::MAX {
            Some(n as u64)
        } else {
            None
        },
        None => None,
    }
}

fn scale_of(c: char) -> (r: Option<(u64, u32)>)
    ensures
        r is Some <==> unit(c) is Some,
        r matches Some((scale, power)) ==> unit(c) == Some(scale as nat) && scale == pow(10, power as nat) && 0 < power
            <= 18,
{
    proof {
        lemma_thousands();
    }
    if c == 'k' || c == 'K' {
        Some((1_000, 3))
    } else if c == 'm' || c == 'M' {
        Some((1_000_000, 6))
    } else if c == 'b' || c == 'B' || c == 'g' || c == 'G' {
        Some((1_000_000_000, 9))
    } else if c == 't' || c == 'T' {
        Some((1_000_000_000_000, 12))
    } else if c == 'p' || c == 'P' {
        Some((1_000_000_000_000_000, 15))
    } else if c == 'e' || c == 'E' {
        Some((1_000_000_000_000_000_000, 18))
    } else {
        None
    }
}

proof fn lemma_thousands()
    ensures
        pow(10, 3) == 1_000,
        pow(10, 6) == 1_000_000,
        pow(10, 9) == 1_000_000_000,
        pow(10, 12) == 1_000_000_000_000,
        pow(10, 15) == 1_000_000_000_000_000,
        pow(10, 18) == 1_000_000_000_000_000_000,
{
    reveal_with_fuel(pow, 4);
    assert(pow(10, 3) == 1_000);
    lemma_pow_adds(10, 3, 3);
    lemma_pow_adds(10, 6, 3);
    lemma_pow_adds(10, 9, 3);
    lemma_pow_adds(10, 12, 3);
    lemma_pow_adds(10, 15, 3);
}

proof fn lemma_pow10_step(n: nat)
    ensures
        pow(10, n + 1) == 10 * pow(10, n),
        pow(10, n) > 0,
{
    lemma_pow_adds(10, n, 1);
    lemma_pow_positive(10, n);
    reveal_with_fuel(pow, 2);
    assert(pow(10, 1) == 10);
}

/// Digits split into a number of higher and a number of lower ones.
proof fn lemma_digits_split(s: Seq<char>, k: int)
    requires
        0 <= k <= s.len(),
    ensures
        digits_value(s) == digits_value(s.take(k)) * pow(10, (s.len() - k) as nat) + digits_value(s.skip(k)),
    decreases s.len(),
{
    if k == s.len() {
        assert(s.take(k) =~= s);
        assert(s.skip(k) =~= seq![]);
        lemma_pow0(10);
    } else {
        let t = s.drop_last();
        lemma_digits_split(t, k);
        assert(t.take(k) =~= s.take(k));
        assert(s.skip(k).drop_last() =~= t.skip(k));
        assert(s.skip(k).last() == s.last());
        lemma_pow10_step((t.len() - k) as nat);
        let a = digits_value(s.take(k)) as int;
        let p = pow(10, (t.len() - k) as nat);
        assert(a * (10 * p) == a * p * 10) by (nonlinear_arith);
    }
}

proof fn lemma_digits_bound(s: Seq<char>)
    requires
        forall|k: int| 0 <= k < s.len() ==> is_digit(#[trigger] s[k]),
    ensures
        digits_value(s) < pow(10, s.len()),
    decreases s.len(),
{
    if s.len() == 0 {
        lemma_pow0(10);
    } else {
        let t = s.drop_last();
        assert forall|k: int| 0 <= k < t.len() implies is_digit(#[trigger] t[k]) by {
            assert(t[k] == s[k]);
        }
        lemma_digits_bound(t);
        lemma_pow10_step(t.len());
        assert(is_digit(s[s.len() - 1]));
    }
}

proof fn lemma_digits_positive(s: Seq<char>, k: int)
    requires
        0 <= k < s.len(),
        digit_value(s[k]) > 0,
    ensures
        digits_value(s) > 0,
    decreases s.len(),
{
    if k < s.len() - 1 {
        assert(s.drop_last()[k] == s[k]);
        lemma_digits_positive(s.drop_last(), k);
    } else {
        assert(s.last() == s[k]);
    }
}

/// A number of digits, perhaps behind a plus sign.
pub fn read_whole(s: &[char]) -> (r: Option<u64>)
    ensures
        r matches Some(n) ==> whole(s@) == Some(n as nat),
        r is None ==> (whole(s@) matches Some(n) ==> n > u64::MAX),
{
    let start: usize = if s.len() > 0 && s[0] == '+' {
        1
    } else {
        0
    };
    let ghost digits = s@.skip(start as int);
    assert(digits =~= (if s@.len() > 0 && s@[0] == '+' {
        s@.skip(1)
    } else {
        s@
    }));
    if start == s.len() {
        return None;
    }
    let mut n: u64 = 0;
    let mut i: usize = start;
    assert(digits.take(0) =~= seq![]);
    while i < s.len()
        invariant
            start <= i <= s@.len(),
            start < s@.len(),
            digits == s@.skip(start as int),
            whole(s@) == (if all_digits(digits) {
                Some(digits_value(digits))
            } else {
                None
            }),
            n == digits_value(digits.take(i - start)),
            forall|k: int| 0 <= k < i - start ==> is_digit(#[trigger] digits[k]),
        decreases s@.len() - i,
    {
        let c = s[i];
        let ghost k = i - start;
        assert(c == digits[k]);
        if !text::digit(c) {
            return None;
        }
        let d: u64 = (c as u32 - '0' as u32) as u64;
        proof {
            assert(digits.take(k + 1).drop_last() =~= digits.take(k));
            assert(digits_value(digits.take(k + 1)) == n * 10 + d);
        }
        if n > u64::MAX / 10 || n * 10 > u64::MAX - d {
            proof {
                if all_digits(digits) {
                    lemma_digits_split(digits, k + 1);
                    lemma_pow_positive(10, (digits.len() - (k + 1)) as nat);
                    let a = digits_value(digits.take(k + 1)) as int;
                    let p = pow(10, (digits.len() - (k + 1)) as nat);
                    assert(a * p >= a) by (nonlinear_arith)
                        requires
                            a >= 0,
                            p >= 1,
                    ;
                }
            }
            return None;
        }
        n = n * 10 + d;
        i += 1;
    }
    assert(digits.take(digits.len() as int) =~= digits);
    Some(n)
}

/// The exact value of `n` and a fraction, in units of ten to the `power`.
fn add_fraction(n: u64, fraction: &[char], scale: u64, power: u32) -> (r: Option<u128>)
    requires
        all_digits(fraction@),
        scale == pow(10, power as nat),
        scale <= 1_000_000_000_000_000_000,
    ensures
        ({
            let tenths = pow(10, fraction@.len());
            let parts = (n * tenths + digits_value(fraction@)) * scale;
            match r {
                Some(v) => parts == v * tenths,
                None => parts % tenths != 0,
            }
        }),
{
    proof {
        lemma_pow0(10);
        assert(fraction@.take(0) =~= seq![]);
        assert(n * scale <= u64::MAX * 1_000_000_000_000_000_000) by (nonlinear_arith)
            requires
                n <= u64::MAX,
                scale <= 1_000_000_000_000_000_000,
        ;
        assert((n * 1 + 0) * scale == (n * scale) * 1) by (nonlinear_arith);
    }
    let mut value: u128 = n as u128 * scale as u128;
    let mut step: u64 = scale;
    let mut i: usize = 0;
    while i < fraction.len()
        invariant
            i <= fraction@.len(),
            all_digits(fraction@),
            scale == pow(10, power as nat),
            scale <= 1_000_000_000_000_000_000,
            (n * pow(10, i as nat) + digits_value(fraction@.take(i as int))) * scale == value * pow(10, i as nat),
            i <= power ==> step * pow(10, i as nat) == scale,
            i > power ==> step == 0,
            step <= scale,
            value + step <= n * scale + scale,
        decreases fraction@.len() - i,
    {
        let c = fraction[i];
        let d: u64 = (c as u32 - '0' as u32) as u64;
        let ghost p = pow(10, i as nat);
        let ghost f = digits_value(fraction@.take(i as int)) as int;
        let ghost v = value as int;
        let ghost before = step as int;
        step = step / 10;
        proof {
            lemma_pow10_step(i as nat);
            assert(fraction@.take(i + 1).drop_last() =~= fraction@.take(i as int));
            if i + 1 <= power {
                lemma_pow_adds(10, i as nat, (power - i) as nat);
                lemma_pow10_step((power - i - 1) as nat);
                let rest = pow(10, (power - i) as nat);
                assert(before == rest) by (nonlinear_arith)
                    requires
                        before * p == p * rest,
                        p > 0,
                ;
                assert(step * (10 * p) == before * p) by (nonlinear_arith)
                    requires
                        before == step * 10,
                ;
            } else if i == power {
                assert(before == 1) by (nonlinear_arith)
                    requires
                        before * p == p,
                        p > 0,
                ;
            }
            assert((n * (10 * p) + (f * 10 + d)) * scale == 10 * ((n * p + f) * scale) + d * scale)
                by (nonlinear_arith);
        }
        if step == 0 && d != 0 {
            proof {
                lemma_inexact(n as int, fraction@, power as nat, i as int);
            }
            return None;
        }
        proof {
            assert(d * step <= 9 * step) by (nonlinear_arith)
                requires
                    d <= 9,
                    step >= 0,
            ;
            assert((v + d * step) * (10 * p) == 10 * (v * p) + d * (step * (10 * p))) by (nonlinear_arith);
            if i + 1 > power {
                assert(d * scale == 0) by (nonlinear_arith)
                    requires
                        d == 0,
                ;
                assert(d * (step * (10 * p)) == 0) by (nonlinear_arith)
                    requires
                        d == 0,
                ;
            }
            assert(n * scale <= u64::MAX * 1_000_000_000_000_000_000) by (nonlinear_arith)
                requires
                    n <= u64::MAX,
                    scale <= 1_000_000_000_000_000_000,
            ;
        }
        value = value + (d * step) as u128;
        i += 1;
    }
    assert(fraction@.take(i as int) =~= fraction@);
    Some(value)
}

/// A digit below the unit leaves a part of a count.
proof fn lemma_inexact(n: int, fraction: Seq<char>, power: nat, i: int)
    requires
        n >= 0,
        all_digits(fraction),
        power <= i < fraction.len(),
        digit_value(fraction[i]) > 0,
    ensures
        ((n * pow(10, fraction.len()) + digits_value(fraction)) * pow(10, power)) % pow(10, fraction.len()) != 0,
{
    let len = fraction.len();
    let low = fraction.skip(power as int);
    let high = digits_value(fraction.take(power as int)) as int;
    let rest = digits_value(low) as int;
    let a = pow(10, power);
    let b = pow(10, (len - power) as nat);
    lemma_digits_split(fraction, power as int);
    assert forall|k: int| 0 <= k < low.len() implies is_digit(#[trigger] low[k]) by {
        assert(low[k] == fraction[k + power]);
    }
    lemma_digits_bound(low);
    assert(low[i - power] == fraction[i]);
    lemma_digits_positive(low, i - power);
    lemma_pow_adds(10, power, (len - power) as nat);
    lemma_pow_positive(10, power);
    lemma_pow_positive(10, (len - power) as nat);
    let t = pow(10, len);
    let f = high * b + rest;
    assert((n * t + f) * a == (n * a + high) * t + rest * a) by (nonlinear_arith)
        requires
            t == a * b,
            f == high * b + rest,
    ;
    assert(0 < rest * a < t) by (nonlinear_arith)
        requires
            0 < rest < b,
            a > 0,
            t == a * b,
    ;
    vstd::arithmetic::div_mod::lemma_fundamental_div_mod_converse((n * t + f) * a, t, n * a + high, rest * a);
}

/// The count that `number` spells, in units of `scale`.
fn read_scaled(number: &[char], scale: u64, power: u32) -> (r: Option<u64>)
    requires
        scale == pow(10, power as nat),
        scale <= 1_000_000_000_000_000_000,
        scale > 1 || power == 0,
    ensures
        r matches Some(v) ==> v > 0 && scaled(number@, scale as nat) == Some(v as nat),
        r is None ==> (scaled(number@, scale as nat) matches Some(v) ==> v == 0 || v > u64::MAX),
{
    let end: usize = number.len();
    proof {
        lemma_pow_positive(10, power as nat);
    }
    let value: u128 = match text::find(number, '.') {
        None => {
            match read_whole(number) {
                None => {
                    proof {
                        if let Some(n) = whole(number@) {
                            assert(n * scale >= n) by (nonlinear_arith)
                                requires
                                    scale >= 1,
                            ;
                        }
                    }
                    return None;
                },
                Some(n) => {
                    assert(n * scale <= u64::MAX * 1_000_000_000_000_000_000) by (nonlinear_arith)
                        requires
                            n <= u64::MAX,
                            scale <= 1_000_000_000_000_000_000,
                    ;
                    n as u128 * scale as u128
                },
            }
        },
        Some(point) => {
            let before = text::slice(number, 0, point);
            let fraction = text::slice(number, point + 1, end);
            let ghost tenths = pow(10, fraction@.len());
            proof {
                assert(before@ =~= number@.take(point as int));
                assert(fraction@ =~= number@.skip(point + 1));
                lemma_pow_positive(10, fraction@.len());
            }
            if scale == 1 || fraction.len() == 0 {
                return None;
            }
            let mut i: usize = 0;
            while i < fraction.len()
                invariant
                    i <= fraction@.len(),
                    fraction@ == number@.skip(point + 1),
                    text::first(number@, '.') == point,
                    point < number@.len(),
                    forall|k: int| 0 <= k < i ==> is_digit(#[trigger] fraction@[k]),
                decreases fraction@.len() - i,
            {
                if !text::digit(fraction[i]) {
                    return None;
                }
                i += 1;
            }
            let n: u64 = if before.len() == 0 {
                0
            } else {
                match read_whole(&before) {
                    Some(n) => n,
                    None => {
                        proof {
                            if let Some(n) = whole(before@) {
                                let f = digits_value(fraction@) as int;
                                let parts = (n * tenths + f) * scale;
                                assert(parts >= n * tenths) by (nonlinear_arith)
                                    requires
                                        parts == (n * tenths + f) * scale,
                                        f >= 0,
                                        n >= 0,
                                        tenths > 0,
                                        scale >= 1,
                                ;
                                vstd::arithmetic::div_mod::lemma_div_is_ordered(n * tenths, parts, tenths);
                                vstd::arithmetic::div_mod::lemma_div_by_multiple(n as int, tenths);
                            }
                        }
                        return None;
                    },
                }
            };
            match add_fraction(n, &fraction, scale, power) {
                None => return None,
                Some(v) => {
                    proof {
                        vstd::arithmetic::div_mod::lemma_div_by_multiple(v as int, tenths);
                        vstd::arithmetic::div_mod::lemma_mod_multiples_basic(v as int, tenths);
                    }
                    v
                },
            }
        },
    };
    if value > 0 && value <= u64::MAX as u128 {
        Some(value as u64)
    } else {
        None
    }
}

/// Reads a count. The reading is exact: a fraction is not rounded, and a count
/// that cannot be held is refused.
pub fn parse(text: &str) -> (r: Option<u64>)
    ensures
        r == valid_count(text@),
{
    let chars = text::chars(text);
    if chars.len() == 0 {
        return None;
    }
    match scale_of(chars[chars.len() - 1]) {
        Some((scale, power)) => {
            let number = text::slice(&chars, 0, chars.len() - 1);
            assert(number@ =~= text@.drop_last());
            read_scaled(&number, scale, power)
        },
        None => {
            proof {
                lemma_pow0(10);
            }
            read_scaled(&chars, 1, 0)
        },
    }
}

proof fn lemma_decimal(n: nat)
    ensures
        all_digits(decimal(n)),
        digits_value(decimal(n)) == n,
        forall|k: int| 0 <= k < decimal(n).len() ==> (#[trigger] decimal(n)[k]) as u32 <= '9' as u32,
    decreases n,
{
    let d = text::digit_char(n % 10);
    assert(d as u32 == '0' as u32 + n % 10);
    if n < 10 {
        assert(decimal(n).drop_last() =~= seq![]);
        assert(digits_value(decimal(n).drop_last()) == 0);
    } else {
        let high = decimal(n / 10);
        lemma_decimal(n / 10);
        assert(decimal(n).drop_last() =~= high);
        assert forall|k: int| 0 <= k < decimal(n).len() implies is_digit(#[trigger] decimal(n)[k]) by {
            if k < high.len() {
                assert(is_digit(high[k]));
            }
        }
    }
}

/// A count that is written out is read back as it is.
pub proof fn law_written_counts_are_read_back(n: u64)
    requires
        n > 0,
    ensures
        valid_count(decimal(n as nat)) == Some(n),
{
    let s = decimal(n as nat);
    lemma_decimal(n as nat);
    assert(is_digit(s[s.len() - 1]));
    assert(is_digit(s[0]));
    assert forall|k: int| 0 <= k < s.len() implies text::other_than('.')(#[trigger] s[k]) by {
        assert(is_digit(s[k]));
    }
    text::lemma_span_is(s, text::other_than('.'), s.len() as int);
}

/// `num / den` to the nearest whole number; a tie goes to the even one.
pub open spec fn nearest(num: nat, den: nat) -> nat {
    let q = num / den;
    let r = num % den;
    if 2 * r < den || (2 * r == den && q % 2 == 0) {
        q
    } else {
        q + 1
    }
}

/// Whether `num / den` with `places` binary places has at most 53 bits before
/// the point.
pub open spec fn fits(num: nat, den: nat, places: int) -> bool {
    if places >= 0 {
        num * pow2(places as nat) < pow2(53) * den
    } else {
        num < pow2(53) * den * pow2((-places) as nat)
    }
}

/// The binary places of the double that is nearest to `num / den`: as many, up
/// to `most`, as 53 bits leave.
pub open spec fn places_from(num: nat, den: nat, most: int) -> int
    decreases most + 1100,
{
    if most <= -1000 || fits(num, den, most) {
        most
    } else {
        places_from(num, den, most - 1)
    }
}

/// The binary places of the double that is nearest to `num / den`.
pub open spec fn places(num: nat, den: nat) -> int {
    places_from(num, den, 1074)
}

/// The double that is nearest to `num / den`, in units of its last binary place.
pub open spec fn mantissa(num: nat, den: nat) -> nat {
    let p = places(num, den);
    if p >= 0 {
        nearest(num * pow2(p as nat), den)
    } else {
        nearest(num, den * pow2((-p) as nat))
    }
}

/// The double that is nearest to the whole number `n`.
pub open spec fn as_double(n: nat) -> nat {
    let p = places(n, 1);
    if p >= 0 {
        n
    } else {
        mantissa(n, 1) * pow2((-p) as nat)
    }
}

/// The double that is nearest to `num / den`, in tenths, rounded to the nearest.
pub open spec fn tenths(num: nat, den: nat) -> nat {
    let p = places(num, den);
    if p >= 0 {
        nearest(10 * mantissa(num, den), pow2(p as nat))
    } else {
        10 * mantissa(num, den) * pow2((-p) as nat)
    }
}

/// A number of tenths, with one decimal.
pub open spec fn one_decimal(n: nat) -> Seq<char> {
    decimal(n / 10) + "."@ + decimal(n % 10)
}

/// The unit in which `n`, a double, is shown, and its name. The next unit is
/// taken just before rounding would show a thousand of this one.
pub open spec fn shown_unit(n: nat) -> (nat, Seq<char>) {
    if n >= 1_000_000_000_000_000_000 - 50_000_000_000_000 {
        (1_000_000_000_000_000_000, "E"@)
    } else if n >= 1_000_000_000_000_000 - 50_000_000_000 {
        (1_000_000_000_000_000, "P"@)
    } else if n >= 1_000_000_000_000 - 50_000_000 {
        (1_000_000_000_000, "T"@)
    } else if n >= 1_000_000_000 - 50_000 {
        (1_000_000_000, "B"@)
    } else if n >= 1_000_000 - 50 {
        (1_000_000, "M"@)
    } else {
        (1_000, "k"@)
    }
}

/// A count as it is shown: in full below a thousand, and else in the unit that
/// suits it, with one decimal.
pub open spec fn compact_text(n: nat) -> Seq<char> {
    if n < 1_000 {
        decimal(n)
    } else {
        one_decimal(tenths(as_double(n), shown_unit(as_double(n)).0)) + shown_unit(as_double(n)).1
    }
}

proof fn lemma_fits_less(num: nat, den: nat, p: int, q: int)
    requires
        p <= q,
        fits(num, den, q),
    ensures
        fits(num, den, p),
    decreases q - p,
{
    if p < q {
        let m = q - 1;
        if q >= 1 {
            lemma_pow2_unfold(q as nat);
            let a = pow2(m as nat) as int;
            assert(num * (2 * a) >= num * a) by (nonlinear_arith)
                requires
                    a >= 0,
                    num >= 0,
            ;
        } else if q == 0 {
            lemma2_to64();
            lemma_pow2_unfold(1);
            let l = pow2(53) * den;
            assert(l * 2 >= l);
            assert(num * pow2(0) == num) by (nonlinear_arith)
                requires
                    pow2(0) == 1,
            ;
        } else {
            lemma_pow2_unfold((-m) as nat);
            let a = pow2((-q) as nat) as int;
            let l = (pow2(53) * den) as int;
            assert(l * (2 * a) >= l * a) by (nonlinear_arith)
                requires
                    a >= 0,
                    l >= 0,
            ;
        }
        assert(fits(num, den, m));
        lemma_fits_less(num, den, p, m);
    }
}

proof fn lemma_places(num: nat, den: nat, p: int, most: int)
    requires
        -1000 < p <= most,
        fits(num, den, p),
        p < most ==> !fits(num, den, p + 1),
    ensures
        places_from(num, den, most) == p,
    decreases most - p,
{
    if p < most {
        if fits(num, den, most) {
            lemma_fits_less(num, den, p + 1, most);
        }
        lemma_places(num, den, p, most - 1);
    }
}

/// `num / den` to the nearest whole number; a tie goes to the even one.
fn round(num: u128, den: u128) -> (r: u128)
    requires
        0 < den <= u128::MAX / 2,
        num < u128::MAX,
    ensures
        r == nearest(num as nat, den as nat),
{
    let q = num / den;
    let r = num % den;
    assert(q <= num) by (nonlinear_arith)
        requires
            q == num / den,
            den >= 1,
            num >= 0,
    ;
    if 2 * r < den || (2 * r == den && q % 2 == 0) {
        q
    } else {
        q + 1
    }
}

/// A double: a whole number of units, which are a power of two. `fine` holds
/// where a unit is at most one, `scale` of them making one; otherwise `scale`
/// is the unit.
struct Double {
    mantissa: u128,
    scale: u128,
    fine: bool,
}

/// The double that is nearest to `num / den`.
fn divide(num: u128, den: u128) -> (r: Double)
    requires
        0 < num < 0x1_0000_0000_0000_0000_00,
        0 < den <= 0x2_0000_0000_0000_0000,
    ensures
        r.fine == (places(num as nat, den as nat) >= 0),
        r.mantissa == mantissa(num as nat, den as nat),
        r.fine ==> r.scale == pow2(places(num as nat, den as nat) as nat) && r.scale
            < 0x40_0000_0000_0000_0000_0000_0000_0000,
        !r.fine ==> r.scale == pow2((-places(num as nat, den as nat)) as nat) && r.scale <= 0x100_0000,
        r.mantissa <= 0x20_0000_0000_0000,
        !r.fine ==> r.mantissa >= 1 && r.mantissa * r.scale <= num + r.scale,
{
    let limit: u128 = 0x20_0000_0000_0000 * den;
    let ghost n = num as nat;
    let ghost d = den as nat;
    proof {
        lemma2_to64();
        lemma2_to64_rest();
        lemma_pow2_adds(64, 54);
        assert(pow2(118) == 0x40_0000_0000_0000_0000_0000_0000_0000);
    }
    let mut scale: u128 = 1;
    let ghost mut p: nat = 0;
    if num < limit {
        let mut shifted: u128 = num;
        assert(n * pow2(0) == n) by (nonlinear_arith)
            requires
                pow2(0) == 1,
        ;
        while shifted < limit - shifted
            invariant
                num > 0,
                n == num,
                limit == pow2(53) * d,
                limit <= 0x40_0000_0000_0000_0000_0000_0000_0000,
                shifted == n * pow2(p),
                shifted < limit,
                scale == pow2(p),
                0 < scale <= shifted,
            decreases limit - shifted,
        {
            proof {
                lemma_pow2_unfold(p + 1);
                let a = pow2(p) as int;
                assert(n * (2 * a) == 2 * (n * a)) by (nonlinear_arith);
                p = p + 1;
            }
            shifted = shifted + shifted;
            scale = scale + scale;
        }
        proof {
            if p >= 118 {
                if p > 118 {
                    lemma_pow2_strictly_increases(118, p);
                }
                assert(false);
            }
            lemma_pow2_unfold(p + 1);
            let a = pow2(p) as int;
            assert(n * (2 * a) == 2 * (n * a)) by (nonlinear_arith);
            assert(!fits(n, d, p as int + 1));
            lemma_places(n, d, p as int, 1074);
            lemma_nearest_bound(shifted as nat, d, 0x20_0000_0000_0000);
        }
        Double { mantissa: round(shifted, den), scale, fine: true }
    } else {
        let mut reach: u128 = limit;
        assert(limit * pow2(0) == limit) by (nonlinear_arith)
            requires
                pow2(0) == 1,
        ;
        while num >= reach
            invariant
                n == num,
                0 < num < 0x1_0000_0000_0000_0000_00,
                limit == pow2(53) * d,
                limit >= 0x20_0000_0000_0000,
                num >= limit,
                reach == limit * pow2(p),
                scale == pow2(p),
                scale >= 1,
                reach > num ==> p > 0,
                p > 0 ==> reach <= 2 * num && num >= limit * pow2((p - 1) as nat),
                reach >= limit * scale,
                0 < reach <= 2 * num,
            decreases 2 * num - reach,
        {
            proof {
                lemma_pow2_unfold(p + 1);
                let a = pow2(p) as int;
                assert(limit * (2 * a) == 2 * (limit * a)) by (nonlinear_arith);
                p = p + 1;
            }
            proof {
                lemma_scale_bound(limit as int, scale as int, reach as int);
            }
            reach = reach + reach;
            scale = scale + scale;
        }
        proof {
            lemma_scale_bound(limit as int, scale as int, reach as int);
            assert(pow2(53) * d * pow2(p) == reach);
            assert(fits(n, d, -(p as int)));
            if p > 100 {
                lemma_pow2_strictly_increases(64, p);
                assert(false);
            }
            if p == 1 {
                assert(n * pow2(0) == n) by (nonlinear_arith)
                    requires
                        pow2(0) == 1,
                ;
                assert(!fits(n, d, 0));
            } else {
                assert(!fits(n, d, -(p as int) + 1));
            }
            lemma_places(n, d, -(p as int), 1074);
            let wide = den * scale;
            assert(0x20_0000_0000_0000 * wide == reach) by (nonlinear_arith)
                requires
                    wide == den * scale,
                    limit == 0x20_0000_0000_0000 * den,
                    reach == limit * scale,
            ;
            lemma_nearest_bound(n, wide as nat, 0x20_0000_0000_0000);
            lemma_nearest_near(n, wide as nat);
            assert(n / (wide as nat) >= 1) by (nonlinear_arith)
                requires
                    n >= wide,
                    wide > 0,
            ;
            let m = nearest(n, wide as nat) as int;
            assert(m * scale <= num + scale) by (nonlinear_arith)
                requires
                    m * wide <= num + wide,
                    wide == den * scale,
                    den >= 1,
                    scale >= 1,
                    m >= 1 || m == 0,
                    num >= 0,
            ;
        }
        Double { mantissa: round(num, den * scale), scale, fine: false }
    }
}

proof fn lemma_scale_bound(limit: int, scale: int, reach: int)
    requires
        limit >= 0x20_0000_0000_0000,
        scale >= 1,
        reach >= limit * scale,
        reach <= 2 * 0x1_0000_0000_0000_0000_00,
    ensures
        scale <= 0x100_0000,
{
    assert(scale * 0x20_0000_0000_0000 <= limit * scale) by (nonlinear_arith)
        requires
            limit >= 0x20_0000_0000_0000,
            scale >= 1,
    ;
}

proof fn lemma_nearest_bound(num: nat, den: nat, bound: nat)
    requires
        den > 0,
        num < bound * den,
    ensures
        nearest(num, den) <= bound,
{
    assert(num / den < bound) by (nonlinear_arith)
        requires
            num < bound * den,
            den > 0,
    ;
}

proof fn lemma_nearest_near(num: nat, den: nat)
    requires
        den > 0,
    ensures
        nearest(num, den) * den <= num + den,
{
    let q = num / den;
    assert(q * den <= num) by (nonlinear_arith)
        requires
            q == num / den,
            den > 0,
    ;
    assert((q + 1) * den == q * den + den) by (nonlinear_arith);
}

/// The double that is nearest to the whole number `n`.
fn to_double(n: u128) -> (r: u128)
    requires
        n <= 0x7f_0000_0000_0000_0000,
    ensures
        r == as_double(n as nat),
        r <= n + 0x100_0000,
        n > 0 ==> r > 0,
{
    if n == 0 {
        proof {
            lemma_pow2_pos(53);
            assert(fits(0, 1, 1074));
        }
        return 0;
    }
    let d = divide(n, 1);
    if d.fine {
        n
    } else {
        proof {
            lemma_pow2_pos((-places(n as nat, 1)) as nat);
            assert(d.mantissa * d.scale >= 1) by (nonlinear_arith)
                requires
                    d.mantissa >= 1,
                    d.scale >= 1,
            ;
        }
        d.mantissa * d.scale
    }
}

proof fn lemma_nearest_zero(den: nat)
    requires
        den > 0,
    ensures
        nearest(0, den) == 0,
{
    assert(0nat / den == 0 && 0nat % den == 0) by (nonlinear_arith)
        requires
            den > 0,
    ;
}

/// The tenths of `num / den`.
fn to_tenths(num: u128, den: u128) -> (r: u128)
    requires
        num < 0x1_0000_0000_0000_0000_00,
        0 < den <= 0x2_0000_0000_0000_0000,
    ensures
        r == tenths(num as nat, den as nat),
{
    if num == 0 {
        proof {
            lemma_pow2_pos(53);
            lemma_pow2_pos(1074);
            assert(pow2(53) * den > 0) by (nonlinear_arith)
                requires
                    pow2(53) > 0,
                    den > 0,
            ;
            assert(0nat * pow2(1074) == 0) by (nonlinear_arith);
            assert(fits(0, den as nat, 1074));
            lemma_nearest_zero(den as nat);
            lemma_nearest_zero(pow2(1074));
        }
        return 0;
    }
    let d = divide(num, den);
    proof {
        if d.fine {
            lemma_pow2_pos(places(num as nat, den as nat) as nat);
        } else {
            assert(10 * d.mantissa * d.scale <= 10 * 0x20_0000_0000_0000 * 0x100_0000) by (nonlinear_arith)
                requires
                    d.mantissa <= 0x20_0000_0000_0000,
                    d.scale <= 0x100_0000,
            ;
        }
    }
    if d.fine {
        round(10 * d.mantissa, d.scale)
    } else {
        10 * d.mantissa * d.scale
    }
}

/// A number of tenths, with one decimal.
fn with_decimal(n: u128) -> (r: String)
    ensures
        r@ == one_decimal(n as nat),
{
    let mut out = text::cat(&text::string(&text::number(n / 10)), ".");
    out.append(&text::string(&text::number(n % 10)));
    out
}

/// A count as it is shown.
pub fn compact(n: u64) -> (r: String)
    ensures
        r@ == compact_text(n as nat),
{
    if n < 1_000 {
        return text::digits(n);
    }
    let double = to_double(n as u128);
    let (scale, name) = if double >= 1_000_000_000_000_000_000 - 50_000_000_000_000 {
        (1_000_000_000_000_000_000u128, "E")
    } else if double >= 1_000_000_000_000_000 - 50_000_000_000 {
        (1_000_000_000_000_000u128, "P")
    } else if double >= 1_000_000_000_000 - 50_000_000 {
        (1_000_000_000_000u128, "T")
    } else if double >= 1_000_000_000 - 50_000 {
        (1_000_000_000u128, "B")
    } else if double >= 1_000_000 - 50 {
        (1_000_000u128, "M")
    } else {
        (1_000u128, "k")
    };
    text::cat(&with_decimal(to_tenths(double, scale)), name)
}

/// What part of the input was read from the cache, in percent.
pub open spec fn percent_text(cached: nat, input: nat) -> Seq<char> {
    let whole = if input > 1 {
        input
    } else {
        1
    };
    one_decimal(tenths(as_double(100 * as_double(cached)), as_double(whole))) + "%"@
}

/// What part of the input was read from the cache, in percent.
pub fn percent(cached: u64, input: u64) -> (r: String)
    ensures
        r@ == percent_text(cached as nat, input as nat),
{
    let whole: u64 = if input > 1 {
        input
    } else {
        1
    };
    let part = to_double(100 * to_double(cached as u128));
    text::cat(&with_decimal(to_tenths(part, to_double(whole as u128))), "%")
}

proof fn lemma_places_at_least(num: nat, den: nat, p: int, most: int)
    requires
        -1000 < p <= most,
        fits(num, den, p),
    ensures
        places_from(num, den, most) >= p,
    decreases most - p,
{
    if !fits(num, den, most) {
        lemma_places_at_least(num, den, p, most - 1);
    }
}

/// A quotient that is far enough below 999.95, for the places that it has, is
/// not rounded to a thousand.
proof fn lemma_below_a_thousand(num: nat, u: nat, k: nat)
    requires
        0 < u,
        20 * num + k <= 19_999 * u,
        k * 0x800_0000_0000 > 10 * u,
    ensures
        tenths(num, u) < 10_000,
{
    lemma2_to64();
    lemma2_to64_rest();
    assert(num * pow2(43) < pow2(53) * u) by (nonlinear_arith)
        requires
            pow2(43) == 0x800_0000_0000,
            pow2(53) == 0x20_0000_0000_0000,
            20 * num <= 19_999 * u,
            u > 0,
    ;
    lemma_places_at_least(num, u, 43, 1074);
    let p = places(num, u);
    let s = pow2(p as nat);
    if p > 43 {
        lemma_pow2_strictly_increases(43, p as nat);
    }
    let m = mantissa(num, u);
    lemma_nearest_half(num * s, u);
    lemma_nearest_half(10 * m, s);
    let t = nearest(10 * m, s) as int;
    if t >= 10_000 {
        assert(20 * m >= 19_999 * s) by (nonlinear_arith)
            requires
                2 * (t * s) <= 20 * m + s,
                t >= 10_000,
                s > 0,
        ;
        assert(k * s > 10 * u) by (nonlinear_arith)
            requires
                k * 0x800_0000_0000 > 10 * u,
                s >= 0x800_0000_0000,
                k >= 0,
        ;
        assert(false) by (nonlinear_arith)
            requires
                20 * m >= 19_999 * s,
                2 * (m * u) <= 2 * (num * s) + u,
                20 * num + k <= 19_999 * u,
                k * s > 10 * u,
                u > 0,
                s > 0,
        ;
    }
}

/// A whole number of up to `53 + e` bits is no further from its double than half
/// a unit of `e` bits.
proof fn lemma_as_double(n: nat, e: nat)
    requires
        n < pow2(53) * pow2(e),
        e <= 20,
    ensures
        2 * as_double(n) <= 2 * n + pow2(e),
        2 * as_double(n) + pow2(e) >= 2 * n,
        e > 0 && n >= pow2(53) * pow2((e - 1) as nat) ==> places(n, 1) == -e,
{
    lemma2_to64();
    lemma_pow2_pos(53);
    assert(n * pow2(0) == n) by (nonlinear_arith)
        requires
            pow2(0) == 1,
    ;
    assert(pow2(53) * 1 * pow2(e) == pow2(53) * pow2(e)) by (nonlinear_arith);
    assert(pow2(53) * pow2(0) == pow2(53)) by (nonlinear_arith)
        requires
            pow2(0) == 1,
    ;
    assert(fits(n, 1, -(e as int)));
    lemma_places_at_least(n, 1, -(e as int), 1074);
    if e > 0 && n >= pow2(53) * pow2((e - 1) as nat) {
        assert(pow2(53) * 1 * pow2((e - 1) as nat) == pow2(53) * pow2((e - 1) as nat)) by (nonlinear_arith);
        assert(!fits(n, 1, -(e as int) + 1));
        lemma_places(n, 1, -(e as int), 1074);
    }
    let p = places(n, 1);
    if p < 0 {
        let unit = pow2((-p) as nat);
        lemma_pow2_pos((-p) as nat);
        lemma_nearest_half(n, 1 * unit);
        if -p < e {
            lemma_pow2_strictly_increases((-p) as nat, e);
        }
    }
}

/// A count is never shown as a thousand of its unit: it is shown in the next
/// one.
pub proof fn law_a_thousand_is_one_of_the_next(n: nat)
    requires
        1_000 <= n <= u64::MAX,
    ensures
        tenths(as_double(n), shown_unit(as_double(n)).0) < 10_000,
{
    let d = as_double(n);
    let u = shown_unit(d).0;
    lemma_double_spans();
    if d < 1_000_000_000_000_000 - 50_000_000_000 {
        lemma_below_a_thousand(d, u, 20);
    } else if d < 1_000_000_000_000_000_000 - 50_000_000_000_000 {
        if n >= 0x1000_0000_0000_0000 {
            lemma_as_double(n, 11);
        } else {
            lemma_as_double(n, 7);
            if n >= 0x800_0000_0000_0000 {
                assert(1 * pow2(7) == 128);
                assert(d == nearest(n, 128) * 128);
            }
        }
        assert(d <= 999_950_000_000_000_000 - 128);
        lemma_below_a_thousand(d, u, 2_560);
    } else {
        lemma_as_double(n, 11);
        lemma_below_a_thousand(d, u, u);
    }
}

proof fn lemma_double_spans()
    ensures
        pow2(7) == 128,
        pow2(11) == 2048,
        pow2(53) * pow2(0) == 0x20_0000_0000_0000,
        pow2(53) * pow2(6) == 0x800_0000_0000_0000,
        pow2(53) * pow2(7) == 0x1000_0000_0000_0000,
        pow2(53) * pow2(11) == 0x1_0000_0000_0000_0000,
{
    lemma2_to64();
    lemma2_to64_rest();
    assert(pow2(53) * pow2(0) == 0x20_0000_0000_0000 && pow2(53) * pow2(6) == 0x800_0000_0000_0000 && pow2(53) * pow2(7)
        == 0x1000_0000_0000_0000 && pow2(53) * pow2(11) == 0x1_0000_0000_0000_0000) by (nonlinear_arith)
        requires
            pow2(53) == 0x20_0000_0000_0000,
            pow2(0) == 1,
            pow2(6) == 64,
            pow2(7) == 128,
            pow2(11) == 2048,
    ;
}

/// The tenths of a quotient are those nearest to it, where doubles are fine
/// enough to tell its neighbours apart.
proof fn lemma_tenths_near(num: nat, h: nat, e: nat)
    requires
        h > 0,
        h % 2 == 0,
        e <= 60,
        num * pow2(e) < pow2(53) * (10 * h),
        pow2(e) > 5 * h,
    ensures
        2 * num <= 2 * (tenths(num, 10 * h) * h) + h,
        2 * (tenths(num, 10 * h) * h) <= 2 * num + h,
{
    let u = 10 * h;
    assert(fits(num, u, e as int));
    lemma_places_at_least(num, u, e as int, 1074);
    let p = places(num, u);
    let s = pow2(p as nat) as int;
    if p > e {
        lemma_pow2_strictly_increases(e, p as nat);
    }
    let m = mantissa(num, u) as int;
    let n = num as int;
    lemma_pow2_pos(p as nat);
    lemma_nearest_half(num * pow2(p as nat), u);
    lemma_nearest_half(10 * mantissa(num, u), pow2(p as nat));
    let t = tenths(num, u) as int;
    let half = h as int / 2;
    if 2 * (t * h) > 2 * n + h {
        let over = t * h - n - half;
        assert(over >= 1);
        assert(false) by (nonlinear_arith)
            requires
                2 * (t * s) <= 20 * m + s,
                2 * (m * u) <= 2 * (n * s) + u,
                u == 10 * h,
                h == 2 * half,
                over == t * h - n - half,
                over >= 1,
                s > 5 * h,
                h > 0,
        ;
    }
    if 2 * n > 2 * (t * h) + h {
        let under = n - t * h - half;
        assert(under >= 1);
        assert(false) by (nonlinear_arith)
            requires
                2 * (t * s) + s >= 20 * m,
                2 * (m * u) + u >= 2 * (n * s),
                u == 10 * h,
                h == 2 * half,
                under == n - t * h - half,
                under >= 1,
                s > 5 * h,
                h > 0,
        ;
    }
}

/// A whole number of tenths is shown as it is.
proof fn lemma_tenths_exact(t: nat, h: nat)
    requires
        h > 0,
        t < 10_000,
    ensures
        tenths(t * h, 10 * h) == t,
{
    let u = 10 * h;
    let n = t * h;
    lemma2_to64();
    lemma2_to64_rest();
    assert(n * pow2(43) < pow2(53) * u) by (nonlinear_arith)
        requires
            pow2(43) == 0x800_0000_0000,
            pow2(53) == 0x20_0000_0000_0000,
            n == t * h,
            u == 10 * h,
            t < 10_000,
            h > 0,
    ;
    lemma_places_at_least(n, u, 43, 1074);
    let p = places(n, u);
    let s = pow2(p as nat) as int;
    if p > 43 {
        lemma_pow2_strictly_increases(43, p as nat);
    }
    let m = mantissa(n, u) as int;
    lemma_nearest_half(n * pow2(p as nat), u);
    assert(10 * m <= t * s + 5 && 10 * m + 5 >= t * s) by (nonlinear_arith)
        requires
            2 * (m * u) <= 2 * ((t * h) * s) + u,
            2 * (m * u) + u >= 2 * ((t * h) * s),
            u == 10 * h,
            h > 0,
    ;
    let a = 10 * m;
    assert((t - 1) * s + s == t * s) by (nonlinear_arith);
    if a >= t * s {
        vstd::arithmetic::div_mod::lemma_fundamental_div_mod_converse(a, s, t as int, a - t * s);
    } else {
        vstd::arithmetic::div_mod::lemma_fundamental_div_mod_converse(a, s, t - 1, a - (t - 1) * s);
    }
}

/// What is shown in a unit is read as the tenths of it.
proof fn lemma_shown_is_read(t: nat, u: nat, h: nat, name: Seq<char>)
    requires
        name.len() == 1,
        unit(name[0]) == Some(u),
        u == 10 * h,
        h > 0,
    ensures
        count_of(one_decimal(t) + name) == Some(t * h),
{
    reveal_strlit(".");
    let whole_part = decimal(t / 10);
    let fraction = decimal(t % 10);
    let number = one_decimal(t);
    let s = number + name;
    lemma_decimal(t / 10);
    lemma_decimal(t % 10);
    assert(s.drop_last() =~= number);
    let point = whole_part.len() as int;
    assert forall|k: int| 0 <= k < point implies text::other_than('.')(#[trigger] number[k]) by {
        assert(number[k] == whole_part[k]);
        assert(is_digit(whole_part[k]));
    }
    assert(number[point] == '.');
    text::lemma_span_is(number, text::other_than('.'), point);
    assert(number.take(point) =~= whole_part);
    assert(number.skip(point + 1) =~= fraction);
    assert(is_digit(whole_part[0]));
    assert(fraction.len() == 1);
    lemma_pow0(10);
    lemma_pow10_step(0);
    let parts = (t / 10 * 10 + t % 10) * u;
    assert(parts == (t * h) * 10) by (nonlinear_arith)
        requires
            parts == t * u,
            u == 10 * h,
    ;
}

/// The unit that a count is shown in; a count below a thousand is shown in ones.
pub open spec fn unit_shown(n: nat) -> nat {
    if n < 1_000 {
        1
    } else {
        shown_unit(as_double(n)).0
    }
}

/// What is shown of a count is read back as a count that is shown alike, and
/// that is no further from it than half a decimal. A count below a thousand is
/// read back as it is.
pub proof fn law_shown_counts_are_read_back(n: nat)
    requires
        1 <= n < 1_000_000_000_000_000,
    ensures
        n >= 1_000 ==> unit(compact_text(n).last()) == Some(unit_shown(n)),
        valid_count(compact_text(n)) matches Some(m) && compact_text(m as nat) == compact_text(n) && 20 * m <= 20 * n
            + unit_shown(n) && 20 * n <= 20 * m + unit_shown(n) && (n < 1_000 ==> m == n),
{
    if n < 1_000 {
        law_written_counts_are_read_back(n as u64);
    } else {
        lemma_double_spans();
        lemma_as_double(n, 0);
        lemma2_to64();
        lemma2_to64_rest();
        assert(as_double(n) == n);
        law_a_thousand_is_one_of_the_next(n);
        let (u, name) = shown_unit(n);
        let h = u / 10;
        reveal_strlit("k");
        reveal_strlit("M");
        reveal_strlit("B");
        reveal_strlit("T");
        reveal_strlit("P");
        let t = tenths(n, u);
        assert(pow2(43) == 0x800_0000_0000 && pow2(53) == 0x20_0000_0000_0000);
        if u == 1_000_000_000_000_000 {
            assert(n * pow2(53) < pow2(53) * (10 * h)) by (nonlinear_arith)
                requires
                    pow2(53) == 0x20_0000_0000_0000,
                    n < 10 * h,
            ;
            lemma_tenths_near(n, h, 53);
        } else {
            assert(n * pow2(43) < pow2(53) * (10 * h)) by (nonlinear_arith)
                requires
                    pow2(43) == 0x800_0000_0000,
                    pow2(53) == 0x20_0000_0000_0000,
                    n < 10_000 * h,
            ;
            lemma_tenths_near(n, h, 43);
        }
        let m = t * h;
        assert(t >= 10) by (nonlinear_arith)
            requires
                2 * n <= 2 * (t * h) + h,
                2 * n > 19 * h,
                h > 0,
        ;
        assert(10 * h <= m <= 9_999 * h) by (nonlinear_arith)
            requires
                m == t * h,
                10 <= t <= 9_999,
                h > 0,
        ;
        assert(u == 1_000_000_000_000_000 ==> m <= 20 * h);
        lemma_shown_is_read(t, u, h, name);
        lemma_as_double(m, 0);
        assert(as_double(m) == m);
        assert(shown_unit(m) == shown_unit(n));
        lemma_tenths_exact(t, h);
    }
}

proof fn lemma_nearest_half(num: nat, den: nat)
    requires
        den > 0,
    ensures
        2 * (nearest(num, den) * den) <= 2 * num + den,
        2 * (nearest(num, den) * den) + den >= 2 * num,
{
    let q = num / den;
    let r = num % den;
    assert(num == q * den + r) by (nonlinear_arith)
        requires
            q == num / den,
            r == num % den,
            den > 0,
    ;
    assert((q + 1) * den == q * den + den) by (nonlinear_arith);
}

/// Digits are read as the number that they write, times the unit behind them; a
/// plus sign before them changes nothing.
pub proof fn law_counts_are_read_in_their_unit(d: Seq<char>, c: char)
    requires
        d.len() > 0,
        forall|k: int| 0 <= k < d.len() ==> '0' <= #[trigger] d[k] && d[k] <= '9',
    ensures
        count_of(d) == Some(digits_value(d)),
        count_of(seq!['+'] + d) == Some(digits_value(d)),
        c == 'k' || c == 'K' ==> count_of(d.push(c)) == Some(digits_value(d) * 1_000),
        c == 'm' || c == 'M' ==> count_of(d.push(c)) == Some(digits_value(d) * 1_000_000),
        c == 'b' || c == 'B' || c == 'g' || c == 'G' ==> count_of(d.push(c)) == Some(digits_value(d) * 1_000_000_000),
        c == 't' || c == 'T' ==> count_of(d.push(c)) == Some(digits_value(d) * 1_000_000_000_000),
        c == 'p' || c == 'P' ==> count_of(d.push(c)) == Some(digits_value(d) * 1_000_000_000_000_000),
        c == 'e' || c == 'E' ==> count_of(d.push(c)) == Some(digits_value(d) * 1_000_000_000_000_000_000),
{
    assert forall|k: int| 0 <= k < d.len() implies is_digit(#[trigger] d[k]) && text::other_than('.')(d[k]) by {}
    text::lemma_span_is(d, text::other_than('.'), d.len() as int);
    assert(is_digit(d[d.len() - 1]));
    assert(is_digit(d[0]));
    assert(d.push(c).drop_last() =~= d);
    let p = seq!['+'] + d;
    assert forall|k: int| 0 <= k < p.len() implies text::other_than('.')(#[trigger] p[k]) by {
        if k > 0 {
            assert(p[k] == d[k - 1]);
        }
    }
    text::lemma_span_is(p, text::other_than('.'), p.len() as int);
    assert(p.skip(1) =~= d);
    assert(p.last() == d.last());
}

proof fn lemma_split_at_point(a: Seq<char>, f: Seq<char>)
    requires
        forall|k: int| 0 <= k < a.len() ==> #[trigger] a[k] != '.',
    ensures
        text::first(a.push('.') + f, '.') == a.len(),
        (a.push('.') + f).take(a.len() as int) == a,
        (a.push('.') + f).skip(a.len() as int + 1) == f,
{
    let s = a.push('.') + f;
    assert forall|k: int| 0 <= k < a.len() implies text::other_than('.')(#[trigger] s[k]) by {
        assert(s[k] == a[k]);
    }
    assert(s[a.len() as int] == '.');
    text::lemma_span_is(s, text::other_than('.'), a.len() as int);
    assert(s.take(a.len() as int) =~= a);
    assert(s.skip(a.len() as int + 1) =~= f);
}

/// A fraction is read exactly, or not at all where it does not come to a whole
/// count. It needs a unit and at least one digit behind the point; before the
/// point none is needed.
pub proof fn law_fractions_are_read_exactly(a: Seq<char>, f: Seq<char>, c: char, u: nat)
    requires
        forall|k: int| 0 <= k < a.len() ==> '0' <= #[trigger] a[k] && a[k] <= '9',
        f.len() > 0,
        forall|k: int| 0 <= k < f.len() ==> '0' <= #[trigger] f[k] && f[k] <= '9',
        unit(c) == Some(u),
    ensures
        ({
            let n = if a.len() == 0 {
                0nat
            } else {
                digits_value(a)
            };
            let parts = (n * pow(10, f.len()) + digits_value(f)) * u;
            let r = count_of((a.push('.') + f).push(c));
            &&& r is Some <==> parts % pow(10, f.len()) == 0
            &&& r matches Some(v) ==> v * pow(10, f.len()) == parts
        }),
        count_of(a.push('.') + f) is None,
        count_of(a.push('.').push(c)) is None,
        count_of(a.push('.')) is None,
{
    let s = a.push('.') + f;
    lemma_split_at_point(a, f);
    lemma_split_at_point(a, seq![]);
    assert(a.push('.') + Seq::<char>::empty() =~= a.push('.'));
    assert(s.push(c).drop_last() =~= s);
    assert(a.push('.').push(c).drop_last() =~= a.push('.'));
    assert forall|k: int| 0 <= k < f.len() implies is_digit(#[trigger] f[k]) by {}
    assert forall|k: int| 0 <= k < a.len() implies is_digit(#[trigger] a[k]) by {}
    if a.len() > 0 {
        assert(is_digit(a[0]));
    }
    assert(is_digit(f[f.len() - 1]));
    assert(s.last() == f[f.len() - 1]);
    lemma_pow_positive(10, f.len());
    let n = if a.len() == 0 {
        0nat
    } else {
        digits_value(a)
    };
    let tenths = pow(10, f.len());
    let parts = (n * tenths + digits_value(f)) * u;
    assert(parts >= 0) by (nonlinear_arith)
        requires
            parts == (n * tenths + digits_value(f)) * u,
            n >= 0,
            tenths > 0,
            digits_value(f) >= 0,
            u >= 0,
    ;
    if parts % tenths == 0 {
        vstd::arithmetic::div_mod::lemma_fundamental_div_mod(parts, tenths);
        assert(tenths * (parts / tenths) == (parts / tenths) * tenths) by (nonlinear_arith);
        assert(parts / tenths >= 0) by (nonlinear_arith)
            requires
                parts >= 0,
                tenths > 0,
        ;
    }
}

proof fn lemma_no_digit(c: char)
    requires
        !('0' <= c && c <= '9'),
    ensures
        !is_digit(c),
{
}

/// A count is above zero and can be held; nothing but digits, one point, a plus
/// sign at the beginning and a unit at the end makes one.
pub proof fn law_other_texts_are_no_counts(s: Seq<char>, i: int, j: int)
    ensures
        valid_count(seq![]) is None,
        count_of(s) matches Some(n) ==> (valid_count(s) == if 0 < n <= u64::MAX {
            Some(n as u64)
        } else {
            None
        }),
        count_of(s) is None ==> valid_count(s) is None,
        0 <= i < s.len() - 1 && !('0' <= s[i] && s[i] <= '9') && s[i] != '.' && !(i == 0 && s[i] == '+') ==> count_of(
            s,
        ) is None,
        0 <= i < j < s.len() && s[i] == '.' && s[j] == '.' ==> count_of(s) is None,
{
    if s.len() > 0 {
        let number = if unit(s.last()) is Some {
            s.drop_last()
        } else {
            s
        };
        let point = text::first(number, '.');
        text::lemma_span(number, text::other_than('.'));
        let fraction = number.skip(point + 1);
        let before = number.take(point);
        if 0 <= i < s.len() - 1 && !('0' <= s[i] && s[i] <= '9') && s[i] != '.' && !(i == 0 && s[i] == '+') {
            assert(number[i] == s[i]);
            lemma_no_digit(s[i]);
            if i < point {
                let part = if point == number.len() {
                    number
                } else {
                    before
                };
                assert(part[i] == s[i]);
                assert(whole(part) is None) by {
                    if part[0] == '+' {
                        assert(part[0] == s[0]);
                        assert(part.skip(1)[i - 1] == part[i]);
                        assert(!is_digit(part.skip(1)[i - 1]));
                    } else {
                        assert(!is_digit(part[i]));
                    }
                }
            } else {
                assert(!text::other_than('.')(number[point]));
                assert(fraction[i - point - 1] == s[i]);
                assert(!is_digit(fraction[i - point - 1]));
            }
        }
        if 0 <= i < j < s.len() && s[i] == '.' && s[j] == '.' {
            assert(number[i] == '.' && number[j] == '.');
            if point > i {
                assert(text::other_than('.')(number[i]));
            }
            assert(fraction[j - point - 1] == '.');
            assert(!is_digit(fraction[j - point - 1]));
        }
    }
}

/// A quotient that is a whole number of tenths is shown as it is.
proof fn lemma_tenths_of(n: nat, u: nat, t: nat)
    requires
        u > 0,
        t < 10_000,
        10 * n == t * u,
    ensures
        tenths(n, u) == t,
{
    lemma2_to64();
    lemma2_to64_rest();
    assert(n * pow2(43) < pow2(53) * u) by (nonlinear_arith)
        requires
            pow2(43) == 0x800_0000_0000,
            pow2(53) == 0x20_0000_0000_0000,
            10 * n == t * u,
            t < 10_000,
            u > 0,
    ;
    lemma_places_at_least(n, u, 43, 1074);
    let p = places(n, u);
    let s = pow2(p as nat) as int;
    if p > 43 {
        lemma_pow2_strictly_increases(43, p as nat);
    }
    let m = mantissa(n, u) as int;
    lemma_nearest_half(n * pow2(p as nat), u);
    assert(10 * m <= t * s + 5 && 10 * m + 5 >= t * s) by (nonlinear_arith)
        requires
            2 * (m * u) <= 2 * (n * s) + u,
            2 * (m * u) + u >= 2 * (n * s),
            10 * n == t * u,
            u > 0,
            s >= 0,
    ;
    let a = 10 * m;
    assert((t - 1) * s + s == t * s) by (nonlinear_arith);
    if a >= t * s {
        vstd::arithmetic::div_mod::lemma_fundamental_div_mod_converse(a, s, t as int, a - t * s);
    } else {
        vstd::arithmetic::div_mod::lemma_fundamental_div_mod_converse(a, s, t - 1, a - (t - 1) * s);
    }
}

/// A part of so many tenths of a percent is told as that, with one decimal; of
/// no input, the part is told as of one token.
pub proof fn law_parts_are_told_in_percent(cached: nat, input: nat, t: nat)
    requires
        t <= 1_000,
        0 < input < 0x4000_0000_0000,
        1_000 * cached == t * input,
    ensures
        percent_text(cached, input) == decimal(t / 10) + "."@ + decimal(t % 10) + "%"@,
        percent_text(cached, 0) == percent_text(cached, 1),
{
    lemma2_to64();
    lemma2_to64_rest();
    assert(cached <= input) by (nonlinear_arith)
        requires
            1_000 * cached == t * input,
            t <= 1_000,
    ;
    lemma_double_spans();
    lemma_as_double(cached, 0);
    lemma_as_double(100 * cached, 0);
    lemma_as_double(input, 0);
    assert(as_double(cached) == cached && as_double(100 * cached) == 100 * cached && as_double(input) == input);
    lemma_tenths_of(100 * cached, input, t);
}

/// The unit of a count is told by a letter that is read as that unit. A unit is
/// taken from twentieths of the one below before its first whole on, and up to
/// as little before the next.
pub proof fn law_units_are_told_by_their_letter(n: nat)
    requires
        n >= 1_000,
    ensures
        ({
            let (u, name) = shown_unit(n);
            &&& name.len() == 1
            &&& unit(name[0]) == Some(u)
            &&& n >= u - u / 20_000
            &&& u < 1_000_000_000_000_000_000 ==> n < 1_000 * u - u / 20
            &&& compact_text(n).last() == shown_unit(as_double(n)).1.last()
        }),
{
    reveal_strlit("k");
    reveal_strlit("M");
    reveal_strlit("B");
    reveal_strlit("T");
    reveal_strlit("P");
    reveal_strlit("E");
}

} // verus!
