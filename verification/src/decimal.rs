//! Numbers written in decimal.

use crate::binary64::{power_of_two, Binary64, Parts};
use crate::rounding::{
    distance, half_even, law_half_even, lemma_half_even_exact, lemma_half_even_scale, Real64,
};
use crate::text::characters;
use vstd::arithmetic::div_mod::{
    lemma_div_is_ordered_by_denominator, lemma_fundamental_div_mod,
    lemma_fundamental_div_mod_converse,
};
use vstd::arithmetic::power::pow;
use vstd::arithmetic::power2::{
    lemma2_to64, lemma2_to64_rest, lemma_pow2_adds, lemma_pow2_pos, lemma_pow2_strictly_increases,
    lemma_pow2_unfold, pow2,
};
use vstd::prelude::*;
use vstd::string::{StrSliceExecFns, StringExecFns};

verus! {

/// The character of a decimal digit.
pub open spec fn digit(d: nat) -> char {
    (48 + d) as char
}

/// `n` in decimal, without leading zeros.
pub open spec fn decimal(n: nat) -> Seq<char>
    decreases n,
{
    if n < 10 {
        seq![digit(n)]
    } else {
        decimal(n / 10).push(digit(n % 10))
    }
}

/// The last `width` decimal digits of `n`.
pub open spec fn last_digits(n: nat, width: nat) -> Seq<char>
    decreases width,
{
    if width == 0 {
        Seq::empty()
    } else {
        last_digits(n / 10, (width - 1) as nat).push(digit(n % 10))
    }
}

/// A power of ten.
pub open spec fn ten_to(k: nat) -> nat
    decreases k,
{
    if k == 0 {
        1
    } else {
        10 * ten_to((k - 1) as nat)
    }
}

/// `x` in decimal with `places` digits after the point, rounded to the nearest
/// such number, halfway cases to the even one.
pub open spec fn fixed_point(x: Real64, places: nat) -> Seq<char> {
    match x {
        Real64::Nan => "NaN"@,
        Real64::Infinite { negative } => if negative {
            "-inf"@
        } else {
            "inf"@
        },
        Real64::Finite { negative, units } => {
            let n = half_even(units * ten_to(places), pow2(1074));
            let magnitude = decimal(n / ten_to(places)) + "."@ + last_digits(n, places);
            if negative {
                "-"@ + magnitude
            } else {
                magnitude
            }
        },
    }
}

/// `text` with spaces in front, at least `width` characters wide.
pub open spec fn right_aligned(text: Seq<char>, width: nat) -> Seq<char> {
    if text.len() < width {
        Seq::new((width - text.len()) as nat, |i: int| ' ') + text
    } else {
        text
    }
}

/// The number that a text of decimal digits stands for.
pub open spec fn digits_value(digits: Seq<char>) -> nat
    decreases digits.len(),
{
    if digits.len() == 0 {
        0
    } else {
        digits_value(digits.drop_last()) * 10 + (digits.last() as nat - 48) as nat
    }
}

/// Is `c` a decimal digit?
pub open spec fn is_digit(c: char) -> bool {
    '0' <= c <= '9'
}

/// One or more decimal digits.
pub open spec fn all_digits(text: Seq<char>) -> bool {
    text.len() > 0 && forall|i: int| 0 <= i < text.len() ==> is_digit(#[trigger] text[i])
}

/// The natural number that `text` denotes: one or more decimal digits, with at
/// most one plus sign before them.
pub open spec fn natural(text: Seq<char>) -> Option<nat> {
    let digits = if text.len() > 0 && text[0] == '+' {
        text.skip(1)
    } else {
        text
    };
    if all_digits(digits) {
        Some(digits_value(digits))
    } else {
        None
    }
}

fn digit_text(d: u128) -> (r: &'static str)
    requires
        d < 10,
    ensures
        r@ == seq![digit(d as nat)],
{
    proof {
        reveal_strlit("0");
        reveal_strlit("1");
        reveal_strlit("2");
        reveal_strlit("3");
        reveal_strlit("4");
        reveal_strlit("5");
        reveal_strlit("6");
        reveal_strlit("7");
        reveal_strlit("8");
        reveal_strlit("9");
    }
    let r = if d == 0 {
        "0"
    } else if d == 1 {
        "1"
    } else if d == 2 {
        "2"
    } else if d == 3 {
        "3"
    } else if d == 4 {
        "4"
    } else if d == 5 {
        "5"
    } else if d == 6 {
        "6"
    } else if d == 7 {
        "7"
    } else if d == 8 {
        "8"
    } else {
        "9"
    };
    assert(r@ =~= seq![digit(d as nat)]);
    r
}

/// `n` in decimal.
pub fn number_text(n: u128) -> (r: String)
    ensures
        r@ == decimal(n as nat),
    decreases n,
{
    if n < 10 {
        let mut r = String::new();
        r.append(digit_text(n));
        assert(r@ =~= seq![digit(n as nat)]);
        r
    } else {
        let mut r = number_text(n / 10);
        r.append(digit_text(n % 10));
        assert(r@ =~= decimal((n / 10) as nat).push(digit((n % 10) as nat)));
        r
    }
}

fn last_digits_text(n: u128, width: u32) -> (r: String)
    ensures
        r@ == last_digits(n as nat, width as nat),
    decreases width,
{
    if width == 0 {
        String::new()
    } else {
        let mut r = last_digits_text(n / 10, width - 1);
        r.append(digit_text(n % 10));
        assert(r@ =~= last_digits((n / 10) as nat, (width - 1) as nat).push(
            digit((n % 10) as nat),
        ));
        r
    }
}

// ---------------------------------------------------------------------------
// Whole numbers of any size, as digits with the last one first
// ---------------------------------------------------------------------------

spec fn value_of(digits: Seq<u8>) -> nat
    decreases digits.len(),
{
    if digits.len() == 0 {
        0
    } else {
        value_of(digits.drop_last()) + digits.last() as nat * ten_to((digits.len() - 1) as nat)
    }
}

spec fn are_digits(digits: Seq<u8>) -> bool {
    &&& digits.len() > 0
    &&& forall|i: int| 0 <= i < digits.len() ==> #[trigger] digits[i] < 10
    &&& digits.len() > 1 ==> digits.last() > 0
}

proof fn lemma_value_from_front(digits: Seq<u8>)
    requires
        digits.len() > 0,
    ensures
        value_of(digits) == digits[0] + 10 * value_of(digits.drop_first()),
    decreases digits.len(),
{
    let n = digits.len();
    if n == 1 {
        assert(value_of(digits.drop_last()) == 0);
        assert(value_of(digits.drop_first()) == 0);
        assert(ten_to(0) == 1);
        assert(digits.last() as nat * ten_to(0) == digits.last()) by (nonlinear_arith)
            requires
                ten_to(0) == 1,
        ;
    } else {
        lemma_value_from_front(digits.drop_last());
        assert(digits.drop_last().drop_first() =~= digits.drop_first().drop_last());
        let d = digits.last() as nat;
        assert(digits.drop_first().last() == d);
        assert(ten_to((n - 1) as nat) == 10 * ten_to((n - 2) as nat));
        assert(d * ten_to((n - 1) as nat) == 10 * (d * ten_to((n - 2) as nat)))
            by (nonlinear_arith)
            requires
                ten_to((n - 1) as nat) == 10 * ten_to((n - 2) as nat),
        ;
    }
}

/// The digits, first one first.
spec fn spelled(digits: Seq<u8>) -> Seq<char> {
    Seq::new(digits.len(), |i: int| digit(digits[digits.len() - 1 - i] as nat))
}

proof fn lemma_spelled(digits: Seq<u8>)
    requires
        are_digits(digits),
    ensures
        spelled(digits) == decimal(value_of(digits)),
    decreases digits.len(),
{
    lemma_value_from_front(digits);
    let rest = digits.drop_first();
    let v = value_of(digits);
    if digits.len() == 1 {
        assert(value_of(rest) == 0);
        assert(spelled(digits) =~= seq![digit(v)]);
    } else {
        lemma_spelled(rest);
        lemma_value_positive(rest);
        assert(v / 10 == value_of(rest) && v % 10 == digits[0]);
        assert(spelled(digits) =~= spelled(rest).push(digit(digits[0] as nat)));
    }
}

proof fn lemma_value_positive(digits: Seq<u8>)
    requires
        digits.len() > 0,
        digits.last() > 0,
    ensures
        value_of(digits) > 0,
{
    lemma_ten_to_positive((digits.len() - 1) as nat);
    assert(digits.last() as nat * ten_to((digits.len() - 1) as nat) > 0) by (nonlinear_arith)
        requires
            digits.last() > 0,
            ten_to((digits.len() - 1) as nat) > 0,
    ;
}

pub proof fn lemma_ten_to_positive(k: nat)
    ensures
        ten_to(k) > 0,
    decreases k,
{
    if k > 0 {
        lemma_ten_to_positive((k - 1) as nat);
    }
}

fn digits_of(n: u64) -> (r: Vec<u8>)
    ensures
        are_digits(r@),
        value_of(r@) == n,
{
    let mut r: Vec<u8> = Vec::new();
    let mut rest: u64 = n;
    proof {
        assert(rest as nat * ten_to(0) == rest) by (nonlinear_arith)
            requires
                ten_to(0) == 1,
        ;
    }
    while rest >= 10
        invariant
            rest > 0 || n == 0,
            rest == 0 ==> r@.len() == 0,
            forall|i: int| 0 <= i < r@.len() ==> #[trigger] r@[i] < 10,
            value_of(r@) + rest as nat * ten_to(r@.len()) == n,
        decreases rest,
    {
        let ghost before = r@;
        let ghost was = rest;
        let low: u8 = (rest % 10) as u8;
        r.push(low);
        rest = rest / 10;
        proof {
            assert(r@.drop_last() =~= before);
            let t = ten_to(before.len());
            assert(low as nat * t + rest as nat * (10 * t) == was as nat * t) by (nonlinear_arith)
                requires
                    was == 10 * rest + low,
            ;
        }
    }
    let ghost before = r@;
    r.push(rest as u8);
    assert(r@.drop_last() =~= before);
    r
}

fn doubled(digits: &Vec<u8>) -> (r: Vec<u8>)
    requires
        are_digits(digits@),
    ensures
        are_digits(r@),
        value_of(r@) == 2 * value_of(digits@),
{
    let mut r: Vec<u8> = Vec::new();
    let mut carry: u8 = 0;
    let n: usize = digits.len();
    let mut i: usize = 0;
    assert(digits@.take(0) =~= Seq::<u8>::empty());
    while i < n
        invariant
            i <= n == digits@.len(),
            are_digits(digits@),
            carry <= 1,
            r@.len() == i,
            forall|k: int| 0 <= k < r@.len() ==> #[trigger] r@[k] < 10,
            value_of(r@) + carry as nat * ten_to(i as nat) == 2 * value_of(digits@.take(i as int)),
            i == n ==> carry > 0 || n == 1 || r@.last() > 0,
        decreases n - i,
    {
        let d: u8 = digits[i];
        let t: u8 = 2 * d + carry;
        let ghost before = r@;
        let ghost old_carry = carry;
        r.push(t % 10);
        carry = t / 10;
        proof {
            assert(r@.drop_last() =~= before);
            assert(digits@.take(i + 1).drop_last() =~= digits@.take(i as int));
            let p = ten_to(i as nat);
            assert(ten_to((i + 1) as nat) == 10 * p);
            let low = (t % 10) as nat;
            assert(low * p + carry as nat * (10 * p) == old_carry as nat * p + 2 * (d as nat * p))
                by (nonlinear_arith)
                requires
                    10 * carry + low == 2 * d + old_carry,
            ;
        }
        i = i + 1;
    }
    assert(digits@.take(n as int) =~= digits@);
    if carry > 0 {
        let ghost before = r@;
        r.push(carry);
        assert(r@.drop_last() =~= before);
    }
    r
}

fn spell(digits: &Vec<u8>) -> (r: String)
    requires
        are_digits(digits@),
    ensures
        r@ == decimal(value_of(digits@)),
{
    let mut r = String::new();
    let n: usize = digits.len();
    let mut i: usize = n;
    while i > 0
        invariant
            i <= n == digits@.len(),
            are_digits(digits@),
            r@ == spelled(digits@).take(n - i),
        decreases i,
    {
        i = i - 1;
        r.append(digit_text(digits[i] as u128));
        assert(r@ =~= spelled(digits@).take(n - i));
    }
    proof {
        assert(spelled(digits@).take(n as int) =~= spelled(digits@));
        lemma_spelled(digits@);
    }
    r
}

/// The decimal text of `mantissa * 2^k`.
fn scaled_text(mantissa: u64, k: u32) -> (r: String)
    ensures
        r@ == decimal(mantissa as nat * pow2(k as nat)),
{
    let mut digits = digits_of(mantissa);
    let mut i: u32 = 0;
    proof {
        lemma2_to64();
        assert(mantissa as nat * pow2(0) == mantissa) by (nonlinear_arith)
            requires
                pow2(0) == 1,
        ;
    }
    while i < k
        invariant
            i <= k,
            are_digits(digits@),
            value_of(digits@) == mantissa as nat * pow2(i as nat),
        decreases k - i,
    {
        digits = doubled(&digits);
        proof {
            lemma_pow2_unfold((i + 1) as nat);
            assert(2 * (mantissa as nat * pow2(i as nat)) == mantissa as nat * pow2((i + 1) as nat))
                by (nonlinear_arith)
                requires
                    pow2((i + 1) as nat) == 2 * pow2(i as nat),
            ;
        }
        i = i + 1;
    }
    spell(&digits)
}

/// `x` in decimal with `places` digits after the point.
pub fn fixed_text(x: Binary64, places: u32) -> (r: String)
    requires
        1 <= places <= 18,
    ensures
        r@ == fixed_point(x@, places as nat),
{
    match x.parts() {
        Parts::Nan => "NaN".to_owned(),
        Parts::Infinite { negative } => if negative {
            "-inf".to_owned()
        } else {
            "inf".to_owned()
        },
        Parts::Finite { negative, mantissa, shift } => {
            let mut r = String::new();
            if negative {
                r.append("-");
            }
            let ghost sign = r@;
            let scale: u128 = power_of_ten(places);
            let ghost units = mantissa as nat * pow2(shift as nat);
            let ghost n = half_even(units * ten_to(places as nat), pow2(1074));
            if shift >= 1074 {
                let k: u32 = shift - 1074;
                let whole = scaled_text(mantissa, k);
                r.append(whole.as_str());
                r.append(".");
                r.append(last_digits_text(0, places).as_str());
                proof {
                    lemma_fixed_whole(mantissa as nat, k as nat, places as nat);
                }
            } else {
                let k: u32 = 1074 - shift;
                let scaled: u128 = scaled_mantissa(mantissa, scale);
                let n: u128 = half_even_shift(scaled, k);
                proof {
                    lemma_fixed_part(mantissa as nat, shift as nat, k as nat, places as nat);
                    lemma_ten_to_positive(places as nat);
                }
                r.append(number_text(n / scale).as_str());
                r.append(".");
                r.append(last_digits_text(n, places).as_str());
            }
            let ghost magnitude = decimal(n / ten_to(places as nat)) + "."@ + last_digits(
                n,
                places as nat,
            );
            proof {
                assert(r@ =~= sign + magnitude);
                if negative {
                    assert(sign =~= "-"@);
                } else {
                    assert(r@ =~= magnitude);
                }
            }
            r
        },
    }
}

fn power_of_ten(places: u32) -> (r: u128)
    requires
        places <= 18,
    ensures
        r == ten_to(places as nat),
        0 < r <= 0x1000_0000_0000_0000,
{
    let mut r: u128 = 1;
    let mut i: u32 = 0;
    proof {
        reveal_with_fuel(ten_to, 19);
        assert(ten_to(18) == 1_000_000_000_000_000_000);
        lemma_ten_to_ordered(places as nat, 18);
    }
    while i < places
        invariant
            i <= places <= 18,
            r == ten_to(i as nat),
            ten_to(18) == 1_000_000_000_000_000_000,
        decreases places - i,
    {
        proof {
            lemma_ten_to_ordered((i + 1) as nat, 18);
        }
        r = r * 10;
        i = i + 1;
    }
    proof {
        lemma_ten_to_positive(places as nat);
    }
    r
}

proof fn lemma_ten_to_ordered(a: nat, b: nat)
    requires
        a <= b,
    ensures
        ten_to(a) <= ten_to(b),
    decreases b - a,
{
    if a < b {
        lemma_ten_to_ordered(a, (b - 1) as nat);
        lemma_ten_to_positive((b - 1) as nat);
    }
}

fn scaled_mantissa(mantissa: u64, scale: u128) -> (r: u128)
    requires
        mantissa < 0x20_0000_0000_0000,
        scale <= 0x1000_0000_0000_0000,
    ensures
        r == mantissa * scale,
        r < 0x8000_0000_0000_0000_0000_0000_0000_0000,
{
    assert(mantissa as u128 * scale <= 0x20_0000_0000_0000u128 * 0x1000_0000_0000_0000u128)
        by (nonlinear_arith)
        requires
            mantissa <= 0x20_0000_0000_0000,
            scale <= 0x1000_0000_0000_0000,
    ;
    mantissa as u128 * scale
}

/// `m / 2^k` rounded to a whole number.
fn half_even_shift(m: u128, k: u32) -> (r: u128)
    requires
        m < 0x8000_0000_0000_0000_0000_0000_0000_0000,
        k >= 1,
    ensures
        r == half_even(m as nat, pow2(k as nat)),
{
    proof {
        lemma_pow2_pos(k as nat);
        lemma_pow2_unfold(k as nat);
        lemma2_to64();
        lemma2_to64_rest();
        lemma_pow2_adds(63, 64);
    }
    if k >= 128 {
        proof {
            if k > 128 {
                lemma_pow2_strictly_increases(127, (k - 1) as nat);
            }
            lemma_fundamental_div_mod_converse(m as int, pow2(k as nat) as int, 0, m as int);
        }
        return 0;
    }
    let unit: u128 = power_of_two(k);
    let whole: u128 = m / unit;
    let rest: u128 = m % unit;
    let half: u128 = unit / 2;
    if rest < half || (rest == half && whole % 2 == 0) {
        whole
    } else {
        proof {
            lemma_div_is_ordered_by_denominator(m as int, 2, unit as int);
        }
        whole + 1
    }
}

/// A number that is whole has no digits to round.
proof fn lemma_fixed_whole(mantissa: nat, k: nat, places: nat)
    ensures
        ({
            let n = half_even(mantissa * pow2(1074 + k) * ten_to(places), pow2(1074));
            &&& n / ten_to(places) == mantissa * pow2(k)
            &&& last_digits(n, places) == last_digits(0, places)
        }),
{
    let one = pow2(1074);
    let ten = ten_to(places);
    lemma_pow2_pos(1074);
    lemma_pow2_adds(1074, k);
    lemma_ten_to_positive(places);
    let whole = mantissa * pow2(k);
    let m = whole * ten;
    assert(mantissa * pow2(1074 + k) * ten == m * one) by (nonlinear_arith)
        requires
            m == mantissa * pow2(k) * ten,
            pow2(1074 + k) == one * pow2(k),
    ;
    lemma_half_even_exact(m, one);
    lemma_fundamental_div_mod_converse(m as int, ten as int, whole as int, 0);
    lemma_last_digits_of_multiple(whole, places);
}

proof fn lemma_last_digits_of_multiple(whole: nat, places: nat)
    ensures
        last_digits(whole * ten_to(places), places) == last_digits(0, places),
    decreases places,
{
    if places > 0 {
        let r = (places - 1) as nat;
        lemma_last_digits_of_multiple(whole, r);
        let n = whole * ten_to(places);
        assert(n == 10 * (whole * ten_to(r))) by (nonlinear_arith)
            requires
                n == whole * ten_to(places),
                ten_to(places) == 10 * ten_to(r),
        ;
        assert(n / 10 == whole * ten_to(r) && n % 10 == 0);
        assert(0nat / 10 == 0 && 0nat % 10 == 0);
    }
}

/// Below the smallest whole shift the common power of two cancels.
proof fn lemma_fixed_part(mantissa: nat, shift: nat, k: nat, places: nat)
    requires
        shift + k == 1074,
    ensures
        half_even(mantissa * pow2(shift) * ten_to(places), pow2(1074)) == half_even(
            mantissa * ten_to(places),
            pow2(k),
        ),
{
    lemma_pow2_adds(shift, k);
    lemma_pow2_pos(shift);
    lemma_pow2_pos(k);
    let low = pow2(shift);
    assert(mantissa * low * ten_to(places) == (mantissa * ten_to(places)) * low)
        by (nonlinear_arith);
    assert(pow2(1074) == pow2(k) * low) by (nonlinear_arith)
        requires
            pow2(1074) == low * pow2(k),
    ;
    lemma_half_even_scale(mantissa * ten_to(places), pow2(k), low);
}

/// `text` with spaces in front, at least `width` characters wide.
pub fn right_aligned_text(text: &str, width: usize) -> (r: String)
    ensures
        r@ == right_aligned(text@, width as nat),
{
    let n: usize = text.unicode_len();
    let mut r = String::new();
    let mut i: usize = n;
    proof {
        reveal_strlit(" ");
    }
    while i < width
        invariant
            n == text@.len(),
            n <= i,
            i <= width || i == n,
            r@ == Seq::new((i - n) as nat, |k: int| ' '),
            " "@ == seq![' '],
        decreases width - i,
    {
        r.append(" ");
        i = i + 1;
        assert(r@ =~= Seq::new((i - n) as nat, |k: int| ' '));
    }
    r.append(text);
    proof {
        if n >= width {
            assert(r@ =~= text@);
        } else {
            assert(r@ =~= Seq::new((width - n) as nat, |k: int| ' ') + text@);
        }
    }
    r
}

/// The natural number that `text` denotes, where it is at most `max`.
pub fn parse_natural(text: &str, max: u64) -> (r: Option<u64>)
    ensures
        r == (match natural(text@) {
            Some(n) => if n <= max {
                Some(n as u64)
            } else {
                None
            },
            None => None::<u64>,
        }),
{
    let chars = characters(text);
    let from: usize = if chars.len() > 0 && chars[0] == '+' {
        1
    } else {
        0
    };
    let ghost digits = text@.skip(from as int);
    assert(from == 0 ==> digits =~= text@);
    if chars.len() == from {
        return None;
    }
    let mut i: usize = from;
    let mut over = false;
    let mut n: u64 = 0;
    assert(digits.take(0) =~= Seq::<char>::empty());
    while i < chars.len()
        invariant
            from <= i <= chars@.len(),
            chars@ == text@,
            digits == text@.skip(from as int),
            from == (if text@.len() > 0 && text@[0] == '+' {
                1int
            } else {
                0
            }),
            from == 0 ==> digits == text@,
            forall|k: int| 0 <= k < i - from ==> is_digit(#[trigger] digits[k]),
            !over ==> n <= max && n == digits_value(digits.take(i - from)),
            over ==> digits_value(digits.take(i - from)) > max,
        decreases chars@.len() - i,
    {
        let c = chars[i];
        if c < '0' || c > '9' {
            assert(!is_digit(digits[i - from]));
            return None;
        }
        assert(digits.take(i + 1 - from).drop_last() =~= digits.take(i - from));
        assert(digits.take(i + 1 - from).last() == c);
        let d: u64 = c as u64 - 48;
        if !over {
            let wide: u128 = n as u128 * 10 + d as u128;
            if wide <= max as u128 {
                n = wide as u64;
            } else {
                over = true;
            }
        }
        assert(digits[i - from] == c);
        i = i + 1;
    }
    assert(digits.take(i - from) =~= digits);
    assert(all_digits(digits));
    if over {
        None
    } else {
        Some(n)
    }
}

// ---------------------------------------------------------------------------
// Laws
// ---------------------------------------------------------------------------

/// A number written in decimal reads back as itself, and has no leading zero.
pub proof fn law_decimal_reads_back(n: nat)
    ensures
        natural(decimal(n)) == Some(n),
        decimal(n).len() > 1 ==> decimal(n)[0] != '0',
    decreases n,
{
    lemma_decimal_digits(n);
    assert(decimal(n)[0] != '+') by {
        assert(is_digit(decimal(n)[0]));
    }
}

proof fn lemma_decimal_digits(n: nat)
    ensures
        all_digits(decimal(n)),
        digits_value(decimal(n)) == n,
        n > 0 ==> decimal(n)[0] != '0',
    decreases n,
{
    if n < 10 {
        assert(decimal(n).drop_last() =~= Seq::<char>::empty());
        assert(digits_value(decimal(n).drop_last()) == 0);
    } else {
        lemma_decimal_digits(n / 10);
        let d = decimal(n);
        assert(d.drop_last() =~= decimal(n / 10));
        assert forall|i: int| 0 <= i < d.len() implies is_digit(#[trigger] d[i]) by {
            if i < decimal(n / 10).len() {
                assert(d[i] == decimal(n / 10)[i]);
            }
        }
        assert(d[0] == decimal(n / 10)[0]);
    }
}

/// Each digit more counts the number before it ten times; a plus sign in front
/// changes nothing; and what is no digit makes no number.
pub proof fn law_natural(digits: Seq<char>, n: nat, c: char)
    requires
        digits.len() > 0,
        forall|i: int| 0 <= i < digits.len() ==> '0' <= #[trigger] digits[i] <= '9',
        natural(digits) == Some(n),
    ensures
        '0' <= c <= '9' ==> natural(digits.push(c)) == Some((10 * n + (c as nat - 48)) as nat),
        !('0' <= c <= '9') ==> natural(digits.push(c)) is None,
        natural(seq!['+'] + digits) == Some(n),
        natural(Seq::<char>::empty()) is None,
        natural(seq!['+']) is None,
        natural(seq!['-'] + digits) is None,
        '0' <= c <= '9' ==> natural(seq![c]) == Some((c as nat - 48) as nat),
{
    assert(digits[0] != '+');
    assert forall|i: int| 0 <= i < digits.len() implies is_digit(#[trigger] digits[i]) by {}
    let more = digits.push(c);
    assert(more.drop_last() =~= digits);
    assert(more[0] == digits[0]);
    if '0' <= c <= '9' {
        assert forall|i: int| 0 <= i < more.len() implies is_digit(#[trigger] more[i]) by {
            if i < digits.len() {
                assert(more[i] == digits[i]);
            }
        }
    } else {
        assert(!is_digit(more[digits.len() as int]));
    }
    let plus = seq!['+'] + digits;
    assert(plus.skip(1) =~= digits);
    assert(seq!['+'].skip(1) =~= Seq::<char>::empty());
    let minus = seq!['-'] + digits;
    assert(minus[0] == '-');
    assert(!is_digit(minus[0]));
    assert(seq![c].drop_last() =~= Seq::<char>::empty());
    assert(digits_value(seq![c].drop_last()) == 0);
}

/// A text is put at the right end of as many characters as asked for, with spaces
/// before it; a longer one stays as it is.
pub proof fn law_right_aligned(text: Seq<char>, width: nat)
    ensures
        ({
            let r = right_aligned(text, width);
            let front = r.len() - text.len();
            &&& r.len() == if text.len() < width {
                width
            } else {
                text.len()
            }
            &&& r.skip(front) == text
            &&& forall|i: int| 0 <= i < front ==> #[trigger] r[i] == ' '
        }),
{
    let r = right_aligned(text, width);
    assert(r.skip(r.len() - text.len()) =~= text);
}

proof fn lemma_ten_to_is_pow(k: nat)
    ensures
        ten_to(k) == pow(10, k),
    decreases k,
{
    reveal(pow);
    if k > 0 {
        lemma_ten_to_is_pow((k - 1) as nat);
    }
}

proof fn lemma_last_digits(front: Seq<char>, n: nat, width: nat)
    ensures
        last_digits(n, width).len() == width,
        forall|i: int| 0 <= i < width ==> is_digit(#[trigger] last_digits(n, width)[i]),
        digits_value(front + last_digits(n, width)) == digits_value(front) * ten_to(width) + n
            % ten_to(width),
    decreases width,
{
    let tail = last_digits(n, width);
    if width == 0 {
        assert(front + tail =~= front);
        assert(n % 1 == 0);
        assert(digits_value(front) * 1 == digits_value(front));
    } else {
        let w = (width - 1) as nat;
        let m = n / 10;
        lemma_last_digits(front, m, w);
        lemma_ten_to_positive(w);
        let before = last_digits(m, w);
        assert(tail == before.push(digit(n % 10)));
        assert((front + tail).drop_last() =~= front + before);
        let v = digits_value(front);
        let t = ten_to(w);
        assert forall|i: int| 0 <= i < width implies is_digit(#[trigger] tail[i]) by {
            if i < w {
                assert(tail[i] == before[i]);
            }
        }
        let low = m % t;
        assert((v * t + low) * 10 == v * (10 * t) + 10 * low) by (nonlinear_arith);
        assert(10 * (m % t) + n % 10 == n % (10 * t)) by {
            lemma_fundamental_div_mod(n as int, 10);
            lemma_fundamental_div_mod(m as int, t as int);
            let q = (m / t) as int;
            let r = (m % t) as int;
            let d = (n % 10) as int;
            assert(n == q * (10 * t) + (10 * r + d)) by (nonlinear_arith)
                requires
                    n == 10 * m + d,
                    m == t * q + r,
            ;
            lemma_fundamental_div_mod_converse(
                n as int,
                (10 * t) as int,
                q,
                10 * r + d,
            );
        }
    }
}

/// A finite number is written as a sign where it is negative, a whole number, a
/// point, and as many digits as asked for. Read without the point, these digits
/// are the number times that power of ten to the nearest whole, between two the even
/// one.
pub proof fn law_fixed_point(x: Real64, places: nat)
    requires
        x is Finite,
    ensures
        exists|whole: Seq<char>, part: Seq<char>|
            {
                &&& fixed_point(x, places) == (if x.is_negative() {
                    seq!['-']
                } else {
                    Seq::empty()
                }) + #[trigger] (whole + seq!['.'] + part)
                &&& part.len() == places
                &&& natural(whole) is Some
                &&& natural(whole + part) matches Some(n) && {
                    let off = 2 * distance(n * pow2(1074), (x->units * pow(10, places)) as nat);
                    off < pow2(1074) || (off == pow2(1074) && n % 2 == 0)
                }
            },
{
    let ten = ten_to(places);
    lemma_ten_to_is_pow(places);
    lemma_ten_to_positive(places);
    lemma_pow2_pos(1074);
    let n = half_even(x->units * ten, pow2(1074));
    let whole = decimal(n / ten);
    let part = last_digits(n, places);
    reveal_strlit(".");
    reveal_strlit("-");
    assert("."@ =~= seq!['.']);
    assert("-"@ =~= seq!['-']);
    if !x.is_negative() {
        assert(Seq::<char>::empty() + (whole + seq!['.'] + part) =~= whole + seq!['.'] + part);
    }
    law_decimal_reads_back(n / ten);
    lemma_decimal_digits(n / ten);
    lemma_last_digits(whole, n, places);
    let all = whole + part;
    assert forall|i: int| 0 <= i < all.len() implies is_digit(#[trigger] all[i]) by {
        if i < whole.len() {
            assert(all[i] == whole[i]);
        } else {
            assert(all[i] == part[i - whole.len()]);
        }
    }
    assert(all[0] == whole[0]);
    assert(is_digit(whole[0]));
    lemma_fundamental_div_mod(n as int, ten as int);
    assert((n / ten) * ten == ten * (n / ten)) by (nonlinear_arith);
    assert(natural(all) == Some(n));
    law_half_even(x->units * ten, pow2(1074));
    assert((x->units * pow(10, places)) as nat == x->units * ten);
    let text = whole + seq!['.'] + part;
    if x.is_negative() {
        assert(fixed_point(x, places) == seq!['-'] + text);
    } else {
        assert(fixed_point(x, places) == Seq::<char>::empty() + text);
    }
    assert(part.len() == places);
    assert(natural(whole) is Some);
}

/// What is no finite number is written by its name.
pub proof fn law_fixed_point_names(x: Real64, places: nat)
    ensures
        x is Nan ==> fixed_point(x, places) == "NaN"@,
        x == (Real64::Infinite { negative: false }) ==> fixed_point(x, places) == "inf"@,
        x == (Real64::Infinite { negative: true }) ==> fixed_point(x, places) == "-inf"@,
{
}

/// A text denotes a natural number exactly where it is made of one or more decimal
/// digits, with at most one plus sign in front, however many zeros they begin with.
pub proof fn law_natural_form(text: Seq<char>)
    ensures
        natural(text) is Some <==> exists|digits: Seq<char>|
            {
                &&& text == digits || text == seq!['+'] + digits
                &&& digits.len() > 0
                &&& #[trigger] made_of_digits(digits)
            },
        text.len() > 0 && made_of_digits(text) ==> natural(seq!['0'] + text) == natural(text),
{
    if natural(text) is Some {
        let digits = if text.len() > 0 && text[0] == '+' {
            text.skip(1)
        } else {
            text
        };
        assert(text.len() > 0 && text[0] == '+' ==> text =~= seq!['+'] + digits);
        assert forall|i: int| 0 <= i < digits.len() implies '0' <= #[trigger] digits[i] <= '9' by {
            assert(is_digit(digits[i]));
        }
        assert(made_of_digits(digits));
    }
    if exists|digits: Seq<char>|
        {
            &&& text == digits || text == seq!['+'] + digits
            &&& digits.len() > 0
            &&& #[trigger] made_of_digits(digits)
        } {
        let digits = choose|digits: Seq<char>|
            {
                &&& text == digits || text == seq!['+'] + digits
                &&& digits.len() > 0
                &&& #[trigger] made_of_digits(digits)
            };
        assert('0' <= digits[0] <= '9');
        if text != digits {
            assert(text.skip(1) =~= digits);
        }
        assert forall|i: int| 0 <= i < digits.len() implies is_digit(#[trigger] digits[i]) by {}
    }
    if text.len() > 0 && made_of_digits(text) {
        let longer = seq!['0'] + text;
        assert forall|i: int| 0 <= i < text.len() implies is_digit(#[trigger] text[i]) by {}
        assert forall|i: int| 0 <= i < longer.len() implies is_digit(#[trigger] longer[i]) by {
            if i > 0 {
                assert(longer[i] == text[i - 1]);
            }
        }
        assert(longer[0] == '0');
        assert('0' <= text[0] <= '9');
        lemma_leading_zero(text);
    }
}

/// Is every character of a text one of the ten digits?
pub open spec fn made_of_digits(text: Seq<char>) -> bool {
    forall|i: int| 0 <= i < text.len() ==> '0' <= #[trigger] text[i] <= '9'
}

proof fn lemma_leading_zero(text: Seq<char>)
    ensures
        digits_value(seq!['0'] + text) == digits_value(text),
    decreases text.len(),
{
    let longer = seq!['0'] + text;
    if text.len() == 0 {
        assert(longer.drop_last() =~= Seq::<char>::empty());
        assert(digits_value(longer.drop_last()) == 0);
    } else {
        lemma_leading_zero(text.drop_last());
        assert(longer.drop_last() =~= seq!['0'] + text.drop_last());
    }
}

} // verus!
