//! Floating-point numbers: what the 64 bits of one stand for, and what
//! arithmetic, comparisons and conversions make of them, in whole numbers.
use vstd::arithmetic::power2::{lemma_pow2_adds, lemma_pow2_pos, lemma_pow2_strictly_increases, pow2};
use vstd::prelude::*;

use crate::ast::BinOp;
use crate::ir::{FloatCC, FloatOp};
use crate::text::dec_text;
use crate::types::IntKind;

verus! {

// -- Words as numbers -------------------------------------------------------

pub open spec fn negative(w: u64) -> bool {
    w >= 0x8000_0000_0000_0000
}

/// The eleven bits of the exponent.
pub open spec fn exponent(w: u64) -> int {
    (w as int / 0x10_0000_0000_0000) % 2048
}

/// The fifty-two bits behind them.
pub open spec fn fraction(w: u64) -> int {
    w as int % 0x10_0000_0000_0000
}

pub open spec fn is_nan(w: u64) -> bool {
    exponent(w) == 2047 && fraction(w) != 0
}

pub open spec fn is_infinite(w: u64) -> bool {
    exponent(w) == 2047 && fraction(w) == 0
}

/// How many of the smallest positive numbers make one.
pub open spec fn unit() -> int {
    pow2(1074) as int
}

/// The magnitude, in units of the smallest positive number. For an infinity it
/// is the power of two behind the largest finite number.
pub open spec fn magnitude(w: u64) -> int {
    if exponent(w) == 0 {
        fraction(w)
    } else {
        (0x10_0000_0000_0000 + fraction(w)) * pow2((exponent(w) - 1) as nat)
    }
}

/// The number that a word which is no NaN stands for, in units of the smallest
/// positive number. Both zeros are zero.
pub open spec fn amount(w: u64) -> int {
    if negative(w) {
        -magnitude(w)
    } else {
        magnitude(w)
    }
}

/// The word of the opposite sign.
pub open spec fn flipped(w: u64) -> u64 {
    if negative(w) {
        (w - 0x8000_0000_0000_0000) as u64
    } else {
        (w + 0x8000_0000_0000_0000) as u64
    }
}

// -- Rounding ---------------------------------------------------------------

pub open spec fn apart(a: int, b: int) -> int {
    if a >= b {
        a - b
    } else {
        b - a
    }
}

/// How far a word is from `num / den` units; of two words as far, the even one
/// ranks before the odd one.
pub open spec fn rank(w: u64, num: int, den: int) -> int {
    2 * apart(amount(w) * den, num) + fraction(w) % 2
}

/// Is no number nearer to `num / den` units than `w`?
pub open spec fn nearest(w: u64, num: int, den: int) -> bool {
    !is_nan(w) && forall|v: u64| !is_nan(v) ==> rank(w, num, den) <= #[trigger] rank(v, num, den)
}

/// Is `w` what `num / den` units are rounded to, with this sign if that is
/// zero?
pub open spec fn rounds(w: u64, num: int, den: int, minus: bool) -> bool {
    nearest(w, num, den) && (amount(w) == 0 ==> negative(w) == minus)
}

/// What `num / den` units are rounded to.
pub open spec fn rounded(num: int, den: int, minus: bool) -> u64 {
    choose|w: u64| rounds(w, num, den, minus)
}

/// The number nearest to an integer.
#[verifier::opaque]
pub open spec fn nearest_float(x: int) -> u64 {
    rounded(x * unit(), 1, false)
}

/// The integer that is left of a number without its fraction.
pub open spec fn whole(w: u64) -> int {
    if negative(w) {
        -(magnitude(w) / unit())
    } else {
        magnitude(w) / unit()
    }
}

// -- Arithmetic -------------------------------------------------------------

/// Is `w` the sum of two numbers?
pub open spec fn is_sum(w: u64, a: u64, b: u64) -> bool {
    if is_nan(a) || is_nan(b) || (is_infinite(a) && is_infinite(b) && a != b) {
        is_nan(w)
    } else if is_infinite(a) {
        w == a
    } else if is_infinite(b) {
        w == b
    } else {
        rounds(w, amount(a) + amount(b), 1, negative(a) && negative(b))
    }
}

/// Is `w` the difference of two numbers?
pub open spec fn is_difference(w: u64, a: u64, b: u64) -> bool {
    is_sum(w, a, flipped(b))
}

/// An infinity of this sign?
pub open spec fn infinity(w: u64, minus: bool) -> bool {
    is_infinite(w) && negative(w) == minus
}

/// Is `w` the product of two numbers?
pub open spec fn is_product(w: u64, a: u64, b: u64) -> bool {
    let minus = negative(a) != negative(b);
    if is_nan(a) || is_nan(b) {
        is_nan(w)
    } else if is_infinite(a) || is_infinite(b) {
        if amount(a) == 0 || amount(b) == 0 {
            is_nan(w)
        } else {
            infinity(w, minus)
        }
    } else {
        rounds(w, amount(a) * amount(b), unit(), minus)
    }
}

/// Is `w` the quotient of two numbers?
pub open spec fn is_quotient(w: u64, a: u64, b: u64) -> bool {
    let minus = negative(a) != negative(b);
    if is_nan(a) || is_nan(b) || (is_infinite(a) && is_infinite(b)) || (amount(a) == 0 && amount(b)
        == 0) {
        is_nan(w)
    } else if is_infinite(a) || amount(b) == 0 {
        infinity(w, minus)
    } else if is_infinite(b) {
        amount(w) == 0 && negative(w) == minus
    } else {
        rounds(
            w,
            if minus {
                -(magnitude(a) * unit())
            } else {
                magnitude(a) * unit()
            },
            magnitude(b),
            minus,
        )
    }
}

#[verifier::opaque]
pub open spec fn sum_of(a: u64, b: u64) -> u64 {
    choose|w: u64| is_sum(w, a, b)
}

#[verifier::opaque]
pub open spec fn difference_of(a: u64, b: u64) -> u64 {
    choose|w: u64| is_difference(w, a, b)
}

#[verifier::opaque]
pub open spec fn product_of(a: u64, b: u64) -> u64 {
    choose|w: u64| is_product(w, a, b)
}

#[verifier::opaque]
pub open spec fn quotient_of(a: u64, b: u64) -> u64 {
    choose|w: u64| is_quotient(w, a, b)
}

// -- Texts ------------------------------------------------------------------

/// The first place from `from` on where one of two characters stands, or the
/// end.
pub open spec fn first_of(t: Seq<char>, a: char, b: char, from: nat) -> nat
    decreases t.len() - from,
{
    if from >= t.len() || t[from as int] == a || t[from as int] == b {
        from
    } else {
        first_of(t, a, b, from + 1)
    }
}

pub open spec fn all_digits(t: Seq<char>) -> bool {
    t.len() > 0 && forall|i: int| 0 <= i < t.len() ==> '0' <= #[trigger] t[i] <= '9'
}

/// The number that decimal digits write.
pub open spec fn digits_of(t: Seq<char>) -> int
    decreases t.len(),
{
    if t.len() == 0 {
        0
    } else {
        10 * digits_of(t.drop_last()) + (t.last() as int - '0' as int)
    }
}

/// The exponent behind an `e`: digits, with a sign before them perhaps.
pub open spec fn exponent_of(t: Seq<char>) -> Option<int> {
    let signed = t.len() > 0 && (t[0] == '-' || t[0] == '+');
    let digits = if signed {
        t.skip(1)
    } else {
        t
    };
    if !all_digits(digits) {
        None
    } else if signed && t[0] == '-' {
        Some(-digits_of(digits))
    } else {
        Some(digits_of(digits))
    }
}

/// What a decimal or scientific text writes: whether it is negative, its digits,
/// and the power of ten that they are multiplied by.
pub open spec fn decimal(t: Seq<char>) -> Option<(bool, int, int)> {
    let minus = t.len() > 0 && t[0] == '-';
    let u = if minus {
        t.skip(1)
    } else {
        t
    };
    let e = first_of(u, 'e', 'E', 0);
    let mantissa = u.take(e as int);
    let dot = first_of(mantissa, '.', '.', 0);
    let before = mantissa.take(dot as int);
    let behind = if dot < mantissa.len() {
        mantissa.skip(dot as int + 1)
    } else {
        Seq::empty()
    };
    let exp = if e < u.len() {
        exponent_of(u.skip(e as int + 1))
    } else {
        Some(0)
    };
    match exp {
        Some(k) => if all_digits(before + behind) {
            Some((minus, digits_of(before + behind), k - behind.len()))
        } else {
            None
        },
        None => None,
    }
}

pub open spec fn power_of_ten(k: int) -> int {
    if k <= 0 {
        1
    } else {
        vstd::arithmetic::power::pow(10, k as nat)
    }
}

/// Is `w` the number nearest to what the text writes?
pub open spec fn text_rounds(w: u64, t: Seq<char>) -> bool {
    decimal(t) matches Some((minus, n, k)) && rounds(
        w,
        (if minus {
            -n
        } else {
            n
        }) * power_of_ten(k) * unit(),
        power_of_ten(-k),
        minus,
    )
}

/// The number nearest to what a text writes.
#[verifier::opaque]
pub open spec fn float_of_text(t: Seq<char>) -> u64 {
    choose|w: u64| text_rounds(w, t)
}

/// A text that writes the number: with one digit behind the point where it is
/// whole and below a thousand million million, and one that is read back as the
/// number otherwise.
#[verifier::opaque]
pub open spec fn float_text(w: u64) -> Seq<char> {
    let sign = if negative(w) {
        "-"@
    } else {
        ""@
    };
    if is_nan(w) {
        "NaN"@
    } else if is_infinite(w) {
        sign + "inf"@
    } else if magnitude(w) % unit() == 0 && magnitude(w) / unit() < 1_000_000_000_000_000 {
        sign + dec_text((magnitude(w) / unit()) as nat) + ".0"@
    } else {
        choose|t: Seq<char>| text_rounds(w, t)
    }
}

// -- Instructions -----------------------------------------------------------

/// The result of an instruction on two numbers.
pub open spec fn float_result(op: FloatOp, a: u64, b: u64) -> u64 {
    match op {
        FloatOp::Add => sum_of(a, b),
        FloatOp::Sub => difference_of(a, b),
        FloatOp::Mul => product_of(a, b),
        FloatOp::Div => quotient_of(a, b),
    }
}

/// A comparison by an instruction: a NaN is not equal to anything, and neither
/// before nor behind it.
pub open spec fn float_compare(cc: FloatCC, a: u64, b: u64) -> bool {
    let ordered = !is_nan(a) && !is_nan(b);
    match cc {
        FloatCC::Equal => ordered && amount(a) == amount(b),
        FloatCC::NotEqual => !(ordered && amount(a) == amount(b)),
        FloatCC::LessThan => ordered && amount(a) < amount(b),
        FloatCC::LessThanOrEqual => ordered && amount(a) <= amount(b),
        FloatCC::GreaterThan => ordered && amount(a) > amount(b),
        FloatCC::GreaterThanOrEqual => ordered && amount(a) >= amount(b),
    }
}

/// An integer within bounds: the nearest one in them.
pub open spec fn within(x: int, low: int, high: int) -> int {
    if x < low {
        low
    } else if x > high {
        high
    } else {
        x
    }
}

/// A number taken to the integers between two bounds; a NaN is taken to zero.
pub open spec fn float_to_int(w: u64, low: int, high: int) -> int {
    if is_nan(w) {
        0
    } else {
        within(whole(w), low, high)
    }
}

// -- The language -----------------------------------------------------------

/// An arithmetic operator on numbers; `None` for operators that are none.
pub open spec fn calculated(op: BinOp, a: u64, b: u64) -> Option<u64> {
    match op {
        BinOp::Add => Some(sum_of(a, b)),
        BinOp::Sub => Some(difference_of(a, b)),
        BinOp::Mul => Some(product_of(a, b)),
        BinOp::Div => Some(quotient_of(a, b)),
        _ => None,
    }
}

/// Does one number come before another one?
pub open spec fn precedes(a: u64, b: u64) -> bool {
    !is_nan(a) && !is_nan(b) && amount(a) < amount(b)
}

/// Are two numbers the same?
pub open spec fn equals(a: u64, b: u64) -> bool {
    !is_nan(a) && !is_nan(b) && amount(a) == amount(b)
}

/// A comparison of numbers.
pub open spec fn float_compares(op: BinOp, a: u64, b: u64) -> bool {
    match op {
        BinOp::Eq => equals(a, b),
        BinOp::Ne => !equals(a, b),
        BinOp::Lt => precedes(a, b),
        BinOp::Le => precedes(a, b) || equals(a, b),
        BinOp::Gt => precedes(b, a),
        _ => precedes(b, a) || equals(a, b),
    }
}

/// Does a number have a place among the integers of a kind?
pub open spec fn lands_in(d: IntKind, w: u64) -> bool {
    !is_nan(w) && d.holds(whole(w))
}

// -- What follows -----------------------------------------------------------

proof fn lemma_magnitude(w: u64)
    ensures
        magnitude(w) >= 0,
        0 <= fraction(w) < 0x10_0000_0000_0000,
        0 <= exponent(w) < 2048,
{
    let p = pow2((exponent(w) - 1) as nat) as int;
    lemma_pow2_pos((exponent(w) - 1) as nat);
    let f = 0x10_0000_0000_0000 + fraction(w);
    assert(f * p >= 0) by (nonlinear_arith)
        requires
            f >= 0,
            p >= 0,
    ;
}

/// The other sign makes the opposite number.
pub proof fn law_flipped(w: u64)
    ensures
        amount(flipped(w)) == -amount(w),
        negative(flipped(w)) != negative(w),
        is_nan(flipped(w)) == is_nan(w),
        flipped(flipped(w)) == w,
{
    assert(exponent(flipped(w)) == exponent(w));
    assert(fraction(flipped(w)) == fraction(w));
}

proof fn lemma_nearest_from(w: u64, num: int, den: int) -> (r: u64)
    requires
        !is_nan(w),
    ensures
        nearest(r, num, den),
    decreases rank(w, num, den),
{
    if nearest(w, num, den) {
        w
    } else {
        let v = choose|v: u64| !is_nan(v) && rank(w, num, den) > #[trigger] rank(v, num, den);
        assert(!is_nan(v) && rank(w, num, den) > rank(v, num, den));
        lemma_nearest_from(v, num, den)
    }
}

/// There is a number that any quotient is rounded to.
pub proof fn law_rounding(num: int, den: int, minus: bool)
    ensures
        exists|w: u64| rounds(w, num, den, minus),
{
    let w = lemma_nearest_from(0, num, den);
    if amount(w) == 0 && negative(w) != minus {
        law_flipped(w);
        assert(fraction(flipped(w)) == fraction(w));
        assert(amount(flipped(w)) * den == amount(w) * den);
        assert(rank(flipped(w), num, den) == rank(w, num, den));
        assert(rounds(flipped(w), num, den, minus));
    } else {
        assert(rounds(w, num, den, minus));
    }
}

/// An integer is taken to the number nearest to it; one that is below zero to a
/// number below zero, and one above to one above.
pub proof fn law_nearest_float(x: int)
    ensures
        rounds(nearest_float(x), x * unit(), 1, false),
        x < 0 ==> precedes(nearest_float(x), 0) && negative(nearest_float(x)),
        x > 0 ==> precedes(0, nearest_float(x)) && !negative(nearest_float(x)),
        x == 0 ==> nearest_float(x) == 0,
{
    reveal(nearest_float);
    law_rounding(x * unit(), 1, false);
    let w = nearest_float(x);
    assert(rounds(w, x * unit(), 1, false));
    lemma_pow2_pos(1074);
    let (u, n) = (unit(), x * unit());
    assert(amount(0) == 0 && !is_nan(0));
    lemma_magnitude(w);
    assert(x < 0 ==> n < 0) by (nonlinear_arith)
        requires
            u > 0,
            n == x * u,
    ;
    assert(x > 0 ==> n > 0) by (nonlinear_arith)
        requires
            u > 0,
            n == x * u,
    ;
    if x < 0 {
        let v = 0x8000_0000_0000_0001u64;
        assert(exponent(v) == 0 && fraction(v) == 1);
        assert(rank(w, n, 1) <= rank(v, n, 1));
    } else if x > 0 {
        let v = 1u64;
        assert(exponent(v) == 0 && fraction(v) == 1);
        assert(rank(w, n, 1) <= rank(v, n, 1));
    } else {
        assert(rank(w, n, 1) <= rank(0, n, 1));
        assert(amount(w) == 0);
        if exponent(w) != 0 {
            let p = pow2((exponent(w) - 1) as nat) as int;
            lemma_pow2_pos((exponent(w) - 1) as nat);
            let f = 0x10_0000_0000_0000 + fraction(w);
            assert(f * p > 0) by (nonlinear_arith)
                requires
                    f > 0,
                    p > 0,
            ;
        }
        assert(exponent(w) == 0 && fraction(w) == 0 && !negative(w));
        assert(w == 0);
    }
}

/// Of two numbers, one is before, behind or equal to the other, and only one of
/// these: `a <= b` holds whenever `a < b` does, and never where `b < a` does.
/// Nothing of this holds of a NaN, which is not even equal to itself.
pub proof fn law_float_order(a: u64, b: u64)
    ensures
        float_compares(BinOp::Lt, a, b) ==> float_compares(BinOp::Le, a, b) && float_compares(
            BinOp::Ne,
            a,
            b,
        ),
        float_compares(BinOp::Le, a, b) == (float_compares(BinOp::Lt, a, b) || float_compares(
            BinOp::Eq,
            a,
            b,
        )),
        float_compares(BinOp::Ge, a, b) == float_compares(BinOp::Le, b, a),
        float_compares(BinOp::Gt, a, b) == float_compares(BinOp::Lt, b, a),
        float_compares(BinOp::Ne, a, b) == !float_compares(BinOp::Eq, a, b),
        !is_nan(a) && !is_nan(b) ==> float_compares(BinOp::Le, a, b) == !float_compares(
            BinOp::Lt,
            b,
            a,
        ),
        is_nan(a) ==> !float_compares(BinOp::Eq, a, a),
{
}

/// A text that writes a number has one that is nearest to it.
pub proof fn law_float_of_text(t: Seq<char>)
    requires
        decimal(t) is Some,
    ensures
        text_rounds(float_of_text(t), t),
{
    reveal(float_of_text);
    let (minus, n, k) = decimal(t)->0;
    let num = (if minus {
        -n
    } else {
        n
    }) * power_of_ten(k) * unit();
    law_rounding(num, power_of_ten(-k), minus);
    let den = power_of_ten(-k);
    let w = choose|w: u64| rounds(w, num, den, minus);
    assert(text_rounds(w, t));
}

// -- Exact numbers ----------------------------------------------------------

/// The word of a number with a full fraction.
spec fn full_word(mant: int, e: int) -> u64 {
    ((e + 1) * 0x10_0000_0000_0000 + (mant - 0x10_0000_0000_0000)) as u64
}

proof fn lemma_full_word(mant: int, e: int)
    requires
        0x10_0000_0000_0000 <= mant < 0x20_0000_0000_0000,
        0 <= e <= 2045,
    ensures
        !is_nan(full_word(mant, e)),
        !negative(full_word(mant, e)),
        amount(full_word(mant, e)) == mant * pow2(e as nat),
{
    let w = full_word(mant, e);
    let f = mant - 0x10_0000_0000_0000;
    let x = (e + 1) * 0x10_0000_0000_0000 + f;
    assert(w as int == x);
    assert(x / 0x10_0000_0000_0000 == e + 1 && x % 0x10_0000_0000_0000 == f) by (nonlinear_arith)
        requires
            x == (e + 1) * 0x10_0000_0000_0000 + f,
            0 <= f < 0x10_0000_0000_0000,
            0 <= e,
    ;
    assert(exponent(w) == e + 1);
    assert(fraction(w) == f);
}

/// An integer whose multiple by a power of two fills a fraction has a word.
proof fn lemma_scaled_word(x: int, m: int, k: nat) -> (w: u64)
    requires
        0 < x,
        0 < m < 0x20_0000_0000_0000,
        k <= 53,
        m == x * pow2(k),
        m < 0x10_0000_0000_0000 ==> m * pow2((53 - k) as nat) >= 0x10_0000_0000_0000,
    ensures
        !is_nan(w),
        amount(w) == x * unit(),
    decreases 53 - k,
{
    if m >= 0x10_0000_0000_0000 {
        let e = 1074 - k;
        lemma_full_word(m, e);
        lemma_pow2_adds(k, e as nat);
        let (p, q) = (pow2(k) as int, pow2(e as nat) as int);
        assert(x * p * q == x * (p * q)) by (nonlinear_arith);
        full_word(m, e)
    } else {
        if k == 53 {
            vstd::arithmetic::power2::lemma2_to64();
            let one = pow2((53 - k) as nat) as int;
            assert(one == 1);
            assert(m * one == m) by (nonlinear_arith)
                requires
                    one == 1,
            ;
        }
        let r = (53 - k - 1) as nat;
        lemma_pow2_adds(k, 1);
        lemma_pow2_adds(r, 1);
        vstd::arithmetic::power2::lemma2_to64();
        let (p, q) = (pow2(k) as int, pow2(r) as int);
        assert(pow2(k + 1) == 2 * p && pow2((53 - k) as nat) == 2 * q);
        assert(2 * m == x * (2 * p)) by (nonlinear_arith)
            requires
                m == x * p,
        ;
        assert((2 * m) * q == m * (2 * q)) by (nonlinear_arith);
        lemma_scaled_word(x, 2 * m, k + 1)
    }
}

/// The words of the powers of two beyond.
proof fn lemma_power_word(k: nat) -> (w: u64)
    requires
        k <= 64,
    ensures
        !is_nan(w),
        amount(w) == pow2(k) * unit(),
{
    vstd::arithmetic::power2::lemma2_to64();
    vstd::arithmetic::power2::lemma2_to64_rest();
    let e = (1074 + k - 52) as nat;
    lemma_full_word(0x10_0000_0000_0000, e as int);
    lemma_pow2_adds(52, e);
    lemma_pow2_adds(k, 1074);
    full_word(0x10_0000_0000_0000, e as int)
}

proof fn lemma_exact(x: int, u: u64)
    requires
        !is_nan(u),
        amount(u) == x * unit(),
    ensures
        !is_nan(nearest_float(x)),
        amount(nearest_float(x)) == x * unit(),
{
    law_nearest_float(x);
    let (w, n) = (nearest_float(x), x * unit());
    assert(rank(w, n, 1) <= rank(u, n, 1));
}

/// An integer of up to fifty-three bits, and a power of two, is a number itself.
pub proof fn law_exact_float(x: int)
    requires
        -0x20_0000_0000_0000 <= x <= 0x20_0000_0000_0000 || x == 0x8000_0000_0000_0000 || x
            == -0x8000_0000_0000_0000 || x == 0x1_0000_0000_0000_0000,
    ensures
        !is_nan(nearest_float(x)),
        amount(nearest_float(x)) == x * unit(),
{
    vstd::arithmetic::power2::lemma2_to64();
    vstd::arithmetic::power2::lemma2_to64_rest();
    let y = if x < 0 {
        -x
    } else {
        x
    };
    if x == 0 {
        law_nearest_float(0);
        assert(amount(0) == 0);
        assert(0 * unit() == 0);
    } else {
        let u = if y == 0x20_0000_0000_0000 {
            lemma_power_word(53)
        } else if y == 0x8000_0000_0000_0000 {
            lemma_power_word(63)
        } else if y == 0x1_0000_0000_0000_0000 {
            lemma_power_word(64)
        } else {
            assert(y * pow2(0) == y);
            let p = pow2((53 - 0) as nat) as int;
            assert(p == 0x20_0000_0000_0000);
            assert(y * p >= 0x10_0000_0000_0000) by (nonlinear_arith)
                requires
                    y >= 1,
                    p == 0x20_0000_0000_0000,
            ;
            lemma_scaled_word(y, y, 0)
        };
        if x < 0 {
            law_flipped(u);
            assert((-y) * unit() == -(y * unit())) by (nonlinear_arith);
            lemma_exact(x, flipped(u));
        } else {
            lemma_exact(x, u);
        }
    }
}

/// What is left of a number without its fraction is between two bounds just if
/// the number is, by less than one.
pub proof fn law_whole_between(w: u64, low: int, high: int)
    requires
        low <= 0 <= high,
    ensures
        (low <= whole(w) <= high) == ((low - 1) * unit() < amount(w) < (high + 1) * unit()),
{
    lemma_magnitude(w);
    lemma_pow2_pos(1074);
    let (u, m) = (unit(), magnitude(w));
    let q = m / u;
    assert(q * u <= m < (q + 1) * u && q >= 0) by (nonlinear_arith)
        requires
            u > 0,
            m >= 0,
            q == m / u,
    ;
    if negative(w) {
        assert((-q >= low) == ((low - 1) * u < -m)) by (nonlinear_arith)
            requires
                u > 0,
                q * u <= m < (q + 1) * u,
        ;
        assert(-m < (high + 1) * u) by (nonlinear_arith)
            requires
                u > 0,
                m >= 0,
                high >= 0,
        ;
    } else {
        assert((q <= high) == (m < (high + 1) * u)) by (nonlinear_arith)
            requires
                u > 0,
                q * u <= m < (q + 1) * u,
        ;
        assert((low - 1) * u < m) by (nonlinear_arith)
            requires
                u > 0,
                m >= 0,
                low <= 0,
        ;
    }
}

/// No number is between the lowest full-width integer and the one below it.
pub proof fn law_gap(w: u64)
    ensures
        amount(w) >= -0x8000_0000_0000_0000 * unit() || amount(w) <= (-0x8000_0000_0000_0000 - 1)
            * unit(),
{
    vstd::arithmetic::power2::lemma2_to64();
    vstd::arithmetic::power2::lemma2_to64_rest();
    lemma_magnitude(w);
    lemma_pow2_adds(63, 1074);
    lemma_pow2_pos(1074);
    let big = pow2(1137) as int;
    assert(0x8000_0000_0000_0000 * unit() == big);
    assert((0x8000_0000_0000_0000 + 1) * unit() == big + unit()) by (nonlinear_arith)
        requires
            0x8000_0000_0000_0000 * unit() == big,
    ;
    assert(-0x8000_0000_0000_0000 * unit() == -big && (-0x8000_0000_0000_0000 - 1) * unit() == -(big
        + unit())) by (nonlinear_arith)
        requires
            0x8000_0000_0000_0000 * unit() == big,
    ;
    if exponent(w) > 0 {
        let e = (exponent(w) - 1) as nat;
        let (p, f) = (pow2(e) as int, fraction(w));
        lemma_pow2_pos(e);
        if e <= 1084 {
            lemma_pow2_adds(53, 1084);
            if e < 1084 {
                lemma_pow2_strictly_increases(e, 1084);
            }
            let q = pow2(1084) as int;
            assert((0x10_0000_0000_0000 + f) * p <= 0x20_0000_0000_0000 * q) by (nonlinear_arith)
                requires
                    0 <= f < 0x10_0000_0000_0000,
                    0 < p <= q,
            ;
        } else if e == 1085 {
            lemma_pow2_adds(52, 1085);
            lemma_pow2_strictly_increases(1074, 1085);
            assert((0x10_0000_0000_0000 + f) * p == big + f * p) by (nonlinear_arith)
                requires
                    0x10_0000_0000_0000 * p == big,
            ;
            if f > 0 {
                assert(f * p >= p) by (nonlinear_arith)
                    requires
                        f > 0,
                        p > 0,
                ;
            } else {
                assert(f * p == 0);
            }
        } else {
            lemma_pow2_adds(52, e);
            lemma_pow2_strictly_increases(1137, 52 + e);
            lemma_pow2_adds(1, 1137);
            if 1138 < 52 + e {
                lemma_pow2_strictly_increases(1138, 52 + e);
            }
            lemma_pow2_strictly_increases(1074, 1137);
            assert((0x10_0000_0000_0000 + f) * p >= 0x10_0000_0000_0000 * p) by (nonlinear_arith)
                requires
                    0 <= f,
                    0 < p,
            ;
        }
    } else {
        lemma_pow2_adds(52, 1085);
        lemma_pow2_pos(1085);
        let q = pow2(1085) as int;
        assert(0x10_0000_0000_0000 * q >= 0x10_0000_0000_0000) by (nonlinear_arith)
            requires
                q >= 1,
        ;
    }
}

} // verus!
