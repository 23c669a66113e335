//! What holds of numbers: one numeral for each value.

use vstd::arithmetic::power::*;
use vstd::arithmetic::power2::*;
use vstd::prelude::*;

use crate::json_text;
use crate::text;
use crate::tier1::json;
use crate::tier1::json::{Json, Norm};
use crate::tier1::json_laws;

verus! {

/// The difference to the next double: one step below the least normal double,
/// then twice as much from each power of two on.
spec fn gap(b: nat) -> nat {
    let e = b / pow2(52);
    if e == 0 {
        1
    } else {
        pow2((e - 1) as nat)
    }
}

proof fn lemma_next(b: nat)
    ensures
        json::steps(b + 1) == json::steps(b) + gap(b),
        gap(b) > 0,
        b > 0 ==> gap((b - 1) as nat) <= gap(b),
{
    lemma2_to64();
    lemma2_to64_rest();
    let whole = pow2(52);
    let e = b / whole;
    let m = b % whole;
    if e > 0 {
        lemma_pow2_pos((e - 1) as nat);
    }
    if m + 1 < whole {
        assert((b + 1) / whole == e && (b + 1) % whole == m + 1);
        if e > 0 {
            let p = pow2((e - 1) as nat);
            assert((whole + (m + 1)) * p == (whole + m) * p + p) by (nonlinear_arith);
        }
    } else {
        assert((b + 1) / whole == e + 1 && (b + 1) % whole == 0);
        if e > 0 {
            lemma_pow2_unfold(e);
            let p = pow2((e - 1) as nat);
            assert((whole + 0) * (2 * p) == (whole + m) * p + p) by (nonlinear_arith)
                requires
                    m + 1 == whole,
            ;
        } else {
            assert((whole + 0) * 1 == whole);
        }
    }
    if b > 0 {
        let f = ((b - 1) as nat) / whole;
        assert(f == e || f + 1 == e);
        if f + 1 == e {
            if f > 0 {
                lemma_pow2_strictly_increases((f - 1) as nat, (e - 1) as nat);
            }
        }
    }
}

proof fn lemma_rising(a: nat, b: nat)
    requires
        a < b,
    ensures
        json::steps(a) < json::steps(b),
    decreases b - a,
{
    lemma_next((b - 1) as nat);
    if a + 1 < b {
        lemma_rising(a, (b - 1) as nat);
    }
}

proof fn lemma_scale(k: nat)
    ensures
        pow(10, k) > 0,
        k == 0 ==> pow(10, k) == 1,
{
    lemma_pow_positive(10, k);
    lemma_pow0(10);
}

/// No decimal rounds to two doubles.
proof fn lemma_rounds_to_one(n: nat, k: nat, a: nat, b: nat)
    requires
        json::rounds_to(n, k, a),
        json::rounds_to(n, k, b),
    ensures
        a == b,
{
    if a < b {
        lemma_rounds_apart(n, k, a, b);
    } else if b < a {
        lemma_rounds_apart(n, k, b, a);
    }
}

proof fn lemma_rounds_apart(n: nat, k: nat, a: nat, b: nat)
    requires
        a < b,
        json::rounds_to(n, k, a),
    ensures
        !json::rounds_to(n, k, b),
{
    lemma_scale(k);
    let scale = pow(10, k);
    let s1 = json::steps(a) + json::steps(a + 1);
    let s2 = json::steps((b - 1) as nat) + json::steps(b);
    if a + 1 < b {
        lemma_rising(a, (b - 1) as nat);
        lemma_rising(a + 1, b);
        assert(s1 * scale < s2 * scale) by (nonlinear_arith)
            requires
                s1 < s2,
                scale > 0,
        ;
    } else {
        assert(b == a + 1);
        assert(s1 == s2);
        assert(a % 2 != 0 || b % 2 != 0);
    }
}

/// No integer rounds to a double that is not an integer.
proof fn lemma_integer_keeps_away(n: nat, b: nat)
    requires
        json::steps(b) % json::one() != 0,
    ensures
        !json::rounds_to(n, 0, b),
{
    if json::rounds_to(n, 0, b) {
        lemma_integer_near(n, b);
    }
}

/// An integer that rounds to a double is the double.
proof fn lemma_integer_near(n: nat, b: nat)
    requires
        json::rounds_to(n, 0, b),
    ensures
        json::steps(b) % json::one() == 0,
{
    lemma2_to64();
    lemma2_to64_rest();
    lemma_scale(0);
    lemma_pow2_pos(1074);
    let one = json::one() as int;
    let whole = pow2(52);
    let e = b / whole;
    let significand = whole + b % whole;
    let u = gap(b) as int;
    let v = json::steps(b) as int;
    if e == 0 {
        assert(b == b % whole);
    }
    if b == 0 {
        vstd::arithmetic::div_mod::lemma_small_mod(0, json::one());
        assert(json::steps(0) == 0);
    } else if e >= 1075 {
        let p = pow2((e - 1075) as nat) as int;
        lemma_pow2_adds((e - 1075) as nat, 1074);
        assert(v == (significand * p) * one) by (nonlinear_arith)
            requires
                v == significand * (p * one),
        ;
        vstd::arithmetic::div_mod::lemma_mod_multiples_basic(significand * p, one);
    } else if v % one != 0 {
        lemma_integer_between(n, b);
    }
}

/// An integer that rounds to a double between two integers would be neither.
proof fn lemma_integer_between(n: nat, b: nat)
    requires
        b > 0,
        b / pow2(52) < 1075,
        json::steps(b) % json::one() != 0,
    ensures
        !json::rounds_to(n, 0, b),
{
    lemma2_to64();
    lemma2_to64_rest();
    lemma_scale(0);
    lemma_pow2_pos(1074);
    let one = json::one() as int;
    let whole = pow2(52);
    let e = b / whole;
    let significand = whole + b % whole;
    let u = gap(b) as int;
    let v = json::steps(b) as int;
    lemma_next(b);
    lemma_next((b - 1) as nat);
    // The gap divides one and the magnitude.
    let t = if e == 0 {
        one
    } else {
        pow2((1075 - e) as nat) as int
    };
    if e == 0 {
        assert(one == t * u);
    } else {
        lemma_pow2_adds((1075 - e) as nat, (e - 1) as nat);
    }
    assert(one == t * u);
    let w = if e == 0 {
        v
    } else {
        significand as int
    };
    assert(v == w * u);
    let q = v / one;
    let r = v % one;
    vstd::arithmetic::div_mod::lemma_fundamental_div_mod(v, one);
    // The remainder is a multiple of the gap.
    let x = w - q * t;
    assert(r == x * u) by (nonlinear_arith)
        requires
            v == w * u,
            one == t * u,
            v == one * q + r,
            x == w - q * t,
    ;
    assert(x >= 1) by (nonlinear_arith)
        requires
            r == x * u,
            r > 0,
            u > 0,
    ;
    assert(x <= t - 1) by (nonlinear_arith)
        requires
            r == x * u,
            r < t * u,
            u > 0,
    ;
    assert(x * u >= u) by (nonlinear_arith)
        requires
            x >= 1,
            u > 0,
    ;
    assert(x * u <= t * u - u) by (nonlinear_arith)
        requires
            x <= t - 1,
            u > 0,
    ;
    let below = json::steps((b - 1) as nat) as int;
    let above = json::steps(b + 1) as int;
    assert(below >= q * one) by (nonlinear_arith)
        requires
            below >= v - u,
            v == one * q + r,
            r >= u,
    ;
    assert(above <= (q + 1) * one) by (nonlinear_arith)
        requires
            above == v + u,
            v == one * q + r,
            r <= one - u,
    ;
    assert(q * one < v < (q + 1) * one) by (nonlinear_arith)
        requires
            v == one * q + r,
            0 < r < one,
    ;
    if json::rounds_to(n, 0, b) {
        assert(below + v <= 2 * n * one);
        assert(2 * n * one <= v + above);
        assert(n >= q + 1) by (nonlinear_arith)
            requires
                below + v <= 2 * n * one,
                below >= q * one,
                v > q * one,
                one > 0,
        ;
        assert(n < q + 1) by (nonlinear_arith)
            requires
                2 * n * one <= v + above,
                above <= (q + 1) * one,
                v < (q + 1) * one,
                one > 0,
        ;
    }
}

proof fn lemma_decimal_value(n: nat)
    ensures
        json::digits_value(text::decimal(n)) == n,
    decreases n,
{
    let s = text::decimal(n);
    if n < 10 {
        assert(s.drop_last() =~= Seq::<char>::empty());
        assert(s.last() == text::digit(n));
        assert(json::digits_value(s.drop_last()) == 0);
    } else {
        lemma_decimal_value(n / 10);
        assert(s.drop_last() =~= text::decimal(n / 10));
        assert(s.last() == text::digit(n % 10));
    }
}

/// What the numeral of an integer denotes.
proof fn lemma_integer_denoted(n: int)
    ensures
        json::has_minus(text::signed_decimal(n)) == (n < 0),
        json::places(json::without_minus(text::signed_decimal(n))) == 0,
        json::digits_value(
            json::without_point(json::without_minus(text::signed_decimal(n))),
        ) == if n < 0 {
            -n
        } else {
            n
        },
{
    reveal_strlit("-");
    let magnitude = if n < 0 {
        -n
    } else {
        n
    } as nat;
    let d = text::decimal(magnitude);
    let s = text::signed_decimal(n);
    json_text::lemma_decimal_digits(magnitude);
    lemma_decimal_value(magnitude);
    if n < 0 {
        assert(s.drop_first() =~= d);
    } else {
        assert(json_text::is_digit(d[0]));
    }
    if d.contains('.') {
        let i = d.index_of('.');
        assert(json_text::is_digit(d[i]));
    }
}

/// Two integers with the same numeral are one.
proof fn lemma_signed_decimal_injective(a: int, b: int)
    requires
        text::signed_decimal(a) == text::signed_decimal(b),
    ensures
        a == b,
{
    lemma_integer_denoted(a);
    lemma_integer_denoted(b);
}

proof fn lemma_sign_and_magnitude(a: u64, b: u64)
    requires
        json::is_negative(a) == json::is_negative(b),
        json::magnitude_bits(a) == json::magnitude_bits(b),
    ensures
        a == b,
{
    lemma2_to64();
    lemma2_to64_rest();
}

/// The numeral of an integer does not spell a double that is none, or that is
/// out of range.
proof fn lemma_integer_spells_no_other(n: int, bits: u64)
    requires
        json::written_integer(bits) is None,
        -(pow2(63) as int) <= n < pow2(64),
    ensures
        !json::spells(bits, text::signed_decimal(n)),
{
    if json::spells(bits, text::signed_decimal(n)) {
        lemma2_to64();
        lemma2_to64_rest();
        lemma_integer_denoted(n);
        lemma_scale(0);
        lemma_pow2_pos(1074);
        let b = json::magnitude_bits(bits);
        let v = json::steps(b) as int;
        let one = json::one() as int;
        let size = if n < 0 {
            -n
        } else {
            n
        } as nat;
        if v % one != 0 {
            lemma_integer_keeps_away(size, b);
        }
        vstd::arithmetic::div_mod::lemma_fundamental_div_mod(v, one);
        let q = v / one;
        assert(v == q * one) by (nonlinear_arith)
            requires
                v == one * q + 0,
        ;
        if !json::is_negative(bits) {
            assert(q >= pow2(64));
            assert(v >= pow2(64) * one) by (nonlinear_arith)
                requires
                    v == q * one,
                    q >= pow2(64),
                    one > 0,
            ;
            assert(size >= pow2(64) * 1);
        } else {
            assert(q > pow2(63));
            lemma_negative_range(size, b, q);
        }
    }
}

/// A double below the least `i64` is not what any `i64` rounds to.
proof fn lemma_negative_range(size: nat, b: nat, q: int)
    requires
        json::steps(b) == q * json::one(),
        q > pow2(63),
        size <= pow2(63),
    ensures
        !json::rounds_to(size, 0, b),
{
    lemma2_to64();
    lemma2_to64_rest();
    lemma_scale(0);
    lemma_pow2_pos(1074);
    let one = json::one() as int;
    // The double that is two to the power sixty-three.
    let edge: nat = 1086 * pow2(52);
    assert(edge / pow2(52) == 1086 && edge % pow2(52) == 0);
    lemma_pow2_adds(52, 1085);
    lemma_pow2_adds(63, 1074);
    assert(json::steps(edge) == pow2(63) * one);
    assert(q * one > pow2(63) * one) by (nonlinear_arith)
        requires
            q > pow2(63),
            one > 0,
    ;
    if b < edge {
        lemma_rising(b, edge);
    }
    assert(b > edge);
    if edge < (b - 1) {
        lemma_rising(edge, (b - 1) as nat);
    }
    let below = json::steps((b - 1) as nat) as int;
    assert(below >= pow2(63) * one);
    assert(2 * size * one <= 2 * (pow2(63) * one)) by (nonlinear_arith)
        requires
            size <= pow2(63),
            one > 0,
    ;
}

/// The texts of two reals spell each other only if they are one double.
proof fn lemma_spelling_is_injective(a: u64, b: u64, s: Seq<char>)
    requires
        json::spells(a, s),
        json::spells(b, s),
    ensures
        a == b,
{
    let body = json::without_minus(s);
    lemma_rounds_to_one(
        json::digits_value(json::without_point(body)),
        json::places(body),
        json::magnitude_bits(a),
        json::magnitude_bits(b),
    );
    lemma_sign_and_magnitude(a, b);
}

/// The integer that a number is written as, if it is.
pub open spec fn integer_of(value: Json) -> Option<int> {
    match value {
        Json::Unsigned(n) => Some(n as int),
        Json::Negative(n) => Some(n as int),
        Json::Real { bits, .. } => json::written_integer(bits),
        _ => None,
    }
}

proof fn lemma_integer_of(value: Json)
    requires
        json::is_number(value),
    ensures
        integer_of(value) matches Some(n) ==> {
            &&& json::number_value(value) == n * json::one()
            &&& -(pow2(63) as int) <= n < pow2(64)
            &&& json::norm(value) == Ok::<Norm, json::NormFault>(
                Norm::Number(text::signed_decimal(n)),
            )
        },
{
    lemma2_to64();
    lemma2_to64_rest();
    lemma_pow2_pos(1074);
    let one = json::one() as int;
    match value {
        Json::Real { bits, .. } => {
            let v = json::steps(json::magnitude_bits(bits)) as int;
            vstd::arithmetic::div_mod::lemma_fundamental_div_mod(v, one);
            let q = v / one;
            if v % one == 0 {
                assert(v == q * one && -v == (-q) * one) by (nonlinear_arith)
                    requires
                        v == one * q + 0,
                ;
            }
        },
        _ => {
            let m = integer_of(value)->0;
            assert(m >= 0 ==> text::signed_decimal(m) == text::decimal(m as nat));
        },
    }
}

/// A number with the value of an integer in range is written as the integer.
proof fn lemma_integer_of_value(value: Json, n: int)
    requires
        json::is_number(value),
        -(pow2(63) as int) <= n < pow2(64),
        json::number_value(value) == n * json::one(),
    ensures
        integer_of(value) == Some(n),
{
    lemma_pow2_pos(1074);
    let one = json::one() as int;
    match value {
        Json::Real { bits, .. } => {
            let v = json::steps(json::magnitude_bits(bits)) as int;
            let size = if json::is_negative(bits) {
                -n
            } else {
                n
            };
            if json::is_negative(bits) {
                assert(v == (-n) * one + 0) by (nonlinear_arith)
                    requires
                        -v == n * one,
                ;
            }
            vstd::arithmetic::div_mod::lemma_fundamental_div_mod_converse(v, one, size, 0);
        },
        _ => {
            let m = integer_of(value)->0;
            assert(m == n) by (nonlinear_arith)
                requires
                    m * one == n * one,
                    one > 0,
            ;
        },
    }
}

/// Whether the same double is spelled alike in both numbers.
pub open spec fn spelled_alike(a: Json, b: Json) -> bool {
    a matches Json::Real { bits: x, text: s } ==> b matches Json::Real { bits: y, text: t } ==> x
        == y ==> s@ == t@
}

/// One numeral for each value: two numbers have the same normal form exactly
/// when they have the same value, however each is given.
pub proof fn law_numeral_decides_value(a: Json, b: Json)
    requires
        json::is_number(a),
        json::is_number(b),
        json_laws::well_spelled(a),
        json_laws::well_spelled(b),
        spelled_alike(a, b),
    ensures
        json::norm(a) is Ok,
        json::norm(b) is Ok,
        json::norm(a) == json::norm(b) <==> json::number_value(a) == json::number_value(b),
{
    lemma_integer_of(a);
    lemma_integer_of(b);
    lemma_pow2_pos(1074);
    let one = json::one() as int;
    match (integer_of(a), integer_of(b)) {
        (Some(m), Some(n)) => {
            if json::norm(a) == json::norm(b) {
                lemma_signed_decimal_injective(m, n);
            }
            if m * one == n * one {
                assert(m == n) by (nonlinear_arith)
                    requires
                        m * one == n * one,
                        one > 0,
                ;
            }
        },
        (Some(m), None) => {
            lemma_integer_apart(m, b);
            if json::number_value(b) == m * one {
                lemma_integer_of_value(b, m);
            }
        },
        (None, Some(n)) => {
            lemma_integer_apart(n, a);
            if json::number_value(a) == n * one {
                lemma_integer_of_value(a, n);
            }
        },
        (None, None) => {
            lemma_reals_apart(a, b);
        },
    }
}

proof fn lemma_integer_apart(n: int, double: Json)
    requires
        -(pow2(63) as int) <= n < pow2(64),
        json::is_number(double),
        json_laws::well_spelled(double),
        integer_of(double) is None,
    ensures
        json::norm(double) is Ok,
        json::norm(double) != Ok::<Norm, json::NormFault>(Norm::Number(text::signed_decimal(n))),
{
    match double {
        Json::Real { bits, text } => {
            if text@ == text::signed_decimal(n) {
                lemma_integer_spells_no_other(n, bits);
            }
        },
        _ => {},
    }
}

proof fn lemma_reals_apart(a: Json, b: Json)
    requires
        json::is_number(a),
        json::is_number(b),
        json_laws::well_spelled(a),
        json_laws::well_spelled(b),
        spelled_alike(a, b),
        integer_of(a) is None,
        integer_of(b) is None,
    ensures
        json::norm(a) is Ok,
        json::norm(b) is Ok,
        json::norm(a) == json::norm(b) <==> json::number_value(a) == json::number_value(b),
{
    match (a, b) {
        (Json::Real { bits: x, text: s }, Json::Real { bits: y, text: t }) => {
            if s@ == t@ {
                lemma_spelling_is_injective(x, y, s@);
            }
            if json::number_value(a) == json::number_value(b) {
                let p = json::magnitude_bits(x);
                let q = json::magnitude_bits(y);
                lemma_not_zero(x);
                lemma_not_zero(y);
                if p < q {
                    lemma_rising(p, q);
                } else if q < p {
                    lemma_rising(q, p);
                }
                lemma_sign_and_magnitude(x, y);
            }
        },
        _ => {},
    }
}

/// A double that is not written as an integer is not zero.
proof fn lemma_not_zero(bits: u64)
    requires
        json::written_integer(bits) is None,
    ensures
        json::steps(json::magnitude_bits(bits)) > 0,
{
    lemma2_to64();
    lemma2_to64_rest();
    lemma_pow2_pos(1074);
    vstd::arithmetic::div_mod::lemma_small_mod(0, json::one());
    vstd::arithmetic::div_mod::lemma_basic_div(0, json::one() as int);
}

/// Equivalent spellings of an integer fold together: a real number that is an
/// integer in the range of `u64` or `i64` has the normal form of the integer.
pub proof fn law_number_spellings_fold(bits: u64, text: String, integer: Json)
    requires
        json::is_finite(bits),
        integer is Unsigned || integer is Negative,
        json::number_value(Json::Real { bits, text }) == json::number_value(integer),
    ensures
        json::norm(Json::Real { bits, text }) == json::norm(integer),
{
    let double = Json::Real { bits, text };
    lemma2_to64();
    lemma2_to64_rest();
    lemma_integer_of(double);
    lemma_integer_of(integer);
    let n = integer_of(integer)->0;
    lemma_integer_of_value(double, n);
}

} // verus!
