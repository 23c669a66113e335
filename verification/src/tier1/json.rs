//! JSON values and their normal forms.

use vstd::arithmetic::power2::*;
use vstd::prelude::*;

use crate::json_text;
use crate::text;

verus! {

/// A JSON value.
///
/// A number is an unsigned or a negative integer, or a real number given by
/// the bits of its IEEE 754 double and by its shortest decimal text. An object
/// is the list of its members.
#[derive(Debug, PartialEq, Eq)]
pub enum Json {
    Null,
    Bool(bool),
    Unsigned(u64),
    Negative(i64),
    Real { bits: u64, text: String },
    Text(String),
    Array(Vec<Json>),
    Object(Vec<(String, Json)>),
}

/// A JSON value in normal form: numbers by their canonical numeral, members in
/// ascending key order.
pub enum Norm {
    Null,
    Bool(bool),
    Number(Seq<char>),
    Text(Seq<char>),
    Array(Seq<Norm>),
    Object(Seq<(Seq<char>, Norm)>),
}

/// Why a value has no normal form.
#[verifier::ext_equal]
pub enum NormFault {
    NonCanonicalNumber(Seq<char>),
    DuplicateKey(Seq<char>),
}

/// The exponent field of a double.
pub open spec fn exponent_field(bits: u64) -> int {
    (bits as int / pow2(52) as int) % 2048
}

/// The fraction field of a double.
pub open spec fn fraction_field(bits: u64) -> int {
    bits as int % pow2(52) as int
}

/// Whether a double is a number: neither infinite nor undefined.
pub open spec fn is_finite(bits: u64) -> bool {
    exponent_field(bits) != 2047
}

/// Whether the sign of a double is negative.
pub open spec fn is_negative(bits: u64) -> bool {
    bits as int >= pow2(63) as int
}

/// The bits of a double without its sign. Greater bits stand for a greater
/// magnitude.
pub open spec fn magnitude_bits(bits: u64) -> nat {
    bits as nat % pow2(63)
}

/// The magnitude of a double with these bits, counted in steps of two to the
/// power -1074, the least difference of two doubles.
pub open spec fn steps(b: nat) -> nat {
    let e = b / pow2(52);
    let m = b % pow2(52);
    if e == 0 {
        m
    } else {
        (pow2(52) + m) * pow2((e - 1) as nat)
    }
}

/// The number one, counted in steps.
pub open spec fn one() -> nat {
    pow2(1074)
}

/// The integer that a double is, where it is one in the range of `u64` or `i64`.
pub open spec fn written_integer(bits: u64) -> Option<int> {
    let magnitude = steps(magnitude_bits(bits));
    let n = if is_negative(bits) {
        -(magnitude / one()) as int
    } else {
        (magnitude / one()) as int
    };
    if magnitude % one() == 0 && -(pow2(63) as int) <= n < pow2(64) {
        Some(n)
    } else {
        None
    }
}

/// Whether text consists of digits, with at most one point among them.
pub open spec fn is_unsigned_numeral(s: Seq<char>) -> bool {
    &&& s.len() > 0
    &&& json_text::is_digit(s[0])
    &&& forall|i: int|
        0 <= i < without_point(s).len() ==> json_text::is_digit(#[trigger] without_point(s)[i])
}

/// The text without its first point.
pub open spec fn without_point(s: Seq<char>) -> Seq<char> {
    if s.contains('.') {
        s.remove(s.index_of('.'))
    } else {
        s
    }
}

/// How many characters stand behind the first point.
pub open spec fn places(s: Seq<char>) -> nat {
    if s.contains('.') {
        (s.len() - s.index_of('.') - 1) as nat
    } else {
        0
    }
}

/// The number that digits stand for.
pub open spec fn digits_value(s: Seq<char>) -> nat
    decreases s.len(),
{
    if s.len() == 0 {
        0
    } else {
        digits_value(s.drop_last()) * 10 + (s.last() as nat - 48) as nat
    }
}

/// Whether a numeral starts with a minus sign.
pub open spec fn has_minus(s: Seq<char>) -> bool {
    s.len() > 0 && s[0] == '-'
}

/// A numeral without its minus sign.
pub open spec fn without_minus(s: Seq<char>) -> Seq<char> {
    if has_minus(s) {
        s.drop_first()
    } else {
        s
    }
}

/// Whether `n` divided by ten to the power `k` rounds to the double with these
/// magnitude bits: it lies between the midpoints to the two neighbours, and on a
/// midpoint only if the bits are even.
pub open spec fn rounds_to(n: nat, k: nat, b: nat) -> bool {
    let twice = 2 * n * one();
    let scale = vstd::arithmetic::power::pow(10, k);
    let below = (steps((b - 1) as nat) + steps(b)) * scale;
    let above = (steps(b) + steps(b + 1)) * scale;
    &&& b > 0 ==> below <= twice
    &&& twice <= above
    &&& b % 2 != 0 ==> below < twice < above
}

/// Whether a numeral spells a double: it has the sign of the double, it rounds
/// to the double, and it lies in the range of the 64-bit integers only if the
/// double does.
pub open spec fn spells(bits: u64, s: Seq<char>) -> bool {
    let body = without_minus(s);
    let n = digits_value(without_point(body));
    let scale = vstd::arithmetic::power::pow(10, places(body));
    &&& is_unsigned_numeral(body)
    &&& has_minus(s) == is_negative(bits)
    &&& rounds_to(n, places(body), magnitude_bits(bits))
    &&& !is_negative(bits) && steps(magnitude_bits(bits)) >= pow2(64) * one() ==> n >= pow2(64)
        * scale
}

/// Whether a value is a finite number.
pub open spec fn is_number(value: Json) -> bool {
    match value {
        Json::Unsigned(_) => true,
        Json::Negative(_) => true,
        Json::Real { bits, .. } => is_finite(bits),
        _ => false,
    }
}

/// The value of a number, counted in steps.
pub open spec fn number_value(value: Json) -> int {
    match value {
        Json::Unsigned(n) => n * one(),
        Json::Negative(n) => n * one(),
        Json::Real { bits, .. } => if is_negative(bits) {
            -(steps(magnitude_bits(bits)) as int)
        } else {
            steps(magnitude_bits(bits)) as int
        },
        _ => 0,
    }
}

/// Where a key goes among keys in ascending order: after those at or before it.
pub open spec fn place<V>(members: Seq<(Seq<char>, V)>, key: Seq<char>) -> int
    decreases members.len(),
{
    if members.len() == 0 || !text::lex_le(members[0].0, key) {
        0
    } else {
        1 + place(members.drop_first(), key)
    }
}

/// Members in ascending key order.
pub open spec fn by_key<V>(members: Seq<(Seq<char>, V)>) -> Seq<(Seq<char>, V)>
    decreases members.len(),
{
    if members.len() == 0 {
        members
    } else {
        let rest = by_key(members.drop_last());
        rest.insert(place(rest, members.last().0), members.last())
    }
}

/// The first key that stands twice in a row.
pub open spec fn repeated_key<V>(members: Seq<(Seq<char>, V)>) -> Option<Seq<char>>
    decreases members.len(),
{
    if members.len() < 2 {
        None
    } else if members[0].0 == members[1].0 {
        Some(members[0].0)
    } else {
        repeated_key(members.drop_first())
    }
}

/// The members, or the first fault among them.
pub open spec fn all_members(members: Seq<(Seq<char>, Result<Norm, NormFault>)>) -> Result<
    Seq<(Seq<char>, Norm)>,
    NormFault,
>
    decreases members.len(),
{
    if members.len() == 0 {
        Ok(Seq::empty())
    } else {
        match all_members(members.drop_last()) {
            Err(fault) => Err(fault),
            Ok(before) => match members.last().1 {
                Err(fault) => Err(fault),
                Ok(norm) => Ok(before.push((members.last().0, norm))),
            },
        }
    }
}

/// The canonical numeral of a double, or the fault that it has none.
pub open spec fn real_numeral(bits: u64, shortest: Seq<char>) -> Result<Seq<char>, NormFault> {
    if !is_finite(bits) {
        Err(NormFault::NonCanonicalNumber(shortest))
    } else {
        match written_integer(bits) {
            Some(n) => Ok(text::signed_decimal(n)),
            None => Ok(shortest),
        }
    }
}

/// The normal form of a value, or the first fault in canonical order.
pub open spec fn norm(value: Json) -> Result<Norm, NormFault>
    decreases value,
{
    match value {
        Json::Null => Ok(Norm::Null),
        Json::Bool(b) => Ok(Norm::Bool(b)),
        Json::Unsigned(n) => Ok(Norm::Number(text::decimal(n as nat))),
        Json::Negative(n) => Ok(Norm::Number(text::signed_decimal(n as int))),
        Json::Real { bits, text } => match real_numeral(bits, text@) {
            Ok(numeral) => Ok(Norm::Number(numeral)),
            Err(fault) => Err(fault),
        },
        Json::Text(s) => Ok(Norm::Text(s@)),
        Json::Array(items) => match norm_items(items@) {
            Ok(items) => Ok(Norm::Array(items)),
            Err(fault) => Err(fault),
        },
        Json::Object(entries) => norm_object(norm_entries(entries@)),
    }
}

/// The normal forms of items, or the first fault among them.
pub open spec fn norm_items(items: Seq<Json>) -> Result<Seq<Norm>, NormFault>
    decreases items,
{
    if items.len() == 0 {
        Ok(Seq::empty())
    } else {
        match norm_items(items.drop_last()) {
            Err(fault) => Err(fault),
            Ok(before) => match norm(items.last()) {
                Err(fault) => Err(fault),
                Ok(item) => Ok(before.push(item)),
            },
        }
    }
}

/// Each member's key with its value's normal form or fault.
pub open spec fn norm_entries(entries: Seq<(String, Json)>) -> Seq<
    (Seq<char>, Result<Norm, NormFault>),
>
    decreases entries,
{
    if entries.len() == 0 {
        Seq::empty()
    } else {
        norm_entries(entries.drop_last()).push((entries.last().0@, norm(entries.last().1)))
    }
}

/// The normal form of an object given its members' normal forms: a repeated key
/// is a fault.
pub open spec fn norm_object(members: Seq<(Seq<char>, Result<Norm, NormFault>)>) -> Result<
    Norm,
    NormFault,
> {
    let sorted = by_key(members);
    match repeated_key(sorted) {
        Some(key) => Err(NormFault::DuplicateKey(key)),
        None => match all_members(sorted) {
            Ok(members) => Ok(Norm::Object(members)),
            Err(fault) => Err(fault),
        },
    }
}

/// The canonical text of a normal form: compact JSON.
pub open spec fn canonical_text(n: Norm) -> Seq<char>
    decreases n,
{
    match n {
        Norm::Null => "null"@,
        Norm::Bool(b) => if b {
            "true"@
        } else {
            "false"@
        },
        Norm::Number(numeral) => numeral,
        Norm::Text(s) => json_text::json_string(s),
        Norm::Array(items) => "["@ + items_text(items) + "]"@,
        Norm::Object(members) => "{"@ + members_text(members) + "}"@,
    }
}

/// The canonical texts of items with commas between them.
pub open spec fn items_text(items: Seq<Norm>) -> Seq<char>
    decreases items,
{
    if items.len() == 0 {
        Seq::empty()
    } else if items.len() == 1 {
        canonical_text(items.last())
    } else {
        items_text(items.drop_last()) + ","@ + canonical_text(items.last())
    }
}

/// The canonical texts of members with commas between them.
pub open spec fn members_text(members: Seq<(Seq<char>, Norm)>) -> Seq<char>
    decreases members,
{
    if members.len() == 0 {
        Seq::empty()
    } else if members.len() == 1 {
        json_text::json_string(members.last().0) + ":"@ + canonical_text(members.last().1)
    } else {
        members_text(members.drop_last()) + ","@ + (json_text::json_string(members.last().0) + ":"@
            + canonical_text(members.last().1))
    }
}

} // verus!
