//! What the normal form and the canonical text of a value hold of its parts.

use vstd::arithmetic::power2::{lemma2_to64, lemma2_to64_rest, lemma_pow2_adds, pow2};
use vstd::prelude::*;

use crate::json_text;
use crate::text;
use crate::text_laws;
use crate::tier1::json;
use crate::tier1::json::{Json, Norm, NormFault};
use crate::tier1::json_laws;
use crate::tier1::normalize;
use crate::tier1::normalize::NormalizationErrorView;

verus! {

/// Simple values keep what they are. A whole number becomes the numeral that stands
/// for it, with a minus only below zero.
pub proof fn law_simple_values_are_kept(b: bool, s: String, n: u64, m: i64)
    ensures
        json::norm(Json::Null) == Ok::<Norm, NormFault>(Norm::Null),
        json::norm(Json::Bool(b)) == Ok::<Norm, NormFault>(Norm::Bool(b)),
        json::norm(Json::Text(s)) == Ok::<Norm, NormFault>(Norm::Text(s@)),
        json::norm(Json::Unsigned(n)) matches Ok(Norm::Number(t)) && text_laws::number_of(t) == n
            && t[0] != '-',
        json::norm(Json::Negative(m)) matches Ok(Norm::Number(t)) && (if m < 0 {
            t[0] == '-' && text_laws::number_of(t.drop_first()) == -m
        } else {
            text_laws::number_of(t) == m
        }),
{
    text_laws::law_numerals_stand_for_their_number(n as nat);
    text_laws::law_signed_numerals(m as int);
    assert(text::decimal(n as nat)[0] != '-');
}

/// A real number that is infinite or no number, all its exponent bits set, has no
/// normal form, and its own text is reported. Every other one has.
pub proof fn law_unwritable_reals_are_reported(bits: u64, shown: String)
    ensures
        ({
            let value = Json::Real { bits, text: shown };
            let off = 0x7ff0_0000_0000_0000 <= bits <= 0x7fff_ffff_ffff_ffff
                || 0xfff0_0000_0000_0000 <= bits;
            &&& off ==> json::norm(value) == Err::<Norm, NormFault>(
                NormFault::NonCanonicalNumber(shown@),
            )
            &&& !off ==> json::norm(value) is Ok && json::norm(value)->Ok_0 is Number
        }),
{
    lemma2_to64();
    lemma2_to64_rest();
}

/// A real number that is no whole number in the range of integers keeps its own
/// text.
pub proof fn law_other_reals_keep_their_text(bits: u64, shown: String)
    requires
        json::is_finite(bits),
        forall|n: int|
            -0x8000_0000_0000_0000 <= n <= 0xffff_ffff_ffff_ffff ==> #[trigger] (n * json::one())
                != json::number_value(Json::Real { bits, text: shown }),
    ensures
        json::norm(Json::Real { bits, text: shown }) == Ok::<Norm, NormFault>(
            Norm::Number(shown@),
        ),
{
    lemma2_to64();
    lemma2_to64_rest();
    vstd::arithmetic::power2::lemma_pow2_pos(1074);
    let v = json::steps(json::magnitude_bits(bits)) as int;
    let one = json::one() as int;
    vstd::arithmetic::div_mod::lemma_fundamental_div_mod(v, one);
    if json::written_integer(bits) is Some {
        let n = json::written_integer(bits)->0;
        let q = v / one;
        assert(q * one == v && (-q) * one == -v) by (nonlinear_arith)
            requires
                v == one * q + 0,
        ;
        assert(n * json::one() == json::number_value(Json::Real { bits, text: shown }));
    }
}

proof fn lemma_items(items: Seq<Json>)
    ensures
        json::norm_items(items) is Ok <==> forall|i: int|
            0 <= i < items.len() ==> json::norm(#[trigger] items[i]) is Ok,
        json::norm_items(items) is Ok ==> json::norm_items(items)->Ok_0.len() == items.len()
            && forall|i: int|
            0 <= i < items.len() ==> json::norm(items[i]) == Ok::<Norm, NormFault>(
                #[trigger] json::norm_items(items)->Ok_0[i],
            ),
        json::norm_items(items) is Err ==> exists|i: int|
            {
                &&& 0 <= i < items.len()
                &&& json::norm(#[trigger] items[i]) == Err::<Norm, NormFault>(
                    json::norm_items(items)->Err_0,
                )
                &&& forall|j: int| 0 <= j < i ==> json::norm(#[trigger] items[j]) is Ok
            },
    decreases items.len(),
{
    if items.len() > 0 {
        let init = items.drop_last();
        let n = items.len() - 1;
        lemma_items(init);
        assert forall|i: int| 0 <= i < n implies init[i] == items[i] by {}
        assert(items[n] == items.last());
        if json::norm_items(init) is Err {
            let i = choose|i: int|
                {
                    &&& 0 <= i < init.len()
                    &&& json::norm(#[trigger] init[i]) == Err::<Norm, NormFault>(
                        json::norm_items(init)->Err_0,
                    )
                    &&& forall|j: int| 0 <= j < i ==> json::norm(#[trigger] init[j]) is Ok
                };
            assert(items[i] == init[i]);
            assert forall|j: int| 0 <= j < i implies json::norm(#[trigger] items[j]) is Ok by {
                assert(init[j] == items[j]);
            }
        } else {
            assert forall|j: int| 0 <= j < n implies json::norm(#[trigger] items[j]) is Ok by {
                assert(init[j] == items[j]);
            }
            if json::norm(items.last()) is Ok {
                assert forall|i: int| 0 <= i < items.len() implies json::norm(items[i]) == Ok::<
                    Norm,
                    NormFault,
                >(#[trigger] json::norm_items(items)->Ok_0[i]) by {
                    if i < n {
                        assert(json::norm_items(items)->Ok_0[i] == json::norm_items(init)->Ok_0[i]);
                    }
                }
            }
        }
    }
}

/// The normal form of an array has the normal form of every item, in order. An
/// array is refused only for an item, the first that is.
pub proof fn law_arrays_keep_every_item(items: Vec<Json>)
    ensures
        ({
            let r = json::norm(Json::Array(items));
            &&& r is Ok <==> forall|i: int|
                0 <= i < items@.len() ==> json::norm(#[trigger] items@[i]) is Ok
            &&& r is Ok ==> r->Ok_0 is Array && r->Ok_0->Array_0.len() == items@.len() && forall|
                i: int,
            |
                0 <= i < items@.len() ==> json::norm(items@[i]) == Ok::<Norm, NormFault>(
                    #[trigger] r->Ok_0->Array_0[i],
                )
            &&& r is Err ==> exists|i: int|
                {
                    &&& 0 <= i < items@.len()
                    &&& json::norm(#[trigger] items@[i]) == r
                    &&& forall|j: int| 0 <= j < i ==> json::norm(#[trigger] items@[j]) is Ok
                }
        }),
{
    lemma_items(items@);
}

proof fn lemma_entries(entries: Seq<(String, Json)>)
    ensures
        json::norm_entries(entries).len() == entries.len(),
        forall|i: int|
            0 <= i < entries.len() ==> #[trigger] json::norm_entries(entries)[i] == (
                entries[i].0@,
                json::norm(entries[i].1),
            ),
    decreases entries.len(),
{
    if entries.len() > 0 {
        lemma_entries(entries.drop_last());
    }
}

proof fn lemma_members(members: Seq<(Seq<char>, Result<Norm, NormFault>)>)
    ensures
        json::all_members(members) is Ok <==> forall|i: int|
            0 <= i < members.len() ==> (#[trigger] members[i]).1 is Ok,
        json::all_members(members) is Ok ==> json::all_members(members)->Ok_0.len()
            == members.len() && forall|i: int|
            0 <= i < members.len() ==> (#[trigger] json::all_members(members)->Ok_0[i]) == (
                members[i].0,
                members[i].1->Ok_0,
            ),
        json::all_members(members) is Err ==> exists|i: int|
            {
                &&& 0 <= i < members.len()
                &&& (#[trigger] members[i]).1 == Err::<Norm, NormFault>(
                    json::all_members(members)->Err_0,
                )
            },
    decreases members.len(),
{
    if members.len() > 0 {
        let init = members.drop_last();
        let n = members.len() - 1;
        lemma_members(init);
        assert forall|i: int| 0 <= i < n implies init[i] == members[i] by {}
        assert(members[n] == members.last());
        if json::all_members(init) is Err {
            let i = choose|i: int|
                {
                    &&& 0 <= i < init.len()
                    &&& (#[trigger] init[i]).1 == Err::<Norm, NormFault>(
                        json::all_members(init)->Err_0,
                    )
                };
            assert(members[i] == init[i]);
        } else {
            assert forall|j: int| 0 <= j < n implies (#[trigger] members[j]).1 is Ok by {
                assert(init[j] == members[j]);
            }
        }
    }
}

proof fn lemma_repeated_key<V>(members: Seq<(Seq<char>, V)>)
    requires
        json_laws::keys_ascend(members),
        json::repeated_key(members) is Some,
    ensures
        exists|i: int, j: int|
            {
                &&& 0 <= i < j < members.len()
                &&& (#[trigger] members[i]).0 == json::repeated_key(members)->0
                &&& (#[trigger] members[j]).0 == json::repeated_key(members)->0
            },
        forall|i: int, j: int|
            0 <= i < j < members.len() && (#[trigger] members[i]).0 == (#[trigger] members[j]).0
                ==> text::lex_le(json::repeated_key(members)->0, members[i].0),
    decreases members.len(),
{
    let rest = members.drop_first();
    text::lemma_lex_order();
    assert forall|i: int| 0 <= i < rest.len() implies rest[i] == members[i + 1] by {}
    if members[0].0 == members[1].0 {
        assert forall|i: int, j: int|
            0 <= i < j < members.len() && (#[trigger] members[i]).0 == (
            #[trigger] members[j]).0 implies text::lex_le(
            json::repeated_key(members)->0,
            members[i].0,
        ) by {
            if i > 0 {
                assert(text::lex_le(members[0].0, members[i].0));
            }
        }
    } else {
        assert forall|i: int, j: int| 0 <= i < j < rest.len() implies text::lex_le(
            (#[trigger] rest[i]).0,
            (#[trigger] rest[j]).0,
        ) by {
            assert(rest[i] == members[i + 1] && rest[j] == members[j + 1]);
        }
        lemma_repeated_key(rest);
        let key = json::repeated_key(rest)->0;
        let (p, q) = choose|i: int, j: int|
            {
                &&& 0 <= i < j < rest.len()
                &&& (#[trigger] rest[i]).0 == key
                &&& (#[trigger] rest[j]).0 == key
            };
        assert(members[p + 1].0 == key && members[q + 1].0 == key);
        assert forall|i: int, j: int|
            0 <= i < j < members.len() && (#[trigger] members[i]).0 == (
            #[trigger] members[j]).0 implies text::lex_le(
            json::repeated_key(members)->0,
            members[i].0,
        ) by {
            if i > 0 {
                assert(rest[i - 1] == members[i] && rest[j - 1] == members[j]);
            } else {
                assert(text::lex_le(members[0].0, members[1].0));
                if j > 1 {
                    assert(text::lex_le(members[1].0, members[j].0));
                }
            }
        }
    }
}

/// Two places with this key in a sequence give two such places in any other with
/// the same elements.
proof fn lemma_pair_of<V>(
    a: Seq<(Seq<char>, V)>,
    b: Seq<(Seq<char>, V)>,
    key: Seq<char>,
) -> (r: (int, int))
    requires
        a.to_multiset() == b.to_multiset(),
        exists|i: int, j: int|
            0 <= i < j < a.len() && (#[trigger] a[i]).0 == key && (#[trigger] a[j]).0 == key,
    ensures
        0 <= r.0 < r.1 < b.len(),
        b[r.0].0 == key,
        b[r.1].0 == key,
{
    let (i, j) = choose|i: int, j: int|
        0 <= i < j < a.len() && (#[trigger] a[i]).0 == key && (#[trigger] a[j]).0 == key;
    a.to_multiset_ensures();
    b.to_multiset_ensures();
    assert(a.contains(a[i]));
    assert(b.to_multiset().count(a[i]) > 0);
    assert(b.contains(a[i]));
    let p = choose|p: int| 0 <= p < b.len() && b[p] == a[i];
    let (x, y) = (a.remove(i), b.remove(p));
    assert(x.to_multiset() =~= a.to_multiset().remove(a[i]));
    assert(y.to_multiset() =~= b.to_multiset().remove(a[i]));
    x.to_multiset_ensures();
    y.to_multiset_ensures();
    assert(x[j - 1] == a[j]);
    assert(x.contains(a[j]));
    assert(y.to_multiset().count(a[j]) > 0);
    assert(y.contains(a[j]));
    let q = choose|q: int| 0 <= q < y.len() && y[q] == a[j];
    if q < p {
        assert(b[q] == y[q]);
        (q, p)
    } else {
        assert(b[q + 1] == y[q]);
        (p, q + 1)
    }
}

/// Whether two members have the same key.
pub open spec fn repeats_a_key(entries: Seq<(String, Json)>) -> bool {
    exists|i: int, j: int|
        0 <= i < j < entries.len() && (#[trigger] entries[i]).0@ == (#[trigger] entries[j]).0@
}

/// The normal form of an object has every member under its key with its own normal
/// form, and no other, in strictly ascending order of the keys. An object is refused
/// exactly for a key that occurs twice, the least such one, or else for a member.
pub proof fn law_objects_keep_every_member(entries: Vec<(String, Json)>)
    ensures
        ({
            let r = json::norm(Json::Object(entries));
            let members = r->Ok_0->Object_0;
            let all = entries@;
            &&& r is Ok <==> !repeats_a_key(all) && forall|i: int|
                0 <= i < all.len() ==> json::norm((#[trigger] all[i]).1) is Ok
            &&& r is Ok ==> {
                &&& r->Ok_0 is Object
                &&& members.len() == all.len()
                &&& forall|i: int, j: int|
                    0 <= i < j < members.len() ==> text_laws::sorts_before(
                        (#[trigger] members[i]).0,
                        (#[trigger] members[j]).0,
                    ) && members[i].0 != members[j].0
                &&& forall|i: int|
                    0 <= i < all.len() ==> members.contains(
                        ((#[trigger] all[i]).0@, json::norm(all[i].1)->Ok_0),
                    )
                &&& forall|k: int|
                    0 <= k < members.len() ==> exists|i: int|
                        0 <= i < all.len() && #[trigger] members[k] == (
                            (#[trigger] all[i]).0@,
                            json::norm(all[i].1)->Ok_0,
                        )
            }
            &&& repeats_a_key(all) ==> r is Err && r->Err_0 is DuplicateKey && {
                let key = r->Err_0->DuplicateKey_0;
                &&& exists|i: int, j: int|
                    0 <= i < j < all.len() && (#[trigger] all[i]).0@ == key && (
                    #[trigger] all[j]).0@ == key
                &&& forall|i: int, j: int|
                    0 <= i < j < all.len() && (#[trigger] all[i]).0@ == (#[trigger] all[j]).0@
                        ==> text_laws::sorts_before(key, all[i].0@)
            }
            &&& !repeats_a_key(all) && r is Err ==> exists|i: int|
                0 <= i < all.len() && json::norm((#[trigger] all[i]).1) == r
        }),
{
    let all = entries@;
    let given = json::norm_entries(all);
    let sorted = json::by_key(given);
    lemma_entries(all);
    json_laws::lemma_by_key(given);
    given.to_multiset_ensures();
    sorted.to_multiset_ensures();
    text::lemma_lex_order();
    let r = json::norm(Json::Object(entries));
    assert forall|i: int| 0 <= i < all.len() implies sorted.contains(#[trigger] given[i]) by {
        assert(given.contains(given[i]));
        assert(sorted.to_multiset().count(given[i]) > 0);
    }
    assert forall|k: int| 0 <= k < sorted.len() implies given.contains(#[trigger] sorted[k]) by {
        assert(sorted.contains(sorted[k]));
        assert(given.to_multiset().count(sorted[k]) > 0);
    }
    if json::repeated_key(sorted) is Some {
        lemma_repeated_key(sorted);
        let key = json::repeated_key(sorted)->0;
        let (p, q) = choose|i: int, j: int|
            {
                &&& 0 <= i < j < sorted.len()
                &&& (#[trigger] sorted[i]).0 == key
                &&& (#[trigger] sorted[j]).0 == key
            };
        assert(sorted[p].0 == sorted[q].0);
        let (i, j) = lemma_pair_of(sorted, given, key);
        assert(given[i].0 == all[i].0@ && given[j].0 == all[j].0@);
        assert(repeats_a_key(all));
        assert forall|i: int, j: int|
            0 <= i < j < all.len() && (#[trigger] all[i]).0@ == (
            #[trigger] all[j]).0@ implies text_laws::sorts_before(key, all[i].0@) by {
            assert(given[i].0 == all[i].0@ && given[j].0 == all[j].0@);
            let (a, b) = lemma_pair_of(given, sorted, all[i].0@);
            assert(sorted[a].0 == sorted[b].0);
            text_laws::law_texts_are_ordered_by_first_difference(key, all[i].0@);
        }
    } else {
        json_laws::lemma_repeated_key_none(sorted);
        if repeats_a_key(all) {
            let (i, j) = choose|i: int, j: int|
                0 <= i < j < all.len() && (#[trigger] all[i]).0@ == (#[trigger] all[j]).0@;
            assert(given[i].0 == all[i].0@ && given[j].0 == all[j].0@);
            let (a, b) = lemma_pair_of(given, sorted, all[i].0@);
            assert(sorted[a].0 != sorted[b].0);
        }
        lemma_members(sorted);
        if json::all_members(sorted) is Ok {
            let members = json::all_members(sorted)->Ok_0;
            assert forall|i: int| 0 <= i < all.len() implies json::norm(
                (#[trigger] all[i]).1,
            ) is Ok by {
                assert(sorted.contains(given[i]));
                let k = choose|k: int| 0 <= k < sorted.len() && sorted[k] == given[i];
                assert(sorted[k].1 is Ok);
            }
            assert forall|i: int, j: int| 0 <= i < j < members.len() implies text_laws::sorts_before(
                (#[trigger] members[i]).0,
                (#[trigger] members[j]).0,
            ) && members[i].0 != members[j].0 by {
                assert(members[i].0 == sorted[i].0 && members[j].0 == sorted[j].0);
                assert(text::lex_le(sorted[i].0, sorted[j].0));
                text_laws::law_texts_are_ordered_by_first_difference(sorted[i].0, sorted[j].0);
            }
            assert forall|i: int| 0 <= i < all.len() implies members.contains(
                ((#[trigger] all[i]).0@, json::norm(all[i].1)->Ok_0),
            ) by {
                assert(sorted.contains(given[i]));
                let k = choose|k: int| 0 <= k < sorted.len() && sorted[k] == given[i];
                assert(members[k] == (sorted[k].0, sorted[k].1->Ok_0));
            }
            assert forall|k: int| 0 <= k < members.len() implies exists|i: int|
                0 <= i < all.len() && #[trigger] members[k] == (
                    (#[trigger] all[i]).0@,
                    json::norm(all[i].1)->Ok_0,
                ) by {
                assert(members[k] == (sorted[k].0, sorted[k].1->Ok_0));
                assert(given.contains(sorted[k]));
                let i = choose|i: int| 0 <= i < given.len() && given[i] == sorted[k];
                assert(given[i] == (all[i].0@, json::norm(all[i].1)));
                assert(members[k] == (all[i].0@, json::norm(all[i].1)->Ok_0));
            }
        } else {
            let k = choose|k: int|
                {
                    &&& 0 <= k < sorted.len()
                    &&& (#[trigger] sorted[k]).1 == Err::<Norm, NormFault>(
                        json::all_members(sorted)->Err_0,
                    )
                };
            assert(given.contains(sorted[k]));
            let i = choose|i: int| 0 <= i < given.len() && given[i] == sorted[k];
            assert(given[i] == (all[i].0@, json::norm(all[i].1)));
            assert(json::norm(all[i].1) == r);
        }
    }
}

/// The canonical text of an array is its items' texts in brackets, with commas
/// between them.
pub proof fn law_array_text_lists_the_items(items: Seq<Norm>)
    ensures
        json::canonical_text(Norm::Array(items)) == "["@ + text::joined(
            items.map_values(|n: Norm| json::canonical_text(n)),
            ","@,
        ) + "]"@,
{
    lemma_items_text(items);
}

proof fn lemma_items_text(items: Seq<Norm>)
    ensures
        json::items_text(items) == text::joined(
            items.map_values(|n: Norm| json::canonical_text(n)),
            ","@,
        ),
    decreases items.len(),
{
    let texts = items.map_values(|n: Norm| json::canonical_text(n));
    if items.len() > 0 {
        lemma_items_text(items.drop_last());
        assert(items.drop_last().map_values(|n: Norm| json::canonical_text(n))
            =~= texts.drop_last());
    }
}

/// The canonical text of a member: its key as a string, a colon, and its value.
pub open spec fn member_text(m: (Seq<char>, Norm)) -> Seq<char> {
    json_text::json_string(m.0) + ":"@ + json::canonical_text(m.1)
}

/// The canonical text of an object is its members' texts in braces, with commas
/// between them.
pub proof fn law_object_text_lists_the_members(members: Seq<(Seq<char>, Norm)>)
    ensures
        json::canonical_text(Norm::Object(members)) == "{"@ + text::joined(
            members.map_values(|m: (Seq<char>, Norm)| member_text(m)),
            ","@,
        ) + "}"@,
{
    lemma_members_text(members);
}

proof fn lemma_members_text(members: Seq<(Seq<char>, Norm)>)
    ensures
        json::members_text(members) == text::joined(
            members.map_values(|m: (Seq<char>, Norm)| member_text(m)),
            ","@,
        ),
    decreases members.len(),
{
    let texts = members.map_values(|m: (Seq<char>, Norm)| member_text(m));
    if members.len() > 0 {
        lemma_members_text(members.drop_last());
        assert(members.drop_last().map_values(|m: (Seq<char>, Norm)| member_text(m))
            =~= texts.drop_last());
    }
}

/// The canonical texts of the simple values.
pub proof fn law_simple_texts(numeral: Seq<char>, s: Seq<char>)
    ensures
        json::canonical_text(Norm::Null) == "null"@,
        json::canonical_text(Norm::Bool(true)) == "true"@,
        json::canonical_text(Norm::Bool(false)) == "false"@,
        json::canonical_text(Norm::Number(numeral)) == numeral,
        json::canonical_text(Norm::Text(s)) == json_text::json_string(s),
{
}

/// The bits of a double with this exponent, counted from that of one, and this
/// fraction stand for the fraction after a leading one, scaled by the exponent; with
/// the sign bit set, for its negative. Exponents reach from -1022 to 1023.
pub proof fn law_doubles_have_their_value(bits: u64, exponent: int, fraction: nat, shown: String)
    requires
        -1022 <= exponent <= 1023,
        fraction < 0x10_0000_0000_0000,
        bits == (1023 + exponent) * 0x10_0000_0000_0000 + fraction,
    ensures
        json::number_value(Json::Real { bits, text: shown }) == (0x10_0000_0000_0000 + fraction)
            * pow2((exponent + 1022) as nat),
        json::one() == pow2(52) * pow2(1022),
        json::is_finite(bits),
        json::number_value(
            Json::Real { bits: (bits + 0x8000_0000_0000_0000) as u64, text: shown },
        ) == -json::number_value(Json::Real { bits, text: shown }),
{
    lemma2_to64();
    lemma2_to64_rest();
    lemma_pow2_adds(52, 1022);
    let e = 1023 + exponent;
    assert(bits as int / 0x10_0000_0000_0000 == e && bits as int % 0x10_0000_0000_0000 == fraction);
    assert(bits < 0x8000_0000_0000_0000);
    let other = (bits + 0x8000_0000_0000_0000) as u64;
    assert(json::magnitude_bits(other) == bits as nat);
    assert(json::magnitude_bits(bits) == bits as nat);
    assert(json::steps(bits as nat) == (pow2(52) + fraction) * pow2((e - 1) as nat));
}

/// The least doubles stand for multiples of the least difference of two doubles.
pub proof fn law_least_doubles_count_steps(bits: u64, shown: String)
    requires
        bits < 0x10_0000_0000_0000,
    ensures
        json::number_value(Json::Real { bits, text: shown }) == bits,
        json::one() == pow2(1074),
{
    lemma2_to64();
    lemma2_to64_rest();
    assert(json::magnitude_bits(bits) == bits as nat);
}

/// A fault is reported as what it is, with the number's text or the key.
pub proof fn law_faults_are_reported(rendered: Seq<char>, key: Seq<char>)
    ensures
        normalize::fault_error(NormFault::NonCanonicalNumber(rendered)) == (
        NormalizationErrorView::NonCanonicalNumber { rendered }),
        normalize::fault_error(NormFault::DuplicateKey(key)) == (
        NormalizationErrorView::DuplicateKey { key }),
{
}

} // verus!
