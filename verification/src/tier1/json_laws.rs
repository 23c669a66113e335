//! Canonical bytes decide equality: equal values have equal bytes, different
//! values have different bytes.

use vstd::prelude::*;

use crate::json_text;
use crate::text;
use crate::tier1::json;
use crate::tier1::json::{Json, Norm, NormFault};

verus! {

/// The characters of numerals.
pub open spec fn is_numeral_char(c: char) -> bool {
    json_text::is_digit(c) || c == '-' || c == '+' || c == '.' || c == 'e' || c == 'E'
}

/// Whether text can stand for a number: it starts with a digit or a minus sign
/// and has only the characters of numerals.
pub open spec fn is_numeral(s: Seq<char>) -> bool {
    &&& s.len() > 0
    &&& json_text::is_digit(s[0]) || s[0] == '-'
    &&& forall|i: int| 0 <= i < s.len() ==> is_numeral_char(#[trigger] s[i])
}

/// Whether every finite real number in a value is given by a numeral that spells
/// it.
pub open spec fn well_spelled(value: Json) -> bool
    decreases value,
{
    match value {
        Json::Real { bits, text } => json::is_finite(bits) ==> json::spells(bits, text@),
        Json::Array(items) => items_spelled(items@),
        Json::Object(entries) => entries_spelled(entries@),
        _ => true,
    }
}

/// Whether every real number in the items is given by a numeral that
/// spells it.
pub open spec fn items_spelled(items: Seq<Json>) -> bool
    decreases items,
{
    items.len() > 0 ==> items_spelled(items.drop_last()) && well_spelled(items.last())
}

/// Whether every real number in the members is given by a numeral that
/// spells it.
pub open spec fn entries_spelled(entries: Seq<(String, Json)>) -> bool
    decreases entries,
{
    entries.len() > 0 ==> entries_spelled(entries.drop_last()) && well_spelled(entries.last().1)
}

/// Whether every number in a normal form is a numeral.
pub open spec fn spelled(n: Norm) -> bool
    decreases n,
{
    match n {
        Norm::Number(numeral) => is_numeral(numeral),
        Norm::Array(items) => all_spelled(items),
        Norm::Object(members) => members_spelled(members),
        _ => true,
    }
}

/// Whether every number in the items is a numeral.
pub open spec fn all_spelled(items: Seq<Norm>) -> bool
    decreases items,
{
    items.len() > 0 ==> spelled(items[0]) && all_spelled(items.drop_first())
}

/// Whether every number in the members is a numeral.
pub open spec fn members_spelled(members: Seq<(Seq<char>, Norm)>) -> bool
    decreases members,
{
    members.len() > 0 ==> spelled(members[0].1) && members_spelled(members.drop_first())
}

/// Whether text cannot continue the value before it: it is empty or starts with
/// a comma or a closing bracket.
pub open spec fn delimited(s: Seq<char>) -> bool {
    s.len() == 0 || s[0] == ',' || s[0] == ']' || s[0] == '}'
}

spec fn letter(n: Norm) -> char {
    match n {
        Norm::Null => 'n',
        Norm::Bool(b) => if b {
            't'
        } else {
            'f'
        },
        Norm::Number(numeral) => numeral[0],
        Norm::Text(_) => '"',
        Norm::Array(_) => '[',
        Norm::Object(_) => '{',
    }
}

proof fn lemma_letter(n: Norm)
    requires
        spelled(n),
    ensures
        json::canonical_text(n).len() > 0,
        json::canonical_text(n)[0] == letter(n),
        letter(n) != ',',
        letter(n) != ']',
        letter(n) != '}',
{
    reveal_strlit("null");
    reveal_strlit("true");
    reveal_strlit("false");
    reveal_strlit("[");
    reveal_strlit("{");
}

proof fn lemma_numeral_prefix(a: Seq<char>, x: Seq<char>, b: Seq<char>, y: Seq<char>)
    requires
        is_numeral(a),
        is_numeral(b),
        a + x == b + y,
        delimited(x),
        delimited(y),
    ensures
        a == b,
        x == y,
{
    let l = a + x;
    let r = b + y;
    if a.len() < b.len() {
        assert(r[a.len() as int] == b[a.len() as int]);
        assert(l[a.len() as int] == x[0]);
        assert(false);
    }
    if b.len() < a.len() {
        assert(l[b.len() as int] == a[b.len() as int]);
        assert(r[b.len() as int] == y[0]);
        assert(false);
    }
    assert(l.take(a.len() as int) =~= a);
    assert(r.take(a.len() as int) =~= b);
    json_text::lemma_strip(a, x, y);
}

#[verifier::spinoff_prover]
proof fn lemma_items_front(items: Seq<Norm>)
    requires
        items.len() > 0,
    ensures
        json::items_text(items) == json::canonical_text(items[0]) + (if items.len() > 1 {
            ","@ + json::items_text(items.drop_first())
        } else {
            Seq::empty()
        }),
    decreases items.len(),
{
    if items.len() == 1 {
        assert(json::items_text(items) =~= json::canonical_text(items[0]) + Seq::<char>::empty());
    } else {
        let init = items.drop_last();
        lemma_items_front(init);
        assert(init.drop_first() =~= items.drop_first().drop_last());
        let last = json::canonical_text(items.last());
        if items.len() == 2 {
            assert(items.drop_first() =~= seq![items.last()]);
            assert(json::items_text(items.drop_first()) == last);
            assert(json::items_text(items) =~= json::canonical_text(items[0]) + (","@
                + json::items_text(items.drop_first())));
        } else {
            assert(items.drop_first().last() == items.last());
            assert(json::items_text(items) =~= json::canonical_text(items[0]) + (","@
                + json::items_text(items.drop_first())));
        }
    }
}

spec fn member_text(member: (Seq<char>, Norm)) -> Seq<char> {
    json_text::json_string(member.0) + ":"@ + json::canonical_text(member.1)
}

#[verifier::spinoff_prover]
proof fn lemma_members_front(members: Seq<(Seq<char>, Norm)>)
    requires
        members.len() > 0,
    ensures
        json::members_text(members) == member_text(members[0]) + (if members.len() > 1 {
            ","@ + json::members_text(members.drop_first())
        } else {
            Seq::empty()
        }),
    decreases members.len(),
{
    if members.len() == 1 {
        assert(json::members_text(members) =~= member_text(members[0]) + Seq::<char>::empty());
    } else {
        let init = members.drop_last();
        lemma_members_front(init);
        assert(init.drop_first() =~= members.drop_first().drop_last());
        let last = member_text(members.last());
        if members.len() == 2 {
            assert(members.drop_first() =~= seq![members.last()]);
            assert(json::members_text(members.drop_first()) == last);
            assert(json::members_text(members) =~= member_text(members[0]) + (","@
                + json::members_text(members.drop_first())));
        } else {
            assert(members.drop_first().last() == members.last());
            assert(json::members_text(members) =~= member_text(members[0]) + (","@
                + json::members_text(members.drop_first())));
        }
    }
}

/// What follows the first member's value.
spec fn after_member(members: Seq<(Seq<char>, Norm)>, tail: Seq<char>) -> Seq<char> {
    if members.len() > 1 {
        ","@ + (json::members_text(members.drop_first()) + tail)
    } else {
        tail
    }
}

proof fn lemma_members_head(members: Seq<(Seq<char>, Norm)>, tail: Seq<char>)
    requires
        members.len() > 0,
    ensures
        json::members_text(members) + tail == json_text::json_string(members[0].0) + (":"@ + (
        json::canonical_text(members[0].1) + after_member(members, tail))),
{
    lemma_members_front(members);
    let value = json::canonical_text(members[0].1);
    if members.len() > 1 {
        let others = json::members_text(members.drop_first());
        assert(json::members_text(members) + tail =~= json_text::json_string(members[0].0) + (":"@
            + (value + (","@ + (others + tail)))));
    } else {
        assert(json::members_text(members) + tail =~= json_text::json_string(members[0].0) + (":"@
            + (value + tail)));
    }
}

/// A canonical text can be told from what follows it.
pub proof fn lemma_text_prefix(a: Norm, x: Seq<char>, b: Norm, y: Seq<char>)
    requires
        spelled(a),
        spelled(b),
        delimited(x),
        delimited(y),
        json::canonical_text(a) + x == json::canonical_text(b) + y,
    ensures
        a == b,
        x == y,
    decreases a,
{
    lemma_letter(a);
    lemma_letter(b);
    let l = json::canonical_text(a) + x;
    let r = json::canonical_text(b) + y;
    assert(l[0] == letter(a));
    assert(r[0] == letter(b));
    match a {
        Norm::Null => {
            assert(b is Null);
            json_text::lemma_strip(json::canonical_text(a), x, y);
        },
        Norm::Bool(_) => {
            assert(b == a);
            json_text::lemma_strip(json::canonical_text(a), x, y);
        },
        Norm::Number(n) => {
            assert(b is Number);
            lemma_numeral_prefix(n, x, b->Number_0, y);
        },
        Norm::Text(s) => {
            assert(b is Text);
            json_text::lemma_json_string_prefix(s, x, b->Text_0, y);
        },
        Norm::Array(items) => {
            assert(b is Array);
            let others = b->Array_0;
            let tx = "]"@ + x;
            let ty = "]"@ + y;
            assert(l =~= "["@ + (json::items_text(items) + tx));
            assert(r =~= "["@ + (json::items_text(others) + ty));
            json_text::lemma_strip(
                "["@,
                json::items_text(items) + tx,
                json::items_text(others) + ty,
            );
            lemma_items_prefix(items, x, others, y);
        },
        Norm::Object(members) => {
            assert(b is Object);
            let others = b->Object_0;
            let tx = "}"@ + x;
            let ty = "}"@ + y;
            assert(l =~= "{"@ + (json::members_text(members) + tx));
            assert(r =~= "{"@ + (json::members_text(others) + ty));
            json_text::lemma_strip(
                "{"@,
                json::members_text(members) + tx,
                json::members_text(others) + ty,
            );
            lemma_members_prefix(members, x, others, y);
        },
    }
}

#[verifier::spinoff_prover]
proof fn lemma_items_prefix(a: Seq<Norm>, x: Seq<char>, b: Seq<Norm>, y: Seq<char>)
    requires
        all_spelled(a),
        all_spelled(b),
        json::items_text(a) + ("]"@ + x) == json::items_text(b) + ("]"@ + y),
    ensures
        a == b,
        x == y,
    decreases a,
{
    reveal_strlit("]");
    reveal_strlit(",");
    let tx = "]"@ + x;
    let ty = "]"@ + y;
    let l = json::items_text(a) + tx;
    let r = json::items_text(b) + ty;
    if a.len() == 0 && b.len() == 0 {
        assert(l =~= tx);
        assert(r =~= ty);
        json_text::lemma_strip("]"@, x, y);
        assert(a =~= b);
    } else if a.len() == 0 {
        lemma_items_front(b);
        lemma_letter(b[0]);
        assert(l[0] == ']');
        assert(r[0] == letter(b[0]));
        assert(false);
    } else if b.len() == 0 {
        lemma_items_front(a);
        lemma_letter(a[0]);
        assert(r[0] == ']');
        assert(l[0] == letter(a[0]));
        assert(false);
    } else {
        lemma_items_front(a);
        lemma_items_front(b);
        let ra = if a.len() > 1 {
            ","@ + (json::items_text(a.drop_first()) + tx)
        } else {
            tx
        };
        let rb = if b.len() > 1 {
            ","@ + (json::items_text(b.drop_first()) + ty)
        } else {
            ty
        };
        assert(l =~= json::canonical_text(a[0]) + ra);
        assert(r =~= json::canonical_text(b[0]) + rb);
        lemma_text_prefix(a[0], ra, b[0], rb);
        assert(ra[0] == rb[0]);
        assert((a.len() > 1) == (b.len() > 1));
        if a.len() > 1 {
            json_text::lemma_strip(
                ","@,
                json::items_text(a.drop_first()) + tx,
                json::items_text(b.drop_first()) + ty,
            );
            lemma_items_prefix(a.drop_first(), x, b.drop_first(), y);
        } else {
            json_text::lemma_strip("]"@, x, y);
            assert(a.drop_first() =~= b.drop_first());
        }
        assert(a =~= seq![a[0]] + a.drop_first());
        assert(b =~= seq![b[0]] + b.drop_first());
    }
}

#[verifier::spinoff_prover]
proof fn lemma_members_prefix(
    a: Seq<(Seq<char>, Norm)>,
    x: Seq<char>,
    b: Seq<(Seq<char>, Norm)>,
    y: Seq<char>,
)
    requires
        members_spelled(a),
        members_spelled(b),
        json::members_text(a) + ("}"@ + x) == json::members_text(b) + ("}"@ + y),
    ensures
        a == b,
        x == y,
    decreases a,
{
    reveal_strlit("}");
    reveal_strlit(",");
    let tx = "}"@ + x;
    let ty = "}"@ + y;
    let l = json::members_text(a) + tx;
    let r = json::members_text(b) + ty;
    if a.len() == 0 && b.len() == 0 {
        assert(l =~= tx);
        assert(r =~= ty);
        json_text::lemma_strip("}"@, x, y);
        assert(a =~= b);
    } else if a.len() == 0 {
        lemma_members_front(b);
        assert(l[0] == '}');
        assert(r[0] == '"');
        assert(false);
    } else if b.len() == 0 {
        lemma_members_front(a);
        assert(r[0] == '}');
        assert(l[0] == '"');
        assert(false);
    } else {
        lemma_members_head(a, tx);
        lemma_members_head(b, ty);
        let ra = after_member(a, tx);
        let rb = after_member(b, ty);
        let va = json::canonical_text(a[0].1) + ra;
        let vb = json::canonical_text(b[0].1) + rb;
        json_text::lemma_json_string_prefix(a[0].0, ":"@ + va, b[0].0, ":"@ + vb);
        json_text::lemma_strip(":"@, va, vb);
        assert(decreases_to!(a => a[0].1));
        lemma_text_prefix(a[0].1, ra, b[0].1, rb);
        assert(ra[0] == rb[0]);
        assert((a.len() > 1) == (b.len() > 1));
        if a.len() > 1 {
            json_text::lemma_strip(
                ","@,
                json::members_text(a.drop_first()) + tx,
                json::members_text(b.drop_first()) + ty,
            );
            lemma_members_prefix(a.drop_first(), x, b.drop_first(), y);
        } else {
            json_text::lemma_strip("}"@, x, y);
            assert(a.drop_first() =~= b.drop_first());
        }
        assert(a =~= seq![a[0]] + a.drop_first());
        assert(b =~= seq![b[0]] + b.drop_first());
    }
}

proof fn lemma_decimal_is_numeral(n: int)
    ensures
        is_numeral(text::signed_decimal(n)),
        n >= 0 ==> text::signed_decimal(n) == text::decimal(n as nat),
{
    reveal_strlit("-");
    let magnitude = if n < 0 {
        -n
    } else {
        n
    } as nat;
    json_text::lemma_decimal_digits(magnitude);
    let s = text::signed_decimal(n);
    let d = text::decimal(magnitude);
    assert forall|i: int| 0 <= i < s.len() implies is_numeral_char(#[trigger] s[i]) by {
        if n < 0 {
            if i > 0 {
                assert(s[i] == d[i - 1]);
            }
        } else {
            assert(s[i] == d[i]);
        }
    }
    if n >= 0 {
        assert(s[0] == d[0]);
    }
}

proof fn lemma_spelling_is_numeral(bits: u64, s: Seq<char>)
    requires
        json::spells(bits, s),
    ensures
        is_numeral(s),
{
    let body = json::without_minus(s);
    let digits = json::without_point(body);
    assert forall|i: int| 0 <= i < body.len() implies is_numeral_char(#[trigger] body[i]) by {
        if body.contains('.') {
            let p = body.index_of('.');
            if i < p {
                assert(digits[i] == body[i]);
            } else if i > p {
                assert(digits[i - 1] == body[i]);
            }
        } else {
            assert(digits[i] == body[i]);
        }
    }
    assert forall|i: int| 0 <= i < s.len() implies is_numeral_char(#[trigger] s[i]) by {
        if json::has_minus(s) {
            if i > 0 {
                assert(s[i] == body[i - 1]);
            }
        } else {
            assert(s[i] == body[i]);
        }
    }
    if !json::has_minus(s) {
        assert(s[0] == body[0]);
    }
}

spec fn each_spelled(items: Seq<Norm>) -> bool {
    forall|i: int| 0 <= i < items.len() ==> spelled(#[trigger] items[i])
}

proof fn lemma_each_spelled(items: Seq<Norm>)
    requires
        each_spelled(items),
    ensures
        all_spelled(items),
    decreases items.len(),
{
    if items.len() > 0 {
        let rest = items.drop_first();
        assert forall|i: int| 0 <= i < rest.len() implies spelled(#[trigger] rest[i]) by {
            assert(rest[i] == items[i + 1]);
        }
        lemma_each_spelled(rest);
    }
}

spec fn each_member_spelled(members: Seq<(Seq<char>, Norm)>) -> bool {
    forall|i: int| 0 <= i < members.len() ==> spelled((#[trigger] members[i]).1)
}

proof fn lemma_each_member_spelled(members: Seq<(Seq<char>, Norm)>)
    requires
        each_member_spelled(members),
    ensures
        members_spelled(members),
    decreases members.len(),
{
    if members.len() > 0 {
        let rest = members.drop_first();
        assert forall|i: int| 0 <= i < rest.len() implies spelled((#[trigger] rest[i]).1) by {
            assert(rest[i] == members[i + 1]);
        }
        lemma_each_member_spelled(rest);
    }
}

/// Whether the values of members that have a normal form have numerals for
/// their numbers.
spec fn results_spelled(members: Seq<(Seq<char>, Result<Norm, NormFault>)>) -> bool {
    forall|i: int|
        0 <= i < members.len() && (#[trigger] members[i]).1 is Ok ==> spelled(members[i].1->Ok_0)
}

proof fn lemma_all_members_spelled(members: Seq<(Seq<char>, Result<Norm, NormFault>)>)
    requires
        results_spelled(members),
        json::all_members(members) is Ok,
    ensures
        each_member_spelled(json::all_members(members)->Ok_0),
        json::all_members(members)->Ok_0.len() == members.len(),
    decreases members.len(),
{
    if members.len() > 0 {
        let init = members.drop_last();
        assert forall|i: int| 0 <= i < init.len() && (#[trigger] init[i]).1 is Ok implies spelled(
            init[i].1->Ok_0,
        ) by {
            assert(init[i] == members[i]);
        }
        lemma_all_members_spelled(init);
        assert(members[members.len() - 1] == members.last());
    }
}

proof fn lemma_place_bounds<V>(members: Seq<(Seq<char>, V)>, key: Seq<char>)
    ensures
        0 <= json::place(members, key) <= members.len(),
        forall|i: int|
            0 <= i < json::place(members, key) ==> text::lex_le((#[trigger] members[i]).0, key),
        json::place(members, key) < members.len() ==> !text::lex_le(
            members[json::place(members, key)].0,
            key,
        ),
    decreases members.len(),
{
    if members.len() > 0 && text::lex_le(members[0].0, key) {
        let rest = members.drop_first();
        lemma_place_bounds(rest, key);
        let p = json::place(rest, key);
        assert forall|i: int| 0 <= i < 1 + p implies text::lex_le((#[trigger] members[i]).0, key) by {
            if i > 0 {
                assert(members[i] == rest[i - 1]);
            }
        }
        if p < rest.len() {
            assert(members[1 + p] == rest[p]);
        }
    }
}

/// Whether the keys of members ascend.
pub open spec fn keys_ascend<V>(members: Seq<(Seq<char>, V)>) -> bool {
    forall|i: int, j: int|
        0 <= i < j < members.len() ==> text::lex_le(
            (#[trigger] members[i]).0,
            (#[trigger] members[j]).0,
        )
}

pub proof fn lemma_by_key<V>(members: Seq<(Seq<char>, V)>)
    ensures
        json::by_key(members).len() == members.len(),
        json::by_key(members).to_multiset() == members.to_multiset(),
        keys_ascend(json::by_key(members)),
    decreases members.len(),
{
    if members.len() > 0 {
        let init = members.drop_last();
        let last = members.last();
        lemma_by_key(init);
        let rest = json::by_key(init);
        let at = json::place(rest, last.0);
        lemma_place_bounds(rest, last.0);
        let all = rest.insert(at, last);
        vstd::seq_lib::to_multiset_insert(rest, at, last);
        vstd::seq_lib::to_multiset_build(init, last);
        assert(init.push(last) =~= members);
        text::lemma_lex_order();
        assert forall|i: int, j: int| 0 <= i < j < all.len() implies text::lex_le(
            (#[trigger] all[i]).0,
            (#[trigger] all[j]).0,
        ) by {
            let p = if i < at {
                i
            } else {
                i - 1
            };
            let q = if j < at {
                j
            } else {
                j - 1
            };
            if i != at && j != at {
                assert(all[i] == rest[p]);
                assert(all[j] == rest[q]);
            } else if j == at {
                assert(all[i] == rest[i]);
            } else {
                assert(all[j] == rest[q]);
                assert(text::lex_le(last.0, rest[at].0));
                if q > at {
                    assert(text::lex_le(rest[at].0, rest[q].0));
                }
            }
        }
    }
}

proof fn lemma_by_key_spelled(members: Seq<(Seq<char>, Result<Norm, NormFault>)>)
    requires
        results_spelled(members),
    ensures
        results_spelled(json::by_key(members)),
{
    lemma_by_key(members);
    let sorted = json::by_key(members);
    sorted.to_multiset_ensures();
    members.to_multiset_ensures();
    assert forall|i: int| 0 <= i < sorted.len() && (#[trigger] sorted[i]).1 is Ok implies spelled(
        sorted[i].1->Ok_0,
    ) by {
        assert(sorted.contains(sorted[i]));
        assert(members.to_multiset().count(sorted[i]) > 0);
        assert(members.contains(sorted[i]));
        let j = choose|j: int| 0 <= j < members.len() && members[j] == sorted[i];
        assert(members[j].1 is Ok);
    }
}

proof fn lemma_norm_spelled(value: Json)
    requires
        well_spelled(value),
        json::norm(value) is Ok,
    ensures
        spelled(json::norm(value)->Ok_0),
    decreases value,
{
    match value {
        Json::Unsigned(n) => {
            lemma_decimal_is_numeral(n as int);
        },
        Json::Negative(n) => {
            lemma_decimal_is_numeral(n as int);
        },
        Json::Real { bits, text } => {
            match json::written_integer(bits) {
                Some(n) => {
                    lemma_decimal_is_numeral(n);
                },
                None => {
                    if json::is_finite(bits) {
                        lemma_spelling_is_numeral(bits, text@);
                    }
                },
            }
        },
        Json::Array(items) => {
            lemma_items_norm_spelled(items@);
            lemma_each_spelled(json::norm_items(items@)->Ok_0);
        },
        Json::Object(entries) => {
            lemma_entries_norm_spelled(entries@);
            let members = json::norm_entries(entries@);
            lemma_by_key_spelled(members);
            lemma_all_members_spelled(json::by_key(members));
            lemma_each_member_spelled(json::all_members(json::by_key(members))->Ok_0);
        },
        _ => {},
    }
}

proof fn lemma_items_norm_spelled(items: Seq<Json>)
    requires
        items_spelled(items),
        json::norm_items(items) is Ok,
    ensures
        each_spelled(json::norm_items(items)->Ok_0),
    decreases items,
{
    if items.len() > 0 {
        lemma_items_norm_spelled(items.drop_last());
        lemma_norm_spelled(items.last());
    }
}

proof fn lemma_entries_norm_spelled(entries: Seq<(String, Json)>)
    requires
        entries_spelled(entries),
    ensures
        results_spelled(json::norm_entries(entries)),
    decreases entries,
{
    if entries.len() > 0 {
        lemma_entries_norm_spelled(entries.drop_last());
        if json::norm(entries.last().1) is Ok {
            assert(decreases_to!(entries => entries.last().1));
            lemma_norm_spelled(entries.last().1);
        }
        let init = json::norm_entries(entries.drop_last());
        let all = json::norm_entries(entries);
        assert forall|i: int| 0 <= i < all.len() && (#[trigger] all[i]).1 is Ok implies spelled(
            all[i].1->Ok_0,
        ) by {
            if i < init.len() {
                assert(all[i] == init[i]);
            }
        }
    }
}

/// Canonical bytes decide equality: two arguments have the same canonical text
/// exactly when they have the same normal form.
pub proof fn law_canonical_text_decides_equality(a: Json, b: Json)
    requires
        well_spelled(a),
        well_spelled(b),
        json::norm(a) is Ok,
        json::norm(b) is Ok,
    ensures
        json::canonical_text(json::norm(a)->Ok_0) == json::canonical_text(json::norm(b)->Ok_0)
            <==> json::norm(a)->Ok_0 == json::norm(b)->Ok_0,
{
    lemma_norm_spelled(a);
    lemma_norm_spelled(b);
    let x = json::canonical_text(json::norm(a)->Ok_0);
    let y = json::canonical_text(json::norm(b)->Ok_0);
    let none = Seq::<char>::empty();
    if x == y {
        assert(x + none == y + none);
        lemma_text_prefix(json::norm(a)->Ok_0, none, json::norm(b)->Ok_0, none);
    }
}

pub proof fn lemma_repeated_key_none<V>(members: Seq<(Seq<char>, V)>)
    requires
        keys_ascend(members),
        json::repeated_key(members) is None,
    ensures
        forall|i: int, j: int|
            0 <= i < j < members.len() ==> (#[trigger] members[i]).0 != (#[trigger] members[j]).0,
    decreases members.len(),
{
    if members.len() >= 2 {
        let rest = members.drop_first();
        assert forall|i: int, j: int| 0 <= i < j < rest.len() implies text::lex_le(
            (#[trigger] rest[i]).0,
            (#[trigger] rest[j]).0,
        ) by {
            assert(rest[i] == members[i + 1]);
            assert(rest[j] == members[j + 1]);
        }
        lemma_repeated_key_none(rest);
        text::lemma_lex_order();
        assert forall|i: int, j: int| 0 <= i < j < members.len() implies (#[trigger] members[i]).0
            != (#[trigger] members[j]).0 by {
            if i > 0 {
                assert(members[i] == rest[i - 1]);
                assert(members[j] == rest[j - 1]);
            } else if j > 1 {
                assert(text::lex_le(members[0].0, members[1].0));
                assert(text::lex_le(members[1].0, members[j].0));
                assert(members[1] == rest[0]);
                assert(members[j] == rest[j - 1]);
            }
        }
    }
}

spec fn keys<V>(members: Seq<(Seq<char>, V)>) -> Seq<Seq<char>> {
    members.map_values(|m: (Seq<char>, V)| m.0)
}

proof fn lemma_keys_multiset<V>(a: Seq<(Seq<char>, V)>, b: Seq<(Seq<char>, V)>)
    requires
        a.to_multiset() == b.to_multiset(),
    ensures
        keys(a).to_multiset() == keys(b).to_multiset(),
    decreases a.len(),
{
    a.to_multiset_ensures();
    b.to_multiset_ensures();
    assert(a.len() == b.len());
    if a.len() == 0 {
        assert(a =~= b);
    } else {
        let i = a.len() - 1;
        assert(a.contains(a[i]));
        assert(b.to_multiset().count(a[i]) > 0);
        let j = choose|j: int| 0 <= j < b.len() && b[j] == a[i];
        assert(a.remove(i).to_multiset() =~= a.to_multiset().remove(a[i]));
        assert(b.remove(j).to_multiset() =~= b.to_multiset().remove(a[i]));
        lemma_keys_multiset(a.remove(i), b.remove(j));
        keys(a).to_multiset_ensures();
        keys(b).to_multiset_ensures();
        assert(keys(a).remove(i) =~= keys(a.remove(i)));
        assert(keys(b).remove(j) =~= keys(b.remove(j)));
        assert(keys(a)[i] == keys(b)[j]);
        assert(keys(a).contains(keys(a)[i]));
        assert(keys(b).contains(keys(b)[j]));
        assert(keys(a).to_multiset() =~= keys(a).remove(i).to_multiset().insert(keys(a)[i]));
        assert(keys(b).to_multiset() =~= keys(b).remove(j).to_multiset().insert(keys(b)[j]));
    }
}

proof fn lemma_repeated_key_by_keys<V>(a: Seq<(Seq<char>, V)>, b: Seq<(Seq<char>, V)>)
    requires
        keys(a) == keys(b),
    ensures
        json::repeated_key(a) == json::repeated_key(b),
    decreases a.len(),
{
    assert(a.len() == keys(a).len());
    assert(b.len() == keys(b).len());
    if a.len() >= 2 {
        assert(keys(a)[0] == keys(b)[0]);
        assert(keys(a)[1] == keys(b)[1]);
        assert(keys(a.drop_first()) =~= keys(a).drop_first());
        assert(keys(b.drop_first()) =~= keys(b).drop_first());
        lemma_repeated_key_by_keys(a.drop_first(), b.drop_first());
    }
}

/// The order of an object's members does not matter: members in another order
/// give the same normal form, or the same fault.
pub proof fn law_member_order_is_irrelevant(a: Vec<(String, Json)>, b: Vec<(String, Json)>)
    requires
        json::norm_entries(a@).to_multiset() == json::norm_entries(b@).to_multiset(),
    ensures
        json::norm(Json::Object(a)) == json::norm(Json::Object(b)),
{
    let ma = json::norm_entries(a@);
    let mb = json::norm_entries(b@);
    lemma_by_key(ma);
    lemma_by_key(mb);
    let sa = json::by_key(ma);
    let sb = json::by_key(mb);
    lemma_keys_multiset(sa, sb);
    text::lemma_lex_order();
    let order = text::lex_order();
    assert forall|i: int, j: int| 0 <= i < j < keys(sa).len() implies #[trigger] order(
        keys(sa)[i],
        keys(sa)[j],
    ) by {
        assert(text::lex_le(sa[i].0, sa[j].0));
    }
    assert forall|i: int, j: int| 0 <= i < j < keys(sb).len() implies #[trigger] order(
        keys(sb)[i],
        keys(sb)[j],
    ) by {
        assert(text::lex_le(sb[i].0, sb[j].0));
    }
    vstd::seq_lib::lemma_sorted_unique(keys(sa), keys(sb), order);
    lemma_repeated_key_by_keys(sa, sb);
    if json::repeated_key(sa) is None {
        lemma_repeated_key_none(sa);
        lemma_repeated_key_none(sb);
        sa.to_multiset_ensures();
        sb.to_multiset_ensures();
        assert forall|i: int| 0 <= i < sa.len() implies sa[i] == sb[i] by {
            assert(sa.contains(sa[i]));
            assert(sb.to_multiset().count(sa[i]) > 0);
            assert(sb.contains(sa[i]));
            let j = choose|j: int| 0 <= j < sb.len() && sb[j] == sa[i];
            assert(keys(sa)[i] == keys(sb)[i]);
            if i < j {
                assert(sb[i].0 != sb[j].0);
            } else if j < i {
                assert(sb[j].0 != sb[i].0);
            }
        }
        assert(sa =~= sb);
    }
}

} // verus!
