//! JSON text of strings and of the values that a subtree hash covers.

use vstd::prelude::*;
use vstd::string::*;

use crate::digest;
use crate::goal_model::model::Resolution;
use crate::text;
use crate::types::{IntentSignature, IntentView, TokenView, ValidityToken};

verus! {

/// How a character stands inside a JSON string.
pub open spec fn escape(c: char) -> Seq<char> {
    if c == '"' {
        seq!['\\', '"']
    } else if c == '\\' {
        seq!['\\', '\\']
    } else if c == '\u{8}' {
        seq!['\\', 'b']
    } else if c == '\t' {
        seq!['\\', 't']
    } else if c == '\n' {
        seq!['\\', 'n']
    } else if c == '\u{c}' {
        seq!['\\', 'f']
    } else if c == '\r' {
        seq!['\\', 'r']
    } else if (c as int) < 32 {
        seq![
            '\\',
            'u',
            '0',
            '0',
            digest::hex_digit(c as int / 16),
            digest::hex_digit(c as int % 16),
        ]
    } else {
        seq![c]
    }
}

/// The characters of `s`, each as it stands inside a JSON string.
pub open spec fn escaped(s: Seq<char>) -> Seq<char>
    decreases s.len(),
{
    if s.len() == 0 {
        Seq::empty()
    } else {
        escape(s[0]) + escaped(s.drop_first())
    }
}

/// `s` as a JSON string, quotation marks included.
pub open spec fn json_string(s: Seq<char>) -> Seq<char> {
    seq!['"'] + escaped(s) + seq!['"']
}

/// The JSON text of a resolution.
pub open spec fn resolution_json(r: Resolution) -> Seq<char> {
    match r {
        Resolution::Open => "\"Open\""@,
        Resolution::Accepted => "\"Accepted\""@,
        Resolution::Rejected => "\"Rejected\""@,
        Resolution::Inconclusive => "\"Inconclusive\""@,
    }
}

/// The JSON text of an intent signature.
pub open spec fn intent_json(i: IntentView) -> Seq<char> {
    "{\"intent_type\":"@ + json_string(i.intent_type) + ",\"target_type\":"@ + json_string(
        i.target_type,
    ) + ",\"target_ref\":"@ + json_string(i.target_ref) + ",\"scope\":"@ + json_string(i.scope)
        + "}"@
}

/// The JSON text of a validity token.
pub open spec fn token_json(t: TokenView) -> Seq<char> {
    match t {
        TokenView::ContentHash(h) => "{\"ContentHash\":"@ + json_string(h) + "}"@,
        TokenView::Ttl { issued_at, ttl } => "{\"Ttl\":{\"issued_at\":"@ + text::decimal(
            issued_at as nat,
        ) + ",\"ttl\":"@ + text::decimal(ttl as nat) + "}}"@,
        TokenView::EventDriven { subscription, last_seen } => {
            "{\"EventDriven\":{\"subscription\":"@ + json_string(subscription)
                + ",\"last_seen\":"@ + text::decimal(last_seen as nat) + "}}"@
        },
    }
}

/// Calls `serde_json::to_string` on a string slice.
///
/// The contract claims the JSON string that comes back, character by
/// character: quotation marks around it, a backslash before quotation marks and
/// backslashes, the short escapes for backspace, tab, line feed, form feed and
/// carriage return, `\u00` and two lower-case hexadecimal digits for the other
/// characters below `U+0020`, and every other character as it is. Writing a
/// string slice to memory does not fail.
#[verifier::external_body]
pub(crate) fn render_string(s: &str) -> (r: String)
    ensures
        r@ == json_string(s@),
{
    serde_json::to_string(s).expect("a string slice serializes to JSON")
}

/// Renders a resolution as JSON.
pub fn render_resolution(r: Resolution) -> (s: String)
    ensures
        s@ == resolution_json(r),
{
    match r {
        Resolution::Open => "\"Open\"".to_owned(),
        Resolution::Accepted => "\"Accepted\"".to_owned(),
        Resolution::Rejected => "\"Rejected\"".to_owned(),
        Resolution::Inconclusive => "\"Inconclusive\"".to_owned(),
    }
}

/// Renders an intent signature as JSON.
pub fn render_intent(i: &IntentSignature) -> (r: String)
    ensures
        r@ == intent_json(i@),
{
    let mut out = "{\"intent_type\":".to_owned();
    out.append(render_string(i.intent_type.0.as_str()).as_str());
    out.append(",\"target_type\":");
    out.append(render_string(i.target_type.0.as_str()).as_str());
    out.append(",\"target_ref\":");
    out.append(render_string(i.target_ref.0.as_str()).as_str());
    out.append(",\"scope\":");
    out.append(render_string(i.scope.0.as_str()).as_str());
    out.append("}");
    out
}

/// Renders a validity token as JSON.
pub fn render_token(t: &ValidityToken) -> (r: String)
    ensures
        r@ == token_json(t@),
{
    match t {
        ValidityToken::ContentHash(h) => {
            let mut out = "{\"ContentHash\":".to_owned();
            out.append(render_string(h.0.as_str()).as_str());
            out.append("}");
            out
        },
        ValidityToken::Ttl { issued_at, ttl } => {
            let mut out = "{\"Ttl\":{\"issued_at\":".to_owned();
            text::push_decimal(&mut out, issued_at.0);
            out.append(",\"ttl\":");
            text::push_decimal(&mut out, ttl.0);
            out.append("}}");
            out
        },
        ValidityToken::EventDriven { subscription, last_seen } => {
            let mut out = "{\"EventDriven\":{\"subscription\":".to_owned();
            out.append(render_string(subscription.0.as_str()).as_str());
            out.append(",\"last_seen\":");
            text::push_decimal(&mut out, last_seen.0);
            out.append("}}");
            out
        },
    }
}

/// What follows a common beginning is determined by the whole.
pub proof fn lemma_strip(p: Seq<char>, x: Seq<char>, y: Seq<char>)
    requires
        p + x == p + y,
    ensures
        x == y,
{
    assert((p + x).skip(p.len() as int) =~= x);
    assert((p + y).skip(p.len() as int) =~= y);
}

proof fn lemma_escape_prefix(a: char, x: Seq<char>, b: char, y: Seq<char>)
    requires
        escape(a) + x == escape(b) + y,
    ensures
        a == b,
        x == y,
{
    let l = escape(a) + x;
    let r = escape(b) + y;
    assert(l[0] == escape(a)[0]);
    assert(r[0] == escape(b)[0]);
    if escape(a).len() > 1 {
        assert(l[1] == escape(a)[1]);
        assert(l[0] == '\\');
        assert(escape(b).len() > 1);
        assert(r[1] == escape(b)[1]);
        if escape(a)[1] == 'u' {
            assert(escape(b)[1] == 'u');
            assert(l[4] == escape(a)[4]);
            assert(r[4] == escape(b)[4]);
            assert(l[5] == escape(a)[5]);
            assert(r[5] == escape(b)[5]);
            assert(a as int / 16 == b as int / 16);
            assert(a as int % 16 == b as int % 16);
            assert(a as int == b as int);
        }
    }
    assert(a == b);
    lemma_strip(escape(a), x, y);
}

proof fn lemma_escaped_prefix(a: Seq<char>, x: Seq<char>, b: Seq<char>, y: Seq<char>)
    requires
        escaped(a) + (seq!['"'] + x) == escaped(b) + (seq!['"'] + y),
    ensures
        a == b,
        x == y,
    decreases a.len(),
{
    let tx = seq!['"'] + x;
    let ty = seq!['"'] + y;
    let l = escaped(a) + tx;
    let r = escaped(b) + ty;
    if a.len() == 0 && b.len() == 0 {
        assert(l =~= tx);
        assert(r =~= ty);
        lemma_strip(seq!['"'], x, y);
        assert(a =~= b);
    } else if a.len() == 0 {
        assert(l[0] == '"');
        assert(r[0] == escape(b[0])[0]);
        assert(false);
    } else if b.len() == 0 {
        assert(r[0] == '"');
        assert(l[0] == escape(a[0])[0]);
        assert(false);
    } else {
        let ra = escaped(a.drop_first()) + tx;
        let rb = escaped(b.drop_first()) + ty;
        assert(l =~= escape(a[0]) + ra);
        assert(r =~= escape(b[0]) + rb);
        lemma_escape_prefix(a[0], ra, b[0], rb);
        lemma_escaped_prefix(a.drop_first(), x, b.drop_first(), y);
        assert(a =~= seq![a[0]] + a.drop_first());
        assert(b =~= seq![b[0]] + b.drop_first());
    }
}

/// A JSON string can be told from what follows it.
pub proof fn lemma_json_string_prefix(a: Seq<char>, x: Seq<char>, b: Seq<char>, y: Seq<char>)
    requires
        json_string(a) + x == json_string(b) + y,
    ensures
        a == b,
        x == y,
{
    let l = escaped(a) + (seq!['"'] + x);
    let r = escaped(b) + (seq!['"'] + y);
    assert(json_string(a) + x =~= seq!['"'] + l);
    assert(json_string(b) + y =~= seq!['"'] + r);
    lemma_strip(seq!['"'], l, r);
    lemma_escaped_prefix(a, x, b, y);
}

/// Whether `c` is a decimal digit.
pub open spec fn is_digit(c: char) -> bool {
    48 <= c as int <= 57
}

/// A numeral consists of digits.
pub proof fn lemma_decimal_digits(n: nat)
    ensures
        decimal_digits(text::decimal(n)),
        text::decimal(n).len() > 0,
    decreases n,
{
    if n >= 10 {
        lemma_decimal_digits(n / 10);
        let init = text::decimal(n / 10);
        assert forall|i: int| 0 <= i < text::decimal(n).len() implies is_digit(
            #[trigger] text::decimal(n)[i],
        ) by {
            if i < init.len() {
                assert(text::decimal(n)[i] == init[i]);
            }
        }
    }
}

/// Whether every character is a decimal digit.
pub open spec fn decimal_digits(s: Seq<char>) -> bool {
    forall|i: int| 0 <= i < s.len() ==> is_digit(#[trigger] s[i])
}

/// A numeral determines its number.
pub proof fn lemma_decimal_injective(a: nat, b: nat)
    requires
        text::decimal(a) == text::decimal(b),
    ensures
        a == b,
    decreases a,
{
    let x = text::decimal(a);
    let y = text::decimal(b);
    if a >= 10 {
        lemma_decimal_digits(a / 10);
        assert(x.len() > 1);
        assert(b >= 10);
        assert(x.drop_last() =~= text::decimal(a / 10));
        assert(y.drop_last() =~= text::decimal(b / 10));
        assert(x.last() == text::digit(a % 10));
        assert(y.last() == text::digit(b % 10));
        lemma_decimal_injective(a / 10, b / 10);
    } else {
        if b >= 10 {
            lemma_decimal_digits(b / 10);
            assert(y.len() > 1);
        }
        assert(x[0] == text::digit(a));
        assert(y[0] == text::digit(b));
    }
}

/// Two runs of digits, each followed by a character that is not a digit or by
/// nothing, are told apart from what follows them.
pub proof fn lemma_digits_prefix(a: Seq<char>, x: Seq<char>, b: Seq<char>, y: Seq<char>)
    requires
        decimal_digits(a),
        decimal_digits(b),
        a + x == b + y,
        x.len() > 0 ==> !is_digit(x[0]),
        y.len() > 0 ==> !is_digit(y[0]),
    ensures
        a == b,
        x == y,
{
    let l = a + x;
    let r = b + y;
    if a.len() < b.len() {
        assert(r[a.len() as int] == b[a.len() as int]);
        assert(l[a.len() as int] == x[0]);
        assert(false);
    }
    if b.len() < a.len() {
        assert(l[b.len() as int] == a[b.len() as int]);
        assert(r[b.len() as int] == y[0]);
        assert(false);
    }
    assert(l.take(a.len() as int) =~= a);
    assert(r.take(a.len() as int) =~= b);
    lemma_strip(a, x, y);
}

/// A numeral can be told from what follows it, where that is no digit.
pub proof fn lemma_decimal_prefix(a: nat, x: Seq<char>, b: nat, y: Seq<char>)
    requires
        text::decimal(a) + x == text::decimal(b) + y,
        x.len() > 0 ==> !is_digit(x[0]),
        y.len() > 0 ==> !is_digit(y[0]),
    ensures
        a == b,
        x == y,
{
    lemma_decimal_digits(a);
    lemma_decimal_digits(b);
    lemma_digits_prefix(text::decimal(a), x, text::decimal(b), y);
    lemma_decimal_injective(a, b);
}

/// Different resolutions have different JSON.
pub proof fn lemma_resolution_json_injective(a: Resolution, b: Resolution)
    requires
        resolution_json(a) == resolution_json(b),
    ensures
        a == b,
{
    reveal_strlit("\"Open\"");
    reveal_strlit("\"Accepted\"");
    reveal_strlit("\"Rejected\"");
    reveal_strlit("\"Inconclusive\"");
    let x = resolution_json(a);
    let y = resolution_json(b);
    assert(x[1] == y[1]);
}

proof fn lemma_regroup(
    a: Seq<char>,
    b: Seq<char>,
    c: Seq<char>,
    d: Seq<char>,
    e: Seq<char>,
    f: Seq<char>,
    g: Seq<char>,
    h: Seq<char>,
    i: Seq<char>,
)
    ensures
        a + b + c + d + e + f + g + h + i == a + (b + (c + (d + (e + (f + (g + (h + i))))))),
{
    assert(a + b + c + d + e + f + g + h + i =~= a + (b + (c + (d + (e + (f + (g + (h + i))))))));
}

/// Different intent signatures have different JSON.
pub proof fn lemma_intent_json_injective(a: IntentView, b: IntentView)
    requires
        intent_json(a) == intent_json(b),
    ensures
        a == b,
{
    let (k1, k2, k3, k4, e) = (
        "{\"intent_type\":"@,
        ",\"target_type\":"@,
        ",\"target_ref\":"@,
        ",\"scope\":"@,
        "}"@,
    );
    let a4 = json_string(a.scope) + e;
    let b4 = json_string(b.scope) + e;
    let a3 = json_string(a.target_ref) + (k4 + a4);
    let b3 = json_string(b.target_ref) + (k4 + b4);
    let a2 = json_string(a.target_type) + (k3 + a3);
    let b2 = json_string(b.target_type) + (k3 + b3);
    let a1 = json_string(a.intent_type) + (k2 + a2);
    let b1 = json_string(b.intent_type) + (k2 + b2);
    lemma_regroup(
        k1,
        json_string(a.intent_type),
        k2,
        json_string(a.target_type),
        k3,
        json_string(a.target_ref),
        k4,
        json_string(a.scope),
        e,
    );
    lemma_regroup(
        k1,
        json_string(b.intent_type),
        k2,
        json_string(b.target_type),
        k3,
        json_string(b.target_ref),
        k4,
        json_string(b.scope),
        e,
    );
    lemma_strip(k1, a1, b1);
    lemma_json_string_prefix(a.intent_type, k2 + a2, b.intent_type, k2 + b2);
    lemma_strip(k2, a2, b2);
    lemma_json_string_prefix(a.target_type, k3 + a3, b.target_type, k3 + b3);
    lemma_strip(k3, a3, b3);
    lemma_json_string_prefix(a.target_ref, k4 + a4, b.target_ref, k4 + b4);
    lemma_strip(k4, a4, b4);
    lemma_json_string_prefix(a.scope, e, b.scope, e);
    assert(a =~= b);
}

spec fn token_letter(t: TokenView) -> char {
    match t {
        TokenView::ContentHash(_) => 'C',
        TokenView::Ttl { .. } => 'T',
        TokenView::EventDriven { .. } => 'E',
    }
}

proof fn lemma_token_letter(t: TokenView)
    ensures
        token_json(t).len() > 2,
        token_json(t)[2] == token_letter(t),
{
    reveal_strlit("{\"ContentHash\":");
    reveal_strlit("{\"Ttl\":{\"issued_at\":");
    reveal_strlit("{\"EventDriven\":{\"subscription\":");
}

/// Different validity tokens have different JSON.
pub proof fn lemma_token_json_injective(a: TokenView, b: TokenView)
    requires
        token_json(a) == token_json(b),
    ensures
        a == b,
{
    lemma_token_letter(a);
    lemma_token_letter(b);
    match (a, b) {
        (TokenView::ContentHash(h), TokenView::ContentHash(g)) => {
            let k = "{\"ContentHash\":"@;
            let e = "}"@;
            assert(token_json(a) =~= k + (json_string(h) + e));
            assert(token_json(b) =~= k + (json_string(g) + e));
            lemma_strip(k, json_string(h) + e, json_string(g) + e);
            lemma_json_string_prefix(h, e, g, e);
        },
        (
            TokenView::Ttl { issued_at: i, ttl: t },
            TokenView::Ttl { issued_at: j, ttl: u },
        ) => {
            reveal_strlit(",\"ttl\":");
            reveal_strlit("}}");
            let k = "{\"Ttl\":{\"issued_at\":"@;
            let m = ",\"ttl\":"@;
            let e = "}}"@;
            let x = m + (text::decimal(t as nat) + e);
            let y = m + (text::decimal(u as nat) + e);
            assert(token_json(a) =~= k + (text::decimal(i as nat) + x));
            assert(token_json(b) =~= k + (text::decimal(j as nat) + y));
            lemma_strip(k, text::decimal(i as nat) + x, text::decimal(j as nat) + y);
            lemma_decimal_prefix(i as nat, x, j as nat, y);
            lemma_strip(m, text::decimal(t as nat) + e, text::decimal(u as nat) + e);
            lemma_decimal_prefix(t as nat, e, u as nat, e);
        },
        (
            TokenView::EventDriven { subscription: s, last_seen: l },
            TokenView::EventDriven { subscription: t, last_seen: m },
        ) => {
            reveal_strlit("}}");
            let k = "{\"EventDriven\":{\"subscription\":"@;
            let q = ",\"last_seen\":"@;
            let e = "}}"@;
            let x = q + (text::decimal(l as nat) + e);
            let y = q + (text::decimal(m as nat) + e);
            assert(token_json(a) =~= k + (json_string(s) + x));
            assert(token_json(b) =~= k + (json_string(t) + y));
            lemma_strip(k, json_string(s) + x, json_string(t) + y);
            lemma_json_string_prefix(s, x, t, y);
            lemma_strip(q, text::decimal(l as nat) + e, text::decimal(m as nat) + e);
            lemma_decimal_prefix(l as nat, e, m as nat, e);
        },
        _ => {
            assert(false);
        },
    }
}

} // verus!
