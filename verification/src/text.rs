//! Text as a sequence of characters: white space, ordering, decimal numerals
//! and joining.

use vstd::prelude::*;
use vstd::relations::*;
use vstd::string::*;

verus! {

/// The characters with the Unicode `White_Space` property.
pub open spec fn is_white(c: char) -> bool {
    let u = c as int;
    ||| 0x09 <= u <= 0x0d
    ||| u == 0x20
    ||| u == 0x85
    ||| u == 0xa0
    ||| u == 0x1680
    ||| 0x2000 <= u <= 0x200a
    ||| u == 0x2028
    ||| u == 0x2029
    ||| u == 0x202f
    ||| u == 0x205f
    ||| u == 0x3000
}

/// `s` without its leading and trailing white space.
pub open spec fn trimmed(s: Seq<char>) -> Seq<char>
    decreases s.len(),
{
    if s.len() == 0 {
        s
    } else if is_white(s[0]) {
        trimmed(s.drop_first())
    } else if is_white(s.last()) {
        trimmed(s.drop_last())
    } else {
        s
    }
}

/// Whether `s` holds nothing but white space.
pub open spec fn is_blank(s: Seq<char>) -> bool {
    forall|i: int| 0 <= i < s.len() ==> is_white(#[trigger] s[i])
}

/// Code point order on characters, lexicographic order on text.
pub open spec fn lex_le(a: Seq<char>, b: Seq<char>) -> bool
    decreases a.len(),
{
    if a.len() == 0 {
        true
    } else if b.len() == 0 {
        false
    } else if a[0] == b[0] {
        lex_le(a.drop_first(), b.drop_first())
    } else {
        (a[0] as int) < (b[0] as int)
    }
}

/// Strictly before in lexicographic order.
pub open spec fn lex_lt(a: Seq<char>, b: Seq<char>) -> bool {
    lex_le(a, b) && a != b
}

/// Lexicographic order as a relation.
pub open spec fn lex_order() -> spec_fn(Seq<char>, Seq<char>) -> bool {
    |a: Seq<char>, b: Seq<char>| lex_le(a, b)
}

/// The decimal digit for `d`.
pub open spec fn digit(d: nat) -> char {
    (48 + d) as char
}

/// The decimal numeral of `n`, without leading zeros.
pub open spec fn decimal(n: nat) -> Seq<char>
    decreases n,
{
    if n < 10 {
        seq![digit(n)]
    } else {
        decimal(n / 10).push(digit(n % 10))
    }
}

/// The decimal numeral of `n`, with a leading minus sign when negative.
pub open spec fn signed_decimal(n: int) -> Seq<char> {
    if n < 0 {
        "-"@ + decimal((-n) as nat)
    } else {
        decimal(n as nat)
    }
}

/// The parts with `sep` between neighbours.
pub open spec fn joined(parts: Seq<Seq<char>>, sep: Seq<char>) -> Seq<char>
    decreases parts.len(),
{
    if parts.len() == 0 {
        Seq::empty()
    } else if parts.len() == 1 {
        parts[0]
    } else {
        joined(parts.drop_last(), sep) + sep + parts.last()
    }
}

/// Text that is blank is exactly the text that trims to nothing.
pub proof fn lemma_trimmed_empty(s: Seq<char>)
    ensures
        trimmed(s).len() == 0 <==> is_blank(s),
    decreases s.len(),
{
    if s.len() > 0 {
        if is_white(s[0]) {
            lemma_trimmed_empty(s.drop_first());
            assert(forall|i: int| 0 <= i < s.drop_first().len() ==> s.drop_first()[i] == s[i + 1]);
            if is_blank(s.drop_first()) {
                assert forall|i: int| 0 <= i < s.len() implies is_white(#[trigger] s[i]) by {
                    if i > 0 {
                        assert(is_white(s.drop_first()[i - 1]));
                    }
                }
            }
            if is_blank(s) {
                assert forall|i: int| 0 <= i < s.drop_first().len() implies is_white(
                    #[trigger] s.drop_first()[i],
                ) by {
                    assert(is_white(s[i + 1]));
                }
            }
        } else if is_white(s.last()) {
            lemma_trimmed_empty(s.drop_last());
            assert(!is_white(s[0]));
            assert(s.drop_last()[0] == s[0]);
        }
    }
}

/// Trimming leaves white space at neither end, and what is left is a stretch
/// of the text.
pub proof fn lemma_trimmed_ends(s: Seq<char>)
    ensures
        trimmed(s).len() > 0 ==> !is_white(trimmed(s)[0]) && !is_white(trimmed(s).last()),
        trimmed(trimmed(s)) == trimmed(s),
    decreases s.len(),
{
    if s.len() > 0 {
        if is_white(s[0]) {
            lemma_trimmed_ends(s.drop_first());
        } else if is_white(s.last()) {
            lemma_trimmed_ends(s.drop_last());
        }
    }
}

/// A stretch between two characters that are not white, with white space all
/// around it, is what trimming leaves.
proof fn lemma_trimmed_stretch(s: Seq<char>, from: int, to: int)
    requires
        0 <= from < to <= s.len(),
        forall|i: int| 0 <= i < from ==> is_white(#[trigger] s[i]),
        forall|i: int| to <= i < s.len() ==> is_white(#[trigger] s[i]),
        !is_white(s[from]),
        !is_white(s[to - 1]),
    ensures
        trimmed(s) == s.subrange(from, to),
    decreases s.len(),
{
    if from > 0 {
        let t = s.drop_first();
        assert(is_white(s[0]));
        assert(forall|i: int| 0 <= i < t.len() ==> t[i] == s[i + 1]);
        lemma_trimmed_stretch(t, from - 1, to - 1);
        assert(t.subrange(from - 1, to - 1) =~= s.subrange(from, to));
    } else if to < s.len() {
        let t = s.drop_last();
        assert(is_white(s[s.len() - 1]));
        lemma_trimmed_stretch(t, from, to);
        assert(t.subrange(from, to) =~= s.subrange(from, to));
    } else {
        assert(s.subrange(from, to) =~= s);
    }
}

pub fn is_whitespace(c: char) -> (r: bool)
    ensures
        r == is_white(c),
{
    let u: u32 = c as u32;
    (0x09 <= u && u <= 0x0d) || u == 0x20 || u == 0x85 || u == 0xa0 || u == 0x1680 || (0x2000 <= u
        && u <= 0x200a) || u == 0x2028 || u == 0x2029 || u == 0x202f || u == 0x205f || u == 0x3000
}

/// Returns `s` without its leading and trailing white space.
pub fn trim(s: &str) -> (r: String)
    ensures
        r@ == trimmed(s@),
{
    let mut chars = s.chars();
    let mut seen: bool = false;
    let mut from: usize = 0;
    let mut to: usize = 0;
    let mut i: usize = 0;
    let n: usize = s.unicode_len();
    while i < n
        invariant
            n == s@.len(),
            i <= n,
            vstd::std_specs::iter::IteratorSpec::remaining(&chars) == s@.skip(i as int),
            !seen ==> forall|j: int| 0 <= j < i ==> is_white(#[trigger] s@[j]),
            seen ==> {
                &&& from < to <= i
                &&& !is_white(s@[from as int])
                &&& !is_white(s@[to - 1])
                &&& forall|j: int| 0 <= j < from ==> is_white(#[trigger] s@[j])
                &&& forall|j: int| to <= j < i ==> is_white(#[trigger] s@[j])
            },
        decreases n - i,
    {
        let next = chars.next();
        match next {
            Some(c) => {
                assert(c == s@[i as int]);
                assert(s@.skip(i as int).drop_first() =~= s@.skip(i + 1));
                if !is_whitespace(c) {
                    if !seen {
                        seen = true;
                        from = i;
                    }
                    to = i + 1;
                }
            },
            None => {
                assert(false);
            },
        }
        i += 1;
    }
    if seen {
        proof {
            lemma_trimmed_stretch(s@, from as int, to as int);
        }
        s.substring_char(from, to).to_owned()
    } else {
        proof {
            lemma_trimmed_empty(s@);
        }
        assert(trimmed(s@) =~= Seq::<char>::empty());
        String::new()
    }
}

/// Whether `s` holds nothing but white space.
pub fn blank(s: &str) -> (r: bool)
    ensures
        r == is_blank(s@),
        r == (trimmed(s@).len() == 0),
{
    proof {
        lemma_trimmed_empty(s@);
    }
    let t = trim(s);
    t.as_str().is_empty()
}

fn code_point(c: char) -> (r: u32)
    ensures
        r as int == c as int,
{
    c as u32
}

/// Whether `a` comes no later than `b` in lexicographic order.
pub fn at_or_before(a: &str, b: &str) -> (r: bool)
    ensures
        r == lex_le(a@, b@),
{
    let mut x = a.chars();
    let mut y = b.chars();
    let n: usize = a.unicode_len();
    let mut i: usize = 0;
    assert(a@.skip(0) =~= a@);
    while i < n
        invariant
            n == a@.len(),
            i <= n,
            vstd::std_specs::iter::IteratorSpec::remaining(&x) == a@.skip(i as int),
            lex_le(a@, b@) == lex_le(
                a@.skip(i as int),
                vstd::std_specs::iter::IteratorSpec::remaining(&y),
            ),
        decreases n - i,
    {
        let p = x.next();
        let q = y.next();
        match p {
            Some(c) => match q {
                None => {
                    return false;
                },
                Some(d) => {
                    if c != d {
                        return code_point(c) < code_point(d);
                    }
                },
            },
            None => {
                assert(false);
            },
        }
        assert(a@.skip(i as int).drop_first() =~= a@.skip(i + 1));
        i += 1;
    }
    true
}

#[verifier::spinoff_prover]
proof fn lemma_lex_antisymmetric(a: Seq<char>, b: Seq<char>)
    requires
        lex_le(a, b),
        lex_le(b, a),
    ensures
        a == b,
    decreases a.len(),
{
    if a.len() > 0 && b.len() > 0 {
        lemma_lex_antisymmetric(a.drop_first(), b.drop_first());
        assert(a =~= seq![a[0]] + a.drop_first());
        assert(b =~= seq![b[0]] + b.drop_first());
    } else {
        assert(a =~= b);
    }
}

proof fn lemma_lex_transitive(a: Seq<char>, b: Seq<char>, c: Seq<char>)
    requires
        lex_le(a, b),
        lex_le(b, c),
    ensures
        lex_le(a, c),
    decreases a.len(),
{
    if a.len() > 0 && b.len() > 0 && c.len() > 0 && a[0] == b[0] && b[0] == c[0] {
        lemma_lex_transitive(a.drop_first(), b.drop_first(), c.drop_first());
    }
}

proof fn lemma_lex_total(a: Seq<char>, b: Seq<char>)
    ensures
        lex_le(a, b) || lex_le(b, a),
        lex_le(a, a),
    decreases a.len(),
{
    if a.len() > 0 {
        if b.len() > 0 {
            lemma_lex_total(a.drop_first(), b.drop_first());
        } else {
            lemma_lex_total(a.drop_first(), b);
        }
    }
}

/// Lexicographic order is a total order.
pub proof fn lemma_lex_order()
    ensures
        total_ordering(lex_order()),
        forall|a: Seq<char>| #[trigger] lex_le(a, a),
        forall|a: Seq<char>, b: Seq<char>|
            (#[trigger] lex_le(a, b) && lex_le(b, a)) ==> a == b,
        forall|a: Seq<char>, b: Seq<char>, c: Seq<char>| #[trigger]
            lex_le(a, b) && #[trigger] lex_le(b, c) ==> lex_le(a, c),
        forall|a: Seq<char>, b: Seq<char>| #[trigger] lex_le(a, b) || lex_le(b, a),
{
    assert forall|a: Seq<char>| #[trigger] lex_le(a, a) by {
        lemma_lex_total(a, a);
    }
    assert forall|a: Seq<char>, b: Seq<char>| (#[trigger] lex_le(a, b) && lex_le(b, a)) implies a
        == b by {
        lemma_lex_antisymmetric(a, b);
    }
    assert forall|a: Seq<char>, b: Seq<char>, c: Seq<char>| #[trigger]
        lex_le(a, b) && #[trigger] lex_le(b, c) implies lex_le(a, c) by {
        lemma_lex_transitive(a, b, c);
    }
    assert forall|a: Seq<char>, b: Seq<char>| #[trigger] lex_le(a, b) || lex_le(b, a) by {
        lemma_lex_total(a, b);
    }
    let r = lex_order();
    assert forall|a: Seq<char>, b: Seq<char>| #[trigger] r(a, b) && #[trigger] r(b, a) implies a
        == b by {
        lemma_lex_antisymmetric(a, b);
    }
    assert forall|a: Seq<char>, b: Seq<char>, c: Seq<char>| #[trigger] r(a, b) && #[trigger] r(
        b,
        c,
    ) implies r(a, c) by {
        lemma_lex_transitive(a, b, c);
    }
    assert forall|a: Seq<char>, b: Seq<char>| #[trigger] r(a, b) || #[trigger] r(b, a) by {
        lemma_lex_total(a, b);
    }
}

fn digit_text(d: u64) -> (r: &'static str)
    requires
        d < 10,
    ensures
        r@ =~= seq![digit(d as nat)],
{
    proof {
        reveal_strlit("0");
        reveal_strlit("1");
        reveal_strlit("2");
        reveal_strlit("3");
        reveal_strlit("4");
        reveal_strlit("5");
        reveal_strlit("6");
        reveal_strlit("7");
        reveal_strlit("8");
        reveal_strlit("9");
    }
    match d {
        0 => "0",
        1 => "1",
        2 => "2",
        3 => "3",
        4 => "4",
        5 => "5",
        6 => "6",
        7 => "7",
        8 => "8",
        _ => "9",
    }
}

/// Appends the decimal numeral of `n`.
pub fn push_decimal(out: &mut String, n: u64)
    ensures
        final(out)@ == old(out)@ + decimal(n as nat),
    decreases n,
{
    if n < 10 {
        out.append(digit_text(n));
    } else {
        push_decimal(out, n / 10);
        out.append(digit_text(n % 10));
        assert(out@ =~= old(out)@ + decimal(n as nat));
    }
}

/// Appends the decimal numeral of `n`, with its sign when negative.
pub fn push_signed_decimal(out: &mut String, n: i64)
    ensures
        final(out)@ == old(out)@ + signed_decimal(n as int),
{
    if n < 0 {
        out.append("-");
        let magnitude: u64 = if n == i64::MIN {
            0x8000_0000_0000_0000
        } else {
            (-n) as u64
        };
        push_decimal(out, magnitude);
        assert(out@ =~= old(out)@ + signed_decimal(n as int));
    } else {
        push_decimal(out, n as u64);
    }
}

/// Joins the parts with `sep` between neighbours.
pub fn join(parts: &Vec<String>, sep: &str) -> (r: String)
    ensures
        r@ == joined(crate::views::of_seq(parts@), sep@),
{
    let ghost views = crate::views::of_seq(parts@);
    let mut out = String::new();
    let mut i: usize = 0;
    while i < parts.len()
        invariant
            i <= parts.len(),
            views == crate::views::of_seq(parts@),
            out@ == joined(views.take(i as int), sep@),
        decreases parts.len() - i,
    {
        proof {
            assert(views.take(i + 1).drop_last() =~= views.take(i as int));
            assert(views.take(i + 1).last() == views[i as int]);
        }
        if i > 0 {
            out.append(sep);
        }
        out.append(parts[i].as_str());
        assert(out@ =~= joined(views.take(i + 1), sep@));
        i += 1;
    }
    assert(views.take(parts.len() as int) =~= views);
    out
}

} // verus!
