//! What trimmed texts, numerals and joined lists hold, character by character.

use vstd::prelude::*;

use crate::text;

verus! {

/// The white characters, by their code points.
pub open spec fn white_points() -> Set<int> {
    set![
        0x09, 0x0a, 0x0b, 0x0c, 0x0d, 0x20, 0x85, 0xa0, 0x1680, 0x2000, 0x2001, 0x2002, 0x2003,
        0x2004, 0x2005, 0x2006, 0x2007, 0x2008, 0x2009, 0x200a, 0x2028, 0x2029, 0x202f, 0x205f,
        0x3000,
    ]
}

/// A character is white if and only if it is one of the white characters.
pub proof fn law_white_characters(c: char)
    ensures
        text::is_white(c) <==> white_points().contains(c as int),
{
}

/// Trimming takes the white characters off both ends and nothing else: what is left
/// is the stretch from the first to the last character that is not white.
pub proof fn law_trimming_takes_white_ends(s: Seq<char>) -> (r: (int, int))
    ensures
        0 <= r.0 <= r.1 <= s.len(),
        text::trimmed(s) == s.subrange(r.0, r.1),
        forall|i: int|
            0 <= i < s.len() && !(r.0 <= i < r.1) ==> white_points().contains(
                (#[trigger] s[i]) as int,
            ),
        r.0 < r.1 ==> !white_points().contains(s[r.0] as int) && !white_points().contains(
            s[r.1 - 1] as int,
        ),
    decreases s.len(),
{
    if s.len() == 0 {
        assert(s.subrange(0, 0) =~= s);
        (0, 0)
    } else if text::is_white(s[0]) {
        law_white_characters(s[0]);
        let t = s.drop_first();
        let (from, to) = law_trimming_takes_white_ends(t);
        assert(t.subrange(from, to) =~= s.subrange(from + 1, to + 1));
        assert forall|i: int|
            0 <= i < s.len() && !(from + 1 <= i < to + 1) implies white_points().contains(
            (#[trigger] s[i]) as int,
        ) by {
            if i > 0 {
                assert(t[i - 1] == s[i]);
            }
        }
        (from + 1, to + 1)
    } else if text::is_white(s.last()) {
        law_white_characters(s.last());
        let t = s.drop_last();
        let (from, to) = law_trimming_takes_white_ends(t);
        assert(t.subrange(from, to) =~= s.subrange(from, to));
        assert forall|i: int|
            0 <= i < s.len() && !(from <= i < to) implies white_points().contains(
            (#[trigger] s[i]) as int,
        ) by {
            if i < t.len() {
                assert(t[i] == s[i]);
            }
        }
        (from, to)
    } else {
        law_white_characters(s[0]);
        law_white_characters(s.last());
        assert(s.subrange(0, s.len() as int) =~= s);
        (0, s.len() as int)
    }
}

/// A text is blank if and only if it holds nothing but white characters.
pub proof fn law_blank_is_all_white(s: Seq<char>)
    ensures
        text::is_blank(s) <==> forall|i: int|
            0 <= i < s.len() ==> white_points().contains((#[trigger] s[i]) as int),
{
    if text::is_blank(s) {
        assert forall|i: int| 0 <= i < s.len() implies white_points().contains(
            (#[trigger] s[i]) as int,
        ) by {
            law_white_characters(s[i]);
        }
    }
    if forall|i: int| 0 <= i < s.len() ==> white_points().contains((#[trigger] s[i]) as int) {
        assert forall|i: int| 0 <= i < s.len() implies text::is_white(#[trigger] s[i]) by {
            law_white_characters(s[i]);
        }
    }
}

/// The number that a row of digits stands for.
pub open spec fn number_of(digits: Seq<char>) -> int
    decreases digits.len(),
{
    if digits.len() == 0 {
        0
    } else {
        10 * number_of(digits.drop_last()) + (digits.last() as int - '0' as int)
    }
}

/// A numeral holds only digits, stands for its number, and starts with a zero only
/// where it is one.
pub proof fn law_numerals_stand_for_their_number(n: nat)
    ensures
        text::decimal(n).len() > 0,
        forall|i: int|
            0 <= i < text::decimal(n).len() ==> '0' as int <= (#[trigger] text::decimal(
                n,
            )[i]) as int <= '9' as int,
        number_of(text::decimal(n)) == n,
        text::decimal(n)[0] == '0' ==> n == 0,
        n == 0 ==> text::decimal(n) == seq!['0'],
    decreases n,
{
    let s = text::decimal(n);
    if n < 10 {
        assert(s.drop_last() =~= Seq::<char>::empty());
        assert(number_of(s.drop_last()) == 0);
    } else {
        law_numerals_stand_for_their_number(n / 10);
        assert(s.drop_last() =~= text::decimal(n / 10));
        assert(s[0] == text::decimal(n / 10)[0]);
        assert forall|i: int| 0 <= i < s.len() implies '0' as int <= (#[trigger] s[i]) as int
            <= '9' as int by {
            if i < s.len() - 1 {
                assert(s[i] == text::decimal(n / 10)[i]);
            }
        }
    }
}

/// A signed numeral is the numeral of the number without its sign, behind a minus
/// where the number is below zero.
pub proof fn law_signed_numerals(n: int)
    ensures
        n >= 0 ==> number_of(text::signed_decimal(n)) == n && text::signed_decimal(n)[0] != '-',
        n < 0 ==> text::signed_decimal(n)[0] == '-' && number_of(
            text::signed_decimal(n).drop_first(),
        ) == -n,
{
    reveal_strlit("-");
    if n >= 0 {
        law_numerals_stand_for_their_number(n as nat);
    } else {
        law_numerals_stand_for_their_number((-n) as nat);
        assert(text::signed_decimal(n).drop_first() =~= text::decimal((-n) as nat));
    }
}

/// One text comes before another if it is a beginning of it, or if its character
/// is the lesser where the two first differ.
pub open spec fn sorts_before(a: Seq<char>, b: Seq<char>) -> bool {
    ||| a.len() <= b.len() && a == b.take(a.len() as int)
    ||| exists|k: int|
        0 <= k < a.len() && k < b.len() && a.take(k) == #[trigger] b.take(k) && (a[k] as int) < (
        b[k] as int)
}

/// Texts are ordered character by character.
pub proof fn law_texts_are_ordered_by_first_difference(a: Seq<char>, b: Seq<char>)
    ensures
        text::lex_le(a, b) <==> sorts_before(a, b),
    decreases a.len(),
{
    if a.len() == 0 {
        assert(a =~= b.take(0));
    } else if b.len() > 0 {
        let (x, y) = (a.drop_first(), b.drop_first());
        law_texts_are_ordered_by_first_difference(x, y);
        if a[0] != b[0] {
            assert(a.take(0) =~= b.take(0));
            if a.len() <= b.len() && a == b.take(a.len() as int) {
                assert(a[0] == b[0]);
            }
            if exists|k: int|
                0 <= k < a.len() && k < b.len() && a.take(k) == #[trigger] b.take(k) && (
                a[k] as int) < (b[k] as int) {
                let k = choose|k: int|
                    0 <= k < a.len() && k < b.len() && a.take(k) == #[trigger] b.take(k) && (
                    a[k] as int) < (b[k] as int);
                if k > 0 {
                    assert(a.take(k)[0] == b.take(k)[0]);
                }
            }
        } else {
            if sorts_before(x, y) {
                if x.len() <= y.len() && x == y.take(x.len() as int) {
                    assert forall|i: int| 0 <= i < a.len() implies a[i] == b[i] by {
                        if i > 0 {
                            assert(a[i] == x[i - 1] && b[i] == y.take(x.len() as int)[i - 1]);
                        }
                    }
                    assert(a =~= b.take(a.len() as int));
                } else {
                    let k = choose|k: int|
                        0 <= k < x.len() && k < y.len() && x.take(k) == #[trigger] y.take(k) && (
                        x[k] as int) < (y[k] as int);
                    assert forall|i: int| 0 <= i < k + 1 implies a[i] == b[i] by {
                        if i > 0 {
                            assert(a[i] == x.take(k)[i - 1] && b[i] == y.take(k)[i - 1]);
                        }
                    }
                    assert(a.take(k + 1) =~= b.take(k + 1));
                }
            }
            if sorts_before(a, b) {
                if a.len() <= b.len() && a == b.take(a.len() as int) {
                    assert forall|i: int| 0 <= i < x.len() implies x[i] == y[i] by {
                        assert(a[i + 1] == b.take(a.len() as int)[i + 1]);
                    }
                    assert(x =~= y.take(x.len() as int));
                } else {
                    let k = choose|k: int|
                        0 <= k < a.len() && k < b.len() && a.take(k) == #[trigger] b.take(k) && (
                        a[k] as int) < (b[k] as int);
                    assert(k > 0);
                    assert forall|i: int| 0 <= i < k - 1 implies x[i] == y[i] by {
                        assert(a.take(k)[i + 1] == b.take(k)[i + 1]);
                    }
                    assert(x.take(k - 1) =~= y.take(k - 1));
                    assert(x[k - 1] == a[k] && y[k - 1] == b[k]);
                }
            }
        }
    } else {
        if exists|k: int|
            0 <= k < a.len() && k < b.len() && a.take(k) == #[trigger] b.take(k) && (a[k] as int)
                < (b[k] as int) {
        }
    }
}

/// A joined list of one is its text; each further text follows behind a separator.
pub proof fn law_joining_separates_texts(
    parts: Seq<Seq<char>>,
    next: Seq<char>,
    separator: Seq<char>,
)
    ensures
        text::joined(Seq::empty(), separator) == Seq::<char>::empty(),
        text::joined(seq![next], separator) == next,
        parts.len() > 0 ==> text::joined(parts.push(next), separator) == text::joined(
            parts,
            separator,
        ) + separator + next,
{
    assert(parts.push(next).drop_last() =~= parts);
}

} // verus!
