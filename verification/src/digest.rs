//! SHA-256 digests and lower-case hexadecimal.

use sha2::Digest;
use vstd::prelude::*;
use vstd::string::*;

use crate::types::Sha256;

verus! {

/// Names the SHA-256 digest of a byte sequence, as the `sha2` crate computes it.
pub uninterp spec fn sha256_digest(bytes: Seq<u8>) -> Seq<u8>;

/// The lower-case hexadecimal digit for `d`.
pub open spec fn hex_digit(d: int) -> char {
    if d < 10 {
        (48 + d) as char
    } else {
        (87 + d) as char
    }
}

/// Two lower-case hexadecimal digits for every byte.
pub open spec fn lower_hex(bytes: Seq<u8>) -> Seq<char>
    decreases bytes.len(),
{
    if bytes.len() == 0 {
        Seq::empty()
    } else {
        lower_hex(bytes.drop_last()).push(hex_digit(bytes.last() as int / 16)).push(
            hex_digit(bytes.last() as int % 16),
        )
    }
}

/// The SHA-256 digest of `bytes` in lower-case hexadecimal.
pub open spec fn sha256_hex(bytes: Seq<u8>) -> Seq<char> {
    lower_hex(sha256_digest(bytes))
}

/// The hexadecimal text determines the bytes.
pub proof fn lemma_lower_hex_injective(a: Seq<u8>, b: Seq<u8>)
    requires
        lower_hex(a) == lower_hex(b),
    ensures
        a == b,
    decreases a.len(),
{
    assert(a.len() > 0 ==> lower_hex(a).len() > 0);
    assert(b.len() > 0 ==> lower_hex(b).len() > 0);
    if a.len() == 0 {
        assert(a =~= b);
    } else {
        let (x, y) = (lower_hex(a), lower_hex(b));
        let (p, q) = (lower_hex(a.drop_last()), lower_hex(b.drop_last()));
        assert(x.drop_last().drop_last() =~= p);
        assert(y.drop_last().drop_last() =~= q);
        assert(x[x.len() - 1] == hex_digit(a.last() as int % 16));
        assert(y[y.len() - 1] == hex_digit(b.last() as int % 16));
        assert(x[x.len() - 2] == hex_digit(a.last() as int / 16));
        assert(y[y.len() - 2] == hex_digit(b.last() as int / 16));
        assert(a.last() == b.last());
        lemma_lower_hex_injective(a.drop_last(), b.drop_last());
        assert(a =~= a.drop_last().push(a.last()));
        assert(b =~= b.drop_last().push(b.last()));
    }
}

/// Calls `sha2::Sha256::digest`.
///
/// The contract claims that the digest is a function of the bytes alone and is
/// thirty-two bytes long. Which digest it is, and that different bytes have
/// different digests, is left unsaid.
#[verifier::external_body]
fn sha256(bytes: &[u8]) -> (r: Vec<u8>)
    ensures
        r@ == sha256_digest(bytes@),
        r@.len() == 32,
{
    sha2::Sha256::digest(bytes).to_vec()
}

fn hex_digit_text(d: u8) -> (r: &'static str)
    requires
        d < 16,
    ensures
        r@ =~= seq![hex_digit(d as int)],
{
    proof {
        reveal_strlit("0");
        reveal_strlit("1");
        reveal_strlit("2");
        reveal_strlit("3");
        reveal_strlit("4");
        reveal_strlit("5");
        reveal_strlit("6");
        reveal_strlit("7");
        reveal_strlit("8");
        reveal_strlit("9");
        reveal_strlit("a");
        reveal_strlit("b");
        reveal_strlit("c");
        reveal_strlit("d");
        reveal_strlit("e");
        reveal_strlit("f");
    }
    match d {
        0 => "0",
        1 => "1",
        2 => "2",
        3 => "3",
        4 => "4",
        5 => "5",
        6 => "6",
        7 => "7",
        8 => "8",
        9 => "9",
        10 => "a",
        11 => "b",
        12 => "c",
        13 => "d",
        14 => "e",
        _ => "f",
    }
}

/// Renders bytes as lower-case hexadecimal.
pub fn hex(bytes: &Vec<u8>) -> (r: String)
    ensures
        r@ == lower_hex(bytes@),
{
    let mut out = String::new();
    let mut i: usize = 0;
    while i < bytes.len()
        invariant
            i <= bytes@.len(),
            out@ == lower_hex(bytes@.take(i as int)),
        decreases bytes@.len() - i,
    {
        let b: u8 = bytes[i];
        out.append(hex_digit_text(b / 16));
        out.append(hex_digit_text(b % 16));
        proof {
            assert(bytes@.take(i + 1).drop_last() =~= bytes@.take(i as int));
            assert(out@ =~= lower_hex(bytes@.take(i + 1)));
        }
        i += 1;
    }
    assert(bytes@.take(i as int) =~= bytes@);
    out
}

/// Hashes bytes to a digest in lower-case hexadecimal.
pub fn hash_content(bytes: &[u8]) -> (r: Sha256)
    ensures
        r@ == sha256_hex(bytes@),
        r@.len() == 64,
{
    let digest = sha256(bytes);
    proof {
        lemma_lower_hex_len(digest@);
    }
    Sha256(hex(&digest))
}

/// Hexadecimal text has two digits for every byte and nothing else.
pub proof fn lemma_lower_hex_len(bytes: Seq<u8>)
    ensures
        lower_hex(bytes).len() == 2 * bytes.len(),
        forall|i: int|
            0 <= i < 2 * bytes.len() ==> '0' <= #[trigger] lower_hex(bytes)[i] <= '9' || 'a'
                <= lower_hex(bytes)[i] <= 'f',
    decreases bytes.len(),
{
    if bytes.len() > 0 {
        lemma_lower_hex_len(bytes.drop_last());
    }
}

} // verus!
