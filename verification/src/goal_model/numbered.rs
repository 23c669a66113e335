//! Numbered identifiers in the form of random ones.

use vstd::prelude::*;
use vstd::string::*;

use crate::digest;
use crate::encoding;
use crate::types;
use crate::types::GoalNodeId;

verus! {

/// The identifier with this number, in the form of a random one: eight bytes of
/// it spell the number, the others are zero.
pub open spec fn numbered_id(n: u64) -> Seq<char> {
    digest::lower_hex(encoding::big_endian(n as nat / 0x1_0000_0000, 4)) + "-"@
        + digest::lower_hex(encoding::big_endian((n as nat / 0x1_0000) % 0x1_0000, 2))
        + "-4000-8000-00000000"@ + digest::lower_hex(
        encoding::big_endian(n as nat % 0x1_0000, 2),
    )
}

/// A numbered identifier has the form of a random one.
pub proof fn lemma_numbered_form(n: u64)
    ensures
        types::is_random_id(numbered_id(n)),
{
    reveal_strlit("-");
    reveal_strlit("-4000-8000-00000000");
    let (a, b, c) = (
        encoding::big_endian(n as nat / 0x1_0000_0000, 4),
        encoding::big_endian((n as nat / 0x1_0000) % 0x1_0000, 2),
        encoding::big_endian(n as nat % 0x1_0000, 2),
    );
    encoding::lemma_big_endian_len(n as nat / 0x1_0000_0000, 4);
    encoding::lemma_big_endian_len((n as nat / 0x1_0000) % 0x1_0000, 2);
    encoding::lemma_big_endian_len(n as nat % 0x1_0000, 2);
    digest::lemma_lower_hex_len(a);
    digest::lemma_lower_hex_len(b);
    digest::lemma_lower_hex_len(c);
    let (x, y, z) = (digest::lower_hex(a), digest::lower_hex(b), digest::lower_hex(c));
    let s = numbered_id(n);
    assert(s.len() == 36);
    assert forall|i: int| 0 <= i < 36 implies if i == 8 || i == 13 || i == 18 || i == 23 {
        #[trigger] s[i] == '-'
    } else {
        '0' <= s[i] <= '9' || 'a' <= s[i] <= 'f'
    } by {
        if i < 8 {
            assert(s[i] == x[i]);
        } else if 8 < i < 13 {
            assert(s[i] == y[i - 9]);
        } else if 13 <= i < 32 {
            assert(s[i] == "-4000-8000-00000000"@[i - 13]);
        } else if 32 <= i {
            assert(s[i] == z[i - 32]);
        }
    }
}

/// Different numbers have different identifiers.
pub proof fn lemma_numbered_injective(m: u64, n: u64)
    requires
        numbered_id(m) == numbered_id(n),
    ensures
        m == n,
{
    reveal_with_fuel(encoding::pow256, 5);
    lemma_parts(m);
    lemma_parts(n);
    let (s, t) = (numbered_id(m), numbered_id(n));
    assert(s.subrange(0, 8) == t.subrange(0, 8));
    assert(s.subrange(9, 13) == t.subrange(9, 13));
    assert(s.subrange(32, 36) == t.subrange(32, 36));
    digest::lemma_lower_hex_injective(
        encoding::big_endian(m as nat / 0x1_0000_0000, 4),
        encoding::big_endian(n as nat / 0x1_0000_0000, 4),
    );
    digest::lemma_lower_hex_injective(
        encoding::big_endian((m as nat / 0x1_0000) % 0x1_0000, 2),
        encoding::big_endian((n as nat / 0x1_0000) % 0x1_0000, 2),
    );
    digest::lemma_lower_hex_injective(
        encoding::big_endian(m as nat % 0x1_0000, 2),
        encoding::big_endian(n as nat % 0x1_0000, 2),
    );
    encoding::lemma_big_endian_injective(
        m as nat / 0x1_0000_0000,
        n as nat / 0x1_0000_0000,
        4,
    );
    encoding::lemma_big_endian_injective(
        (m as nat / 0x1_0000) % 0x1_0000,
        (n as nat / 0x1_0000) % 0x1_0000,
        2,
    );
    encoding::lemma_big_endian_injective(m as nat % 0x1_0000, n as nat % 0x1_0000, 2);
}

proof fn lemma_parts(n: u64)
    ensures
        numbered_id(n).len() == 36,
        numbered_id(n).subrange(0, 8) == digest::lower_hex(
            encoding::big_endian(n as nat / 0x1_0000_0000, 4),
        ),
        numbered_id(n).subrange(9, 13) == digest::lower_hex(
            encoding::big_endian((n as nat / 0x1_0000) % 0x1_0000, 2),
        ),
        numbered_id(n).subrange(32, 36) == digest::lower_hex(
            encoding::big_endian(n as nat % 0x1_0000, 2),
        ),
{
    reveal_strlit("-");
    reveal_strlit("-4000-8000-00000000");
    let (a, b, c) = (
        encoding::big_endian(n as nat / 0x1_0000_0000, 4),
        encoding::big_endian((n as nat / 0x1_0000) % 0x1_0000, 2),
        encoding::big_endian(n as nat % 0x1_0000, 2),
    );
    encoding::lemma_big_endian_len(n as nat / 0x1_0000_0000, 4);
    encoding::lemma_big_endian_len((n as nat / 0x1_0000) % 0x1_0000, 2);
    encoding::lemma_big_endian_len(n as nat % 0x1_0000, 2);
    digest::lemma_lower_hex_len(a);
    digest::lemma_lower_hex_len(b);
    digest::lemma_lower_hex_len(c);
    let s = numbered_id(n);
    assert(s.subrange(0, 8) =~= digest::lower_hex(a));
    assert(s.subrange(9, 13) =~= digest::lower_hex(b));
    assert(s.subrange(32, 36) =~= digest::lower_hex(c));
}

/// Where the first `k` numbered identifiers are in a set, it has at least `k`
/// members.
pub proof fn lemma_numbered_taken(ids: Set<Seq<char>>, k: nat)
    requires
        ids.finite(),
        k <= u64::MAX + 1,
        forall|j: u64| j < k ==> ids.contains(#[trigger] numbered_id(j)),
    ensures
        k <= ids.len(),
{
    let first = Seq::new(k, |j: int| numbered_id(j as u64));
    assert forall|i: int, j: int| 0 <= i < k && 0 <= j < k && i != j implies first[i]
        != first[j] by {
        if first[i] == first[j] {
            lemma_numbered_injective(i as u64, j as u64);
        }
    }
    first.unique_seq_to_set();
    assert forall|s: Seq<char>| first.to_set().contains(s) implies ids.contains(s) by {
        let i = choose|i: int| 0 <= i < first.len() && first[i] == s;
        assert(ids.contains(numbered_id(i as u64)));
    }
    vstd::set_lib::lemma_len_subset(first.to_set(), ids);
}

fn hex_part(n: u64, k: usize) -> (r: String)
    ensures
        r@ == digest::lower_hex(encoding::big_endian(n as nat, k as nat)),
{
    let mut bytes: Vec<u8> = Vec::new();
    encoding::push_big_endian(&mut bytes, n, k);
    assert(bytes@ =~= encoding::big_endian(n as nat, k as nat));
    digest::hex(&bytes)
}

/// The identifier with this number.
pub fn numbered_node_id(n: u64) -> (r: GoalNodeId)
    ensures
        r@ == numbered_id(n),
        types::is_random_id(r@),
{
    let mut id = hex_part(n / 0x1_0000_0000, 4);
    id.append("-");
    id.append(hex_part((n / 0x1_0000) % 0x1_0000, 2).as_str());
    id.append("-4000-8000-00000000");
    id.append(hex_part(n % 0x1_0000, 2).as_str());
    proof {
        lemma_numbered_form(n);
    }
    GoalNodeId(id)
}

} // verus!
