//! What the hash of a goal covers, child by child and byte by byte.

use vstd::prelude::*;

use crate::digest;
use crate::encoding;
use crate::goal_model::model::{GoalNodeView, Resolution};
use crate::goal_model::subtree_hash;
use crate::json_text;
use crate::text;
use crate::text_laws;

verus! {

/// The hashes of children are those of the children that are there and resolved,
/// whichever way, each once and in order.
pub proof fn law_every_resolved_child_enters_the_hash(
    nodes: Map<Seq<char>, GoalNodeView>,
    ids: Seq<Seq<char>>,
)
    ensures
        subtree_hash::child_hashes(nodes, ids) == ids.filter(
            |id: Seq<char>| nodes.dom().contains(id) && nodes[id].resolution != Resolution::Open,
        ).map_values(|id: Seq<char>| subtree_hash::hash_of(nodes, nodes[id])),
    decreases ids.len(),
{
    reveal(Seq::filter);
    let enters = |id: Seq<char>|
        nodes.dom().contains(id) && nodes[id].resolution != Resolution::Open;
    let hash = |id: Seq<char>| subtree_hash::hash_of(nodes, nodes[id]);
    if ids.len() > 0 {
        let init = ids.drop_last();
        law_every_resolved_child_enters_the_hash(nodes, init);
        if enters(ids.last()) {
            assert(init.filter(enters).push(ids.last()).map_values(hash) =~= init.filter(
                enters,
            ).map_values(hash).push(hash(ids.last())));
        }
    }
    assert(subtree_hash::child_hashes(nodes, ids) =~= ids.filter(enters).map_values(hash));
}

/// The hash of a goal is the lower-case hexadecimal digest of six parts: its
/// hypothesis, conditions, resolution, intent and tool calls, and the hashes of its
/// children in ascending order.
pub proof fn law_hash_is_the_digest_of_six_parts(
    nodes: Map<Seq<char>, GoalNodeView>,
    node: GoalNodeView,
    hashes: Seq<Seq<char>>,
)
    requires
        subtree_hash::hashable(nodes, node),
        hashes.to_multiset() == subtree_hash::child_hashes(nodes, node.children).to_multiset(),
        forall|i: int, j: int|
            0 <= i < j < hashes.len() ==> text_laws::sorts_before(
                #[trigger] hashes[i],
                #[trigger] hashes[j],
            ),
    ensures
        subtree_hash::hash_of(nodes, node) == digest::lower_hex(
            digest::sha256_digest(
                encoding::field(1, vstd::utf8::encode_utf8(node.hypothesis)) + encoding::counted(
                    2,
                    node.resolution_conditions.map_values(
                        |t: Seq<char>| vstd::utf8::encode_utf8(t),
                    ),
                ) + encoding::field(
                    3,
                    vstd::utf8::encode_utf8(json_text::resolution_json(node.resolution)),
                ) + encoding::field(
                    4,
                    vstd::utf8::encode_utf8(json_text::intent_json(node.intent)),
                ) + encoding::counted(5, subtree_hash::tool_calls_bytes(node.tool_calls))
                    + encoding::counted(
                    6,
                    hashes.map_values(|t: Seq<char>| vstd::utf8::encode_utf8(t)),
                ),
            ),
        ),
{
    subtree_hash::lemma_hash_is_digest(nodes, node);
    let given = subtree_hash::child_hashes(nodes, node.children);
    let order = text::lex_order();
    text::lemma_lex_order();
    given.lemma_sort_by_ensures(order);
    assert forall|i: int, j: int| 0 <= i < j < hashes.len() implies #[trigger] order(
        hashes[i],
        hashes[j],
    ) by {
        assert(text_laws::sorts_before(hashes[i], hashes[j]));
        text_laws::law_texts_are_ordered_by_first_difference(hashes[i], hashes[j]);
    }
    vstd::seq_lib::lemma_sorted_unique(hashes, given.sort_by(order), order);
}

/// The number that a row of bytes stands for, the most significant first.
pub open spec fn number_of(bytes: Seq<u8>) -> nat
    decreases bytes.len(),
{
    if bytes.len() == 0 {
        0
    } else {
        256 * number_of(bytes.drop_last()) + bytes.last() as nat
    }
}

/// A row of bytes written for a number that fits stands for that number.
pub proof fn law_bytes_stand_for_their_number(n: nat, k: nat)
    requires
        n < encoding::pow256(k),
    ensures
        encoding::big_endian(n, k).len() == k,
        number_of(encoding::big_endian(n, k)) == n,
    decreases k,
{
    if k > 0 {
        let rest = encoding::pow256((k - 1) as nat);
        assert(n / 256 < rest) by (nonlinear_arith)
            requires
                n < 256 * rest,
        ;
        law_bytes_stand_for_their_number(n / 256, (k - 1) as nat);
        assert(encoding::big_endian(n, k).drop_last() =~= encoding::big_endian(
            n / 256,
            (k - 1) as nat,
        ));
    }
}

proof fn lemma_eight_bytes(n: nat)
    requires
        n <= u64::MAX,
    ensures
        encoding::big_endian(n, 8).len() == 8,
        number_of(encoding::big_endian(n, 8)) == n,
{
    reveal_with_fuel(encoding::pow256, 9);
    assert(encoding::pow256(8) == 0x1_0000_0000_0000_0000);
    law_bytes_stand_for_their_number(n, 8);
}

/// A field is its tag, eight bytes that stand for the length of its content, and
/// the content.
pub proof fn law_field_is_tag_length_and_content(tag: u8, content: Seq<u8>)
    requires
        content.len() <= u64::MAX,
    ensures
        encoding::field(tag, content).len() == 9 + content.len(),
        encoding::field(tag, content)[0] == tag,
        number_of(encoding::field(tag, content).subrange(1, 9)) == content.len(),
        encoding::field(tag, content).skip(9) == content,
{
    lemma_eight_bytes(content.len());
    assert(encoding::field(tag, content).subrange(1, 9) =~= encoding::big_endian(
        content.len(),
        8,
    ));
    assert(encoding::field(tag, content).skip(9) =~= content);
}

/// A list is its tag, eight bytes that stand for the number of its contents, and a
/// field for each of them, in order.
pub proof fn law_list_is_tag_count_and_fields(tag: u8, contents: Seq<Seq<u8>>, next: Seq<u8>)
    requires
        contents.len() <= u64::MAX,
    ensures
        encoding::counted(tag, contents)[0] == tag,
        number_of(encoding::counted(tag, contents).subrange(1, 9)) == contents.len(),
        encoding::counted(tag, contents).skip(9) == encoding::fields(tag, contents),
        encoding::fields(tag, Seq::empty()) == Seq::<u8>::empty(),
        encoding::fields(tag, contents.push(next)) == encoding::fields(tag, contents)
            + encoding::field(tag, next),
{
    lemma_eight_bytes(contents.len());
    assert(encoding::counted(tag, contents).subrange(1, 9) =~= encoding::big_endian(
        contents.len(),
        8,
    ));
    assert(encoding::counted(tag, contents).skip(9) =~= encoding::fields(tag, contents));
    assert(contents.push(next).drop_last() =~= contents);
}

/// A digest is written with two digits for each byte, the lower half last: a digit
/// below ten as a decimal digit, and the others as the letters from a to f.
pub proof fn law_hexadecimal_digits(bytes: Seq<u8>, i: int)
    requires
        0 <= i < bytes.len(),
    ensures
        digest::lower_hex(bytes).len() == 2 * bytes.len(),
        digest::lower_hex(bytes)[2 * i] == "0123456789abcdef"@[bytes[i] as int / 16],
        digest::lower_hex(bytes)[2 * i + 1] == "0123456789abcdef"@[bytes[i] as int % 16],
    decreases bytes.len(),
{
    reveal_strlit("0123456789abcdef");
    let init = bytes.drop_last();
    digest::lemma_lower_hex_len(bytes);
    digest::lemma_lower_hex_len(init);
    if i < init.len() {
        law_hexadecimal_digits(init, i);
        assert(digest::lower_hex(bytes)[2 * i] == digest::lower_hex(init)[2 * i]);
        assert(digest::lower_hex(bytes)[2 * i + 1] == digest::lower_hex(init)[2 * i + 1]);
        assert(init[i] == bytes[i]);
    } else {
        lemma_hex_digit(bytes[i] as int / 16);
        lemma_hex_digit(bytes[i] as int % 16);
    }
}

proof fn lemma_hex_digit(d: int)
    requires
        0 <= d < 16,
    ensures
        digest::hex_digit(d) == "0123456789abcdef"@[d],
{
    reveal_strlit("0123456789abcdef");
    let s = "0123456789abcdef"@;
    assert(s[0] == '0' && s[1] == '1' && s[2] == '2' && s[3] == '3' && s[4] == '4' && s[5] == '5'
        && s[6] == '6' && s[7] == '7');
    assert(s[8] == '8' && s[9] == '9' && s[10] == 'a' && s[11] == 'b' && s[12] == 'c' && s[13]
        == 'd' && s[14] == 'e' && s[15] == 'f');
}

} // verus!
