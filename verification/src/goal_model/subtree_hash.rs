//! The stable content hash of a resolved subtree.
//!
//! A node's hash covers its semantic contract: hypothesis, resolution
//! conditions, resolution, intent, recorded tool calls, and the hashes of its
//! resolved children in ascending order. It covers nothing else.

use vstd::prelude::*;

use crate::digest;
use crate::encoding;
use crate::goal_model::model::{GoalNode, GoalNodeView};
use crate::goal_model::tree::GoalTree;
use crate::json_text;
use crate::text;
use crate::types::{GoalToolCall, SubtreeHash, ToolCallView};
use crate::views;

verus! {

const TAG_TOOL_CALL_PART: u8 = 0x00;

const TAG_HYPOTHESIS: u8 = 0x01;

const TAG_RESOLUTION_CONDITION: u8 = 0x02;

const TAG_RESOLUTION: u8 = 0x03;

const TAG_INTENT: u8 = 0x04;

const TAG_TOOL_CALL: u8 = 0x05;

const TAG_CHILD_HASH: u8 = 0x06;

/// The UTF-8 bytes of each text.
pub open spec fn utf8_all(texts: Seq<Seq<char>>) -> Seq<Seq<u8>> {
    texts.map_values(|t: Seq<char>| vstd::utf8::encode_utf8(t))
}

/// The content of a tool call's field: four fields of its own.
pub open spec fn tool_call_bytes(call: ToolCallView) -> Seq<u8> {
    encoding::field(0, vstd::utf8::encode_utf8(call.tool)) + encoding::field(
        0,
        vstd::utf8::encode_utf8(call.normalized_args),
    ) + encoding::field(0, vstd::utf8::encode_utf8(json_text::token_json(call.validity_token)))
        + encoding::field(0, vstd::utf8::encode_utf8(call.outcome))
}

/// The content of each tool call's field.
pub open spec fn tool_calls_bytes(calls: Seq<ToolCallView>) -> Seq<Seq<u8>> {
    calls.map_values(|c: ToolCallView| tool_call_bytes(c))
}

/// The bytes that a node's hash covers, given the hashes of its resolved
/// children.
pub open spec fn canonical_encoding(node: GoalNodeView, child_hashes: Seq<Seq<char>>) -> Seq<u8> {
    encoding::field(1, vstd::utf8::encode_utf8(node.hypothesis)) + encoding::counted(
        2,
        utf8_all(node.resolution_conditions),
    ) + encoding::field(
        3,
        vstd::utf8::encode_utf8(json_text::resolution_json(node.resolution)),
    ) + encoding::field(4, vstd::utf8::encode_utf8(json_text::intent_json(node.intent)))
        + encoding::counted(5, tool_calls_bytes(node.tool_calls)) + encoding::counted(
        6,
        utf8_all(child_hashes),
    )
}

/// The child hashes in ascending order.
pub open spec fn in_order(hashes: Seq<Seq<char>>) -> Seq<Seq<char>> {
    hashes.sort_by(text::lex_order())
}

/// The hash of a node computed with at most `depth` levels of recursion;
/// `None` where that is not enough.
pub open spec fn hash_within(
    nodes: Map<Seq<char>, GoalNodeView>,
    node: GoalNodeView,
    depth: nat,
) -> Option<Seq<char>>
    decreases depth, 0nat,
{
    if depth == 0 {
        None
    } else {
        match child_hashes_within(nodes, node.children, (depth - 1) as nat) {
            Some(hashes) => Some(
                digest::sha256_hex(canonical_encoding(node, in_order(hashes))),
            ),
            None => None,
        }
    }
}

/// The hashes of those of `ids` that are present and resolved, in the order of
/// `ids`, each computed with at most `depth` levels of recursion.
pub open spec fn child_hashes_within(
    nodes: Map<Seq<char>, GoalNodeView>,
    ids: Seq<Seq<char>>,
    depth: nat,
) -> Option<Seq<Seq<char>>>
    decreases depth, ids.len() + 1,
{
    if ids.len() == 0 {
        Some(Seq::empty())
    } else {
        let id = ids.last();
        let before = child_hashes_within(nodes, ids.drop_last(), depth);
        if !nodes.dom().contains(id) || nodes[id].is_open() {
            before
        } else {
            match (before, hash_within(nodes, nodes[id], depth)) {
                (Some(hashes), Some(hash)) => Some(hashes.push(hash)),
                _ => None,
            }
        }
    }
}

/// Whether the resolved part of the subtree below `node` is finite, so that the
/// node has a hash.
pub open spec fn hashable(nodes: Map<Seq<char>, GoalNodeView>, node: GoalNodeView) -> bool {
    exists|depth: nat| (#[trigger] hash_within(nodes, node, depth)) is Some
}

/// Some depth at which the hash of a hashable node is reached.
pub open spec fn hash_depth(nodes: Map<Seq<char>, GoalNodeView>, node: GoalNodeView) -> nat {
    choose|depth: nat| (#[trigger] hash_within(nodes, node, depth)) is Some
}

/// The content hash of a node's resolved subtree.
pub open spec fn hash_of(nodes: Map<Seq<char>, GoalNodeView>, node: GoalNodeView) -> Seq<char> {
    hash_within(nodes, node, hash_depth(nodes, node))->0
}

/// More depth never changes a hash that was reached.
pub proof fn lemma_hash_deeper(
    nodes: Map<Seq<char>, GoalNodeView>,
    node: GoalNodeView,
    d: nat,
    e: nat,
)
    requires
        hash_within(nodes, node, d) is Some,
        d <= e,
    ensures
        hash_within(nodes, node, e) == hash_within(nodes, node, d),
    decreases d, 0nat,
{
    lemma_child_hashes_deeper(nodes, node.children, (d - 1) as nat, (e - 1) as nat);
}

/// More depth never changes child hashes that were reached.
pub proof fn lemma_child_hashes_deeper(
    nodes: Map<Seq<char>, GoalNodeView>,
    ids: Seq<Seq<char>>,
    d: nat,
    e: nat,
)
    requires
        child_hashes_within(nodes, ids, d) is Some,
        d <= e,
    ensures
        child_hashes_within(nodes, ids, e) == child_hashes_within(nodes, ids, d),
    decreases d, ids.len() + 1,
{
    if ids.len() > 0 {
        let id = ids.last();
        lemma_child_hashes_deeper(nodes, ids.drop_last(), d, e);
        if nodes.dom().contains(id) && !nodes[id].is_open() {
            lemma_hash_deeper(nodes, nodes[id], d, e);
        }
    }
}

/// The depth at which a hash is reached does not matter.
pub proof fn lemma_hash_of(nodes: Map<Seq<char>, GoalNodeView>, node: GoalNodeView, d: nat)
    requires
        hash_within(nodes, node, d) is Some,
    ensures
        hashable(nodes, node),
        hash_of(nodes, node) == hash_within(nodes, node, d)->0,
{
    let e = hash_depth(nodes, node);
    if d <= e {
        lemma_hash_deeper(nodes, node, d, e);
    } else {
        lemma_hash_deeper(nodes, node, e, d);
    }
}

fn push_tool_call(buf: &mut Vec<u8>, call: &GoalToolCall)
    ensures
        final(buf)@ == old(buf)@ + encoding::field(5, tool_call_bytes(call@)),
        encoding::writable(tool_call_bytes(call@).len()),
{
    let mut inner: Vec<u8> = Vec::new();
    encoding::push_field(&mut inner, TAG_TOOL_CALL_PART, call.tool.0.as_str().as_bytes());
    encoding::push_field(&mut inner, TAG_TOOL_CALL_PART, call.normalized_args.as_bytes());
    let token = json_text::render_token(&call.validity_token);
    encoding::push_field(&mut inner, TAG_TOOL_CALL_PART, token.as_str().as_bytes());
    encoding::push_field(&mut inner, TAG_TOOL_CALL_PART, call.outcome.0.as_str().as_bytes());
    assert(inner@ =~= tool_call_bytes(call@));
    encoding::push_field(buf, TAG_TOOL_CALL, inner.as_slice());
}

/// Sorts hashes in ascending order.
fn sort_hashes(hashes: Vec<SubtreeHash>) -> (r: Vec<SubtreeHash>)
    ensures
        views::of_seq(r@) == in_order(views::of_seq(hashes@)),
{
    let mut r: Vec<SubtreeHash> = Vec::new();
    let ghost all = views::of_seq(hashes@);
    let ghost order = text::lex_order();
    let mut i: usize = 0;
    proof {
        assert(views::of_seq(r@) =~= all.take(0));
        text::lemma_lex_order();
    }
    while i < hashes.len()
        invariant
            i <= hashes@.len(),
            all == views::of_seq(hashes@),
            order == text::lex_order(),
            vstd::relations::sorted_by(views::of_seq(r@), order),
            views::of_seq(r@).to_multiset() =~= all.take(i as int).to_multiset(),
        decreases hashes@.len() - i,
    {
        let mut at: usize = 0;
        while at < r.len() && text::at_or_before(
            r[at].0.0.as_str(),
            hashes[i as usize].0.0.as_str(),
        )
            invariant
                i < hashes@.len(),
                at <= r@.len(),
                forall|j: int| 0 <= j < at ==> text::lex_le((#[trigger] r@[j])@, hashes@[i as int]@),
            decreases r@.len() - at,
        {
            at += 1;
        }
        let ghost before = views::of_seq(r@);
        let ghost x = all[i as int];
        r.insert(at, hashes[i].clone());
        proof {
            let after = views::of_seq(r@);
            assert(after =~= before.insert(at as int, x));
            text::lemma_lex_order();
            assert forall|a: int, b: int| 0 <= a < b < after.len() implies #[trigger] order(
                after[a],
                after[b],
            ) by {
                let p = if a < at {
                    a
                } else {
                    a - 1
                };
                let q = if b < at {
                    b
                } else {
                    b - 1
                };
                if a != at && b != at {
                    assert(order(before[p], before[q]));
                } else if b == at {
                    assert(text::lex_le(before[a], x));
                } else {
                    assert(text::lex_le(x, before[at as int]));
                    if q > at {
                        assert(order(before[at as int], before[q]));
                    }
                }
            }
            vstd::seq_lib::to_multiset_insert(before, at as int, x);
            vstd::seq_lib::to_multiset_insert(all.take(i as int), i as int, x);
            assert(all.take(i as int).insert(i as int, x) =~= all.take(i + 1));
        }
        i += 1;
    }
    proof {
        assert(all.take(i as int) =~= all);
        text::lemma_lex_order();
        all.lemma_sort_by_ensures(order);
        vstd::seq_lib::lemma_sorted_unique(views::of_seq(r@), all.sort_by(order), order);
    }
    r
}

fn resolved_child_hashes(node: &GoalNode, tree: &GoalTree, Ghost(depth): Ghost<nat>) -> (r: Vec<
    SubtreeHash,
>)
    requires
        tree.wf(),
        child_hashes_within(tree@.nodes, node@.children, depth) is Some,
    ensures
        views::of_seq(r@) == in_order(
            child_hashes_within(tree@.nodes, node@.children, depth)->0,
        ),
    decreases depth, 1nat,
{
    let mut hashes: Vec<SubtreeHash> = Vec::new();
    let mut i: usize = 0;
    let ghost ids = node@.children;
    assert(ids.take(0) =~= Seq::<Seq<char>>::empty());
    assert(views::of_seq(hashes@) =~= Seq::<Seq<char>>::empty());
    while i < node.children.len()
        invariant
            tree.wf(),
            i <= node.children@.len(),
            ids == node@.children,
            child_hashes_within(tree@.nodes, ids, depth) is Some,
            child_hashes_within(tree@.nodes, ids.take(i as int), depth) == Some(
                views::of_seq(hashes@),
            ),
        decreases node.children@.len() - i,
    {
        proof {
            assert(ids.take(i + 1).drop_last() =~= ids.take(i as int));
            assert(ids.take(i + 1).last() == node.children@[i as int]@);
            lemma_prefix_reached(tree@.nodes, ids, depth, i + 1);
        }
        let ghost before = views::of_seq(hashes@);
        match tree.node(&node.children[i]) {
            Some(child) => {
                if !child.is_open() {
                    let hash = hash_node(child, tree, Ghost(depth));
                    hashes.push(hash);
                    assert(views::of_seq(hashes@) =~= before.push(hash@));
                }
            },
            None => {},
        }
        i += 1;
    }
    assert(ids.take(i as int) =~= ids);
    sort_hashes(hashes)
}

proof fn lemma_prefix_reached(
    nodes: Map<Seq<char>, GoalNodeView>,
    ids: Seq<Seq<char>>,
    depth: nat,
    n: int,
)
    requires
        child_hashes_within(nodes, ids, depth) is Some,
        0 <= n <= ids.len(),
    ensures
        child_hashes_within(nodes, ids.take(n), depth) is Some,
    decreases ids.len(),
{
    if n == ids.len() {
        assert(ids.take(n) =~= ids);
    } else {
        lemma_prefix_reached(nodes, ids.drop_last(), depth, n);
        assert(ids.drop_last().take(n) =~= ids.take(n));
    }
}

fn canonical_bytes(node: &GoalNode, tree: &GoalTree, Ghost(depth): Ghost<nat>) -> (r: Vec<u8>)
    requires
        tree.wf(),
        child_hashes_within(tree@.nodes, node@.children, depth) is Some,
    ensures
        r@ == canonical_encoding(
            node@,
            in_order(child_hashes_within(tree@.nodes, node@.children, depth)->0),
        ),
        encodable(
            node@,
            in_order(child_hashes_within(tree@.nodes, node@.children, depth)->0),
        ),
    decreases depth, 2nat,
{
    let mut buf: Vec<u8> = Vec::new();
    encoding::push_field(&mut buf, TAG_HYPOTHESIS, node.hypothesis.as_str().as_bytes());

    let ghost start = buf@;
    encoding::push_count(&mut buf, TAG_RESOLUTION_CONDITION, node.resolution_conditions.len());
    let ghost counted = buf@;
    let ghost conditions = utf8_all(node@.resolution_conditions);
    let mut i: usize = 0;
    assert(conditions.take(0) =~= Seq::<Seq<u8>>::empty());
    while i < node.resolution_conditions.len()
        invariant
            i <= node.resolution_conditions@.len(),
            conditions == utf8_all(node@.resolution_conditions),
            buf@ =~= counted + encoding::fields(2, conditions.take(i as int)),
            forall|j: int| 0 <= j < i ==> encoding::writable((#[trigger] conditions[j]).len()),
        decreases node.resolution_conditions@.len() - i,
    {
        proof {
            assert(conditions.take(i + 1).drop_last() =~= conditions.take(i as int));
            assert(conditions.take(i + 1).last() == vstd::utf8::encode_utf8(
                node.resolution_conditions@[i as int]@,
            ));
        }
        encoding::push_field(
            &mut buf,
            TAG_RESOLUTION_CONDITION,
            node.resolution_conditions[i].as_str().as_bytes(),
        );
        i += 1;
    }
    assert(conditions.take(i as int) =~= conditions);
    assert(buf@ =~= start + encoding::counted(2, conditions));

    let resolution = json_text::render_resolution(node.resolution);
    encoding::push_field(&mut buf, TAG_RESOLUTION, resolution.as_str().as_bytes());
    let intent = json_text::render_intent(&node.intent);
    encoding::push_field(&mut buf, TAG_INTENT, intent.as_str().as_bytes());

    let ghost start = buf@;
    encoding::push_count(&mut buf, TAG_TOOL_CALL, node.tool_calls.len());
    let ghost counted = buf@;
    let ghost calls = tool_calls_bytes(node@.tool_calls);
    let mut i: usize = 0;
    assert(calls.take(0) =~= Seq::<Seq<u8>>::empty());
    while i < node.tool_calls.len()
        invariant
            i <= node.tool_calls@.len(),
            calls == tool_calls_bytes(node@.tool_calls),
            buf@ =~= counted + encoding::fields(5, calls.take(i as int)),
            forall|j: int| 0 <= j < i ==> encoding::writable((#[trigger] calls[j]).len()),
        decreases node.tool_calls@.len() - i,
    {
        proof {
            assert(calls.take(i + 1).drop_last() =~= calls.take(i as int));
            assert(calls.take(i + 1).last() == tool_call_bytes(node.tool_calls@[i as int]@));
        }
        push_tool_call(&mut buf, &node.tool_calls[i]);
        i += 1;
    }
    assert(calls.take(i as int) =~= calls);
    assert(buf@ =~= start + encoding::counted(5, calls));

    let child_hashes = resolved_child_hashes(node, tree, Ghost(depth));
    let ghost start = buf@;
    encoding::push_count(&mut buf, TAG_CHILD_HASH, child_hashes.len());
    let ghost counted = buf@;
    let ghost hashes = utf8_all(views::of_seq(child_hashes@));
    let mut i: usize = 0;
    assert(hashes.take(0) =~= Seq::<Seq<u8>>::empty());
    while i < child_hashes.len()
        invariant
            i <= child_hashes@.len(),
            hashes == utf8_all(views::of_seq(child_hashes@)),
            buf@ =~= counted + encoding::fields(6, hashes.take(i as int)),
            forall|j: int| 0 <= j < i ==> encoding::writable((#[trigger] hashes[j]).len()),
        decreases child_hashes@.len() - i,
    {
        proof {
            assert(hashes.take(i + 1).drop_last() =~= hashes.take(i as int));
            assert(hashes.take(i + 1).last() == vstd::utf8::encode_utf8(
                child_hashes@[i as int]@,
            ));
        }
        encoding::push_field(&mut buf, TAG_CHILD_HASH, child_hashes[i].0.0.as_str().as_bytes());
        i += 1;
    }
    assert(hashes.take(i as int) =~= hashes);
    assert(buf@ =~= start + encoding::counted(6, hashes));
    buf
}

fn hash_node(node: &GoalNode, tree: &GoalTree, Ghost(depth): Ghost<nat>) -> (r: SubtreeHash)
    requires
        tree.wf(),
        hash_within(tree@.nodes, node@, depth) is Some,
    ensures
        r@ == hash_within(tree@.nodes, node@, depth)->0,
        encodable(
            node@,
            in_order(child_hashes_within(tree@.nodes, node@.children, (depth - 1) as nat)->0),
        ),
    decreases depth, 0nat,
{
    let bytes = canonical_bytes(node, tree, Ghost((depth - 1) as nat));
    SubtreeHash(digest::hash_content(bytes.as_slice()))
}

/// The content hash of a node's resolved subtree.
///
/// The node's children are looked up in `tree`; absent and open ones are left
/// out. The resolved part of the subtree has to be finite. Every length in what
/// is hashed fits its eight bytes.
pub fn subtree_hash(node: &GoalNode, tree: &GoalTree) -> (r: SubtreeHash)
    requires
        tree.wf(),
        hashable(tree@.nodes, node@),
    ensures
        r@ == hash_of(tree@.nodes, node@),
        encodable(node@, in_order(child_hashes(tree@.nodes, node@.children))),
{
    let ghost depth = hash_depth(tree@.nodes, node@);
    proof {
        lemma_child_hashes(tree@.nodes, node@.children, (depth - 1) as nat);
    }
    hash_node(node, tree, Ghost(depth))
}

/// Whether every length in the bytes that a node's hash covers fits its eight
/// bytes.
pub open spec fn encodable(node: GoalNodeView, child_hashes: Seq<Seq<char>>) -> bool {
    &&& encoding::writable(vstd::utf8::encode_utf8(node.hypothesis).len())
    &&& encoding::all_writable(utf8_all(node.resolution_conditions))
    &&& encoding::writable(
        vstd::utf8::encode_utf8(json_text::resolution_json(node.resolution)).len(),
    )
    &&& encoding::writable(vstd::utf8::encode_utf8(json_text::intent_json(node.intent)).len())
    &&& encoding::all_writable(tool_calls_bytes(node.tool_calls))
    &&& encoding::all_writable(utf8_all(child_hashes))
}

proof fn lemma_utf8_injective(a: Seq<char>, b: Seq<char>)
    requires
        vstd::utf8::encode_utf8(a) == vstd::utf8::encode_utf8(b),
    ensures
        a == b,
{
    vstd::utf8::encode_utf8_decode_utf8(a);
    vstd::utf8::encode_utf8_decode_utf8(b);
}

proof fn lemma_utf8_all_injective(a: Seq<Seq<char>>, b: Seq<Seq<char>>)
    requires
        utf8_all(a) == utf8_all(b),
    ensures
        a == b,
{
    assert(utf8_all(a).len() == a.len());
    assert(utf8_all(b).len() == b.len());
    assert forall|i: int| 0 <= i < a.len() implies a[i] == b[i] by {
        assert(utf8_all(a)[i] == utf8_all(b)[i]);
        lemma_utf8_injective(a[i], b[i]);
    }
    assert(a =~= b);
}

proof fn lemma_tool_call_bytes_injective(a: ToolCallView, b: ToolCallView)
    requires
        tool_call_bytes(a) == tool_call_bytes(b),
        encoding::writable(tool_call_bytes(a).len()),
    ensures
        a == b,
{
    let (a1, b1) = (vstd::utf8::encode_utf8(a.tool), vstd::utf8::encode_utf8(b.tool));
    let (a2, b2) = (
        vstd::utf8::encode_utf8(a.normalized_args),
        vstd::utf8::encode_utf8(b.normalized_args),
    );
    let (a3, b3) = (
        vstd::utf8::encode_utf8(json_text::token_json(a.validity_token)),
        vstd::utf8::encode_utf8(json_text::token_json(b.validity_token)),
    );
    let (a4, b4) = (vstd::utf8::encode_utf8(a.outcome), vstd::utf8::encode_utf8(b.outcome));
    let none = Seq::<u8>::empty();
    let (ta3, tb3) = (encoding::field(0, a4) + none, encoding::field(0, b4) + none);
    let (ta2, tb2) = (encoding::field(0, a3) + ta3, encoding::field(0, b3) + tb3);
    let (ta1, tb1) = (encoding::field(0, a2) + ta2, encoding::field(0, b2) + tb2);
    assert(tool_call_bytes(a) =~= encoding::field(0, a1) + ta1);
    assert(tool_call_bytes(b) =~= encoding::field(0, b1) + tb1);
    encoding::lemma_field_prefix(0, a1, ta1, 0, b1, tb1);
    encoding::lemma_field_prefix(0, a2, ta2, 0, b2, tb2);
    encoding::lemma_field_prefix(0, a3, ta3, 0, b3, tb3);
    encoding::lemma_field_prefix(0, a4, none, 0, b4, none);
    lemma_utf8_injective(a.tool, b.tool);
    lemma_utf8_injective(a.normalized_args, b.normalized_args);
    lemma_utf8_injective(
        json_text::token_json(a.validity_token),
        json_text::token_json(b.validity_token),
    );
    lemma_utf8_injective(a.outcome, b.outcome);
    json_text::lemma_token_json_injective(a.validity_token, b.validity_token);
    assert(a =~= b);
}

proof fn lemma_regroup(
    p: Seq<u8>,
    q: Seq<u8>,
    r: Seq<u8>,
    s: Seq<u8>,
    t: Seq<u8>,
    u: Seq<u8>,
)
    ensures
        p + q + r + s + t + u == p + (q + (r + (s + (t + (u + Seq::<u8>::empty()))))),
{
    assert(p + q + r + s + t + u =~= p + (q + (r + (s + (t + (u + Seq::<u8>::empty()))))));
}

/// Field boundaries are unambiguous: the bytes that a hash covers determine the
/// hypothesis, the conditions, the resolution, the intent, the tool calls and
/// the child hashes.
pub proof fn law_encoding_is_unambiguous(
    a: GoalNodeView,
    a_hashes: Seq<Seq<char>>,
    b: GoalNodeView,
    b_hashes: Seq<Seq<char>>,
)
    requires
        encodable(a, a_hashes),
        encodable(b, b_hashes),
        canonical_encoding(a, a_hashes) == canonical_encoding(b, b_hashes),
    ensures
        a.hypothesis == b.hypothesis,
        a.resolution_conditions == b.resolution_conditions,
        a.resolution == b.resolution,
        a.intent == b.intent,
        a.tool_calls == b.tool_calls,
        a_hashes == b_hashes,
{
    let (a1, b1) = (vstd::utf8::encode_utf8(a.hypothesis), vstd::utf8::encode_utf8(b.hypothesis));
    let (a2, b2) = (utf8_all(a.resolution_conditions), utf8_all(b.resolution_conditions));
    let (a3, b3) = (
        vstd::utf8::encode_utf8(json_text::resolution_json(a.resolution)),
        vstd::utf8::encode_utf8(json_text::resolution_json(b.resolution)),
    );
    let (a4, b4) = (
        vstd::utf8::encode_utf8(json_text::intent_json(a.intent)),
        vstd::utf8::encode_utf8(json_text::intent_json(b.intent)),
    );
    let (a5, b5) = (tool_calls_bytes(a.tool_calls), tool_calls_bytes(b.tool_calls));
    let (a6, b6) = (utf8_all(a_hashes), utf8_all(b_hashes));
    let none = Seq::<u8>::empty();
    let (ta5, tb5) = (encoding::counted(6, a6) + none, encoding::counted(6, b6) + none);
    let (ta4, tb4) = (encoding::counted(5, a5) + ta5, encoding::counted(5, b5) + tb5);
    let (ta3, tb3) = (encoding::field(4, a4) + ta4, encoding::field(4, b4) + tb4);
    let (ta2, tb2) = (encoding::field(3, a3) + ta3, encoding::field(3, b3) + tb3);
    let (ta1, tb1) = (encoding::counted(2, a2) + ta2, encoding::counted(2, b2) + tb2);
    lemma_regroup(
        encoding::field(1, a1),
        encoding::counted(2, a2),
        encoding::field(3, a3),
        encoding::field(4, a4),
        encoding::counted(5, a5),
        encoding::counted(6, a6),
    );
    lemma_regroup(
        encoding::field(1, b1),
        encoding::counted(2, b2),
        encoding::field(3, b3),
        encoding::field(4, b4),
        encoding::counted(5, b5),
        encoding::counted(6, b6),
    );
    encoding::lemma_field_prefix(1, a1, ta1, 1, b1, tb1);
    encoding::lemma_counted_prefix(2, a2, ta2, b2, tb2);
    encoding::lemma_field_prefix(3, a3, ta3, 3, b3, tb3);
    encoding::lemma_field_prefix(4, a4, ta4, 4, b4, tb4);
    encoding::lemma_counted_prefix(5, a5, ta5, b5, tb5);
    encoding::lemma_counted_prefix(6, a6, none, b6, none);
    lemma_utf8_injective(a.hypothesis, b.hypothesis);
    lemma_utf8_all_injective(a.resolution_conditions, b.resolution_conditions);
    lemma_utf8_injective(
        json_text::resolution_json(a.resolution),
        json_text::resolution_json(b.resolution),
    );
    json_text::lemma_resolution_json_injective(a.resolution, b.resolution);
    lemma_utf8_injective(json_text::intent_json(a.intent), json_text::intent_json(b.intent));
    json_text::lemma_intent_json_injective(a.intent, b.intent);
    lemma_utf8_all_injective(a_hashes, b_hashes);
    assert(a5.len() == a.tool_calls.len());
    assert(b5.len() == b.tool_calls.len());
    assert forall|i: int| 0 <= i < a.tool_calls.len() implies a.tool_calls[i] == b.tool_calls[i] by {
        assert(a5[i] == tool_call_bytes(a.tool_calls[i]));
        assert(b5[i] == tool_call_bytes(b.tool_calls[i]));
        lemma_tool_call_bytes_injective(a.tool_calls[i], b.tool_calls[i]);
    }
    assert(a.tool_calls =~= b.tool_calls);
}

/// Whether two nodes have the same semantic contract and the same children.
pub open spec fn same_contract(a: GoalNodeView, b: GoalNodeView) -> bool {
    &&& a.hypothesis == b.hypothesis
    &&& a.resolution_conditions == b.resolution_conditions
    &&& a.resolution == b.resolution
    &&& a.intent == b.intent
    &&& a.tool_calls == b.tool_calls
    &&& a.children == b.children
}

/// Whether two trees have the same ids, and nodes with the same contracts under
/// them.
pub open spec fn same_contracts(
    a: Map<Seq<char>, GoalNodeView>,
    b: Map<Seq<char>, GoalNodeView>,
) -> bool {
    &&& a.dom() == b.dom()
    &&& forall|id: Seq<char>| #[trigger] a.dom().contains(id) ==> same_contract(a[id], b[id])
}

proof fn lemma_same_contract_within(
    a: Map<Seq<char>, GoalNodeView>,
    x: GoalNodeView,
    b: Map<Seq<char>, GoalNodeView>,
    y: GoalNodeView,
    depth: nat,
)
    requires
        same_contracts(a, b),
        same_contract(x, y),
    ensures
        hash_within(a, x, depth) == hash_within(b, y, depth),
    decreases depth, 0nat,
{
    if depth > 0 {
        lemma_same_contract_children(a, b, x.children, (depth - 1) as nat);
    }
}

proof fn lemma_same_contract_children(
    a: Map<Seq<char>, GoalNodeView>,
    b: Map<Seq<char>, GoalNodeView>,
    ids: Seq<Seq<char>>,
    depth: nat,
)
    requires
        same_contracts(a, b),
    ensures
        child_hashes_within(a, ids, depth) == child_hashes_within(b, ids, depth),
    decreases depth, ids.len() + 1,
{
    if ids.len() > 0 {
        let id = ids.last();
        lemma_same_contract_children(a, b, ids.drop_last(), depth);
        if a.dom().contains(id) {
            lemma_same_contract_within(a, a[id], b, b[id], depth);
        }
    }
}

/// The hash is keyed on the semantic contract only: ids, parents and stored
/// hashes, of the node and of every node below it, do not enter it.
pub proof fn law_hash_covers_contract_only(
    a: Map<Seq<char>, GoalNodeView>,
    x: GoalNodeView,
    b: Map<Seq<char>, GoalNodeView>,
    y: GoalNodeView,
)
    requires
        same_contracts(a, b),
        same_contract(x, y),
    ensures
        hashable(a, x) == hashable(b, y),
        hashable(a, x) ==> hash_of(a, x) == hash_of(b, y),
{
    assert forall|depth: nat| hash_within(a, x, depth) == hash_within(b, y, depth) by {
        lemma_same_contract_within(a, x, b, y, depth);
    }
    if hashable(a, x) {
        let d = hash_depth(a, x);
        assert(hash_within(b, y, d) is Some);
        lemma_hash_of(b, y, d);
    }
    if hashable(b, y) {
        let d = hash_depth(b, y);
        assert(hash_within(a, x, d) is Some);
    }
}

/// The hashes that one child contributes: one if it is present and resolved,
/// none otherwise.
spec fn contribution(
    nodes: Map<Seq<char>, GoalNodeView>,
    id: Seq<char>,
    depth: nat,
) -> Option<Seq<Seq<char>>> {
    if !nodes.dom().contains(id) || nodes[id].is_open() {
        Some(Seq::empty())
    } else {
        match hash_within(nodes, nodes[id], depth) {
            Some(h) => Some(seq![h]),
            None => None,
        }
    }
}

proof fn lemma_children_without(
    nodes: Map<Seq<char>, GoalNodeView>,
    ids: Seq<Seq<char>>,
    depth: nat,
    j: int,
)
    requires
        0 <= j < ids.len(),
    ensures
        ({
            let all = child_hashes_within(nodes, ids, depth);
            let rest = child_hashes_within(nodes, ids.remove(j), depth);
            let one = contribution(nodes, ids[j], depth);
            &&& all is Some <==> rest is Some && one is Some
            &&& all is Some ==> all->0.to_multiset() =~= rest->0.to_multiset().add(
                one->0.to_multiset(),
            )
        }),
    decreases ids.len(),
{
    broadcast use vstd::multiset::group_multiset_axioms;
    broadcast use vstd::seq_lib::group_to_multiset_ensures;

    let last = ids.last();
    let init = ids.drop_last();
    let one = contribution(nodes, ids[j], depth);
    if j == ids.len() - 1 {
        assert(ids.remove(j) =~= init);
        if one is Some && child_hashes_within(nodes, init, depth) is Some {
            let before = child_hashes_within(nodes, init, depth)->0;
            if one->0.len() == 0 {
                assert(one->0 =~= Seq::<Seq<char>>::empty());
            } else {
                assert(one->0 =~= Seq::<Seq<char>>::empty().push(one->0[0]));
            }
        }
    } else {
        lemma_children_without(nodes, init, depth, j);
        assert(ids.remove(j).drop_last() =~= init.remove(j));
        assert(ids.remove(j).last() == last);
        assert(init[j] == ids[j]);
        let all = child_hashes_within(nodes, init, depth);
        let rest = child_hashes_within(nodes, init.remove(j), depth);
    }
}

proof fn lemma_children_permuted(
    nodes: Map<Seq<char>, GoalNodeView>,
    a: Seq<Seq<char>>,
    b: Seq<Seq<char>>,
    depth: nat,
)
    requires
        a.to_multiset() == b.to_multiset(),
    ensures
        child_hashes_within(nodes, a, depth) is Some <==> child_hashes_within(nodes, b, depth)
            is Some,
        child_hashes_within(nodes, a, depth) is Some ==> child_hashes_within(
            nodes,
            a,
            depth,
        )->0.to_multiset() == child_hashes_within(nodes, b, depth)->0.to_multiset(),
    decreases a.len(),
{
    a.to_multiset_ensures();
    b.to_multiset_ensures();
    assert(a.len() == b.len());
    if a.len() == 0 {
        assert(a =~= b);
    } else {
        let i = a.len() - 1;
        let id = a[i];
        assert(a.contains(id));
        assert(b.to_multiset().count(id) > 0);
        assert(b.contains(id));
        let j = choose|j: int| 0 <= j < b.len() && b[j] == id;
        assert(a.remove(i).to_multiset() =~= a.to_multiset().remove(id));
        assert(b.remove(j).to_multiset() =~= b.to_multiset().remove(id));
        lemma_children_permuted(nodes, a.remove(i), b.remove(j), depth);
        lemma_children_without(nodes, a, depth, i);
        lemma_children_without(nodes, b, depth, j);
    }
}

proof fn lemma_in_order_unique(a: Seq<Seq<char>>, b: Seq<Seq<char>>)
    requires
        a.to_multiset() == b.to_multiset(),
    ensures
        in_order(a) == in_order(b),
{
    text::lemma_lex_order();
    let order = text::lex_order();
    a.lemma_sort_by_ensures(order);
    b.lemma_sort_by_ensures(order);
    vstd::seq_lib::lemma_sorted_unique(a.sort_by(order), b.sort_by(order), order);
}

/// The order in which children were added does not matter: a node whose
/// children are listed in another order has the same hash.
pub proof fn law_child_order_is_irrelevant(
    nodes: Map<Seq<char>, GoalNodeView>,
    node: GoalNodeView,
    children: Seq<Seq<char>>,
)
    requires
        node.children.to_multiset() == children.to_multiset(),
    ensures
        hashable(nodes, GoalNodeView { children, ..node }) == hashable(nodes, node),
        hashable(nodes, node) ==> hash_of(nodes, GoalNodeView { children, ..node }) == hash_of(
            nodes,
            node,
        ),
{
    let other = GoalNodeView { children, ..node };
    assert forall|depth: nat| hash_within(nodes, other, depth) == hash_within(
        nodes,
        node,
        depth,
    ) by {
        if depth > 0 {
            let d = (depth - 1) as nat;
            lemma_children_permuted(nodes, node.children, children, d);
            if child_hashes_within(nodes, children, d) is Some {
                let x = child_hashes_within(nodes, node.children, d)->0;
                let y = child_hashes_within(nodes, children, d)->0;
                lemma_in_order_unique(x, y);
            }
        }
    }
    if hashable(nodes, node) {
        let d = hash_depth(nodes, node);
        assert(hash_within(nodes, other, d) is Some);
        lemma_hash_of(nodes, other, d);
    }
    if hashable(nodes, other) {
        let d = hash_depth(nodes, other);
        assert(hash_within(nodes, node, d) is Some);
    }
}

/// A child that is absent or open does not enter its parent's hash.
pub proof fn law_unresolved_child_is_left_out(
    nodes: Map<Seq<char>, GoalNodeView>,
    node: GoalNodeView,
    id: Seq<char>,
)
    requires
        !nodes.dom().contains(id) || nodes[id].is_open(),
    ensures
        hashable(nodes, GoalNodeView { children: node.children.push(id), ..node }) == hashable(
            nodes,
            node,
        ),
        hashable(nodes, node) ==> hash_of(
            nodes,
            GoalNodeView { children: node.children.push(id), ..node },
        ) == hash_of(nodes, node),
{
    let other = GoalNodeView { children: node.children.push(id), ..node };
    assert(node.children.push(id).drop_last() =~= node.children);
    assert forall|depth: nat| hash_within(nodes, other, depth) == hash_within(
        nodes,
        node,
        depth,
    ) by {}
    if hashable(nodes, node) {
        let d = hash_depth(nodes, node);
        assert(hash_within(nodes, other, d) is Some);
        lemma_hash_of(nodes, other, d);
    }
    if hashable(nodes, other) {
        let d = hash_depth(nodes, other);
        assert(hash_within(nodes, node, d) is Some);
    }
}

/// The hashes of those of `ids` that are present and resolved, in the order of
/// `ids`.
pub open spec fn child_hashes(
    nodes: Map<Seq<char>, GoalNodeView>,
    ids: Seq<Seq<char>>,
) -> Seq<Seq<char>>
    decreases ids.len(),
{
    if ids.len() == 0 {
        Seq::empty()
    } else {
        let id = ids.last();
        let before = child_hashes(nodes, ids.drop_last());
        if !nodes.dom().contains(id) || nodes[id].is_open() {
            before
        } else {
            before.push(hash_of(nodes, nodes[id]))
        }
    }
}

proof fn lemma_child_hashes(nodes: Map<Seq<char>, GoalNodeView>, ids: Seq<Seq<char>>, depth: nat)
    requires
        child_hashes_within(nodes, ids, depth) is Some,
    ensures
        child_hashes_within(nodes, ids, depth)->0 == child_hashes(nodes, ids),
    decreases ids.len(),
{
    if ids.len() > 0 {
        let id = ids.last();
        lemma_child_hashes(nodes, ids.drop_last(), depth);
        if nodes.dom().contains(id) && !nodes[id].is_open() {
            lemma_hash_of(nodes, nodes[id], depth);
        }
    }
}

/// The bytes that the hash of a node covers.
pub open spec fn covered(nodes: Map<Seq<char>, GoalNodeView>, node: GoalNodeView) -> Seq<u8> {
    canonical_encoding(node, in_order(child_hashes(nodes, node.children)))
}

/// The hash of a node is the digest of the bytes that it covers.
pub proof fn lemma_hash_is_digest(nodes: Map<Seq<char>, GoalNodeView>, node: GoalNodeView)
    requires
        hashable(nodes, node),
    ensures
        hash_of(nodes, node) == digest::sha256_hex(covered(nodes, node)),
{
    let d = hash_depth(nodes, node);
    lemma_child_hashes(nodes, node.children, (d - 1) as nat);
}

/// Collisions aside, two nodes have the same hash exactly when their contracts
/// agree: hypothesis, conditions, resolution, intent and tool calls are the
/// same, and so are the hashes of the resolved children, in whatever order. The
/// bound on lengths holds of every hash that [`subtree_hash`] computes.
pub proof fn law_hash_decides_contract(
    a: Map<Seq<char>, GoalNodeView>,
    x: GoalNodeView,
    b: Map<Seq<char>, GoalNodeView>,
    y: GoalNodeView,
)
    requires
        hashable(a, x),
        hashable(b, y),
        encodable(x, in_order(child_hashes(a, x.children))),
        encodable(y, in_order(child_hashes(b, y.children))),
        digest::sha256_digest(covered(a, x)) == digest::sha256_digest(covered(b, y)) ==> covered(
            a,
            x,
        ) == covered(b, y),
    ensures
        hash_of(a, x) == hash_of(b, y) <==> {
            &&& x.hypothesis == y.hypothesis
            &&& x.resolution_conditions == y.resolution_conditions
            &&& x.resolution == y.resolution
            &&& x.intent == y.intent
            &&& x.tool_calls == y.tool_calls
            &&& child_hashes(a, x.children).to_multiset() == child_hashes(
                b,
                y.children,
            ).to_multiset()
        },
{
    let (p, q) = (child_hashes(a, x.children), child_hashes(b, y.children));
    lemma_hash_is_digest(a, x);
    lemma_hash_is_digest(b, y);
    if hash_of(a, x) == hash_of(b, y) {
        digest::lemma_lower_hex_injective(
            digest::sha256_digest(covered(a, x)),
            digest::sha256_digest(covered(b, y)),
        );
        law_encoding_is_unambiguous(x, in_order(p), y, in_order(q));
        text::lemma_lex_order();
        p.lemma_sort_by_ensures(text::lex_order());
        q.lemma_sort_by_ensures(text::lex_order());
    }
    if p.to_multiset() == q.to_multiset() {
        lemma_in_order_unique(p, q);
    }
}

} // verus!
