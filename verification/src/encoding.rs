//! Tagged, length-prefixed byte fields.

use vstd::prelude::*;

verus! {

/// `256` to the power `k`.
pub open spec fn pow256(k: nat) -> nat
    decreases k,
{
    if k == 0 {
        1
    } else {
        256 * pow256((k - 1) as nat)
    }
}

/// The `k` lowest base-256 digits of `n`, highest first.
pub open spec fn big_endian(n: nat, k: nat) -> Seq<u8>
    decreases k,
{
    if k == 0 {
        Seq::empty()
    } else {
        big_endian(n / 256, (k - 1) as nat).push((n % 256) as u8)
    }
}

/// A field: its tag, the length of its content in eight bytes, its content.
pub open spec fn field(tag: u8, content: Seq<u8>) -> Seq<u8> {
    seq![tag] + big_endian(content.len(), 8) + content
}

/// The fields of the given contents under one tag, one after the other.
pub open spec fn fields(tag: u8, contents: Seq<Seq<u8>>) -> Seq<u8>
    decreases contents.len(),
{
    if contents.len() == 0 {
        Seq::empty()
    } else {
        fields(tag, contents.drop_last()) + field(tag, contents.last())
    }
}

/// A list of contents: the tag, how many there are in eight bytes, their fields.
pub open spec fn counted(tag: u8, contents: Seq<Seq<u8>>) -> Seq<u8> {
    seq![tag] + big_endian(contents.len(), 8) + fields(tag, contents)
}

/// Whether a length can be written in eight bytes.
pub open spec fn writable(n: nat) -> bool {
    n <= u64::MAX
}

/// Whether every content, and their number, can be written in eight bytes.
pub open spec fn all_writable(contents: Seq<Seq<u8>>) -> bool {
    writable(contents.len()) && forall|i: int|
        0 <= i < contents.len() ==> writable((#[trigger] contents[i]).len())
}

pub proof fn lemma_big_endian_len(n: nat, k: nat)
    ensures
        big_endian(n, k).len() == k,
    decreases k,
{
    if k > 0 {
        lemma_big_endian_len(n / 256, (k - 1) as nat);
    }
}

/// The base-256 form of a number that fits determines it.
pub proof fn lemma_big_endian_injective(a: nat, b: nat, k: nat)
    requires
        a < pow256(k),
        b < pow256(k),
        big_endian(a, k) == big_endian(b, k),
    ensures
        a == b,
    decreases k,
{
    if k > 0 {
        let x = big_endian(a, k);
        let y = big_endian(b, k);
        assert(x.drop_last() =~= big_endian(a / 256, (k - 1) as nat));
        assert(y.drop_last() =~= big_endian(b / 256, (k - 1) as nat));
        assert(x.last() == (a % 256) as u8);
        assert(y.last() == (b % 256) as u8);
        assert(a % 256 == b % 256);
        lemma_big_endian_injective(a / 256, b / 256, (k - 1) as nat);
    }
}

proof fn lemma_pow256_8()
    ensures
        pow256(8) == 0x1_0000_0000_0000_0000,
{
    reveal_with_fuel(pow256, 9);
}

/// The eight-byte form of a number determines it.
pub proof fn lemma_count_injective(a: nat, b: nat)
    requires
        writable(a),
        writable(b),
        big_endian(a, 8) == big_endian(b, 8),
    ensures
        a == b,
{
    lemma_pow256_8();
    lemma_big_endian_injective(a, b, 8);
}

/// A field can be told from what follows it.
pub proof fn lemma_field_prefix(t: u8, a: Seq<u8>, x: Seq<u8>, u: u8, b: Seq<u8>, y: Seq<u8>)
    requires
        field(t, a) + x == field(u, b) + y,
        writable(a.len()),
        writable(b.len()),
    ensures
        t == u,
        a == b,
        x == y,
{
    let l = field(t, a) + x;
    let r = field(u, b) + y;
    lemma_big_endian_len(a.len(), 8);
    lemma_big_endian_len(b.len(), 8);
    assert(l[0] == t);
    assert(r[0] == u);
    assert(l.subrange(1, 9) =~= big_endian(a.len(), 8));
    assert(r.subrange(1, 9) =~= big_endian(b.len(), 8));
    lemma_count_injective(a.len(), b.len());
    assert(l.subrange(9, 9 + a.len() as int) =~= a);
    assert(r.subrange(9, 9 + a.len() as int) =~= b);
    assert(l.skip(9 + a.len() as int) =~= x);
    assert(r.skip(9 + a.len() as int) =~= y);
}

proof fn lemma_fields_split(tag: u8, contents: Seq<Seq<u8>>)
    requires
        contents.len() > 0,
    ensures
        fields(tag, contents) == field(tag, contents[0]) + fields(tag, contents.drop_first()),
    decreases contents.len(),
{
    let init = contents.drop_last();
    if contents.len() == 1 {
        assert(init =~= Seq::<Seq<u8>>::empty());
        assert(contents.drop_first() =~= Seq::<Seq<u8>>::empty());
        assert(fields(tag, contents) =~= field(tag, contents[0]) + fields(
            tag,
            contents.drop_first(),
        ));
    } else {
        lemma_fields_split(tag, init);
        assert(init.drop_first() =~= contents.drop_first().drop_last());
        assert(fields(tag, contents) =~= field(tag, contents[0]) + fields(
            tag,
            contents.drop_first(),
        ));
    }
}

proof fn lemma_fields_prefix(tag: u8, a: Seq<Seq<u8>>, x: Seq<u8>, b: Seq<Seq<u8>>, y: Seq<u8>)
    requires
        a.len() == b.len(),
        fields(tag, a) + x == fields(tag, b) + y,
        all_writable(a),
        all_writable(b),
    ensures
        a == b,
        x == y,
    decreases a.len(),
{
    if a.len() == 0 {
        assert(fields(tag, a) + x =~= x);
        assert(fields(tag, b) + y =~= y);
        assert(a =~= b);
    } else {
        lemma_fields_split(tag, a);
        lemma_fields_split(tag, b);
        let ra = fields(tag, a.drop_first()) + x;
        let rb = fields(tag, b.drop_first()) + y;
        assert(fields(tag, a) + x =~= field(tag, a[0]) + ra);
        assert(fields(tag, b) + y =~= field(tag, b[0]) + rb);
        lemma_field_prefix(tag, a[0], ra, tag, b[0], rb);
        lemma_fields_prefix(tag, a.drop_first(), x, b.drop_first(), y);
        assert(a =~= seq![a[0]] + a.drop_first());
        assert(b =~= seq![b[0]] + b.drop_first());
    }
}

/// A counted list can be told from what follows it.
pub proof fn lemma_counted_prefix(
    tag: u8,
    a: Seq<Seq<u8>>,
    x: Seq<u8>,
    b: Seq<Seq<u8>>,
    y: Seq<u8>,
)
    requires
        counted(tag, a) + x == counted(tag, b) + y,
        all_writable(a),
        all_writable(b),
    ensures
        a == b,
        x == y,
{
    let l = counted(tag, a) + x;
    let r = counted(tag, b) + y;
    lemma_big_endian_len(a.len(), 8);
    lemma_big_endian_len(b.len(), 8);
    assert(l.subrange(1, 9) =~= big_endian(a.len(), 8));
    assert(r.subrange(1, 9) =~= big_endian(b.len(), 8));
    lemma_count_injective(a.len(), b.len());
    assert(l.skip(9) =~= fields(tag, a) + x);
    assert(r.skip(9) =~= fields(tag, b) + y);
    lemma_fields_prefix(tag, a, x, b, y);
}

/// Appends the `k` lowest base-256 digits of `n`, highest first.
pub fn push_big_endian(buf: &mut Vec<u8>, n: u64, k: usize)
    ensures
        final(buf)@ == old(buf)@ + big_endian(n as nat, k as nat),
    decreases k,
{
    if k > 0 {
        push_big_endian(buf, n / 256, k - 1);
        buf.push((n % 256) as u8);
    }
    assert(buf@ =~= old(buf)@ + big_endian(n as nat, k as nat));
}

/// Appends a tag and a count in eight bytes.
pub fn push_count(buf: &mut Vec<u8>, tag: u8, n: usize)
    ensures
        final(buf)@ == old(buf)@ + (seq![tag] + big_endian(n as nat, 8)),
        writable(n as nat),
{
    buf.push(tag);
    push_big_endian(buf, n as u64, 8);
    assert(buf@ =~= old(buf)@ + (seq![tag] + big_endian(n as nat, 8)));
}

/// Appends a field: its tag, its length in eight bytes, its content.
pub fn push_field(buf: &mut Vec<u8>, tag: u8, bytes: &[u8])
    ensures
        final(buf)@ == old(buf)@ + field(tag, bytes@),
        writable(bytes@.len()),
{
    push_count(buf, tag, bytes.len());
    buf.extend_from_slice(bytes);
    proof {
        lemma_big_endian_len(bytes@.len(), 8);
    }
    assert(buf@ =~= old(buf)@ + field(tag, bytes@));
}

} // verus!
