//! Canonical arguments: equal arguments of a tool have equal bytes.

use vstd::arithmetic::power2::*;
use vstd::prelude::*;
use vstd::string::*;

use crate::json_text;
use crate::text;
use crate::tier1::json;
use crate::tier1::json::{Json, Norm, NormFault};
use crate::types::{CanonicalJson, ToolName};
use crate::views;

verus! {

/// Arguments that cannot be canonicalized.
#[derive(Debug, PartialEq, Eq)]
pub enum NormalizationError {
    /// A number without a canonical form.
    NonCanonicalNumber {
        /// The number as text.
        rendered: String,
    },
    /// An object in which a key stands twice.
    DuplicateKey {
        /// The key.
        key: String,
    },
    /// Arguments that the tool does not allow to canonicalize.
    NotCanonicalizableForTool {
        /// The tool.
        tool: ToolName,
        /// Why not.
        reason: String,
    },
}

/// The content of a normalization error.
#[verifier::ext_equal]
pub enum NormalizationErrorView {
    NonCanonicalNumber { rendered: Seq<char> },
    DuplicateKey { key: Seq<char> },
    NotCanonicalizableForTool { tool: Seq<char>, reason: Seq<char> },
}

impl View for NormalizationError {
    type V = NormalizationErrorView;

    open spec fn view(&self) -> NormalizationErrorView {
        match *self {
            NormalizationError::NonCanonicalNumber { rendered } => {
                NormalizationErrorView::NonCanonicalNumber { rendered: rendered@ }
            },
            NormalizationError::DuplicateKey { key } => NormalizationErrorView::DuplicateKey {
                key: key@,
            },
            NormalizationError::NotCanonicalizableForTool { tool, reason } => {
                NormalizationErrorView::NotCanonicalizableForTool { tool: tool@, reason: reason@ }
            },
        }
    }
}

impl Clone for NormalizationError {
    fn clone(&self) -> (r: Self)
        ensures
            r == *self,
    {
        match self {
            NormalizationError::NonCanonicalNumber { rendered } => {
                NormalizationError::NonCanonicalNumber { rendered: rendered.clone() }
            },
            NormalizationError::DuplicateKey { key } => NormalizationError::DuplicateKey {
                key: key.clone(),
            },
            NormalizationError::NotCanonicalizableForTool { tool, reason } => {
                NormalizationError::NotCanonicalizableForTool {
                    tool: tool.clone(),
                    reason: reason.clone(),
                }
            },
        }
    }
}

impl NormalizationErrorView {
    /// The text that reports the error.
    pub open spec fn message(self) -> Seq<char> {
        match self {
            NormalizationErrorView::NonCanonicalNumber { rendered } => {
                "number `"@ + rendered + "` cannot be canonicalized"@
            },
            NormalizationErrorView::DuplicateKey { key } => {
                "duplicate object key `"@ + key + "` cannot be canonicalized"@
            },
            NormalizationErrorView::NotCanonicalizableForTool { tool, reason } => {
                "arguments not canonicalizable for tool `"@ + tool + "`: "@ + reason
            },
        }
    }
}

impl NormalizationError {
    /// The message that reports the error.
    pub fn to_string(&self) -> (r: String)
        ensures
            r@ == self@.message(),
    {
        match self {
            NormalizationError::NonCanonicalNumber { rendered } => {
                let mut out = "number `".to_owned();
                out.append(rendered.as_str());
                out.append("` cannot be canonicalized");
                out
            },
            NormalizationError::DuplicateKey { key } => {
                let mut out = "duplicate object key `".to_owned();
                out.append(key.as_str());
                out.append("` cannot be canonicalized");
                out
            },
            NormalizationError::NotCanonicalizableForTool { tool, reason } => {
                let mut out = "arguments not canonicalizable for tool `".to_owned();
                out.append(tool.0.as_str());
                out.append("`: ");
                out.append(reason.as_str());
                out
            },
        }
    }
}

/// The error that reports a fault.
pub open spec fn fault_error(fault: NormFault) -> NormalizationErrorView {
    match fault {
        NormFault::NonCanonicalNumber(rendered) => NormalizationErrorView::NonCanonicalNumber {
            rendered,
        },
        NormFault::DuplicateKey(key) => NormalizationErrorView::DuplicateKey { key },
    }
}

fn power_of_two(k: u64) -> (r: u64)
    requires
        k < 64,
    ensures
        r == pow2(k as nat),
        r > 0,
    decreases k,
{
    proof {
        lemma_pow2_pos(k as nat);
        lemma2_to64();
        lemma2_to64_rest();
        if k < 63 {
            lemma_pow2_strictly_increases(k as nat, 63);
        }
    }
    if k == 0 {
        1
    } else {
        proof {
            lemma_pow2_unfold(k as nat);
        }
        power_of_two(k - 1) * 2
    }
}

/// The exponent field of a double.
fn exponent(bits: u64) -> (r: u64)
    ensures
        r == json::exponent_field(bits),
        r < 2048,
{
    proof {
        lemma2_to64_rest();
    }
    (bits / 0x10_0000_0000_0000) % 2048
}

proof fn lemma_fields(bits: u64)
    ensures
        json::magnitude_bits(bits) / pow2(52) == json::exponent_field(bits),
        json::magnitude_bits(bits) % pow2(52) == json::fraction_field(bits),
        json::exponent_field(bits) < 2048,
{
    lemma2_to64();
    lemma2_to64_rest();
}

proof fn lemma_pow2_split(a: nat, b: nat)
    ensures
        pow2(a + b) == pow2(a) * pow2(b),
        pow2(a) > 0,
        pow2(b) > 0,
{
    lemma_pow2_adds(a, b);
    lemma_pow2_pos(a);
    lemma_pow2_pos(b);
}

/// How the magnitude of a double below two to the power fifty-three divides by
/// one.
proof fn lemma_fine(significand: nat, e: nat)
    requires
        1 <= e <= 1075,
    ensures
        (significand * pow2((e - 1) as nat)) / json::one() == significand / pow2((1075 - e) as nat),
        (significand * pow2((e - 1) as nat)) % json::one() == 0 <==> significand % pow2(
            (1075 - e) as nat,
        ) == 0,
{
    let step = pow2((e - 1) as nat) as int;
    let unit = pow2((1075 - e) as nat) as int;
    lemma_pow2_split((e - 1) as nat, (1075 - e) as nat);
    let q = significand as int / unit;
    let r = significand as int % unit;
    vstd::arithmetic::div_mod::lemma_fundamental_div_mod(significand as int, unit);
    assert(significand * step == q * (step * unit) + r * step) by (nonlinear_arith)
        requires
            significand == unit * q + r,
    ;
    assert(0 <= r * step < step * unit) by (nonlinear_arith)
        requires
            0 <= r < unit,
            step > 0,
    ;
    vstd::arithmetic::div_mod::lemma_fundamental_div_mod_converse(
        significand * step,
        step * unit,
        q,
        r * step,
    );
    assert(r * step == 0 <==> r == 0) by (nonlinear_arith)
        requires
            step > 0,
            r >= 0,
    ;
}

/// How the magnitude of a greater double divides by one.
proof fn lemma_coarse(significand: nat, e: nat)
    requires
        1075 <= e,
    ensures
        (significand * pow2((e - 1) as nat)) / json::one() == significand * pow2(
            (e - 1075) as nat,
        ),
        (significand * pow2((e - 1) as nat)) % json::one() == 0,
{
    let whole = pow2((e - 1075) as nat) as int;
    let one = json::one() as int;
    lemma_pow2_split((e - 1075) as nat, 1074);
    assert(significand * (whole * one) == (significand * whole) * one + 0) by (nonlinear_arith);
    vstd::arithmetic::div_mod::lemma_fundamental_div_mod_converse(
        significand * (whole * one),
        one,
        significand * whole,
        0,
    );
}

/// The magnitude of a double, where it is an integer in the range of `u64`.
fn whole_magnitude(bits: u64) -> (r: Option<u64>)
    ensures
        r is Some <==> json::steps(json::magnitude_bits(bits)) % json::one() == 0 && json::steps(
            json::magnitude_bits(bits),
        ) / json::one() < pow2(64),
        r matches Some(n) ==> n == json::steps(json::magnitude_bits(bits)) / json::one(),
{
    proof {
        lemma2_to64();
        lemma2_to64_rest();
        lemma_fields(bits);
        lemma_pow2_pos(1074);
    }
    let e: u64 = exponent(bits);
    let m: u64 = bits % 0x10_0000_0000_0000;
    if e == 0 {
        proof {
            lemma_pow2_strictly_increases(52, 1074);
            vstd::arithmetic::div_mod::lemma_small_mod(m as nat, json::one());
            vstd::arithmetic::div_mod::lemma_basic_div(m as int, json::one() as int);
        }
        if m == 0 {
            Some(0)
        } else {
            None
        }
    } else {
        let significand: u64 = 0x10_0000_0000_0000 + m;
        if e < 1023 {
            proof {
                lemma_fine(significand as nat, e as nat);
                let unit = pow2((1075 - e) as nat);
                lemma_pow2_strictly_increases(52, (1075 - e) as nat);
                if 53 < 1075 - e {
                    lemma_pow2_strictly_increases(53, (1075 - e) as nat);
                }
                vstd::arithmetic::div_mod::lemma_small_mod(significand as nat, unit);
            }
            None
        } else if e <= 1075 {
            proof {
                lemma_fine(significand as nat, e as nat);
            }
            let unit: u64 = power_of_two(1075 - e);
            if significand % unit == 0 {
                let magnitude: u64 = significand / unit;
                proof {
                    assert(magnitude <= significand) by (nonlinear_arith)
                        requires
                            magnitude == significand / unit,
                            unit >= 1,
                    ;
                }
                Some(magnitude)
            } else {
                None
            }
        } else if e <= 1086 {
            proof {
                lemma_coarse(significand as nat, e as nat);
                if e < 1086 {
                    lemma_pow2_strictly_increases((e - 1075) as nat, 11);
                }
                let unit = pow2((e - 1075) as nat);
                assert(significand * unit <= 0x1f_ffff_ffff_ffff * 2048) by (nonlinear_arith)
                    requires
                        significand <= 0x1f_ffff_ffff_ffff,
                        unit <= 2048,
                ;
            }
            let unit: u64 = power_of_two(e - 1075);
            Some(significand * unit)
        } else {
            proof {
                lemma_coarse(significand as nat, e as nat);
                let unit = pow2((e - 1075) as nat);
                if 12 < e - 1075 {
                    lemma_pow2_strictly_increases(12, (e - 1075) as nat);
                }
                assert(significand * unit >= 0x10_0000_0000_0000 * 4096) by (nonlinear_arith)
                    requires
                        significand >= 0x10_0000_0000_0000,
                        unit >= 4096,
                ;
            }
            None
        }
    }
}

/// The numeral of the integer that a double is, where it is one in the range of
/// `u64` or `i64`.
fn whole_numeral(bits: u64) -> (r: Option<String>)
    ensures
        r is Some <==> json::written_integer(bits) is Some,
        r matches Some(s) ==> s@ == text::signed_decimal(json::written_integer(bits)->0),
{
    proof {
        lemma2_to64();
        lemma2_to64_rest();
    }
    match whole_magnitude(bits) {
        Some(magnitude) => {
            let mut out = String::new();
            if bits < 0x8000_0000_0000_0000 {
                text::push_decimal(&mut out, magnitude);
                assert(out@ =~= text::signed_decimal(magnitude as int));
                Some(out)
            } else if magnitude > 0x8000_0000_0000_0000 {
                None
            } else {
                if magnitude > 0 {
                    out.append("-");
                }
                text::push_decimal(&mut out, magnitude);
                assert(out@ =~= text::signed_decimal(-(magnitude as int)));
                Some(out)
            }
        },
        None => None,
    }
}

/// The one spelling of a number: an integer without a decimal point, also where
/// it is given as a real number, and any other finite number in the shortest form
/// that is handed in with it.
pub fn canonical_number(value: &Json) -> (r: Result<String, NormalizationError>)
    requires
        value is Unsigned || value is Negative || value is Real,
    ensures
        match json::norm(*value) {
            Ok(normal) => r is Ok && normal == Norm::Number(r->Ok_0@),
            Err(fault) => r is Err && r->Err_0@ == fault_error(fault),
        },
{
    match value {
        Json::Unsigned(n) => {
            let mut out = String::new();
            text::push_decimal(&mut out, *n);
            assert(out@ =~= text::decimal(*n as nat));
            Ok(out)
        },
        Json::Negative(n) => {
            let mut out = String::new();
            text::push_signed_decimal(&mut out, *n);
            assert(out@ =~= text::signed_decimal(*n as int));
            Ok(out)
        },
        Json::Real { bits, text } => {
            if exponent(*bits) == 2047 {
                return Err(NormalizationError::NonCanonicalNumber { rendered: text.clone() });
            }
            match whole_numeral(*bits) {
                Some(numeral) => Ok(numeral),
                None => Ok(text.clone()),
            }
        },
        _ => Ok(String::new()),
    }
}

proof fn lemma_norm_entries(entries: Seq<(String, Json)>, i: int)
    requires
        0 <= i < entries.len(),
    ensures
        json::norm_entries(entries).len() == entries.len(),
        json::norm_entries(entries)[i] == (entries[i].0@, json::norm(entries[i].1)),
    decreases entries.len(),
{
    lemma_norm_entries_len(entries);
    lemma_norm_entries_len(entries.drop_last());
    if i < entries.len() - 1 {
        lemma_norm_entries(entries.drop_last(), i);
    }
}

proof fn lemma_norm_entries_len(entries: Seq<(String, Json)>)
    ensures
        json::norm_entries(entries).len() == entries.len(),
    decreases entries.len(),
{
    if entries.len() > 0 {
        lemma_norm_entries_len(entries.drop_last());
    }
}

/// The members in the order of `order`.
spec fn ordered<V>(members: Seq<V>, order: Seq<usize>) -> Seq<V> {
    order.map_values(|i: usize| members[i as int])
}

spec fn in_range(order: Seq<usize>, n: int) -> bool {
    forall|p: int| 0 <= p < order.len() ==> (#[trigger] order[p]) < n
}

fn place_key(entries: &Vec<(String, Json)>, order: &Vec<usize>, key: &String) -> (at: usize)
    requires
        in_range(order@, entries@.len() as int),
    ensures
        at <= order@.len(),
        at == json::place(ordered(json::norm_entries(entries@), order@), key@),
{
    let ghost members = ordered(json::norm_entries(entries@), order@);
    let mut at: usize = 0;
    assert(members.skip(0) =~= members);
    while at < order.len()
        invariant
            at <= order@.len(),
            members == ordered(json::norm_entries(entries@), order@),
            in_range(order@, entries@.len() as int),
            json::place(members, key@) == at + json::place(members.skip(at as int), key@),
        decreases order@.len() - at,
    {
        proof {
            assert(order@[at as int] < entries@.len());
            lemma_norm_entries(entries@, order@[at as int] as int);
            assert(members.skip(at as int)[0] == members[at as int]);
            assert(members.skip(at as int).drop_first() =~= members.skip(at + 1));
        }
        if !text::at_or_before(entries[order[at]].0.as_str(), key.as_str()) {
            return at;
        }
        at += 1;
    }
    assert(members.skip(at as int).len() == 0);
    at
}

/// The places of an object's members, in ascending key order.
fn key_order(entries: &Vec<(String, Json)>) -> (order: Vec<usize>)
    ensures
        in_range(order@, entries@.len() as int),
        ordered(json::norm_entries(entries@), order@) == json::by_key(
            json::norm_entries(entries@),
        ),
{
    let ghost all = json::norm_entries(entries@);
    let mut order: Vec<usize> = Vec::new();
    let mut i: usize = 0;
    proof {
        lemma_norm_entries_len(entries@);
        assert(all.take(0) =~= Seq::<(Seq<char>, Result<Norm, NormFault>)>::empty());
        assert(ordered(all, order@) =~= json::by_key(all.take(0)));
    }
    while i < entries.len()
        invariant
            i <= entries@.len(),
            all == json::norm_entries(entries@),
            all.len() == entries@.len(),
            in_range(order@, entries@.len() as int),
            ordered(all, order@) == json::by_key(all.take(i as int)),
        decreases entries@.len() - i,
    {
        let ghost before = ordered(all, order@);
        let ghost old_order = order@;
        let at: usize = place_key(entries, &order, &entries[i].0);
        order.insert(at, i);
        proof {
            lemma_norm_entries(entries@, i as int);
            assert(all.take(i + 1).drop_last() =~= all.take(i as int));
            assert(all.take(i + 1).last() == all[i as int]);
            assert(order@ =~= old_order.insert(at as int, i));
            assert(ordered(all, order@) =~= before.insert(at as int, all[i as int]));
            assert forall|p: int| 0 <= p < order@.len() implies (#[trigger] order@[p])
                < entries@.len() by {
                if p < at {
                    assert(order@[p] == old_order[p]);
                } else if p > at {
                    assert(order@[p] == old_order[p - 1]);
                }
            }
        }
        i += 1;
    }
    assert(all.take(i as int) =~= all);
    order
}

/// The first key that stands twice in a row.
fn first_repeated(entries: &Vec<(String, Json)>, order: &Vec<usize>) -> (r: Option<String>)
    requires
        in_range(order@, entries@.len() as int),
    ensures
        views::of_option(r) == json::repeated_key(
            ordered(json::norm_entries(entries@), order@),
        ),
{
    let ghost members = ordered(json::norm_entries(entries@), order@);
    let mut i: usize = 1;
    assert(members.skip(0) =~= members);
    while i < order.len()
        invariant
            1 <= i,
            i <= order@.len() || order@.len() == 0,
            members == ordered(json::norm_entries(entries@), order@),
            in_range(order@, entries@.len() as int),
            order@.len() > 0 ==> json::repeated_key(members) == json::repeated_key(
                members.skip(i - 1),
            ),
        decreases order@.len() - i,
    {
        proof {
            assert(order@[i - 1] < entries@.len());
            assert(order@[i as int] < entries@.len());
            lemma_norm_entries(entries@, order@[i - 1] as int);
            lemma_norm_entries(entries@, order@[i as int] as int);
            assert(members.skip(i - 1)[0] == members[i - 1]);
            assert(members.skip(i - 1)[1] == members[i as int]);
            assert(members.skip(i - 1).drop_first() =~= members.skip(i as int));
        }
        if entries[order[i - 1]].0 == entries[order[i]].0 {
            return Some(entries[order[i - 1]].0.clone());
        }
        i += 1;
    }
    assert(order@.len() > 0 ==> members.skip(i - 1).len() < 2);
    None
}

proof fn lemma_members_fault(members: Seq<(Seq<char>, Result<Norm, NormFault>)>, n: int)
    requires
        0 <= n <= members.len(),
        json::all_members(members.take(n)) is Err,
    ensures
        json::all_members(members) == json::all_members(members.take(n)),
    decreases members.len() - n,
{
    if n < members.len() {
        assert(members.take(n + 1).drop_last() =~= members.take(n));
        lemma_members_fault(members, n + 1);
    } else {
        assert(members.take(n) =~= members);
    }
}

proof fn lemma_items_fault(items: Seq<Json>, n: int)
    requires
        0 <= n <= items.len(),
        json::norm_items(items.take(n)) is Err,
    ensures
        json::norm_items(items) == json::norm_items(items.take(n)),
    decreases items.len() - n,
{
    if n < items.len() {
        assert(items.take(n + 1).drop_last() =~= items.take(n));
        lemma_items_fault(items, n + 1);
    } else {
        assert(items.take(n) =~= items);
    }
}

/// Appends the canonical text of a value, or reports its first fault.
fn write_canonical(value: &Json, out: &mut String) -> (r: Result<(), NormalizationError>)
    ensures
        match json::norm(*value) {
            Ok(norm) => r is Ok && final(out)@ == old(out)@ + json::canonical_text(norm),
            Err(fault) => r is Err && r->Err_0@ == fault_error(fault),
        },
    decreases *value,
{
    match value {
        Json::Null => {
            out.append("null");
            Ok(())
        },
        Json::Bool(b) => {
            out.append(if *b {
                "true"
            } else {
                "false"
            });
            Ok(())
        },
        Json::Unsigned(_) | Json::Negative(_) | Json::Real { .. } => {
            match canonical_number(value) {
                Ok(numeral) => {
                    out.append(numeral.as_str());
                    Ok(())
                },
                Err(e) => Err(e),
            }
        },
        Json::Text(s) => {
            out.append(json_text::render_string(s.as_str()).as_str());
            Ok(())
        },
        Json::Array(items) => {
            out.append("[");
            let ghost start = old(out)@ + "["@;
            let ghost mut written: Seq<Norm> = Seq::empty();
            let mut i: usize = 0;
            assert(out@ =~= start + json::items_text(written));
            assert(items@.take(0) =~= Seq::<Json>::empty());
            while i < items.len()
                invariant
                    i <= items@.len(),
                    *value == Json::Array(*items),
                    written.len() == i,
                    json::norm_items(items@.take(i as int)) == Ok::<Seq<Norm>, NormFault>(written),
                    out@ == start + json::items_text(written),
                decreases items@.len() - i,
            {
                proof {
                    assert(items@.take(i + 1).drop_last() =~= items@.take(i as int));
                    assert(items@.take(i + 1).last() == items@[i as int]);
                    assert(decreases_to!(*value => items@[i as int]));
                }
                if i > 0 {
                    out.append(",");
                }
                let ghost before = out@;
                match write_canonical(&items[i], out) {
                    Ok(()) => {},
                    Err(e) => {
                        proof {
                            lemma_items_fault(items@, i + 1);
                        }
                        return Err(e);
                    },
                }
                proof {
                    let item = json::norm(items@[i as int])->Ok_0;
                    assert(written.push(item).drop_last() =~= written);
                    assert(out@ =~= start + json::items_text(written.push(item)));
                    written = written.push(item);
                }
                i += 1;
            }
            out.append("]");
            proof {
                assert(items@.take(i as int) =~= items@);
                assert(out@ =~= old(out)@ + json::canonical_text(Norm::Array(written)));
            }
            Ok(())
        },
        Json::Object(entries) => {
            let order = key_order(entries);
            let ghost members = json::by_key(json::norm_entries(entries@));
            match first_repeated(entries, &order) {
                Some(key) => {
                    return Err(NormalizationError::DuplicateKey { key });
                },
                None => {},
            }
            out.append("{");
            let ghost start = old(out)@ + "{"@;
            let ghost mut written: Seq<(Seq<char>, Norm)> = Seq::empty();
            let mut i: usize = 0;
            assert(out@ =~= start + json::members_text(written));
            assert(members.take(0) =~= Seq::<(Seq<char>, Result<Norm, NormFault>)>::empty());
            while i < order.len()
                invariant
                    i <= order@.len(),
                    *value == Json::Object(*entries),
                    in_range(order@, entries@.len() as int),
                    members == ordered(json::norm_entries(entries@), order@),
                    members == json::by_key(json::norm_entries(entries@)),
                    json::repeated_key(members) is None,
                    written.len() == i,
                    json::all_members(members.take(i as int)) == Ok::<
                        Seq<(Seq<char>, Norm)>,
                        NormFault,
                    >(written),
                    out@ == start + json::members_text(written),
                decreases order@.len() - i,
            {
                let k: usize = order[i];
                proof {
                    assert(order@[i as int] < entries@.len());
                    lemma_norm_entries(entries@, k as int);
                    assert(members[i as int] == (entries@[k as int].0@, json::norm(
                        entries@[k as int].1,
                    )));
                    assert(members.take(i + 1).drop_last() =~= members.take(i as int));
                    assert(members.take(i + 1).last() == members[i as int]);
                    assert(decreases_to!(*value => entries@[k as int].1));
                }
                if i > 0 {
                    out.append(",");
                }
                let ghost before = out@;
                out.append(json_text::render_string(entries[k].0.as_str()).as_str());
                out.append(":");
                match write_canonical(&entries[k].1, out) {
                    Ok(()) => {},
                    Err(e) => {
                        proof {
                            lemma_members_fault(members, i + 1);
                        }
                        return Err(e);
                    },
                }
                proof {
                    let member = (entries@[k as int].0@, json::norm(
                        entries@[k as int].1,
                    )->Ok_0);
                    assert(written.push(member).drop_last() =~= written);
                    assert(out@ =~= start + json::members_text(written.push(member)));
                    written = written.push(member);
                }
                i += 1;
            }
            out.append("}");
            proof {
                assert(members.take(i as int) =~= members);
                assert(out@ =~= old(out)@ + json::canonical_text(Norm::Object(written)));
            }
            Ok(())
        },
    }
}

/// Canonicalizes a tool's arguments, or reports the first fault in them.
pub fn normalize_args(tool: &ToolName, raw_args: &Json) -> (r: Result<
    CanonicalJson,
    NormalizationError,
>)
    ensures
        match json::norm(*raw_args) {
            Ok(norm) => r is Ok && r->Ok_0@ == json::canonical_text(norm),
            Err(fault) => r is Err && r->Err_0@ == fault_error(fault),
        },
{
    let mut out = String::new();
    match write_canonical(raw_args, &mut out) {
        Ok(()) => {
            proof {
                let text = json::canonical_text(json::norm(*raw_args)->Ok_0);
                assert(Seq::<char>::empty() + text =~= text);
            }
            Ok(CanonicalJson(out))
        },
        Err(e) => Err(e),
    }
}

} // verus!
