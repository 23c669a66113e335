//! Which candidates make a signature, and what is kept of them.

use vstd::prelude::*;

use crate::goal_model::intent;
use crate::goal_model::intent::{IntentField, IntentInputView};
use crate::text;
use crate::text_laws;
use crate::types::IntentView;

verus! {

/// The candidate for a field.
pub open spec fn candidate(input: IntentInputView, field: IntentField) -> Option<Seq<char>> {
    match field {
        IntentField::IntentType => input.intent_type,
        IntentField::TargetType => input.target_type,
        IntentField::TargetRef => input.target_ref,
        IntentField::Scope => input.scope,
    }
}

/// The value of a field.
pub open spec fn value(sig: IntentView, field: IntentField) -> Seq<char> {
    match field {
        IntentField::IntentType => sig.intent_type,
        IntentField::TargetType => sig.target_type,
        IntentField::TargetRef => sig.target_ref,
        IntentField::Scope => sig.scope,
    }
}

/// Whether a candidate has a character that is not white.
pub open spec fn usable(candidate: Option<Seq<char>>) -> bool {
    candidate is Some && exists|i: int|
        0 <= i < candidate->0.len() && !text_laws::white_points().contains(
            (#[trigger] candidate->0[i]) as int,
        )
}

proof fn lemma_resolves_when_usable(c: Option<Seq<char>>)
    ensures
        intent::resolved(c) is Some <==> usable(c),
        intent::resolved(c) is Some ==> intent::resolved(c)->0 == text::trimmed(c->0),
{
    if c is Some {
        text_laws::law_blank_is_all_white(c->0);
    }
}

/// The field, where its candidate cannot be used.
spec fn only(field: IntentField, input: IntentInputView) -> Seq<IntentField> {
    if usable(candidate(input, field)) {
        Seq::empty()
    } else {
        seq![field]
    }
}

/// A signature is refused for exactly those fields whose candidate is absent or all
/// white, named once each in the order of the signature.
pub proof fn law_unusable_candidates_are_named(input: IntentInputView)
    ensures
        intent::unresolved_fields(input) == seq![
            IntentField::IntentType,
            IntentField::TargetType,
            IntentField::TargetRef,
            IntentField::Scope,
        ].filter(|f: IntentField| !usable(candidate(input, f))),
        forall|f: IntentField| #[trigger]
            intent::unresolved_fields(input).contains(f) <==> !usable(candidate(input, f)),
        intent::unresolved_fields(input).len() == 0 <==> forall|f: IntentField|
            usable(#[trigger] candidate(input, f)),
{
    lemma_resolves_when_usable(input.intent_type);
    lemma_resolves_when_usable(input.target_type);
    lemma_resolves_when_usable(input.target_ref);
    lemma_resolves_when_usable(input.scope);
    let all = seq![
        IntentField::IntentType,
        IntentField::TargetType,
        IntentField::TargetRef,
        IntentField::Scope,
    ];
    let lacks = |f: IntentField| !usable(candidate(input, f));
    reveal(Seq::filter);
    let three = all.drop_last();
    let two = three.drop_last();
    let one = two.drop_last();
    assert(one.drop_last() =~= Seq::empty());
    assert(one.drop_last().filter(lacks) =~= Seq::empty());
    assert(one.filter(lacks) =~= only(IntentField::IntentType, input));
    assert(two.filter(lacks) =~= one.filter(lacks) + only(IntentField::TargetType, input));
    assert(three.filter(lacks) =~= two.filter(lacks) + only(IntentField::TargetRef, input));
    assert(all.filter(lacks) =~= three.filter(lacks) + only(IntentField::Scope, input));
    let fields = intent::unresolved_fields(input);
    assert(fields =~= all.filter(lacks));
    assert forall|f: IntentField| #[trigger] fields.contains(f) <==> !usable(
        candidate(input, f),
    ) by {
        broadcast use vstd::seq_lib::group_filter_ensures;

        if fields.contains(f) {
            let i = choose|i: int| 0 <= i < fields.len() && fields[i] == f;
            assert(lacks(all.filter(lacks)[i]));
        }
        if lacks(f) {
            match f {
                IntentField::IntentType => assert(all[0] == f),
                IntentField::TargetType => assert(all[1] == f),
                IntentField::TargetRef => assert(all[2] == f),
                IntentField::Scope => assert(all[3] == f),
            }
            assert(all.contains(f));
            all.lemma_filter_contains_rev(lacks, f);
        }
    }
    if fields.len() == 0 {
        assert forall|f: IntentField| usable(#[trigger] candidate(input, f)) by {
            assert(!fields.contains(f));
        }
    }
    if forall|f: IntentField| usable(#[trigger] candidate(input, f)) {
        if fields.len() > 0 {
            assert(fields.contains(fields[0]));
            assert(usable(candidate(input, fields[0])));
        }
    }
}

/// A field of a derived signature is its candidate without the white characters
/// around it.
pub proof fn law_values_are_candidates_without_white_ends(
    input: IntentInputView,
    field: IntentField,
) -> (r: (int, int))
    requires
        intent::unresolved_fields(input).len() == 0,
    ensures
        ({
            let given = candidate(input, field)->0;
            let (from, to) = r;
            &&& candidate(input, field) is Some
            &&& 0 <= from < to <= given.len()
            &&& value(intent::derived_intent(input), field) == given.subrange(from, to)
            &&& !text_laws::white_points().contains(given[from] as int)
            &&& !text_laws::white_points().contains(given[to - 1] as int)
            &&& forall|i: int|
                0 <= i < given.len() && !(from <= i < to) ==> text_laws::white_points().contains(
                    (#[trigger] given[i]) as int,
                )
        }),
{
    law_unusable_candidates_are_named(input);
    let c = candidate(input, field);
    assert(usable(c));
    lemma_resolves_when_usable(c);
    text_laws::law_trimming_takes_white_ends(c->0)
}

} // verus!
