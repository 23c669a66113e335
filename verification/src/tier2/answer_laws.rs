//! When a cached answer is served, in terms of its tokens, its policy and the
//! clock.

use vstd::prelude::*;

use crate::tier1::cache::Freshness;
use crate::tier2::memory::{AnswerMode, CachedOutcomeView, EvidenceItemView, MemoryView};
use crate::tier2::replay;
use crate::tier2::replay::{
    AllowListModeB, DecisionView, DenyAllModeB, EvidenceValidator, ModeBPolicy, TokensHold,
};

verus! {

/// An answer is served exactly in two cases: a sound one, as verified, where all of
/// its tokens hold; and a bounded one, as unverified, where its intent type opted in
/// and no more time has passed since it was issued than it may be old.
pub proof fn law_answers_are_served_while_sound_or_young(
    co: CachedOutcomeView,
    hold: TokensHold,
    opted_in: bool,
    now: u64,
)
    ensures
        co.mode is SoundPinnable ==> {
            &&& replay::served(co, hold, opted_in, now) is Some <==> hold == TokensHold::AllHold
            &&& replay::served(co, hold, opted_in, now) is Some ==> replay::served(
                co,
                hold,
                opted_in,
                now,
            )->0 == (DecisionView::ServeAnswer { answer: co.answer, verified: true })
        },
        co.mode matches AnswerMode::BoundedVolatile { max_age } ==> {
            &&& replay::served(co, hold, opted_in, now) is Some <==> opted_in && now as int
                - co.issued_at as int <= max_age.0 as int
            &&& replay::served(co, hold, opted_in, now) is Some ==> replay::served(
                co,
                hold,
                opted_in,
                now,
            )->0 == (DecisionView::ServeAnswer { answer: co.answer, verified: false })
        },
{
}

/// What is decided on a memory, in terms of its answer and its evidence: the answer
/// is served where one may be, and otherwise the plan is replayed with every piece
/// of evidence and how fresh it is, in order.
pub proof fn law_decision_serves_or_replays(
    mem: MemoryView,
    hold: TokensHold,
    opted_in: bool,
    statuses: Seq<Freshness>,
    now: u64,
    i: int,
)
    requires
        statuses.len() == mem.evidence_contract.items.len(),
    ensures
        ({
            let d = replay::decision(mem, hold, opted_in, statuses, now);
            let servable = mem.cached_outcome matches Some(co) && match co.mode {
                AnswerMode::SoundPinnable => hold == TokensHold::AllHold,
                AnswerMode::BoundedVolatile { max_age } => opted_in && now as int
                    - co.issued_at as int <= max_age.0 as int,
            };
            &&& servable ==> d == (DecisionView::ServeAnswer {
                answer: mem.cached_outcome->0.answer,
                verified: mem.cached_outcome->0.mode is SoundPinnable,
            })
            &&& !servable ==> {
                &&& d is ReplayProcedure
                &&& d->plan == mem.plan
                &&& d->evidence.len() == mem.evidence_contract.items.len()
                &&& 0 <= i < statuses.len() ==> d->evidence[i] == (
                    mem.evidence_contract.items[i],
                    statuses[i],
                )
                &&& d->evidence_fully_fresh <==> forall|j: int|
                    0 <= j < statuses.len() ==> #[trigger] statuses[j] == Freshness::Fresh
            }
        }),
{
}

/// An answer that is served as unverified is not older than it may be: now is no
/// later than the instant of its issue and the age it is allowed, added up.
pub proof fn law_unverified_answers_are_young<V: EvidenceValidator, P: ModeBPolicy>(
    before: V,
    policy: P,
    mem: MemoryView,
    intent_type: Seq<char>,
    now: u64,
    answer: Seq<char>,
    after: V,
)
    requires
        replay::allowed(
            before,
            policy,
            mem,
            intent_type,
            now,
            DecisionView::ServeAnswer { answer, verified: false },
            after,
        ),
    ensures
        mem.cached_outcome matches Some(co) && co.answer == answer && (
        co.mode matches AnswerMode::BoundedVolatile { max_age } && now as int <= co.issued_at
            + max_age.0),
        policy.may_say(intent_type, true),
{
}

/// An answer that is served as verified is a sound one, and the validator reported
/// that all of its tokens hold, confirming each.
pub proof fn law_verified_answers_are_confirmed<V: EvidenceValidator, P: ModeBPolicy>(
    before: V,
    policy: P,
    mem: MemoryView,
    intent_type: Seq<char>,
    now: u64,
    answer: Seq<char>,
    after: V,
    i: int,
)
    requires
        replay::allowed(
            before,
            policy,
            mem,
            intent_type,
            now,
            DecisionView::ServeAnswer { answer, verified: true },
            after,
        ),
    ensures
        mem.cached_outcome matches Some(co) && {
            &&& co.answer == answer
            &&& co.mode == AnswerMode::SoundPinnable
            &&& V::may_report(before, co.validity_tokens, TokensHold::AllHold, after)
            &&& 0 <= i < co.validity_tokens.len() ==> before.confirms(co.validity_tokens[i])
        },
{
}

/// A plan is replayed only where no answer may be served: there is none, or the
/// validator did not report that the tokens of a sound one hold, or a bounded one is
/// too old or its intent type did not opt in. Every piece of evidence is then
/// checked once, in order, and reported as it was found.
pub proof fn law_replay_means_no_answer_holds<V: EvidenceValidator, P: ModeBPolicy>(
    before: V,
    policy: P,
    mem: MemoryView,
    intent_type: Seq<char>,
    now: u64,
    d: DecisionView,
    after: V,
)
    requires
        replay::allowed(before, policy, mem, intent_type, now, d, after),
        d is ReplayProcedure,
    ensures
        d->plan == mem.plan,
        d->evidence.len() == mem.evidence_contract.items.len(),
        forall|i: int|
            0 <= i < d->evidence.len() ==> (#[trigger] d->evidence[i]).0
                == mem.evidence_contract.items[i],
        d->evidence_fully_fresh <==> forall|i: int|
            0 <= i < d->evidence.len() ==> (#[trigger] d->evidence[i]).1 == Freshness::Fresh,
        exists|validators: Seq<V>|
            {
                &&& #[trigger] found_in_turn(validators, d->evidence)
                &&& validators.last() == after
                &&& mem.cached_outcome is None ==> validators[0] == before
                &&& mem.cached_outcome matches Some(co) ==> match co.mode {
                    AnswerMode::SoundPinnable => exists|hold: TokensHold|
                        hold != TokensHold::AllHold && #[trigger] V::may_report(
                            before,
                            co.validity_tokens,
                            hold,
                            validators[0],
                        ),
                    AnswerMode::BoundedVolatile { max_age } => validators[0] == before && (
                    policy.may_say(intent_type, false) || now as int > co.issued_at + max_age.0),
                }
            },
{
    let (hold, opted_in, statuses, between) = choose|
        hold: TokensHold,
        opted_in: bool,
        statuses: Seq<Freshness>,
        between: V,
    |
        #![trigger replay::decision(mem, hold, opted_in, statuses, now), replay::answer_checked(before, policy, mem, intent_type, hold, opted_in, between)]
        {
            &&& d == replay::decision(mem, hold, opted_in, statuses, now)
            &&& replay::answer_checked(
                before,
                policy,
                mem,
                intent_type,
                hold,
                opted_in,
                between,
            )
            &&& replay::evidence_checked(between, mem, statuses, after)
        };
    let items = mem.evidence_contract.items;
    let validators = choose|validators: Seq<V>| #[trigger]
        replay::checked_in_turn(validators, items, statuses) && validators[0] == between
            && validators.last() == after;
    assert(found_in_turn(validators, d->evidence)) by {
        assert forall|i: int| 0 <= i < d->evidence.len() implies V::may_find(
            #[trigger] validators[i],
            d->evidence[i].0,
            d->evidence[i].1,
            validators[i + 1],
        ) && (d->evidence[i].1 == Freshness::Fresh ==> validators[i].confirms(
            d->evidence[i].0.validity_token,
        )) by {
            assert(d->evidence[i] == (items[i], statuses[i]));
        }
    }
    if d->evidence_fully_fresh {
        assert forall|i: int| 0 <= i < d->evidence.len() implies (#[trigger] d->evidence[i]).1
            == Freshness::Fresh by {
            assert(statuses[i] is Fresh);
        }
    } else {
        let i = choose|i: int| 0 <= i < statuses.len() && !((#[trigger] statuses[i]) is Fresh);
        assert(d->evidence[i].1 == statuses[i]);
    }
    if mem.cached_outcome is Some && mem.cached_outcome->0.mode is SoundPinnable {
        assert(V::may_report(before, mem.cached_outcome->0.validity_tokens, hold, validators[0]));
    }
}

/// Whether each item was found as fresh as reported, by the validator that the item
/// before it left.
pub open spec fn found_in_turn<V: EvidenceValidator>(
    validators: Seq<V>,
    evidence: Seq<(EvidenceItemView, Freshness)>,
) -> bool {
    &&& validators.len() == evidence.len() + 1
    &&& forall|i: int|
        0 <= i < evidence.len() ==> V::may_find(
            #[trigger] validators[i],
            evidence[i].0,
            evidence[i].1,
            validators[i + 1],
        ) && (evidence[i].1 == Freshness::Fresh ==> validators[i].confirms(
            evidence[i].0.validity_token,
        ))
}

/// The policy that denies opts no intent type in; the list opts in exactly the
/// types that are on it.
pub proof fn law_only_listed_types_opt_in(
    denying: DenyAllModeB,
    list: AllowListModeB,
    intent_type: Seq<char>,
    opted_in: bool,
)
    ensures
        denying.may_say(intent_type, opted_in) <==> !opted_in,
        list.may_say(intent_type, opted_in) <==> (opted_in <==> exists|i: int|
            0 <= i < list@.len() && #[trigger] list@[i] == intent_type),
{
}

} // verus!
