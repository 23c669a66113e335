//! Whether a memory's cached answer is served or its plan is replayed.
//!
//! The answer is tried first. It is served as verified only where every
//! validity token was confirmed, and as unverified only where the intent type
//! opted in and the answer is young enough. Otherwise the plan is replayed, with
//! every piece of evidence checked again.

use vstd::prelude::*;

use crate::tier1::cache::Freshness;
use crate::tier2::memory::{
    AnswerMode, CachedOutcome, CachedOutcomeView, EvidenceContractItem, EvidenceItemView, Memory,
    MemoryView, OutcomeValue, Plan, PlanView,
};
use crate::types::{
    GoalDuration, GoalTimestamp, IntentSignature, IntentType, TokenView, ValidityToken,
};
use crate::views;

verus! {

/// What to do with a memory.
#[derive(Debug, PartialEq, Eq)]
pub enum ReplayDecision {
    /// Serve the cached answer.
    ServeAnswer {
        /// The answer.
        answer: OutcomeValue,
        /// Whether every token was confirmed to hold when it was served.
        verified: bool,
    },
    /// Replay the plan.
    ReplayProcedure {
        /// The plan.
        plan: Plan,
        /// Each piece of evidence with its freshness.
        evidence: Vec<(EvidenceContractItem, Freshness)>,
        /// Whether every piece of evidence is fresh.
        evidence_fully_fresh: bool,
    },
}

/// The content of a decision.
#[verifier::ext_equal]
pub enum DecisionView {
    ServeAnswer { answer: Seq<char>, verified: bool },
    ReplayProcedure {
        plan: PlanView,
        evidence: Seq<(EvidenceItemView, Freshness)>,
        evidence_fully_fresh: bool,
    },
}

/// The evidence with the items viewed.
pub open spec fn evidence_views(evidence: Seq<(EvidenceContractItem, Freshness)>) -> Seq<
    (EvidenceItemView, Freshness),
> {
    evidence.map_values(|e: (EvidenceContractItem, Freshness)| (e.0@, e.1))
}

impl View for ReplayDecision {
    type V = DecisionView;

    open spec fn view(&self) -> DecisionView {
        match *self {
            ReplayDecision::ServeAnswer { answer, verified } => DecisionView::ServeAnswer {
                answer: answer@,
                verified,
            },
            ReplayDecision::ReplayProcedure { plan, evidence, evidence_fully_fresh } =>
                DecisionView::ReplayProcedure {
                plan: plan@,
                evidence: evidence_views(evidence@),
                evidence_fully_fresh,
            },
        }
    }
}

impl Clone for ReplayDecision {
    fn clone(&self) -> (r: Self)
        ensures
            r@ == self@,
    {
        match self {
            ReplayDecision::ServeAnswer { answer, verified } => ReplayDecision::ServeAnswer {
                answer: answer.clone(),
                verified: *verified,
            },
            ReplayDecision::ReplayProcedure { plan, evidence, evidence_fully_fresh } => {
                let mut copy: Vec<(EvidenceContractItem, Freshness)> = Vec::new();
                let mut i: usize = 0;
                while i < evidence.len()
                    invariant
                        i <= evidence@.len(),
                        evidence_views(copy@) == evidence_views(evidence@).take(i as int),
                    decreases evidence@.len() - i,
                {
                    let ghost before = evidence_views(copy@);
                    copy.push((evidence[i].0.clone(), evidence[i].1));
                    assert(evidence_views(copy@) =~= before.push(
                        evidence_views(evidence@)[i as int],
                    ));
                    assert(evidence_views(evidence@).take(i + 1) =~= before.push(
                        evidence_views(evidence@)[i as int],
                    ));
                    i += 1;
                }
                assert(evidence_views(evidence@).take(i as int) =~= evidence_views(evidence@));
                ReplayDecision::ReplayProcedure {
                    plan: plan.clone(),
                    evidence: copy,
                    evidence_fully_fresh: *evidence_fully_fresh,
                }
            },
        }
    }
}

/// Whether the tokens of an answer hold.
#[derive(Debug, Clone, Copy, PartialEq, Eq, Structural)]
pub enum TokensHold {
    /// Every token was confirmed to hold.
    AllHold,
    /// A token does not hold.
    SomeStale,
    /// Nothing could be confirmed.
    Unavailable,
}

/// Checks evidence again.
///
/// An implementation says which tokens it can confirm, which results it can give,
/// and what giving one leaves of the validator. One that says nothing may confirm
/// any token and give any result. A validator that was not asked is left as it
/// was.
pub trait EvidenceValidator: Sized {
    /// Whether the token can be confirmed to hold.
    open spec fn confirms(&self, token: TokenView) -> bool {
        true
    }

    /// Whether checking the item can give this freshness and turn the validator
    /// `before` into `after`.
    open spec fn may_find(
        before: Self,
        item: EvidenceItemView,
        freshness: Freshness,
        after: Self,
    ) -> bool {
        true
    }

    /// Whether checking the tokens can give this result and turn the validator
    /// `before` into `after`.
    open spec fn may_report(
        before: Self,
        tokens: Seq<TokenView>,
        result: TokensHold,
        after: Self,
    ) -> bool {
        true
    }

    /// Whether an item's token still holds; one that cannot be checked is stale.
    fn revalidate_item(&mut self, item: &EvidenceContractItem) -> (r: Freshness)
        ensures
            Self::may_find(*old(self), item@, r, *final(self)),
            r is Fresh ==> old(self).confirms(item@.validity_token),
    ;

    /// Whether all tokens hold.
    fn tokens_hold(&mut self, tokens: &[ValidityToken]) -> (r: TokensHold)
        ensures
            Self::may_report(*old(self), views::of_seq(tokens@), r, *final(self)),
            r is AllHold ==> forall|i: int|
                0 <= i < tokens@.len() ==> old(self).confirms((#[trigger] tokens@[i])@),
    ;
}

/// Whether every token can be confirmed.
pub open spec fn all_confirmed<V: EvidenceValidator>(
    validator: V,
    tokens: Seq<TokenView>,
) -> bool {
    forall|i: int| 0 <= i < tokens.len() ==> validator.confirms(#[trigger] tokens[i])
}

/// Says which intent types may be served unverified answers.
///
/// An implementation says which answers it can give. One that says nothing may
/// give any.
pub trait ModeBPolicy {
    /// Whether the policy can say this of the intent type.
    open spec fn may_say(&self, intent_type: Seq<char>, opted_in: bool) -> bool {
        true
    }

    /// Whether the intent type opted in.
    fn opted_in(&self, intent_type: &IntentType) -> (r: bool)
        ensures
            self.may_say(intent_type@, r),
    ;
}

/// Nothing opted in.
#[derive(Debug, Clone, Copy)]
pub struct DenyAllModeB;

impl Default for DenyAllModeB {
    fn default() -> (r: Self) {
        DenyAllModeB
    }
}

impl ModeBPolicy for DenyAllModeB {
    open spec fn may_say(&self, intent_type: Seq<char>, opted_in: bool) -> bool {
        !opted_in
    }

    fn opted_in(&self, intent_type: &IntentType) -> (r: bool) {
        false
    }
}

/// A list of the intent types that opted in.
#[derive(Debug)]
pub struct AllowListModeB {
    allowed: Vec<IntentType>,
}

impl View for AllowListModeB {
    type V = Seq<Seq<char>>;

    closed spec fn view(&self) -> Seq<Seq<char>> {
        views::of_seq(self.allowed@)
    }
}

impl Default for AllowListModeB {
    fn default() -> (r: Self)
        ensures
            r@ == Seq::<Seq<char>>::empty(),
    {
        let r = AllowListModeB { allowed: Vec::new() };
        assert(r@ =~= Seq::<Seq<char>>::empty());
        r
    }
}

impl Clone for AllowListModeB {
    fn clone(&self) -> (r: Self)
        ensures
            r@ == self@,
    {
        let r = AllowListModeB { allowed: self.allowed.clone() };
        assert(r@ =~= self@);
        r
    }
}

impl AllowListModeB {
    /// A list of exactly these intent types.
    pub fn new(allowed: Vec<IntentType>) -> (r: Self)
        ensures
            r@ == views::of_seq(allowed@),
    {
        AllowListModeB { allowed }
    }

    /// The list with one more intent type.
    pub fn allow(self, intent_type: IntentType) -> (r: Self)
        ensures
            r@ == self@.push(intent_type@),
    {
        let ghost before = self@;
        let mut allowed = self.allowed;
        allowed.push(intent_type);
        let r = AllowListModeB { allowed };
        assert(r@ =~= before.push(intent_type@));
        r
    }
}

impl ModeBPolicy for AllowListModeB {
    open spec fn may_say(&self, intent_type: Seq<char>, opted_in: bool) -> bool {
        opted_in == self@.contains(intent_type)
    }

    fn opted_in(&self, intent_type: &IntentType) -> (r: bool) {
        let mut i: usize = 0;
        while i < self.allowed.len()
            invariant
                i <= self.allowed@.len(),
                forall|j: int| 0 <= j < i ==> #[trigger] self@[j] != intent_type@,
            decreases self.allowed@.len() - i,
        {
            if self.allowed[i].0 == intent_type.0 {
                assert(self@[i as int] == intent_type@);
                return true;
            }
            i += 1;
        }
        false
    }
}

/// How old an answer is; an answer from the future is new.
pub open spec fn age(now: u64, issued_at: u64) -> u64 {
    if now < issued_at {
        0
    } else {
        (now - issued_at) as u64
    }
}

/// How old an answer is; an answer from the future is new.
pub fn answer_age(now: GoalTimestamp, issued_at: GoalTimestamp) -> (r: GoalDuration)
    ensures
        r.0 == age(now.0, issued_at.0),
        now.0 < issued_at.0 ==> r.0 == 0,
        now.0 >= issued_at.0 ==> r.0 == now.0 - issued_at.0,
{
    GoalDuration(now.0.saturating_sub(issued_at.0))
}

/// The answer served, if one is, given whether the tokens hold and whether the
/// intent type opted in.
pub open spec fn served(
    co: CachedOutcomeView,
    hold: TokensHold,
    opted_in: bool,
    now: u64,
) -> Option<DecisionView> {
    match co.mode {
        AnswerMode::SoundPinnable => if hold is AllHold {
            Some(DecisionView::ServeAnswer { answer: co.answer, verified: true })
        } else {
            None
        },
        AnswerMode::BoundedVolatile { max_age } => if opted_in && age(now, co.issued_at)
            <= max_age.0 {
            Some(DecisionView::ServeAnswer { answer: co.answer, verified: false })
        } else {
            None
        },
    }
}

/// Whether everything is fresh.
pub open spec fn all_fresh(statuses: Seq<Freshness>) -> bool {
    forall|i: int| 0 <= i < statuses.len() ==> (#[trigger] statuses[i]) is Fresh
}

/// The replay of a memory whose evidence has these freshnesses.
pub open spec fn replayed(mem: MemoryView, statuses: Seq<Freshness>) -> DecisionView {
    DecisionView::ReplayProcedure {
        plan: mem.plan,
        evidence: Seq::new(
            mem.evidence_contract.items.len(),
            |i: int| (mem.evidence_contract.items[i], statuses[i]),
        ),
        evidence_fully_fresh: all_fresh(statuses),
    }
}

/// What to do with a memory, given whether the tokens of its answer hold,
/// whether the intent type opted in, and how fresh its evidence is.
pub open spec fn decision(
    mem: MemoryView,
    hold: TokensHold,
    opted_in: bool,
    statuses: Seq<Freshness>,
    now: u64,
) -> DecisionView {
    if mem.cached_outcome is Some && served(mem.cached_outcome->0, hold, opted_in, now) is Some {
        served(mem.cached_outcome->0, hold, opted_in, now)->0
    } else {
        replayed(mem, statuses)
    }
}

/// Whether this came of checking the answer's tokens, and of the validator; an
/// unverified answer's tokens are not checked.
pub open spec fn tokens_checked<V: EvidenceValidator>(
    before: V,
    co: CachedOutcomeView,
    hold: TokensHold,
    after: V,
) -> bool {
    if co.mode is SoundPinnable {
        &&& V::may_report(before, co.validity_tokens, hold, after)
        &&& hold is AllHold ==> all_confirmed(before, co.validity_tokens)
    } else {
        after == before
    }
}

/// Whether this is what the policy can say of the intent type; of a sound answer
/// it is not asked.
pub open spec fn policy_asked<P: ModeBPolicy>(
    policy: P,
    co: CachedOutcomeView,
    intent_type: Seq<char>,
    opted_in: bool,
) -> bool {
    co.mode is BoundedVolatile ==> policy.may_say(intent_type, opted_in)
}

/// Whether the evidence was checked piece by piece in order, each by the validator
/// that the piece before it left.
pub open spec fn checked_in_turn<V: EvidenceValidator>(
    validators: Seq<V>,
    items: Seq<EvidenceItemView>,
    statuses: Seq<Freshness>,
) -> bool {
    &&& validators.len() == items.len() + 1
    &&& statuses.len() == items.len()
    &&& forall|i: int|
        0 <= i < statuses.len() ==> V::may_find(
            validators[i],
            items[i],
            #[trigger] statuses[i],
            validators[i + 1],
        )
    &&& forall|i: int|
        0 <= i < statuses.len() && (#[trigger] statuses[i]) is Fresh ==> validators[i].confirms(
            items[i].validity_token,
        )
}

/// Whether these freshnesses came of checking the evidence, each piece once, and
/// it led from one validator to the other.
pub open spec fn evidence_checked<V: EvidenceValidator>(
    before: V,
    mem: MemoryView,
    statuses: Seq<Freshness>,
    after: V,
) -> bool {
    exists|validators: Seq<V>| #[trigger]
        checked_in_turn(validators, mem.evidence_contract.items, statuses) && validators[0]
            == before && validators.last() == after
}

/// The answer served, if one is, given what was found.
pub fn serve_answer(
    co: &CachedOutcome,
    hold: TokensHold,
    opted_in: bool,
    now: GoalTimestamp,
) -> (r: Option<ReplayDecision>)
    ensures
        views::of_option(r) == served(co@, hold, opted_in, now.0),
{
    match co.mode {
        AnswerMode::SoundPinnable => {
            if hold == TokensHold::AllHold {
                Some(ReplayDecision::ServeAnswer { answer: co.answer.clone(), verified: true })
            } else {
                None
            }
        },
        AnswerMode::BoundedVolatile { max_age } => {
            if opted_in && answer_age(now, co.issued_at).0 <= max_age.0 {
                Some(ReplayDecision::ServeAnswer { answer: co.answer.clone(), verified: false })
            } else {
                None
            }
        },
    }
}

/// The replay of a memory whose evidence has these freshnesses.
pub fn replay_with(mem: &Memory, statuses: &Vec<Freshness>) -> (r: ReplayDecision)
    requires
        statuses@.len() == mem@.evidence_contract.items.len(),
    ensures
        r@ == replayed(mem@, statuses@),
{
    let mut evidence: Vec<(EvidenceContractItem, Freshness)> = Vec::new();
    let mut fresh: bool = true;
    let mut i: usize = 0;
    while i < statuses.len()
        invariant
            i <= statuses@.len(),
            statuses@.len() == mem.evidence_contract.items@.len(),
            evidence@.len() == i,
            forall|j: int|
                0 <= j < i ==> (#[trigger] evidence_views(evidence@)[j]) == (
                    mem@.evidence_contract.items[j],
                    statuses@[j],
                ),
            fresh == forall|j: int| 0 <= j < i ==> (#[trigger] statuses@[j]) is Fresh,
        decreases statuses@.len() - i,
    {
        let ghost before = evidence@;
        evidence.push((mem.evidence_contract.items[i].clone(), statuses[i]));
        proof {
            assert forall|j: int| 0 <= j < i + 1 implies (#[trigger] evidence_views(evidence@)[j])
                == (mem@.evidence_contract.items[j], statuses@[j]) by {
                if j < i {
                    assert(evidence_views(evidence@)[j] == evidence_views(before)[j]);
                }
            }
        }
        match statuses[i] {
            Freshness::Fresh => {},
            Freshness::Stale => {
                fresh = false;
                assert(!(statuses@[i as int] is Fresh));
            },
        }
        i += 1;
    }
    let r = ReplayDecision::ReplayProcedure {
        plan: mem.plan.clone(),
        evidence,
        evidence_fully_fresh: fresh,
    };
    assert(r@->evidence =~= replayed(mem@, statuses@)->evidence);
    r
}

/// What to do with a memory, given what was found.
pub fn decide_from(
    mem: &Memory,
    hold: TokensHold,
    opted_in: bool,
    statuses: &Vec<Freshness>,
    now: GoalTimestamp,
) -> (r: ReplayDecision)
    requires
        statuses@.len() == mem@.evidence_contract.items.len(),
    ensures
        r@ == decision(mem@, hold, opted_in, statuses@, now.0),
{
    if let Some(co) = &mem.cached_outcome {
        if let Some(decision) = serve_answer(co, hold, opted_in, now) {
            return decision;
        }
    }
    replay_with(mem, statuses)
}

/// Tries the cached answer.
fn try_serve_answer<V: EvidenceValidator, P: ModeBPolicy>(
    co: &CachedOutcome,
    validator: &mut V,
    mode_b_policy: &P,
    sig: &IntentSignature,
    now: GoalTimestamp,
) -> (r: Option<ReplayDecision>)
    ensures
        exists|hold: TokensHold, opted_in: bool|
            {
                &&& #[trigger] tokens_checked(*old(validator), co@, hold, *final(validator))
                &&& #[trigger] policy_asked(*mode_b_policy, co@, sig@.intent_type, opted_in)
                &&& views::of_option(r) == served(co@, hold, opted_in, now.0)
            },
{
    match co.mode {
        AnswerMode::SoundPinnable => {
            let hold = validator.tokens_hold(co.validity_tokens.as_slice());
            assert(tokens_checked(*old(validator), co@, hold, *validator));
            assert(policy_asked(*mode_b_policy, co@, sig@.intent_type, false));
            serve_answer(co, hold, false, now)
        },
        AnswerMode::BoundedVolatile { .. } => {
            let opted_in = mode_b_policy.opted_in(&sig.intent_type);
            assert(tokens_checked(*old(validator), co@, TokensHold::Unavailable, *validator));
            assert(policy_asked(*mode_b_policy, co@, sig@.intent_type, opted_in));
            serve_answer(co, TokensHold::Unavailable, opted_in, now)
        },
    }
}

proof fn lemma_one_more_checked<V: EvidenceValidator>(
    validators: Seq<V>,
    items: Seq<EvidenceItemView>,
    statuses: Seq<Freshness>,
    item: EvidenceItemView,
    found: Freshness,
    after: V,
)
    requires
        checked_in_turn(validators, items, statuses),
        V::may_find(validators.last(), item, found, after),
        found is Fresh ==> validators.last().confirms(item.validity_token),
    ensures
        checked_in_turn(validators.push(after), items.push(item), statuses.push(found)),
        validators.push(after)[0] == validators[0],
        validators.push(after).last() == after,
{
    let (v, t, s) = (validators.push(after), items.push(item), statuses.push(found));
    assert forall|i: int| 0 <= i < s.len() implies V::may_find(
        v[i],
        t[i],
        #[trigger] s[i],
        v[i + 1],
    ) by {
        if i < statuses.len() {
            assert(s[i] == statuses[i]);
        }
    }
    assert forall|i: int| 0 <= i < s.len() && (#[trigger] s[i]) is Fresh implies v[i].confirms(
        t[i].validity_token,
    ) by {
        if i < statuses.len() {
            assert(s[i] == statuses[i]);
        }
    }
}

/// Checks every piece of evidence and replays the plan.
fn replay_procedure<V: EvidenceValidator>(mem: &Memory, validator: &mut V) -> (r: ReplayDecision)
    ensures
        exists|statuses: Seq<Freshness>| #[trigger]
            evidence_checked(*old(validator), mem@, statuses, *final(validator)) && r@ == replayed(
                mem@,
                statuses,
            ),
{
    let ghost items = mem@.evidence_contract.items;
    let ghost start = *validator;
    let ghost mut validators = seq![*validator];
    let mut statuses: Vec<Freshness> = Vec::new();
    let mut i: usize = 0;
    assert(items.take(0) =~= Seq::<EvidenceItemView>::empty());
    while i < mem.evidence_contract.items.len()
        invariant
            i <= mem.evidence_contract.items@.len(),
            items == mem@.evidence_contract.items,
            statuses@.len() == i,
            checked_in_turn(validators, items.take(i as int), statuses@),
            validators[0] == start,
            validators.last() == *validator,
        decreases mem.evidence_contract.items@.len() - i,
    {
        let ghost (states, seen) = (validators, statuses@);
        let found = validator.revalidate_item(&mem.evidence_contract.items[i]);
        proof {
            assert(items[i as int] == mem.evidence_contract.items@[i as int]@);
            lemma_one_more_checked(
                states,
                items.take(i as int),
                seen,
                items[i as int],
                found,
                *validator,
            );
            validators = validators.push(*validator);
            assert(items.take(i + 1) =~= items.take(i as int).push(items[i as int]));
        }
        statuses.push(found);
        i += 1;
    }
    proof {
        assert(items.take(i as int) =~= items);
        assert(checked_in_turn(validators, items, statuses@));
        assert(evidence_checked(start, mem@, statuses@, *validator));
    }
    replay_with(mem, &statuses)
}

/// What was found on a memory's cached answer, if it has one, and what that left
/// of the validator: tokens are checked for a sound answer only, and the policy is
/// asked for an unverified one only.
pub open spec fn answer_checked<V: EvidenceValidator, P: ModeBPolicy>(
    before: V,
    policy: P,
    mem: MemoryView,
    intent_type: Seq<char>,
    hold: TokensHold,
    opted_in: bool,
    after: V,
) -> bool {
    match mem.cached_outcome {
        Some(co) => {
            &&& policy_asked(policy, co, intent_type, opted_in)
            &&& tokens_checked(before, co, hold, after)
        },
        None => after == before,
    }
}

/// Whether a decision is one that the validator and the policy allow, and what it
/// leaves of the validator: it is the one for what the validator found and the
/// policy said. The evidence is checked only where no answer is served.
pub open spec fn allowed<V: EvidenceValidator, P: ModeBPolicy>(
    before: V,
    policy: P,
    mem: MemoryView,
    intent_type: Seq<char>,
    now: u64,
    d: DecisionView,
    after: V,
) -> bool {
    exists|hold: TokensHold, opted_in: bool, statuses: Seq<Freshness>, between: V|
        #![trigger decision(mem, hold, opted_in, statuses, now), answer_checked(before, policy, mem, intent_type, hold, opted_in, between)]
        {
            &&& d == decision(mem, hold, opted_in, statuses, now)
            &&& answer_checked(before, policy, mem, intent_type, hold, opted_in, between)
            &&& if d is ReplayProcedure {
                evidence_checked(between, mem, statuses, after)
            } else {
                after == between
            }
        }
}

/// Decides whether a memory's cached answer is served or its plan is replayed.
pub fn decide_replay<V: EvidenceValidator, P: ModeBPolicy>(
    mem: &Memory,
    validator: &mut V,
    mode_b_policy: &P,
    sig: &IntentSignature,
    now: GoalTimestamp,
) -> (r: ReplayDecision)
    ensures
        allowed(
            *old(validator),
            *mode_b_policy,
            mem@,
            sig@.intent_type,
            now.0,
            r@,
            *final(validator),
        ),
{
    let ghost mut opted_in = false;
    let ghost mut found = TokensHold::Unavailable;
    let ghost start = *validator;
    if let Some(co) = &mem.cached_outcome {
        let answer = try_serve_answer(co, validator, mode_b_policy, sig, now);
        proof {
            let (hold, said) = choose|hold: TokensHold, said: bool|
                {
                    &&& #[trigger] tokens_checked(start, co@, hold, *validator)
                    &&& #[trigger] policy_asked(*mode_b_policy, co@, sig@.intent_type, said)
                    &&& views::of_option(answer) == served(co@, hold, said, now.0)
                };
            found = hold;
            opted_in = said;
            assert(answer_checked(
                start,
                *mode_b_policy,
                mem@,
                sig@.intent_type,
                found,
                opted_in,
                *validator,
            ));
        }
        if let Some(served_now) = answer {
            proof {
                let none = Seq::<Freshness>::empty();
                assert(served_now@ == decision(mem@, found, opted_in, none, now.0));
            }
            return served_now;
        }
    }
    let ghost between = *validator;
    assert(answer_checked(
        start,
        *mode_b_policy,
        mem@,
        sig@.intent_type,
        found,
        opted_in,
        between,
    ));
    let r = replay_procedure(mem, validator);
    proof {
        let statuses = choose|statuses: Seq<Freshness>| #[trigger]
            evidence_checked(between, mem@, statuses, *validator) && r@ == replayed(
                mem@,
                statuses,
            );
        assert(r@ == decision(mem@, found, opted_in, statuses, now.0));
    }
    r
}

/// An answer is served as verified only if it is sound and every one of its
/// tokens was confirmed to hold.
pub proof fn law_verified_means_confirmed<V: EvidenceValidator, P: ModeBPolicy>(
    before: V,
    policy: P,
    mem: MemoryView,
    intent_type: Seq<char>,
    now: u64,
    answer: Seq<char>,
    after: V,
)
    requires
        allowed(
            before,
            policy,
            mem,
            intent_type,
            now,
            DecisionView::ServeAnswer { answer, verified: true },
            after,
        ),
    ensures
        mem.cached_outcome is Some,
        mem.cached_outcome->0.mode is SoundPinnable,
        mem.cached_outcome->0.answer == answer,
        all_confirmed(before, mem.cached_outcome->0.validity_tokens),
{
}

/// An answer is served as unverified only if it is bounded, its intent type
/// opted in and it is not too old; a sound answer never is. The validator is not
/// asked.
pub proof fn law_unverified_means_opted_in<V: EvidenceValidator, P: ModeBPolicy>(
    before: V,
    policy: P,
    mem: MemoryView,
    intent_type: Seq<char>,
    now: u64,
    answer: Seq<char>,
    after: V,
)
    requires
        allowed(
            before,
            policy,
            mem,
            intent_type,
            now,
            DecisionView::ServeAnswer { answer, verified: false },
            after,
        ),
    ensures
        mem.cached_outcome is Some,
        mem.cached_outcome->0.answer == answer,
        policy.may_say(intent_type, true),
        after == before,
        mem.cached_outcome->0.mode matches AnswerMode::BoundedVolatile { max_age } && age(
            now,
            mem.cached_outcome->0.issued_at,
        ) <= max_age.0,
{
}

/// Without a cached answer the plan is replayed.
pub proof fn law_no_answer_means_replay(
    mem: MemoryView,
    hold: TokensHold,
    opted_in: bool,
    statuses: Seq<Freshness>,
    now: u64,
)
    requires
        mem.cached_outcome is None,
    ensures
        decision(mem, hold, opted_in, statuses, now) == replayed(mem, statuses),
{
}

/// An answer whose tokens cannot be confirmed, or are stale, is not served as
/// verified; where the intent type did not opt in either, nothing is served.
pub proof fn law_unconfirmed_falls_through(
    mem: MemoryView,
    hold: TokensHold,
    opted_in: bool,
    statuses: Seq<Freshness>,
    now: u64,
)
    requires
        !(hold is AllHold),
    ensures
        decision(mem, hold, opted_in, statuses, now) matches DecisionView::ServeAnswer {
            verified,
            ..
        } ==> !verified,
        mem.cached_outcome is Some && mem.cached_outcome->0.mode is SoundPinnable ==> decision(
            mem,
            hold,
            opted_in,
            statuses,
            now,
        ) == replayed(mem, statuses),
        !opted_in ==> decision(mem, hold, opted_in, statuses, now) == replayed(mem, statuses),
{
}

/// A replay keeps the plan and every piece of evidence, in order, and is fully
/// fresh exactly when each piece is fresh.
pub proof fn law_replay_reports_all_evidence(mem: MemoryView, statuses: Seq<Freshness>)
    requires
        statuses.len() == mem.evidence_contract.items.len(),
    ensures
        replayed(mem, statuses)->plan == mem.plan,
        replayed(mem, statuses)->evidence.len() == mem.evidence_contract.items.len(),
        replayed(mem, statuses)->evidence_fully_fresh <==> forall|i: int|
            0 <= i < replayed(mem, statuses)->evidence.len() ==> (
            #[trigger] replayed(mem, statuses)->evidence[i]).1 is Fresh,
{
    let d = replayed(mem, statuses);
    if forall|i: int| 0 <= i < d->evidence.len() ==> (#[trigger] d->evidence[i]).1 is Fresh {
        assert forall|i: int| 0 <= i < statuses.len() implies (#[trigger] statuses[i]) is Fresh by {
            assert(d->evidence[i].1 == statuses[i]);
        }
    }
}

} // verus!
