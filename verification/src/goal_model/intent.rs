//! Derivation of the intent signature that every goal node carries.

use vstd::prelude::*;
use vstd::string::*;

use crate::goal_model::tree::GoalTree;
use crate::text;
use crate::types::{
    GoalNodeId, IntentSignature, IntentType, IntentView, Scope, TargetRef, TargetType,
};
use crate::views;

verus! {

/// One of the four fields of an intent signature.
#[derive(Debug, Clone, Copy, PartialEq, Eq, PartialOrd, Ord, Hash, Structural)]
pub enum IntentField {
    /// The kind of intent.
    IntentType,
    /// The category of the target.
    TargetType,
    /// The reference to the target.
    TargetRef,
    /// The bounding context.
    Scope,
}

impl IntentField {
    /// The name of the field in a signature.
    pub open spec fn named(self) -> Seq<char> {
        match self {
            IntentField::IntentType => "intent_type"@,
            IntentField::TargetType => "target_type"@,
            IntentField::TargetRef => "target_ref"@,
            IntentField::Scope => "scope"@,
        }
    }

    /// The name of the field in a signature.
    pub fn name(self) -> (r: &'static str)
        ensures
            r@ == self.named(),
    {
        match self {
            IntentField::IntentType => "intent_type",
            IntentField::TargetType => "target_type",
            IntentField::TargetRef => "target_ref",
            IntentField::Scope => "scope",
        }
    }

    /// The name as owned text.
    pub fn to_string(&self) -> (r: String)
        ensures
            r@ == self.named(),
    {
        self.name().to_owned()
    }
}

/// A signature could not be derived: the fields without a usable candidate.
#[derive(Debug, PartialEq, Eq)]
pub struct IntentDerivationError {
    /// The unresolved fields, in signature order.
    pub unresolved: Vec<IntentField>,
}

impl View for IntentDerivationError {
    type V = Seq<IntentField>;

    open spec fn view(&self) -> Seq<IntentField> {
        self.unresolved@
    }
}

impl Clone for IntentDerivationError {
    fn clone(&self) -> (r: Self)
        ensures
            r@ == self@,
    {
        let r = IntentDerivationError { unresolved: self.unresolved.clone() };
        assert(r@ =~= self@);
        r
    }
}

/// The text that reports unresolved fields.
pub open spec fn derivation_message(unresolved: Seq<IntentField>) -> Seq<char> {
    "cannot derive IntentSignature: unresolved field(s): "@ + text::joined(
        unresolved.map_values(|f: IntentField| f.named()),
        ", "@,
    )
}

impl IntentDerivationError {
    /// Whether `field` is among the unresolved ones.
    pub fn is_unresolved(&self, field: IntentField) -> (r: bool)
        ensures
            r == self@.contains(field),
    {
        let mut i: usize = 0;
        while i < self.unresolved.len()
            invariant
                i <= self.unresolved@.len(),
                forall|j: int| 0 <= j < i ==> self.unresolved@[j] != field,
            decreases self.unresolved@.len() - i,
        {
            if self.unresolved[i] == field {
                return true;
            }
            i += 1;
        }
        false
    }

    /// The message that names the unresolved fields.
    pub fn to_string(&self) -> (r: String)
        ensures
            r@ == derivation_message(self@),
    {
        let mut names: Vec<String> = Vec::new();
        let ghost expected = self@.map_values(|f: IntentField| f.named());
        let mut i: usize = 0;
        while i < self.unresolved.len()
            invariant
                i <= self.unresolved@.len(),
                expected == self@.map_values(|f: IntentField| f.named()),
                views::of_seq(names@) =~= expected.take(i as int),
            decreases self.unresolved@.len() - i,
        {
            let ghost before = names@;
            let name = self.unresolved[i].to_string();
            assert(name@ == expected[i as int]);
            names.push(name);
            proof {
                assert(views::of_seq(names@) =~= views::of_seq(before).push(name@));
                assert(expected.take(i + 1) =~= expected.take(i as int).push(expected[i as int]));
            }
            i += 1;
        }
        assert(expected.take(i as int) =~= expected);
        let mut out = "cannot derive IntentSignature: unresolved field(s): ".to_owned();
        out.append(text::join(&names, ", ").as_str());
        out
    }
}

/// Candidate values for the four fields of a signature.
#[derive(Debug, PartialEq, Eq)]
pub struct IntentInput {
    /// Candidate for the kind of intent.
    pub intent_type: Option<String>,
    /// Candidate for the category of the target.
    pub target_type: Option<String>,
    /// Candidate for the reference to the target.
    pub target_ref: Option<String>,
    /// Candidate for the bounding context.
    pub scope: Option<String>,
}

/// The candidates as text.
#[verifier::ext_equal]
pub struct IntentInputView {
    pub intent_type: Option<Seq<char>>,
    pub target_type: Option<Seq<char>>,
    pub target_ref: Option<Seq<char>>,
    pub scope: Option<Seq<char>>,
}

impl View for IntentInput {
    type V = IntentInputView;

    open spec fn view(&self) -> IntentInputView {
        IntentInputView {
            intent_type: views::of_option(self.intent_type),
            target_type: views::of_option(self.target_type),
            target_ref: views::of_option(self.target_ref),
            scope: views::of_option(self.scope),
        }
    }
}

impl Clone for IntentInput {
    fn clone(&self) -> (r: Self)
        ensures
            r == *self,
    {
        IntentInput {
            intent_type: self.intent_type.clone(),
            target_type: self.target_type.clone(),
            target_ref: self.target_ref.clone(),
            scope: self.scope.clone(),
        }
    }
}

impl Default for IntentInput {
    fn default() -> (r: Self)
        ensures
            r@ == (IntentInputView {
                intent_type: None,
                target_type: None,
                target_ref: None,
                scope: None,
            }),
    {
        IntentInput { intent_type: None, target_type: None, target_ref: None, scope: None }
    }
}

impl IntentInput {
    /// Candidates for all four fields.
    pub fn new(intent_type: &str, target_type: &str, target_ref: &str, scope: &str) -> (r: Self)
        ensures
            r@ == (IntentInputView {
                intent_type: Some(intent_type@),
                target_type: Some(target_type@),
                target_ref: Some(target_ref@),
                scope: Some(scope@),
            }),
    {
        IntentInput {
            intent_type: Some(intent_type.to_owned()),
            target_type: Some(target_type.to_owned()),
            target_ref: Some(target_ref.to_owned()),
            scope: Some(scope.to_owned()),
        }
    }
}

/// A candidate resolves to its trimmed text, unless it is absent or blank.
pub open spec fn resolved(candidate: Option<Seq<char>>) -> Option<Seq<char>> {
    match candidate {
        Some(value) => if text::is_blank(value) {
            None
        } else {
            Some(text::trimmed(value))
        },
        None => None,
    }
}

/// The fields whose candidate does not resolve, in signature order.
pub open spec fn unresolved_fields(input: IntentInputView) -> Seq<IntentField> {
    let none = Seq::<IntentField>::empty();
    (if resolved(input.intent_type) is None {
        seq![IntentField::IntentType]
    } else {
        none
    }) + (if resolved(input.target_type) is None {
        seq![IntentField::TargetType]
    } else {
        none
    }) + (if resolved(input.target_ref) is None {
        seq![IntentField::TargetRef]
    } else {
        none
    }) + (if resolved(input.scope) is None {
        seq![IntentField::Scope]
    } else {
        none
    })
}

/// The signature of the resolved candidates.
pub open spec fn derived_intent(input: IntentInputView) -> IntentView {
    IntentView {
        intent_type: resolved(input.intent_type)->0,
        target_type: resolved(input.target_type)->0,
        target_ref: resolved(input.target_ref)->0,
        scope: resolved(input.scope)->0,
    }
}

fn resolve(candidate: &Option<String>) -> (r: Option<String>)
    ensures
        views::of_option(r) == resolved(views::of_option(*candidate)),
{
    match candidate {
        Some(value) => {
            if text::blank(value.as_str()) {
                None
            } else {
                Some(text::trim(value.as_str()))
            }
        },
        None => None,
    }
}

/// Derives a signature from candidates, or names every field that has none.
pub fn derive_intent(input: &IntentInput) -> (r: Result<IntentSignature, IntentDerivationError>)
    ensures
        r is Ok <==> unresolved_fields(input@).len() == 0,
        r matches Ok(sig) ==> sig@ == derived_intent(input@),
        r matches Err(e) ==> e@ == unresolved_fields(input@),
{
    let intent_type = resolve(&input.intent_type);
    let target_type = resolve(&input.target_type);
    let target_ref = resolve(&input.target_ref);
    let scope = resolve(&input.scope);

    let mut unresolved: Vec<IntentField> = Vec::new();
    if intent_type.is_none() {
        unresolved.push(IntentField::IntentType);
    }
    if target_type.is_none() {
        unresolved.push(IntentField::TargetType);
    }
    if target_ref.is_none() {
        unresolved.push(IntentField::TargetRef);
    }
    if scope.is_none() {
        unresolved.push(IntentField::Scope);
    }
    assert(unresolved@ =~= unresolved_fields(input@));

    match (intent_type, target_type, target_ref, scope) {
        (Some(intent_type), Some(target_type), Some(target_ref), Some(scope)) => Ok(
            IntentSignature {
                intent_type: IntentType::from(intent_type),
                target_type: TargetType::from(target_type),
                target_ref: TargetRef::from(target_ref),
                scope: Scope::from(scope),
            },
        ),
        _ => Err(IntentDerivationError { unresolved }),
    }
}

/// The signature attached to a node, if the node is in the tree.
pub fn attached_intent<'tree>(tree: &'tree GoalTree, id: &GoalNodeId) -> (r: Option<
    &'tree IntentSignature,
>)
    requires
        tree.wf(),
    ensures
        match r {
            Some(intent) => tree@.has(id@) && intent@ == tree@.nodes[id@].intent,
            None => !tree@.has(id@),
        },
{
    match tree.node(id) {
        Some(node) => Some(&node.intent),
        None => None,
    }
}

/// A derived signature has no blank field and no white space around a field:
/// deriving from it again gives it back.
pub proof fn law_derivation_is_stable(input: IntentInputView)
    requires
        unresolved_fields(input).len() == 0,
    ensures
        ({
            let sig = derived_intent(input);
            let again = IntentInputView {
                intent_type: Some(sig.intent_type),
                target_type: Some(sig.target_type),
                target_ref: Some(sig.target_ref),
                scope: Some(sig.scope),
            };
            unresolved_fields(again).len() == 0 && derived_intent(again) == sig
        }),
{
    let parts = seq![input.intent_type, input.target_type, input.target_ref, input.scope];
    assert(resolved(input.intent_type) is Some);
    assert(resolved(input.target_type) is Some);
    assert(resolved(input.target_ref) is Some);
    assert(resolved(input.scope) is Some);
    assert forall|i: int| 0 <= i < 4 implies resolved(
        Some(text::trimmed(#[trigger] parts[i]->0)),
    ) == Some(text::trimmed(parts[i]->0)) by {
        let s = parts[i]->0;
        text::lemma_trimmed_ends(s);
        text::lemma_trimmed_empty(s);
        text::lemma_trimmed_empty(text::trimmed(s));
    }
    assert(parts[0] == input.intent_type);
    assert(parts[1] == input.target_type);
    assert(parts[2] == input.target_ref);
    assert(parts[3] == input.scope);
}

} // verus!
