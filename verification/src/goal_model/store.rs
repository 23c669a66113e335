//! The goal store: the operations that write to a session's goal event log.

use vstd::prelude::*;
use vstd::string::*;

use crate::goal_model::closing_laws;
use crate::goal_model::closure::{
    ClosureSignal, ClosureSignalView, InductionQueue, NoopInductionQueue,
};
use crate::goal_model::event_log::{
    GoalEventLog, GoalStoreError, GoalStoreErrorView, SequencedGoalEvent,
};
use crate::goal_model::fold;
use crate::goal_model::model::{
    GoalEvent, GoalEventView, GoalNode, GoalNodeRevision, GoalNodeView, Resolution,
};
use crate::goal_model::numbered;
use crate::goal_model::subtree_hash;
use crate::goal_model::tree::{GoalTree, GoalTreeView};
use crate::text;
use crate::types;
use crate::types::{GoalNodeId, IntentSignature, IntentView, SessionId, SubtreeHash};
use crate::views;

verus! {

/// What closing a node came to.
#[derive(Debug, PartialEq, Eq)]
pub struct ClosureOutcome {
    /// Whether the node's whole subtree is closed.
    pub closed: bool,
    /// The hash of the subtree, when it is closed.
    pub subtree_hash: Option<SubtreeHash>,
}

impl View for ClosureOutcome {
    type V = Option<Seq<char>>;

    /// The hash of the closed subtree, or `None` where it is not closed.
    open spec fn view(&self) -> Option<Seq<char>> {
        views::of_option(self.subtree_hash)
    }
}

impl Clone for ClosureOutcome {
    fn clone(&self) -> (r: Self)
        ensures
            r == *self,
    {
        ClosureOutcome { closed: self.closed, subtree_hash: self.subtree_hash.clone() }
    }
}

impl ClosureOutcome {
    /// Whether the flag says what the hash says.
    pub open spec fn wf(self) -> bool {
        self.closed == (self.subtree_hash is Some)
    }

    /// The subtree is not closed yet.
    pub fn not_closed() -> (r: Self)
        ensures
            r.wf(),
            r@ is None,
    {
        ClosureOutcome { closed: false, subtree_hash: None }
    }

    /// The subtree is closed under `hash`.
    pub fn closed(hash: SubtreeHash) -> (r: Self)
        ensures
            r.wf(),
            r@ == Some(hash@),
    {
        ClosureOutcome { closed: true, subtree_hash: Some(hash) }
    }
}

/// The tree of a session's events.
pub open spec fn tree_of(events: Seq<GoalEventView>) -> GoalTreeView {
    fold::folded(GoalTreeView::empty(), events)
}

/// Whether a session's events can be folded.
pub open spec fn sound(events: Seq<GoalEventView>) -> bool {
    fold::foldable(GoalTreeView::empty(), events)
}

/// Whether a node and everything below it is resolved, found with at most
/// `depth` levels of recursion; `None` where that is not enough. An absent
/// node is not closed. Children are asked in order, up to the first that is
/// not closed.
pub open spec fn closed_within(
    nodes: Map<Seq<char>, GoalNodeView>,
    id: Seq<char>,
    depth: nat,
) -> Option<bool>
    decreases depth, 0nat,
{
    if !nodes.dom().contains(id) || nodes[id].is_open() {
        Some(false)
    } else if depth == 0 {
        None
    } else {
        all_closed_within(nodes, nodes[id].children, (depth - 1) as nat)
    }
}

/// Whether all of `ids` are closed, asked in order up to the first that is not.
pub open spec fn all_closed_within(
    nodes: Map<Seq<char>, GoalNodeView>,
    ids: Seq<Seq<char>>,
    depth: nat,
) -> Option<bool>
    decreases depth, ids.len() + 1,
{
    if ids.len() == 0 {
        Some(true)
    } else {
        match closed_within(nodes, ids[0], depth) {
            Some(true) => all_closed_within(nodes, ids.drop_first(), depth),
            other => other,
        }
    }
}

/// Whether the question if a subtree is closed has an answer.
pub open spec fn closure_decided(nodes: Map<Seq<char>, GoalNodeView>, id: Seq<char>) -> bool {
    exists|depth: nat| (#[trigger] closed_within(nodes, id, depth)) is Some
}

/// Some depth at which the answer is reached.
pub open spec fn closure_depth(nodes: Map<Seq<char>, GoalNodeView>, id: Seq<char>) -> nat {
    choose|depth: nat| (#[trigger] closed_within(nodes, id, depth)) is Some
}

/// Whether a node and everything below it is resolved.
pub open spec fn fully_closed(nodes: Map<Seq<char>, GoalNodeView>, id: Seq<char>) -> bool {
    closed_within(nodes, id, closure_depth(nodes, id)) == Some(true)
}

/// More depth never changes an answer that was reached.
pub proof fn lemma_closed_deeper(
    nodes: Map<Seq<char>, GoalNodeView>,
    id: Seq<char>,
    d: nat,
    e: nat,
)
    requires
        closed_within(nodes, id, d) is Some,
        d <= e,
    ensures
        closed_within(nodes, id, e) == closed_within(nodes, id, d),
    decreases d, 0nat,
{
    if nodes.dom().contains(id) && !nodes[id].is_open() {
        lemma_all_closed_deeper(nodes, nodes[id].children, (d - 1) as nat, (e - 1) as nat);
    }
}

/// More depth never changes an answer that was reached.
pub proof fn lemma_all_closed_deeper(
    nodes: Map<Seq<char>, GoalNodeView>,
    ids: Seq<Seq<char>>,
    d: nat,
    e: nat,
)
    requires
        all_closed_within(nodes, ids, d) is Some,
        d <= e,
    ensures
        all_closed_within(nodes, ids, e) == all_closed_within(nodes, ids, d),
    decreases d, ids.len() + 1,
{
    if ids.len() > 0 {
        lemma_closed_deeper(nodes, ids[0], d, e);
        if closed_within(nodes, ids[0], d) == Some(true) {
            lemma_all_closed_deeper(nodes, ids.drop_first(), d, e);
        }
    }
}

/// The depth at which the answer is reached does not matter.
pub proof fn lemma_fully_closed(nodes: Map<Seq<char>, GoalNodeView>, id: Seq<char>, d: nat)
    requires
        closed_within(nodes, id, d) is Some,
    ensures
        closure_decided(nodes, id),
        fully_closed(nodes, id) == (closed_within(nodes, id, d) == Some(true)),
{
    let e = closure_depth(nodes, id);
    if d <= e {
        lemma_closed_deeper(nodes, id, d, e);
    } else {
        lemma_closed_deeper(nodes, id, e, d);
    }
}

proof fn lemma_closed_hash(nodes: Map<Seq<char>, GoalNodeView>, id: Seq<char>, d: nat)
    requires
        closed_within(nodes, id, d) == Some(true),
    ensures
        nodes.dom().contains(id),
        subtree_hash::hash_within(nodes, nodes[id], d) is Some,
    decreases d, 0nat,
{
    lemma_all_closed_hash(nodes, nodes[id].children, (d - 1) as nat);
}

proof fn lemma_all_closed_hash(
    nodes: Map<Seq<char>, GoalNodeView>,
    ids: Seq<Seq<char>>,
    d: nat,
)
    requires
        all_closed_within(nodes, ids, d) == Some(true),
    ensures
        subtree_hash::child_hashes_within(nodes, ids, d) is Some,
    decreases d, ids.len() + 1,
{
    if ids.len() > 0 {
        lemma_all_closed_last(nodes, ids, d);
        lemma_all_closed_hash(nodes, ids.drop_last(), d);
        lemma_closed_hash(nodes, ids.last(), d);
    }
}

proof fn lemma_all_closed_last(
    nodes: Map<Seq<char>, GoalNodeView>,
    ids: Seq<Seq<char>>,
    d: nat,
)
    requires
        ids.len() > 0,
        all_closed_within(nodes, ids, d) == Some(true),
    ensures
        all_closed_within(nodes, ids.drop_last(), d) == Some(true),
        closed_within(nodes, ids.last(), d) == Some(true),
    decreases ids.len(),
{
    if ids.len() == 1 {
        assert(ids.drop_last() =~= Seq::<Seq<char>>::empty());
    } else {
        lemma_all_closed_last(nodes, ids.drop_first(), d);
        assert(ids.drop_last().drop_first() =~= ids.drop_first().drop_last());
        assert(ids.drop_last()[0] == ids[0]);
    }
}

/// A closed subtree has a hash.
pub proof fn lemma_closed_is_hashable(nodes: Map<Seq<char>, GoalNodeView>, id: Seq<char>)
    requires
        fully_closed(nodes, id),
    ensures
        nodes.dom().contains(id),
        subtree_hash::hashable(nodes, nodes[id]),
{
    let d = closure_depth(nodes, id);
    lemma_closed_hash(nodes, id, d);
}

fn check_closed(tree: &GoalTree, id: &GoalNodeId, Ghost(depth): Ghost<nat>) -> (r: bool)
    requires
        tree.wf(),
        closed_within(tree@.nodes, id@, depth) is Some,
    ensures
        Some(r) == closed_within(tree@.nodes, id@, depth),
    decreases depth,
{
    let node = match tree.node(id) {
        Some(node) => node,
        None => {
            return false;
        },
    };
    if node.is_open() {
        return false;
    }
    let ghost ids = node@.children;
    let ghost below = (depth - 1) as nat;
    let mut i: usize = 0;
    assert(ids.skip(0) =~= ids);
    while i < node.children.len()
        invariant
            tree.wf(),
            i <= node.children@.len(),
            ids == node@.children,
            0 < depth,
            below == depth - 1,
            closed_within(tree@.nodes, id@, depth) == all_closed_within(tree@.nodes, ids, below),
            all_closed_within(tree@.nodes, ids, below) is Some,
            all_closed_within(tree@.nodes, ids, below) == all_closed_within(
                tree@.nodes,
                ids.skip(i as int),
                below,
            ),
        decreases node.children@.len() - i,
    {
        assert(ids.skip(i as int)[0] == node.children@[i as int]@);
        assert(ids.skip(i as int).drop_first() =~= ids.skip(i + 1));
        if !check_closed(tree, &node.children[i], Ghost(below)) {
            return false;
        }
        i += 1;
    }
    true
}

/// Whether a node and everything below it is resolved. An absent node is not
/// closed.
pub fn subtree_fully_closed(tree: &GoalTree, id: &GoalNodeId) -> (r: bool)
    requires
        tree.wf(),
        closure_decided(tree@.nodes, id@),
    ensures
        r == fully_closed(tree@.nodes, id@),
        r == closing_laws::all_resolved(tree@.nodes, id@),
{
    proof {
        closing_laws::law_closed_means_all_resolved(tree@.nodes, id@);
    }
    check_closed(tree, id, Ghost(closure_depth(tree@.nodes, id@)))
}

/// The event that creates a node.
pub open spec fn creation(
    id: Seq<char>,
    parent: Option<Seq<char>>,
    hypothesis: Seq<char>,
    intent: IntentView,
) -> GoalEventView {
    GoalEventView::Created { id, parent, hypothesis, intent }
}

/// Why a creation is refused, if it is.
pub open spec fn creation_refused(
    tree: GoalTreeView,
    parent: Option<Seq<char>>,
    hypothesis: Seq<char>,
) -> Option<GoalStoreErrorView> {
    if text::is_blank(hypothesis) {
        Some(GoalStoreErrorView::EmptyHypothesis)
    } else if parent is Some && !tree.has(parent->0) {
        Some(GoalStoreErrorView::ParentNotFound(parent->0))
    } else {
        None
    }
}

/// Why a closing is refused, if it is.
pub open spec fn closing_refused(
    tree: GoalTreeView,
    id: Seq<char>,
    resolution: Resolution,
) -> Option<GoalStoreErrorView> {
    if resolution == Resolution::Open {
        Some(GoalStoreErrorView::OpenResolution)
    } else if !tree.has(id) {
        Some(GoalStoreErrorView::NodeNotFound(id))
    } else {
        None
    }
}

/// The session's events once a node is resolved.
pub open spec fn with_resolution(
    events: Seq<GoalEventView>,
    id: Seq<char>,
    resolution: Resolution,
) -> Seq<GoalEventView> {
    events.push(GoalEventView::Resolved { id, resolution })
}

/// What closing a node does.
#[verifier::ext_equal]
pub struct CloseEffect {
    /// The events it appends.
    pub appended: Seq<GoalEventView>,
    /// The hash of the subtree, when it is fully closed.
    pub hash: Option<Seq<char>>,
    /// Whether a closure signal is sent.
    pub fires: bool,
}

/// What closing a node does: it records the resolution, and, when the subtree
/// is fully closed under a hash that this node was not closed under before, the
/// closure, with one signal.
pub open spec fn close_effect(
    events: Seq<GoalEventView>,
    id: Seq<char>,
    resolution: Resolution,
) -> CloseEffect {
    let resolved = with_resolution(events, id, resolution);
    let resolution_event = GoalEventView::Resolved { id, resolution };
    let tree = tree_of(resolved);
    if fully_closed(tree.nodes, id) {
        let hash = subtree_hash::hash_of(tree.nodes, tree.nodes[id]);
        let closing = GoalEventView::Closed { id, subtree_hash: hash };
        if resolved.contains(closing) {
            CloseEffect { appended: seq![resolution_event], hash: Some(hash), fires: false }
        } else {
            CloseEffect {
                appended: seq![resolution_event, closing],
                hash: Some(hash),
                fires: true,
            }
        }
    } else {
        CloseEffect { appended: seq![resolution_event], hash: None, fires: false }
    }
}

/// Whether closing a node comes to an end: the resolution can be folded, and
/// the question if the subtree is closed has an answer.
pub open spec fn closable(
    events: Seq<GoalEventView>,
    id: Seq<char>,
    resolution: Resolution,
) -> bool {
    let resolved = with_resolution(events, id, resolution);
    sound(resolved) && closure_decided(tree_of(resolved).nodes, id)
}

/// The operations on a session's goals.
///
/// An implementation names the events of a session and says whether its log
/// answers.
pub trait GoalStore: Sized {
    /// The events of a session, in sequence order.
    spec fn events(&self, session: Seq<char>) -> Seq<GoalEventView>;

    /// Whether the log backend answers.
    spec fn available(&self) -> bool;

    /// Whether `after` is `before` after it sent a closure signal on.
    open spec fn signalled(before: Self, signal: ClosureSignalView, after: Self) -> bool {
        true
    }

    /// Whether no closure signal was sent between `before` and `after`.
    open spec fn silent(before: Self, after: Self) -> bool {
        true
    }

    /// Creates an open node under a fresh id and returns the id.
    fn create(
        &mut self,
        session: &SessionId,
        parent: Option<GoalNodeId>,
        hypothesis: String,
        intent: IntentSignature,
    ) -> (r: Result<GoalNodeId, GoalStoreError>)
        requires
            sound(old(self).events(session@)),
        ensures
            final(self).available() == old(self).available(),
            Self::silent(*old(self), *final(self)),
            forall|s: Seq<char>|
                s != session@ ==> #[trigger] final(self).events(s) == old(self).events(s),
            r is Err ==> final(self).events(session@) == old(self).events(session@),
            text::is_blank(hypothesis@) ==> r is Err && r->Err_0@
                == GoalStoreErrorView::EmptyHypothesis,
            r matches Ok(id) ==> {
                let tree = tree_of(old(self).events(session@));
                &&& creation_refused(tree, views::of_option(parent), hypothesis@) is None
                &&& drawn_for(tree, id@)
                &&& final(self).events(session@) == old(self).events(session@).push(
                    creation(id@, views::of_option(parent), hypothesis@, intent@),
                )
            },
            old(self).available() ==> {
                let refused = creation_refused(
                    tree_of(old(self).events(session@)),
                    views::of_option(parent),
                    hypothesis@,
                );
                &&& r is Ok <==> refused is None
                &&& r is Err ==> refused == Some(r->Err_0@)
            },
    ;

    /// Revises a node.
    fn revise(
        &mut self,
        session: &SessionId,
        id: &GoalNodeId,
        revision: GoalNodeRevision,
    ) -> (r: Result<(), GoalStoreError>)
        requires
            sound(old(self).events(session@)),
        ensures
            final(self).available() == old(self).available(),
            Self::silent(*old(self), *final(self)),
            forall|s: Seq<char>|
                s != session@ ==> #[trigger] final(self).events(s) == old(self).events(s),
            r is Err ==> final(self).events(session@) == old(self).events(session@),
            r is Ok ==> tree_of(old(self).events(session@)).has(id@) && final(self).events(
                session@,
            ) == old(self).events(session@).push(
                GoalEventView::Revised { id: id@, revision: revision@ },
            ),
            old(self).available() ==> {
                let present = tree_of(old(self).events(session@)).has(id@);
                &&& r is Ok <==> present
                &&& r is Err ==> r->Err_0@ == GoalStoreErrorView::NodeNotFound(id@)
            },
    ;

    /// Resolves a node, and closes its subtree when everything in it is
    /// resolved.
    fn close(
        &mut self,
        session: &SessionId,
        id: &GoalNodeId,
        resolution: Resolution,
    ) -> (r: Result<ClosureOutcome, GoalStoreError>)
        requires
            sound(old(self).events(session@)),
            closing_refused(tree_of(old(self).events(session@)), id@, resolution) is None
                ==> closable(old(self).events(session@), id@, resolution),
        ensures
            final(self).available() == old(self).available(),
            forall|s: Seq<char>|
                s != session@ ==> #[trigger] final(self).events(s) == old(self).events(s),
            r is Err ==> Self::silent(*old(self), *final(self)) && (final(self).events(session@)
                == old(self).events(session@) || final(self).events(session@) == with_resolution(
                old(self).events(session@),
                id@,
                resolution,
            )),
            resolution == Resolution::Open ==> r is Err && r->Err_0@
                == GoalStoreErrorView::OpenResolution,
            closing_refused(tree_of(old(self).events(session@)), id@, resolution) is Some ==> r
                is Err && final(self).events(session@) == old(self).events(session@),
            r matches Ok(outcome) ==> {
                let effect = close_effect(old(self).events(session@), id@, resolution);
                &&& outcome.wf()
                &&& outcome@ == effect.hash
                &&& final(self).events(session@) == old(self).events(session@) + effect.appended
                &&& effect.fires ==> Self::signalled(
                    *old(self),
                    ClosureSignalView {
                        session: session@,
                        node_id: id@,
                        subtree_hash: effect.hash->0,
                    },
                    *final(self),
                )
                &&& !effect.fires ==> Self::silent(*old(self), *final(self))
            },
            old(self).available() ==> {
                let refused = closing_refused(
                    tree_of(old(self).events(session@)),
                    id@,
                    resolution,
                );
                &&& r is Ok <==> refused is None
                &&& r is Err ==> refused == Some(r->Err_0@)
            },
    ;

    /// A node of the session's tree, if it is there.
    fn get(&self, session: &SessionId, id: &GoalNodeId) -> (r: Result<
        Option<GoalNode>,
        GoalStoreError,
    >)
        requires
            sound(self.events(session@)),
        ensures
            self.available() ==> r is Ok,
            r matches Ok(found) ==> {
                let tree = tree_of(self.events(session@));
                &&& found is Some <==> tree.has(id@)
                &&& found is Some ==> found->0@ == tree.nodes[id@]
            },
    ;

    /// The session's tree.
    fn get_tree(&self, session: &SessionId) -> (r: Result<GoalTree, GoalStoreError>)
        requires
            sound(self.events(session@)),
        ensures
            self.available() ==> r is Ok,
            r matches Ok(tree) ==> tree.wf() && tree@ == tree_of(self.events(session@)),
    ;
}

/// Decides a creation: the event to append, or why it is refused.
pub fn plan_creation(
    tree: &GoalTree,
    id: GoalNodeId,
    parent: Option<GoalNodeId>,
    hypothesis: String,
    intent: IntentSignature,
) -> (r: Result<GoalEvent, GoalStoreError>)
    requires
        tree.wf(),
    ensures
        match creation_refused(tree@, views::of_option(parent), hypothesis@) {
            Some(e) => r is Err && r->Err_0@ == e,
            None => r is Ok && r->Ok_0@ == creation(
                id@,
                views::of_option(parent),
                hypothesis@,
                intent@,
            ),
        },
{
    if text::blank(hypothesis.as_str()) {
        return Err(GoalStoreError::EmptyHypothesis);
    }
    match &parent {
        Some(parent_id) => {
            if !tree.contains(parent_id) {
                return Err(GoalStoreError::ParentNotFound(parent_id.clone()));
            }
        },
        None => {},
    }
    Ok(GoalEvent::GoalNodeCreated { id, parent, hypothesis, intent })
}

/// Decides a revision: the event to append, or why it is refused.
pub fn plan_revision(tree: &GoalTree, id: &GoalNodeId, revision: GoalNodeRevision) -> (r: Result<
    GoalEvent,
    GoalStoreError,
>)
    requires
        tree.wf(),
    ensures
        tree@.has(id@) ==> r is Ok && r->Ok_0@ == (GoalEventView::Revised {
            id: id@,
            revision: revision@,
        }),
        !tree@.has(id@) ==> r is Err && r->Err_0@ == GoalStoreErrorView::NodeNotFound(id@),
{
    if !tree.contains(id) {
        return Err(GoalStoreError::NodeNotFound(id.clone()));
    }
    Ok(GoalEvent::GoalNodeRevised { id: id.clone(), revision })
}

/// Decides a resolution: the event to append, or why it is refused.
pub fn plan_resolution(tree: &GoalTree, id: &GoalNodeId, resolution: Resolution) -> (r: Result<
    GoalEvent,
    GoalStoreError,
>)
    requires
        tree.wf(),
    ensures
        match closing_refused(tree@, id@, resolution) {
            Some(e) => r is Err && r->Err_0@ == e,
            None => r is Ok && r->Ok_0@ == (GoalEventView::Resolved { id: id@, resolution }),
        },
{
    if resolution.is_open() {
        return Err(GoalStoreError::OpenResolution);
    }
    if !tree.contains(id) {
        return Err(GoalStoreError::NodeNotFound(id.clone()));
    }
    Ok(GoalEvent::GoalNodeResolved { id: id.clone(), resolution })
}

/// What is left to do after a resolution was recorded.
#[derive(Debug)]
pub struct ClosurePlan {
    /// What the operation reports.
    pub outcome: ClosureOutcome,
    /// The closing event to append, and the signal to send once it is appended.
    pub closing: Option<(GoalEvent, ClosureSignal)>,
}

/// What is left to do after a resolution, given the tree and the events that hold
/// it: where the subtree is closed its hash is reported, and unless the events hold
/// that closure already, it is to be appended and signalled.
pub open spec fn planned(
    tree: GoalTreeView,
    events: Seq<GoalEventView>,
    session: Seq<char>,
    id: Seq<char>,
    plan: ClosurePlan,
) -> bool {
    &&& plan.outcome.wf()
    &&& fully_closed(tree.nodes, id) ==> {
        let hash = subtree_hash::hash_of(tree.nodes, tree.nodes[id]);
        let closing = GoalEventView::Closed { id, subtree_hash: hash };
        &&& plan.outcome@ == Some(hash)
        &&& plan.closing is None <==> events.contains(closing)
        &&& plan.closing is Some ==> (plan.closing->0).0@ == closing && (plan.closing->0).1@
            == (ClosureSignalView { session, node_id: id, subtree_hash: hash })
    }
    &&& !fully_closed(tree.nodes, id) ==> plan.outcome@ is None && plan.closing is None
}

/// Decides what follows a recorded resolution, from the tree and the events
/// that hold it.
pub fn plan_closure(
    tree: &GoalTree,
    events: &Vec<GoalEvent>,
    session: &SessionId,
    id: &GoalNodeId,
) -> (r: ClosurePlan)
    requires
        tree.wf(),
        closure_decided(tree@.nodes, id@),
    ensures
        planned(tree@, views::of_seq(events@), session@, id@, r),
{
    if !subtree_fully_closed(tree, id) {
        return ClosurePlan { outcome: ClosureOutcome::not_closed(), closing: None };
    }
    proof {
        lemma_closed_is_hashable(tree@.nodes, id@);
    }
    let node = match tree.node(id) {
        Some(node) => node,
        None => {
            return ClosurePlan { outcome: ClosureOutcome::not_closed(), closing: None };
        },
    };
    let hash = subtree_hash::subtree_hash(node, tree);
    let ghost closing = GoalEventView::Closed { id: id@, subtree_hash: hash@ };
    let ghost all = views::of_seq(events@);
    let mut i: usize = 0;
    while i < events.len()
        invariant
            i <= events@.len(),
            all == views::of_seq(events@),
            fully_closed(tree@.nodes, id@),
            hash@ == subtree_hash::hash_of(tree@.nodes, tree@.nodes[id@]),
            closing == (GoalEventView::Closed { id: id@, subtree_hash: hash@ }),
            forall|j: int| 0 <= j < i ==> #[trigger] all[j] != closing,
        decreases events@.len() - i,
    {
        let same: bool = match &events[i] {
            GoalEvent::GoalClosed { id: closed_id, subtree_hash: closed_hash } => {
                closed_id.0 == id.0 && closed_hash.0.0 == hash.0.0
            },
            _ => false,
        };
        assert(all[i as int] == events@[i as int]@);
        assert(same == (all[i as int] == closing));
        if same {
            assert(all.contains(closing));
            return ClosurePlan { outcome: ClosureOutcome::closed(hash), closing: None };
        }
        i += 1;
    }
    assert(!all.contains(closing));
    let event = GoalEvent::GoalClosed { id: id.clone(), subtree_hash: hash.clone() };
    let signal = ClosureSignal::new(session.clone(), id.clone(), hash.clone());
    ClosurePlan { outcome: ClosureOutcome::closed(hash), closing: Some((event, signal)) }
}

/// Whether an id may be given to a new node: it has the form of a random id and
/// is not in the tree.
pub open spec fn drawn_for(tree: GoalTreeView, id: Seq<char>) -> bool {
    types::is_random_id(id) && !tree.has(id)
}

/// How often an id is drawn before one is counted out.
const DRAWS: usize = 16;

/// Draws an id that is not in the tree, again where the id is taken. Where every
/// draw is taken, the first numbered id that is free is given.
pub fn fresh_node_id(tree: &GoalTree) -> (r: GoalNodeId)
    requires
        tree.wf(),
    ensures
        drawn_for(tree@, r@),
{
    let mut draws: usize = 0;
    while draws < DRAWS
        invariant
            draws <= DRAWS,
            tree.wf(),
        decreases DRAWS - draws,
    {
        let drawn = GoalNodeId::new();
        if !tree.contains(&drawn) {
            return drawn;
        }
        draws += 1;
    }
    let most = tree.len();
    let mut n: u64 = 0;
    let mut id = numbered::numbered_node_id(0);
    while tree.contains(&id)
        invariant
            tree.wf(),
            tree@.nodes.dom().finite(),
            most == tree@.nodes.dom().len(),
            n <= most,
            id@ == numbered::numbered_id(n),
            types::is_random_id(id@),
            forall|j: u64| j < n ==> tree@.has(#[trigger] numbered::numbered_id(j)),
        decreases most - n,
    {
        proof {
            assert forall|j: u64| j < n + 1 implies tree@.nodes.dom().contains(
                #[trigger] numbered::numbered_id(j),
            ) by {
                if j < n {
                    assert(tree@.has(numbered::numbered_id(j)));
                }
            }
            numbered::lemma_numbered_taken(tree@.nodes.dom(), (n + 1) as nat);
        }
        n += 1;
        id = numbered::numbered_node_id(n);
    }
    id
}

/// A goal store over an event log, with a queue for closure signals.
#[derive(Debug)]
pub struct EventLogGoalStore<L: GoalEventLog, Q: InductionQueue> {
    log: L,
    induction_queue: Q,
}

impl<L: GoalEventLog> EventLogGoalStore<L, NoopInductionQueue> {
    /// A store whose closure signals are dropped.
    pub fn new(log: L) -> (r: Self)
        ensures
            r.event_log() == log,
    {
        EventLogGoalStore { log, induction_queue: NoopInductionQueue }
    }
}

impl<L: GoalEventLog, Q: InductionQueue> EventLogGoalStore<L, Q> {
    /// The log the store writes to.
    pub closed spec fn event_log(self) -> L {
        self.log
    }

    /// The queue the store sends closure signals to.
    pub closed spec fn queue(self) -> Q {
        self.induction_queue
    }

    /// A store whose closure signals go to `queue`.
    pub fn with_induction_queue(log: L, queue: Q) -> (r: Self)
        ensures
            r.event_log() == log,
            r.queue() == queue,
    {
        EventLogGoalStore { log, induction_queue: queue }
    }

    /// The log the store writes to.
    pub fn log(&self) -> (r: &L)
        ensures
            *r == self.event_log(),
    {
        &self.log
    }

    /// The queue the store sends closure signals to.
    pub fn induction_queue(&self) -> (r: &Q)
        ensures
            *r == self.queue(),
    {
        &self.induction_queue
    }

    /// The session's events, in sequence order.
    pub fn load_events(&self, session: &SessionId) -> (r: Result<Vec<GoalEvent>, GoalStoreError>)
        ensures
            self.event_log().available() ==> r is Ok,
            r matches Ok(events) ==> views::of_seq(events@) == self.event_log().events(session@),
    {
        let all = match self.log.replay(session) {
            Ok(all) => all,
            Err(e) => {
                return Err(e);
            },
        };
        let ghost expected = self.log.events(session@);
        let mut events: Vec<GoalEvent> = Vec::new();
        let mut i: usize = 0;
        while i < all.len()
            invariant
                i <= all@.len(),
                events@.len() == i,
                sequenced_events(all@, expected),
                forall|j: int| 0 <= j < i ==> (#[trigger] events@[j])@ == expected[j],
            decreases all@.len() - i,
        {
            events.push(all[i].1.clone());
            i += 1;
        }
        assert(views::of_seq(events@) =~= expected);
        Ok(events)
    }

    /// The session's tree.
    pub fn load_tree(&self, session: &SessionId) -> (r: Result<GoalTree, GoalStoreError>)
        requires
            sound(self.event_log().events(session@)),
        ensures
            self.event_log().available() ==> r is Ok,
            r matches Ok(tree) ==> tree.wf() && tree@ == tree_of(
                self.event_log().events(session@),
            ),
    {
        match self.load_events(session) {
            Ok(events) => Ok(fold::fold_goal_events(GoalTree::new(), events.as_slice())),
            Err(e) => Err(e),
        }
    }

    /// Appends events at the head the log is at now.
    pub fn append_with_occ(&mut self, session: &SessionId, events: Vec<GoalEvent>) -> (r: Result<
        Vec<SequencedGoalEvent>,
        GoalStoreError,
    >)
        ensures
            final(self).queue() == old(self).queue(),
            final(self).event_log().available() == old(self).event_log().available(),
            forall|s: Seq<char>|
                s != session@ ==> #[trigger] final(self).event_log().events(s) == old(
                    self,
                ).event_log().events(s),
            old(self).event_log().available() ==> r is Ok,
            r is Err ==> final(self).event_log().events(session@) == old(self).event_log().events(
                session@,
            ),
            r matches Ok(assigned) ==> final(self).event_log().events(session@) == old(
                self,
            ).event_log().events(session@) + views::of_seq(events@)
                && crate::goal_model::event_log::sequenced(
                assigned@,
                old(self).event_log().events(session@).len() as int,
                views::of_seq(events@),
            ),
    {
        match self.log.head_sequence(session) {
            Ok(head) => self.log.append(session, events, Some(head)),
            Err(e) => Err(e),
        }
    }
}

spec fn sequenced_events(all: Seq<SequencedGoalEvent>, events: Seq<GoalEventView>) -> bool {
    crate::goal_model::event_log::sequenced(all, 0, events)
}

impl<L: GoalEventLog, Q: InductionQueue> GoalStore for EventLogGoalStore<L, Q> {
    open spec fn events(&self, session: Seq<char>) -> Seq<GoalEventView> {
        self.event_log().events(session)
    }

    open spec fn available(&self) -> bool {
        self.event_log().available()
    }

    open spec fn signalled(before: Self, signal: ClosureSignalView, after: Self) -> bool {
        Q::took(before.queue(), signal, after.queue())
    }

    open spec fn silent(before: Self, after: Self) -> bool {
        after.queue() == before.queue()
    }

    fn create(
        &mut self,
        session: &SessionId,
        parent: Option<GoalNodeId>,
        hypothesis: String,
        intent: IntentSignature,
    ) -> (r: Result<GoalNodeId, GoalStoreError>) {
        if text::blank(hypothesis.as_str()) {
            return Err(GoalStoreError::EmptyHypothesis);
        }
        let tree = match self.load_tree(session) {
            Ok(tree) => tree,
            Err(e) => {
                return Err(e);
            },
        };
        let id = fresh_node_id(&tree);
        let event = match plan_creation(&tree, id.clone(), parent, hypothesis, intent) {
            Ok(event) => event,
            Err(e) => {
                return Err(e);
            },
        };
        let ghost added = event@;
        let mut events: Vec<GoalEvent> = Vec::new();
        events.push(event);
        assert(views::of_seq(events@) =~= seq![added]);
        let ghost before = self.event_log().events(session@);
        assert(before + seq![added] =~= before.push(added));
        match self.append_with_occ(session, events) {
            Ok(_) => Ok(id),
            Err(e) => Err(e),
        }
    }

    fn revise(
        &mut self,
        session: &SessionId,
        id: &GoalNodeId,
        revision: GoalNodeRevision,
    ) -> (r: Result<(), GoalStoreError>) {
        let tree = match self.load_tree(session) {
            Ok(tree) => tree,
            Err(e) => {
                return Err(e);
            },
        };
        let event = match plan_revision(&tree, id, revision) {
            Ok(event) => event,
            Err(e) => {
                return Err(e);
            },
        };
        let ghost added = event@;
        let mut events: Vec<GoalEvent> = Vec::new();
        events.push(event);
        assert(views::of_seq(events@) =~= seq![added]);
        let ghost before = self.event_log().events(session@);
        assert(before + seq![added] =~= before.push(added));
        match self.append_with_occ(session, events) {
            Ok(_) => Ok(()),
            Err(e) => Err(e),
        }
    }

    fn close(
        &mut self,
        session: &SessionId,
        id: &GoalNodeId,
        resolution: Resolution,
    ) -> (r: Result<ClosureOutcome, GoalStoreError>) {
        if resolution.is_open() {
            return Err(GoalStoreError::OpenResolution);
        }
        let tree = match self.load_tree(session) {
            Ok(tree) => tree,
            Err(e) => {
                return Err(e);
            },
        };
        let event = match plan_resolution(&tree, id, resolution) {
            Ok(event) => event,
            Err(e) => {
                return Err(e);
            },
        };
        let ghost start = self.event_log().events(session@);
        let ghost resolved = with_resolution(start, id@, resolution);
        let ghost added = event@;
        let mut events: Vec<GoalEvent> = Vec::new();
        events.push(event);
        proof {
            assert(views::of_seq(events@) =~= seq![added]);
            assert(start + seq![added] =~= resolved);
        }
        match self.append_with_occ(session, events) {
            Ok(_) => {},
            Err(e) => {
                return Err(e);
            },
        }
        let events = match self.load_events(session) {
            Ok(events) => events,
            Err(e) => {
                return Err(e);
            },
        };
        let tree = fold::fold_goal_events(GoalTree::new(), events.as_slice());
        let plan = plan_closure(&tree, &events, session, id);
        match plan.closing {
            Some((closing, signal)) => {
                let ghost closed = closing@;
                let mut events: Vec<GoalEvent> = Vec::new();
                events.push(closing);
                proof {
                    assert(views::of_seq(events@) =~= seq![closed]);
                    assert(resolved + seq![closed] =~= start + seq![added, closed]);
                }
                match self.append_with_occ(session, events) {
                    Ok(_) => {},
                    Err(e) => {
                        return Err(e);
                    },
                }
                self.induction_queue.enqueue(signal);
            },
            None => {},
        }
        Ok(plan.outcome)
    }

    fn get(&self, session: &SessionId, id: &GoalNodeId) -> (r: Result<
        Option<GoalNode>,
        GoalStoreError,
    >) {
        match self.load_tree(session) {
            Ok(tree) => match tree.node(id) {
                Some(node) => Ok(Some(node.clone())),
                None => Ok(None),
            },
            Err(e) => Err(e),
        }
    }

    fn get_tree(&self, session: &SessionId) -> (r: Result<GoalTree, GoalStoreError>) {
        self.load_tree(session)
    }
}

} // verus!
