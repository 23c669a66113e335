//! The goal tree: nodes, revisions, events and the projected tree.

use vstd::prelude::*;

use crate::types::{GoalNodeId, GoalToolCall, IntentSignature, IntentView, SubtreeHash, ToolCallView};
use crate::views;

verus! {

/// The resolution state of a goal node.
#[derive(Debug, Clone, Copy, PartialEq, Eq, PartialOrd, Ord, Hash, Structural)]
pub enum Resolution {
    /// Still being worked.
    Open,
    /// Confirmed by its resolution conditions.
    Accepted,
    /// Disconfirmed: a determinate dead end.
    Rejected,
    /// Evaluated without a verdict either way.
    Inconclusive,
}

impl Default for Resolution {
    fn default() -> (r: Self)
        ensures
            r == Resolution::Open,
    {
        Resolution::Open
    }
}

impl Resolution {
    /// Whether a node with this resolution is still open.
    pub fn is_open(self) -> (r: bool)
        ensures
            r == (self == Resolution::Open),
    {
        match self {
            Resolution::Open => true,
            _ => false,
        }
    }
}

/// A hypothesis-shaped unit of goal work.
#[derive(Debug, PartialEq, Eq)]
pub struct GoalNode {
    /// The node's identifier.
    pub id: GoalNodeId,
    /// The parent node, or `None` for a top-level goal.
    pub parent: Option<GoalNodeId>,
    /// Child ids in insertion order.
    pub children: Vec<GoalNodeId>,
    /// The hypothesis the node tests.
    pub hypothesis: String,
    /// The conditions under which the hypothesis counts as resolved.
    pub resolution_conditions: Vec<String>,
    /// The current resolution.
    pub resolution: Resolution,
    /// The retrieval and merge key.
    pub intent: IntentSignature,
    /// The tool-call contracts recorded by revision.
    pub tool_calls: Vec<GoalToolCall>,
    /// The content hash of the closed subtree, absent while it is not closed.
    pub subtree_hash: Option<SubtreeHash>,
}

/// The content of a goal node.
#[verifier::ext_equal]
pub struct GoalNodeView {
    pub id: Seq<char>,
    pub parent: Option<Seq<char>>,
    pub children: Seq<Seq<char>>,
    pub hypothesis: Seq<char>,
    pub resolution_conditions: Seq<Seq<char>>,
    pub resolution: Resolution,
    pub intent: IntentView,
    pub tool_calls: Seq<ToolCallView>,
    pub subtree_hash: Option<Seq<char>>,
}

impl GoalNodeView {
    /// Whether the node itself is still open.
    pub open spec fn is_open(self) -> bool {
        self.resolution == Resolution::Open
    }

    /// The node with another stored hash.
    pub open spec fn with_hash(self, hash: Option<Seq<char>>) -> GoalNodeView {
        GoalNodeView { subtree_hash: hash, ..self }
    }
}

impl View for GoalNode {
    type V = GoalNodeView;

    open spec fn view(&self) -> GoalNodeView {
        GoalNodeView {
            id: self.id@,
            parent: views::of_option(self.parent),
            children: views::of_seq(self.children@),
            hypothesis: self.hypothesis@,
            resolution_conditions: views::of_seq(self.resolution_conditions@),
            resolution: self.resolution,
            intent: self.intent@,
            tool_calls: views::of_seq(self.tool_calls@),
            subtree_hash: views::of_option(self.subtree_hash),
        }
    }
}

impl Clone for GoalNode {
    fn clone(&self) -> (r: Self)
        ensures
            r@ == self@,
    {
        let r = GoalNode {
            id: self.id.clone(),
            parent: self.parent.clone(),
            children: self.children.clone(),
            hypothesis: self.hypothesis.clone(),
            resolution_conditions: self.resolution_conditions.clone(),
            resolution: self.resolution,
            intent: self.intent.clone(),
            tool_calls: self.tool_calls.clone(),
            subtree_hash: self.subtree_hash.clone(),
        };
        assert(r@ =~= self@);
        r
    }
}

impl GoalNode {
    /// Whether the node itself is still open, whatever its descendants are.
    pub fn is_open(&self) -> (r: bool)
        ensures
            r == self@.is_open(),
    {
        self.resolution.is_open()
    }
}

/// A revision: each present field replaces the node's.
#[derive(Debug, PartialEq, Eq)]
pub struct GoalNodeRevision {
    /// Replaces `resolution_conditions` when present.
    pub resolution_conditions: Option<Vec<String>>,
    /// Replaces `tool_calls` when present.
    pub tool_calls: Option<Vec<GoalToolCall>>,
    /// Replaces `children` when present.
    pub children: Option<Vec<GoalNodeId>>,
}

/// The content of a revision.
#[verifier::ext_equal]
pub struct RevisionView {
    pub resolution_conditions: Option<Seq<Seq<char>>>,
    pub tool_calls: Option<Seq<ToolCallView>>,
    pub children: Option<Seq<Seq<char>>>,
}

/// The view of an optional vector, element by element.
pub open spec fn option_seq_view<T: View>(o: Option<Vec<T>>) -> Option<Seq<T::V>> {
    match o {
        Some(v) => Some(views::of_seq(v@)),
        None => None,
    }
}

impl View for GoalNodeRevision {
    type V = RevisionView;

    open spec fn view(&self) -> RevisionView {
        RevisionView {
            resolution_conditions: option_seq_view(self.resolution_conditions),
            tool_calls: option_seq_view(self.tool_calls),
            children: option_seq_view(self.children),
        }
    }
}

impl Clone for GoalNodeRevision {
    fn clone(&self) -> (r: Self)
        ensures
            r@ == self@,
    {
        let resolution_conditions = match &self.resolution_conditions {
            Some(v) => Some(v.clone()),
            None => None,
        };
        let tool_calls = match &self.tool_calls {
            Some(v) => Some(v.clone()),
            None => None,
        };
        let children = match &self.children {
            Some(v) => Some(v.clone()),
            None => None,
        };
        let r = GoalNodeRevision { resolution_conditions, tool_calls, children };
        assert(r@.resolution_conditions =~= self@.resolution_conditions) by {
            if self.resolution_conditions is Some {
                assert(r@.resolution_conditions->0 =~= self@.resolution_conditions->0);
            }
        }
        assert(r@.tool_calls =~= self@.tool_calls) by {
            if self.tool_calls is Some {
                assert(r@.tool_calls->0 =~= self@.tool_calls->0);
            }
        }
        assert(r@.children =~= self@.children) by {
            if self.children is Some {
                assert(r@.children->0 =~= self@.children->0);
            }
        }
        r
    }
}

impl Default for GoalNodeRevision {
    fn default() -> (r: Self)
        ensures
            r@.is_empty(),
    {
        GoalNodeRevision { resolution_conditions: None, tool_calls: None, children: None }
    }
}

impl RevisionView {
    /// Whether the revision changes nothing.
    pub open spec fn is_empty(self) -> bool {
        self.resolution_conditions is None && self.tool_calls is None && self.children is None
    }
}

impl GoalNodeRevision {
    /// Whether the revision changes nothing.
    pub fn is_empty(&self) -> (r: bool)
        ensures
            r == self@.is_empty(),
    {
        self.resolution_conditions.is_none() && self.tool_calls.is_none()
            && self.children.is_none()
    }
}

/// An append-only mutation of the goal tree.
#[derive(Debug, PartialEq, Eq)]
pub enum GoalEvent {
    /// A node was created, open, under an optional parent.
    GoalNodeCreated {
        /// The new node's id.
        id: GoalNodeId,
        /// Its parent, or `None` for a top-level goal.
        parent: Option<GoalNodeId>,
        /// The hypothesis it tests.
        hypothesis: String,
        /// Its intent signature.
        intent: IntentSignature,
    },
    /// A node was revised.
    GoalNodeRevised {
        /// The node.
        id: GoalNodeId,
        /// What changed.
        revision: GoalNodeRevision,
    },
    /// A node's resolution changed.
    GoalNodeResolved {
        /// The node.
        id: GoalNodeId,
        /// Its new resolution.
        resolution: Resolution,
    },
    /// A node's subtree became fully closed under this hash.
    GoalClosed {
        /// The node.
        id: GoalNodeId,
        /// The hash of its subtree at closure.
        subtree_hash: SubtreeHash,
    },
}

/// The content of an event.
#[verifier::ext_equal]
pub enum GoalEventView {
    Created {
        id: Seq<char>,
        parent: Option<Seq<char>>,
        hypothesis: Seq<char>,
        intent: IntentView,
    },
    Revised { id: Seq<char>, revision: RevisionView },
    Resolved { id: Seq<char>, resolution: Resolution },
    Closed { id: Seq<char>, subtree_hash: Seq<char> },
}

impl View for GoalEvent {
    type V = GoalEventView;

    open spec fn view(&self) -> GoalEventView {
        match *self {
            GoalEvent::GoalNodeCreated { id, parent, hypothesis, intent } => {
                GoalEventView::Created {
                    id: id@,
                    parent: views::of_option(parent),
                    hypothesis: hypothesis@,
                    intent: intent@,
                }
            },
            GoalEvent::GoalNodeRevised { id, revision } => GoalEventView::Revised {
                id: id@,
                revision: revision@,
            },
            GoalEvent::GoalNodeResolved { id, resolution } => GoalEventView::Resolved {
                id: id@,
                resolution,
            },
            GoalEvent::GoalClosed { id, subtree_hash } => GoalEventView::Closed {
                id: id@,
                subtree_hash: subtree_hash@,
            },
        }
    }
}

impl Clone for GoalEvent {
    fn clone(&self) -> (r: Self)
        ensures
            r@ == self@,
    {
        match self {
            GoalEvent::GoalNodeCreated { id, parent, hypothesis, intent } => {
                GoalEvent::GoalNodeCreated {
                    id: id.clone(),
                    parent: parent.clone(),
                    hypothesis: hypothesis.clone(),
                    intent: intent.clone(),
                }
            },
            GoalEvent::GoalNodeRevised { id, revision } => GoalEvent::GoalNodeRevised {
                id: id.clone(),
                revision: revision.clone(),
            },
            GoalEvent::GoalNodeResolved { id, resolution } => GoalEvent::GoalNodeResolved {
                id: id.clone(),
                resolution: *resolution,
            },
            GoalEvent::GoalClosed { id, subtree_hash } => GoalEvent::GoalClosed {
                id: id.clone(),
                subtree_hash: subtree_hash.clone(),
            },
        }
    }
}

} // verus!
