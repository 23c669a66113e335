//! The projected goal tree: nodes keyed by id, walked in id order.

use vstd::prelude::*;

use crate::goal_model::model::{GoalNode, GoalNodeView};
use crate::text;
use crate::types::GoalNodeId;
use crate::views;

verus! {

/// The projected state of a goal tree.
///
/// Nodes are keyed by id and kept in ascending id order.
#[derive(Debug, PartialEq, Eq)]
pub struct GoalTree {
    entries: Vec<(GoalNodeId, GoalNode)>,
    root: Option<GoalNodeId>,
}

/// The projected state under the name the fold uses for it.
pub type GoalTreeState = GoalTree;

/// A goal tree as a map from node id to node, with its root if it has one.
#[verifier::ext_equal]
pub struct GoalTreeView {
    pub nodes: Map<Seq<char>, GoalNodeView>,
    pub root: Option<Seq<char>>,
}

impl GoalTreeView {
    /// The tree without nodes.
    pub open spec fn empty() -> GoalTreeView {
        GoalTreeView { nodes: Map::empty(), root: None }
    }

    /// The tree after `node` is put under its own id: it becomes the root if it
    /// is the first node without a parent.
    pub open spec fn insert(self, node: GoalNodeView) -> GoalTreeView {
        GoalTreeView {
            nodes: self.nodes.insert(node.id, node),
            root: if node.parent is None && self.root is None {
                Some(node.id)
            } else {
                self.root
            },
        }
    }

    /// The tree with the node under `id` exchanged.
    pub open spec fn update(self, id: Seq<char>, node: GoalNodeView) -> GoalTreeView {
        GoalTreeView { nodes: self.nodes.insert(id, node), root: self.root }
    }

    /// Whether a node with this id is in the tree.
    pub open spec fn has(self, id: Seq<char>) -> bool {
        self.nodes.dom().contains(id)
    }
}

/// The first components of a sequence of pairs, viewed.
pub open spec fn keys_of<K: View<V = Seq<char>>, T>(entries: Seq<(K, T)>) -> Seq<Seq<char>> {
    entries.map_values(|e: (K, T)| e.0@)
}

/// Ids in strictly ascending order.
pub open spec fn ascending(ids: Seq<Seq<char>>) -> bool {
    forall|i: int, j: int| 0 <= i < j < ids.len() ==> text::lex_lt(#[trigger] ids[i], #[trigger] ids[j])
}

impl GoalTree {
    spec fn has_key(self, k: Seq<char>) -> bool {
        keys_of(self.entries@).contains(k)
    }

    spec fn key_index(self, k: Seq<char>) -> int {
        keys_of(self.entries@).index_of(k)
    }

    /// The entries are in strictly ascending id order.
    pub closed spec fn wf(self) -> bool {
        ascending(keys_of(self.entries@))
    }

    proof fn lemma_distinct(self, i: int, j: int)
        requires
            self.wf(),
            0 <= i < self.entries@.len(),
            0 <= j < self.entries@.len(),
            self.entries@[i].0@ == self.entries@[j].0@,
        ensures
            i == j,
    {
        let ids = keys_of(self.entries@);
        assert(ids[i] == ids[j]);
        if i < j {
            assert(text::lex_lt(ids[i], ids[j]));
        } else if j < i {
            assert(text::lex_lt(ids[j], ids[i]));
        }
    }

    proof fn lemma_entry(self, i: int)
        requires
            self.wf(),
            0 <= i < self.entries@.len(),
        ensures
            self@.nodes.dom().contains(self.entries@[i].0@),
            self@.nodes[self.entries@[i].0@] == self.entries@[i].1@,
    {
        let k = self.entries@[i].0@;
        assert(keys_of(self.entries@)[i] == k);
        let j = self.key_index(k);
        self.lemma_distinct(i, j);
    }
}

impl View for GoalTree {
    type V = GoalTreeView;

    closed spec fn view(&self) -> GoalTreeView {
        GoalTreeView {
            nodes: Map::new(
                |k: Seq<char>| self.has_key(k),
                |k: Seq<char>| self.entries@[self.key_index(k)].1@,
            ),
            root: views::of_option(self.root),
        }
    }
}

impl Default for GoalTree {
    fn default() -> (r: Self)
        ensures
            r.wf(),
            r@ == GoalTreeView::empty(),
    {
        GoalTree::new()
    }
}

impl Clone for GoalTree {
    fn clone(&self) -> (r: Self)
        ensures
            self.wf() ==> r.wf(),
            r@ == self@,
    {
        let mut entries: Vec<(GoalNodeId, GoalNode)> = Vec::new();
        let mut i: usize = 0;
        while i < self.entries.len()
            invariant
                i <= self.entries@.len(),
                entries@.len() == i,
                forall|j: int|
                    0 <= j < i ==> (#[trigger] entries@[j]).0@ == self.entries@[j].0@
                        && entries@[j].1@ == self.entries@[j].1@,
            decreases self.entries@.len() - i,
        {
            let e = &self.entries[i];
            entries.push((e.0.clone(), e.1.clone()));
            i += 1;
        }
        let r = GoalTree { entries, root: self.root.clone() };
        proof {
            assert(keys_of(r.entries@) =~= keys_of(self.entries@));
            assert forall|k: Seq<char>| r.has_key(k) == self.has_key(k) by {
                if r.has_key(k) {
                    let j = r.key_index(k);
                    assert(keys_of(self.entries@)[j] == k);
                }
                if self.has_key(k) {
                    let j = self.key_index(k);
                    assert(keys_of(r.entries@)[j] == k);
                }
            }
            assert forall|k: Seq<char>| #[trigger] r.has_key(k) implies r@.nodes[k]
                == self@.nodes[k] by {
                let j = self.key_index(k);
                assert(keys_of(self.entries@)[j] == k);
            }
            assert(r@ =~= self@);
        }
        r
    }
}

impl GoalTree {
    /// Creates a tree without nodes and without a root.
    pub fn new() -> (r: Self)
        ensures
            r.wf(),
            r@ == GoalTreeView::empty(),
    {
        let r = GoalTree { entries: Vec::new(), root: None };
        assert(r@ =~= GoalTreeView::empty());
        r
    }

    fn position(&self, id: &GoalNodeId) -> (r: Option<usize>)
        requires
            self.wf(),
        ensures
            match r {
                Some(i) => i < self.entries@.len() && self.entries@[i as int].0@ == id@ && self@.has(
                    id@,
                ) && self@.nodes[id@] == self.entries@[i as int].1@,
                None => !self@.has(id@),
            },
    {
        let mut i: usize = 0;
        while i < self.entries.len()
            invariant
                self.wf(),
                i <= self.entries@.len(),
                forall|j: int| 0 <= j < i ==> (#[trigger] self.entries@[j]).0@ != id@,
            decreases self.entries@.len() - i,
        {
            if self.entries[i].0.0 == id.0 {
                proof {
                    self.lemma_entry(i as int);
                }
                return Some(i);
            }
            i += 1;
        }
        None
    }

    /// Looks a node up by id.
    pub fn node(&self, id: &GoalNodeId) -> (r: Option<&GoalNode>)
        requires
            self.wf(),
        ensures
            match r {
                Some(n) => self@.has(id@) && n@ == self@.nodes[id@],
                None => !self@.has(id@),
            },
    {
        match self.position(id) {
            Some(i) => Some(&self.entries[i].1),
            None => None,
        }
    }

    /// Looks a node up by id for change in place.
    pub fn node_mut(&mut self, id: &GoalNodeId) -> (r: Option<&mut GoalNode>)
        requires
            old(self).wf(),
        ensures
            final(self).wf(),
            match r {
                Some(n) => old(self)@.has(id@) && n@ == old(self)@.nodes[id@] && final(self)@
                    =~= old(self)@.update(id@, final(n)@),
                None => !old(self)@.has(id@) && final(self)@ =~= old(self)@,
            },
    {
        match self.position(id) {
            Some(i) => {
                proof {
                    assert forall|t: GoalTree|
                        #![trigger t.wf()]
                        #![trigger t@]
                        t.root == self.root && t.entries@.len() == self.entries@.len() && (forall|
                            j: int,
                        |
                            0 <= j < t.entries@.len() ==> (#[trigger] t.entries@[j]).0
                                == self.entries@[j].0 && (j != i ==> t.entries@[j]
                                == self.entries@[j])) implies t.wf() && t@
                        == self@.update(id@, t.entries@[i as int].1@) by {
                        lemma_exchanged(*self, t, i as int);
                    }
                }
                Some(&mut self.entries[i].1)
            },
            None => None,
        }
    }

    /// The root node id, if any.
    pub fn root(&self) -> (r: Option<&GoalNodeId>)
        ensures
            match r {
                Some(id) => self@.root == Some(id@),
                None => self@.root is None,
            },
    {
        self.root.as_ref()
    }

    proof fn lemma_keys_set(self)
        requires
            self.wf(),
        ensures
            keys_of(self.entries@).no_duplicates(),
            self@.nodes.dom() == keys_of(self.entries@).to_set(),
            self@.nodes.dom().finite(),
            self@.nodes.dom().len() == self.entries@.len(),
    {
        let ids = keys_of(self.entries@);
        assert forall|i: int, j: int| 0 <= i < ids.len() && 0 <= j < ids.len() && i != j implies ids[i]
            != ids[j] by {
            if ids[i] == ids[j] {
                self.lemma_distinct(i, j);
            }
        }
        ids.unique_seq_to_set();
        assert forall|k: Seq<char>| self@.nodes.dom().contains(k) == ids.to_set().contains(k) by {
            if self.has_key(k) {
                let i = self.key_index(k);
                assert(ids[i] == k);
            }
            if ids.contains(k) {
                let i = choose|i: int| 0 <= i < ids.len() && ids[i] == k;
                assert(keys_of(self.entries@)[i] == k);
            }
        }
        assert(self@.nodes.dom() =~= ids.to_set());
        vstd::seq_lib::seq_to_set_is_finite(ids);
    }

    /// Whether the tree has no nodes.
    pub fn is_empty(&self) -> (r: bool)
        requires
            self.wf(),
        ensures
            r == (self@.nodes =~= Map::<Seq<char>, GoalNodeView>::empty()),
    {
        proof {
            self.lemma_keys_set();
            if self.entries@.len() > 0 {
                self.lemma_entry(0);
            } else {
                assert(self@.nodes =~= Map::<Seq<char>, GoalNodeView>::empty());
            }
        }
        self.entries.is_empty()
    }

    /// The number of nodes.
    pub fn len(&self) -> (r: usize)
        requires
            self.wf(),
        ensures
            self@.nodes.dom().finite(),
            r == self@.nodes.dom().len(),
    {
        proof {
            self.lemma_keys_set();
        }
        self.entries.len()
    }

    /// Whether a node with this id is in the tree.
    pub fn contains(&self, id: &GoalNodeId) -> (r: bool)
        requires
            self.wf(),
        ensures
            r == self@.has(id@),
    {
        self.position(id).is_some()
    }

    /// All ids with their nodes, in ascending id order.
    pub fn iter(&self) -> (r: Vec<(&GoalNodeId, &GoalNode)>)
        requires
            self.wf(),
        ensures
            ascending(keys_of(r@)),
            keys_of(r@).to_set() == self@.nodes.dom(),
            forall|i: int|
                0 <= i < r@.len() ==> self@.nodes[(#[trigger] r@[i]).0@] == r@[i].1@,
    {
        let mut r: Vec<(&GoalNodeId, &GoalNode)> = Vec::new();
        let mut i: usize = 0;
        while i < self.entries.len()
            invariant
                self.wf(),
                i <= self.entries@.len(),
                r@.len() == i,
                forall|j: int|
                    0 <= j < i ==> (#[trigger] r@[j]).0@ == self.entries@[j].0@ && self@.nodes[r@[j].0@]
                        == r@[j].1@,
            decreases self.entries@.len() - i,
        {
            proof {
                self.lemma_entry(i as int);
            }
            r.push((&self.entries[i].0, &self.entries[i].1));
            i += 1;
        }
        proof {
            assert(keys_of(r@) =~= keys_of(self.entries@));
            self.lemma_keys_set();
        }
        r
    }

    /// The root ids: the root when it is set, otherwise every node without a
    /// parent, in ascending id order.
    pub fn roots(&self) -> (r: Vec<&GoalNodeId>)
        requires
            self.wf(),
        ensures
            self@.root is Some ==> views::of_seq(r@) == seq![self@.root->0],
            self@.root is None ==> ascending(views::of_seq(r@)),
            self@.root is None ==> forall|id: Seq<char>|
                #[trigger] views::of_seq(r@).contains(id) <==> self@.has(id)
                    && self@.nodes[id].parent is None,
    {
        let mut r: Vec<&GoalNodeId> = Vec::new();
        match self.root.as_ref() {
            Some(id) => {
                r.push(id);
                assert(views::of_seq(r@) =~= seq![id@]);
                return r;
            },
            None => {},
        }
        let mut i: usize = 0;
        assert(views::of_seq(r@) =~= parentless(self.entries@.take(0)));
        while i < self.entries.len()
            invariant
                i <= self.entries@.len(),
                views::of_seq(r@) == parentless(self.entries@.take(i as int)),
            decreases self.entries@.len() - i,
        {
            let ghost before = r@;
            assert(self.entries@.take(i + 1).drop_last() =~= self.entries@.take(i as int));
            if self.entries[i].1.parent.is_none() {
                r.push(&self.entries[i].0);
                assert(views::of_seq(r@) =~= views::of_seq(before).push(self.entries@[i as int].0@));
            }
            i += 1;
        }
        proof {
            assert(self.entries@.take(i as int) =~= self.entries@);
            lemma_parentless_ascending(self.entries@);
            assert forall|id: Seq<char>| #[trigger] views::of_seq(r@).contains(id) <==> self@.has(id)
                && self@.nodes[id].parent is None by {
                lemma_parentless_contains(self.entries@, id);
                if views::of_seq(r@).contains(id) {
                    let m = choose|m: int|
                        0 <= m < self.entries@.len() && (#[trigger] self.entries@[m]).0@ == id
                            && self.entries@[m].1@.parent is None;
                    self.lemma_entry(m);
                }
                if self@.has(id) && self@.nodes[id].parent is None {
                    let m = self.key_index(id);
                    assert(self.entries@[m].0@ == id);
                }
            }
        }
        r
    }

    /// The children of a node in insertion order; none when the node is absent.
    pub fn children(&self, id: &GoalNodeId) -> (r: &[GoalNodeId])
        requires
            self.wf(),
        ensures
            views::of_seq(r@) == (if self@.has(id@) {
                self@.nodes[id@].children
            } else {
                Seq::empty()
            }),
    {
        match self.position(id) {
            Some(i) => self.entries[i].1.children.as_slice(),
            None => {
                let none: &[GoalNodeId] = &[];
                assert(views::of_seq(none@) =~= Seq::<Seq<char>>::empty());
                none
            },
        }
    }

    /// Puts a node under its own id and returns the node it replaced. The first
    /// node without a parent becomes the root.
    pub fn insert(&mut self, node: GoalNode) -> (r: Option<GoalNode>)
        requires
            old(self).wf(),
        ensures
            final(self).wf(),
            final(self)@ == old(self)@.insert(node@),
            match r {
                Some(n) => old(self)@.has(node@.id) && n@ == old(self)@.nodes[node@.id],
                None => !old(self)@.has(node@.id),
            },
    {
        let ghost before = *self;
        if node.parent.is_none() && self.root.is_none() {
            self.root = Some(node.id.clone());
        }
        let ghost with_root = *self;
        proof {
            assert(with_root@.nodes =~= before@.nodes);
            assert(with_root.wf());
        }
        match self.position(&node.id) {
            Some(i) => {
                let ghost node_view = node@;
                let mut slot = node;
                std::mem::swap(&mut self.entries[i].1, &mut slot);
                proof {
                    lemma_exchanged(with_root, *self, i as int);
                    assert(self@ =~= before@.insert(node_view));
                }
                Some(slot)
            },
            None => {
                let mut at: usize = 0;
                while at < self.entries.len() && text::at_or_before(
                    self.entries[at].0.0.as_str(),
                    node.id.0.as_str(),
                )
                    invariant
                        at <= self.entries@.len(),
                        forall|j: int|
                            0 <= j < at ==> text::lex_le((#[trigger] self.entries@[j]).0@, node.id@),
                    decreases self.entries@.len() - at,
                {
                    at += 1;
                }
                let ghost node_view = node@;
                let key = node.id.clone();
                self.entries.insert(at, (key, node));
                proof {
                    lemma_inserted(with_root, *self, at as int, node_view);
                    assert(self@ =~= before@.insert(node_view));
                }
                None
            },
        }
    }
}

/// The keys of the entries whose node has no parent, in order.
spec fn parentless(entries: Seq<(GoalNodeId, GoalNode)>) -> Seq<Seq<char>>
    decreases entries.len(),
{
    if entries.len() == 0 {
        Seq::empty()
    } else {
        let rest = parentless(entries.drop_last());
        if entries.last().1@.parent is None {
            rest.push(entries.last().0@)
        } else {
            rest
        }
    }
}

proof fn lemma_parentless_contains(entries: Seq<(GoalNodeId, GoalNode)>, id: Seq<char>)
    ensures
        parentless(entries).contains(id) <==> exists|m: int|
            0 <= m < entries.len() && (#[trigger] entries[m]).0@ == id && entries[m].1@.parent
                is None,
    decreases entries.len(),
{
    if entries.len() > 0 {
        let init = entries.drop_last();
        lemma_parentless_contains(init, id);
        let rest = parentless(init);
        let all = parentless(entries);
        if all.contains(id) {
            let j = choose|j: int| 0 <= j < all.len() && all[j] == id;
            if j < rest.len() {
                assert(rest[j] == id);
                let m = choose|m: int|
                    0 <= m < init.len() && (#[trigger] init[m]).0@ == id && init[m].1@.parent
                        is None;
                assert(entries[m] == init[m]);
            } else {
                assert(entries[entries.len() - 1].0@ == id);
            }
        }
        if exists|m: int|
            0 <= m < entries.len() && (#[trigger] entries[m]).0@ == id && entries[m].1@.parent
                is None {
            let m = choose|m: int|
                0 <= m < entries.len() && (#[trigger] entries[m]).0@ == id
                    && entries[m].1@.parent is None;
            if m < init.len() {
                assert(init[m] == entries[m]);
                let j = choose|j: int| 0 <= j < rest.len() && rest[j] == id;
                assert(all[j] == id);
            } else {
                assert(all[all.len() - 1] == id);
            }
        }
    }
}

proof fn lemma_parentless_ascending(entries: Seq<(GoalNodeId, GoalNode)>)
    requires
        ascending(keys_of(entries)),
    ensures
        ascending(parentless(entries)),
    decreases entries.len(),
{
    if entries.len() > 0 {
        let init = entries.drop_last();
        let keys = keys_of(entries);
        assert forall|i: int, j: int| 0 <= i < j < keys_of(init).len() implies text::lex_lt(
            #[trigger] keys_of(init)[i],
            #[trigger] keys_of(init)[j],
        ) by {
            assert(keys_of(init)[i] == keys[i]);
            assert(keys_of(init)[j] == keys[j]);
        }
        lemma_parentless_ascending(init);
        let rest = parentless(init);
        let all = parentless(entries);
        assert forall|i: int, j: int| 0 <= i < j < all.len() implies text::lex_lt(
            #[trigger] all[i],
            #[trigger] all[j],
        ) by {
            assert(all[i] == rest[i]);
            if j < rest.len() {
                assert(all[j] == rest[j]);
            } else {
                lemma_parentless_contains(init, rest[i]);
                assert(rest.contains(rest[i]));
                let m = choose|m: int|
                    0 <= m < init.len() && (#[trigger] init[m]).0@ == rest[i]
                        && init[m].1@.parent is None;
                assert(keys[m] == rest[i]);
                assert(keys[keys.len() - 1] == all[j]);
            }
        }
    }
}

proof fn lemma_exchanged(a: GoalTree, b: GoalTree, i: int)
    requires
        a.wf(),
        b.root == a.root,
        b.entries@.len() == a.entries@.len(),
        0 <= i < a.entries@.len(),
        forall|j: int|
            0 <= j < b.entries@.len() ==> (#[trigger] b.entries@[j]).0 == a.entries@[j].0 && (j != i
                ==> b.entries@[j] == a.entries@[j]),
    ensures
        b.wf(),
        b@ == a@.update(a.entries@[i].0@, b.entries@[i].1@),
{
    assert(keys_of(b.entries@) =~= keys_of(a.entries@));
    let k0 = a.entries@[i].0@;
    assert forall|k: Seq<char>| b.has_key(k) == a.has_key(k) by {
        if b.has_key(k) {
            let j = b.key_index(k);
            assert(keys_of(a.entries@)[j] == k);
        }
        if a.has_key(k) {
            let j = a.key_index(k);
            assert(keys_of(b.entries@)[j] == k);
        }
    }
    assert(a.has_key(k0)) by {
        assert(keys_of(a.entries@)[i] == k0);
    }
    assert forall|k: Seq<char>| #[trigger] b.has_key(k) implies b@.nodes[k] == (if k == k0 {
        b.entries@[i].1@
    } else {
        a@.nodes[k]
    }) by {
        let jb = b.key_index(k);
        let ja = a.key_index(k);
        assert(keys_of(a.entries@)[jb] == k);
        a.lemma_distinct(ja, jb);
        if k == k0 {
            a.lemma_distinct(i, jb);
        }
    }
    assert(b@ =~= a@.update(k0, b.entries@[i].1@));
}

proof fn lemma_inserted(a: GoalTree, b: GoalTree, at: int, node: GoalNodeView)
    requires
        a.wf(),
        b.root == a.root,
        0 <= at <= a.entries@.len(),
        b.entries@.len() == a.entries@.len() + 1,
        forall|j: int| 0 <= j < at ==> b.entries@[j] == a.entries@[j],
        forall|j: int| at < j < b.entries@.len() ==> b.entries@[j] == a.entries@[j - 1],
        b.entries@[at].0@ == node.id,
        b.entries@[at].1@ == node,
        !a@.has(node.id),
        forall|j: int|
            0 <= j < at ==> text::lex_le((#[trigger] a.entries@[j]).0@, node.id),
        at < a.entries@.len() ==> !text::lex_le(a.entries@[at].0@, node.id),
    ensures
        b.wf(),
        b@ == a@.update(node.id, node),
{
    text::lemma_lex_order();
    let ka = keys_of(a.entries@);
    let kb = keys_of(b.entries@);
    assert forall|j: int| 0 <= j < a.entries@.len() implies ka[j] != node.id by {
        assert(a.entries@[j].0@ == ka[j]);
        if ka[j] == node.id {
            assert(a.has_key(node.id));
        }
    }
    assert forall|j: int| at <= j < a.entries@.len() implies text::lex_lt(node.id, ka[j]) by {
        assert(text::lex_le(node.id, ka[at]));
        if j > at {
            assert(text::lex_lt(ka[at], ka[j]));
        }
    }
    assert forall|i: int, j: int| 0 <= i < j < kb.len() implies text::lex_lt(
        #[trigger] kb[i],
        #[trigger] kb[j],
    ) by {
        if i < at {
            assert(kb[i] == ka[i]);
            if j < at {
                assert(kb[j] == ka[j]);
            } else if j == at {
                assert(text::lex_le(a.entries@[i].0@, node.id));
            } else {
                assert(kb[j] == ka[j - 1]);
            }
        } else if i == at {
            assert(kb[j] == ka[j - 1]);
        } else {
            assert(kb[i] == ka[i - 1]);
            assert(kb[j] == ka[j - 1]);
        }
    }
    assert(b.wf());
    assert forall|k: Seq<char>| b.has_key(k) == (a.has_key(k) || k == node.id) by {
        if b.has_key(k) {
            let j = b.key_index(k);
            if j < at {
                assert(keys_of(a.entries@)[j] == k);
            } else if j > at {
                assert(keys_of(a.entries@)[j - 1] == k);
            }
        }
        if a.has_key(k) {
            let j = a.key_index(k);
            if j < at {
                assert(keys_of(b.entries@)[j] == k);
            } else {
                assert(keys_of(b.entries@)[j + 1] == k);
            }
        }
        if k == node.id {
            assert(keys_of(b.entries@)[at] == k);
        }
    }
    assert forall|k: Seq<char>| #[trigger] b.has_key(k) implies b@.nodes[k] == (if k == node.id {
        node
    } else {
        a@.nodes[k]
    }) by {
        let jb = b.key_index(k);
        if k == node.id {
            b.lemma_distinct(jb, at);
        } else {
            let ja = a.key_index(k);
            if ja < at {
                assert(keys_of(b.entries@)[ja] == k);
                b.lemma_distinct(jb, ja);
            } else {
                assert(keys_of(b.entries@)[ja + 1] == k);
                b.lemma_distinct(jb, ja + 1);
            }
        }
    }
    assert(b@ =~= a@.update(node.id, node));
}

} // verus!
