//! Finding memories for a goal: by structure first, by vector only where
//! structure finds too few.

use vstd::prelude::*;

use crate::tier2::memory::{Embedding, Memory, MemoryRecordView, MemoryView};
use crate::tier2::ranking;
use crate::tier2::store;
use crate::tier2::store::MemoryStore;
use crate::tier2::store_laws;
use crate::types::{IntentSignature, IntentView};
use crate::views;

verus! {

/// From this many structural finds on, vectors are not consulted.
pub const HEAD_MIN: usize = 3;

/// The most memories recalled by vector.
pub const TAIL_LIMIT: usize = 10;

/// A memory with the score that it is ranked by.
#[derive(Debug, PartialEq, Eq)]
pub struct ScoredMemory {
    /// The memory.
    pub memory: Memory,
    /// How many fields of its intent match, of four; more ranks earlier.
    pub score: u32,
}

/// The content of a scored memory.
#[verifier::ext_equal]
pub struct ScoredView {
    pub memory: MemoryView,
    pub score: u32,
}

impl View for ScoredMemory {
    type V = ScoredView;

    open spec fn view(&self) -> ScoredView {
        ScoredView { memory: self.memory@, score: self.score }
    }
}

impl Clone for ScoredMemory {
    fn clone(&self) -> (r: Self)
        ensures
            r@ == self@,
    {
        ScoredMemory { memory: self.memory.clone(), score: self.score }
    }
}

/// Makes vectors for intents.
///
/// An implementation says when it can be used, and which vectors it can give.
/// One that says nothing can always be used and may give any.
pub trait EmbeddingSource: Sized {
    /// Whether the source can be used.
    open spec fn ready(&self) -> bool {
        true
    }

    /// Whether the source can answer like this, and be changed like this.
    open spec fn may_embed(
        before: Self,
        sig: IntentView,
        result: Option<Seq<u32>>,
        after: Self,
    ) -> bool {
        true
    }

    /// The vector for an intent, or nothing if the backend is unavailable.
    fn embed(&mut self, sig: &IntentSignature) -> (r: Option<Embedding>)
        requires
            old(self).ready(),
        ensures
            final(self).ready(),
            Self::may_embed(*old(self), sig@, views::of_option(r), *final(self)),
    ;
}

/// Finds memories for a goal.
///
/// An implementation says what it can find. One that says nothing may find
/// anything.
pub trait Retrieval: Sized {
    /// Whether these memories can be found.
    open spec fn may_retrieve(&self, sig: IntentView, found: Seq<ScoredView>) -> bool {
        true
    }

    /// The memories that apply to a signature, the best first.
    fn retrieve_memories(&self, sig: &IntentSignature) -> (r: Vec<ScoredMemory>)
        ensures
            self.may_retrieve(sig@, views::of_seq(r@)),
    ;
}

/// One if the texts agree, else nothing.
pub open spec fn agreement(a: Seq<char>, b: Seq<char>) -> int {
    if a == b {
        1
    } else {
        0
    }
}

/// How many of the four fields of the memory's intent agree with the signature.
pub open spec fn score(mem: MemoryView, sig: IntentView) -> int {
    agreement(mem.intent.intent_type, sig.intent_type) + agreement(
        mem.intent.target_type,
        sig.target_type,
    ) + agreement(mem.intent.target_ref, sig.target_ref) + agreement(mem.intent.scope, sig.scope)
}

fn matching_field_count(mem: &Memory, sig: &IntentSignature) -> (r: u32)
    ensures
        r == score(mem@, sig@),
        r <= 4,
{
    let mut n: u32 = 0;
    if mem.intent.intent_type.0 == sig.intent_type.0 {
        n += 1;
    }
    if mem.intent.target_type.0 == sig.target_type.0 {
        n += 1;
    }
    if mem.intent.target_ref.0 == sig.target_ref.0 {
        n += 1;
    }
    if mem.intent.scope.0 == sig.scope.0 {
        n += 1;
    }
    n
}

/// How well a memory matches a signature, of four.
pub fn cheap_score(mem: &Memory, sig: &IntentSignature) -> (r: u32)
    ensures
        r == score(mem@, sig@),
        r <= 4,
{
    matching_field_count(mem, sig)
}

/// The identifiers of memories, in order.
pub open spec fn memory_ids(memories: Seq<MemoryView>) -> Seq<Seq<char>> {
    memories.map_values(|m: MemoryView| m.id)
}

/// The memories without those whose identifier came before.
pub open spec fn distinct(memories: Seq<MemoryView>) -> Seq<MemoryView>
    decreases memories.len(),
{
    if memories.len() == 0 {
        Seq::empty()
    } else {
        let rest = distinct(memories.drop_last());
        if memory_ids(rest).contains(memories.last().id) {
            rest
        } else {
            rest.push(memories.last())
        }
    }
}

fn knows(memories: &Vec<Memory>, mem: &Memory) -> (r: bool)
    ensures
        r == memory_ids(views::of_seq(memories@)).contains(mem@.id),
{
    let ghost known = memory_ids(views::of_seq(memories@));
    let mut i: usize = 0;
    while i < memories.len()
        invariant
            i <= memories@.len(),
            known == memory_ids(views::of_seq(memories@)),
            forall|j: int| 0 <= j < i ==> #[trigger] known[j] != mem@.id,
        decreases memories@.len() - i,
    {
        if memories[i].id.0 == mem.id.0 {
            assert(known[i as int] == mem@.id);
            return true;
        }
        i += 1;
    }
    false
}

fn add_distinct(union: &mut Vec<Memory>, from: Vec<Memory>, Ghost(before): Ghost<Seq<MemoryView>>)
    requires
        views::of_seq(old(union)@) == distinct(before),
    ensures
        views::of_seq(final(union)@) == distinct(before + views::of_seq(from@)),
{
    let ghost given = from@;
    let ghost all = views::of_seq(given);
    let mut left = from;
    let ghost mut done: int = 0;
    assert(before + all.take(0) =~= before);
    while left.len() > 0
        invariant
            0 <= done <= all.len(),
            all == views::of_seq(given),
            left@ == given.skip(done),
            views::of_seq(union@) == distinct(before + all.take(done)),
        decreases left@.len(),
    {
        let mem = left.remove(0);
        proof {
            assert(mem == given[done]);
            assert(given.skip(done).remove(0) =~= given.skip(done + 1));
            assert((before + all.take(done + 1)).drop_last() =~= before + all.take(done));
            assert((before + all.take(done + 1)).last() == mem@);
            done = done + 1;
        }
        if !knows(union, &mem) {
            let ghost kept = views::of_seq(union@);
            union.push(mem);
            assert(views::of_seq(union@) =~= kept.push(mem@));
        }
    }
    assert(all.take(done) =~= all);
}

/// The memories of both lists, each identifier once; of two with the same
/// identifier, the first stays.
pub fn dedupe_union(head: Vec<Memory>, tail: Vec<Memory>) -> (r: Vec<Memory>)
    ensures
        views::of_seq(r@) == distinct(views::of_seq(head@) + views::of_seq(tail@)),
{
    let mut union: Vec<Memory> = Vec::new();
    let ghost none = Seq::<MemoryView>::empty();
    proof {
        assert(views::of_seq(union@) =~= distinct(none));
        assert(none + views::of_seq(head@) =~= views::of_seq(head@));
    }
    let ghost first = views::of_seq(head@);
    add_distinct(&mut union, head, Ghost(none));
    add_distinct(&mut union, tail, Ghost(first));
    union
}

/// Whether the structural finds are too few.
pub open spec fn thin(head: Seq<MemoryView>, head_min: nat) -> bool {
    head.len() < head_min
}

/// The memories considered: those found by structure, and where these are too
/// few, those recalled by vector.
pub open spec fn candidates(
    head: Seq<MemoryView>,
    tail: Option<Seq<MemoryView>>,
    head_min: nat,
) -> Seq<MemoryView> {
    if thin(head, head_min) && tail is Some {
        distinct(head + tail->0)
    } else {
        head
    }
}

/// The memories that apply, each with its score and its place in a ranking by
/// falling score.
pub open spec fn entries(memories: Seq<MemoryView>, sig: IntentView) -> Seq<(u32, ScoredView)>
    decreases memories.len(),
{
    if memories.len() == 0 {
        Seq::empty()
    } else {
        let rest = entries(memories.drop_last(), sig);
        let last = memories.last();
        if last.applicability.applies_to(sig) {
            rest.push(
                (
                    (4 - score(last, sig)) as u32,
                    ScoredView { memory: last, score: score(last, sig) as u32 },
                ),
            )
        } else {
            rest
        }
    }
}

/// The memories that apply, by falling score; equal scores keep their order.
pub open spec fn ranked(memories: Seq<MemoryView>, sig: IntentView) -> Seq<ScoredView> {
    ranking::values(ranking::ranked(entries(memories, sig)))
}

/// The views of what was recalled by vector, if anything was.
pub open spec fn recalled(tail: Option<Vec<Memory>>) -> Option<Seq<MemoryView>> {
    match tail {
        Some(memories) => Some(views::of_seq(memories@)),
        None => None,
    }
}

/// Ranks what was found.
pub fn rank_candidates(
    sig: &IntentSignature,
    head: Vec<Memory>,
    tail: Option<Vec<Memory>>,
    head_min: usize,
) -> (r: Vec<ScoredMemory>)
    ensures
        views::of_seq(r@) == ranked(
            candidates(
                views::of_seq(head@),
                recalled(tail),
                head_min as nat,
            ),
            sig@,
        ),
{
    let found = if head.len() < head_min {
        match tail {
            Some(tail) => dedupe_union(head, tail),
            None => head,
        }
    } else {
        head
    };
    let ghost given = found@;
    let ghost all = views::of_seq(given);
    let mut left = found;
    let mut out: Vec<(u32, ScoredMemory)> = Vec::new();
    let ghost mut done: int = 0;
    assert(ranking::viewed(out@) =~= entries(all.take(0), sig@));
    while left.len() > 0
        invariant
            0 <= done <= all.len(),
            all == views::of_seq(given),
            left@ == given.skip(done),
            ranking::viewed(out@) == entries(all.take(done), sig@),
        decreases left@.len(),
    {
        let mem = left.remove(0);
        proof {
            assert(mem == given[done]);
            assert(given.skip(done).remove(0) =~= given.skip(done + 1));
            assert(all.take(done + 1).drop_last() =~= all.take(done));
            assert(all.take(done + 1).last() == mem@);
            done = done + 1;
        }
        if mem.applicability.applies_to(sig) {
            let score = cheap_score(&mem, sig);
            let ghost before = ranking::viewed(out@);
            let ghost view = mem@;
            out.push((4 - score, ScoredMemory { memory: mem, score }));
            assert(ranking::viewed(out@) =~= before.push(
                ((4 - score) as u32, ScoredView { memory: view, score }),
            ));
        }
    }
    assert(all.take(done) =~= all);
    let n = out.len();
    proof {
        let es = entries(all, sig@);
        ranking::law_ranking_is_an_ordered_rearrangement(es);
        assert(ranking::ranked(es).take(es.len() as int) =~= ranking::ranked(es));
    }
    ranking::take_first(out, n)
}

/// What a retrieval over these records finds, given the distance of each record
/// from the query if there is a vector for it.
pub open spec fn retrieved(
    records: Seq<MemoryRecordView>,
    sig: IntentView,
    distances: Option<Seq<u32>>,
    head_min: nat,
    tail_limit: nat,
) -> Seq<ScoredView> {
    ranked(
        candidates(
            store::applicable(records, sig),
            match distances {
                Some(d) => Some(store::nearest(records, d, tail_limit)),
                None => None,
            },
            head_min,
        ),
        sig,
    )
}

/// A retrieval over a store.
///
/// `distances` gives the bits of each record's distance from the query's vector,
/// in the order of [`MemoryStore::embeddings`], or nothing where there is no
/// vector.
pub struct MemoryRetrieval<'a, S: MemoryStore> {
    store: &'a S,
    distances: Option<Vec<u32>>,
    head_min: usize,
    tail_limit: usize,
}

impl<'a, S: MemoryStore> MemoryRetrieval<'a, S> {
    /// The store that is searched.
    pub closed spec fn store(&self) -> S {
        *self.store
    }

    /// The distances that the memories are recalled by.
    pub closed spec fn distances(&self) -> Option<Seq<u32>> {
        match self.distances {
            Some(d) => Some(d@),
            None => None,
        }
    }

    /// From how many structural finds on vectors are not consulted.
    pub closed spec fn head_min(&self) -> nat {
        self.head_min as nat
    }

    /// The most memories recalled by vector.
    pub closed spec fn tail_limit(&self) -> nat {
        self.tail_limit as nat
    }

    /// A retrieval with the usual bounds.
    pub fn new(store: &'a S, distances: Option<Vec<u32>>) -> (r: Self)
        ensures
            r.store() == *store,
            r.distances() == (match distances {
                Some(d) => Some(d@),
                None => None,
            }),
            r.head_min() == HEAD_MIN,
            r.tail_limit() == TAIL_LIMIT,
            r.head_min() == 3,
            r.tail_limit() == 10,
    {
        MemoryRetrieval { store, distances, head_min: HEAD_MIN, tail_limit: TAIL_LIMIT }
    }

    /// A retrieval with bounds of its own.
    pub fn with_bounds(
        store: &'a S,
        distances: Option<Vec<u32>>,
        head_min: usize,
        tail_limit: usize,
    ) -> (r: Self)
        ensures
            r.store() == *store,
            r.distances() == (match distances {
                Some(d) => Some(d@),
                None => None,
            }),
            r.head_min() == head_min,
            r.tail_limit() == tail_limit,
    {
        MemoryRetrieval { store, distances, head_min, tail_limit }
    }

    /// Whether the structural finds are so few that a vector is worth making.
    pub fn wants_vector(&self, sig: &IntentSignature) -> (r: bool)
        ensures
            self.store().available() ==> r == thin(
                store::applicable(self.store().records(), sig@),
                self.head_min(),
            ),
    {
        let head = self.store.filter(sig);
        proof {
            assert(views::of_seq(head@).len() == head@.len());
        }
        head.len() < self.head_min
    }
}

impl<'a, S: MemoryStore> Retrieval for MemoryRetrieval<'a, S> {
    open spec fn may_retrieve(&self, sig: IntentView, found: Seq<ScoredView>) -> bool {
        &&& presentable(sig, found)
        &&& self.store().available() ==> found == retrieved(
            self.store().records(),
            sig,
            self.distances(),
            self.head_min(),
            self.tail_limit(),
        )
    }

    fn retrieve_memories(&self, sig: &IntentSignature) -> (r: Vec<ScoredMemory>) {
        let head = self.store.filter(sig);
        let tail = match &self.distances {
            Some(distances) => if head.len() < self.head_min {
                Some(self.store.ann_recall(distances, self.tail_limit))
            } else {
                None
            },
            None => None,
        };
        proof {
            let considered = candidates(views::of_seq(head@), recalled(tail), self.head_min as nat);
            lemma_ranked_presentable(considered, sig@);
        }
        rank_candidates(sig, head, tail, self.head_min)
    }
}

/// Whether these can be found, whatever the store holds: all of them apply and
/// carry their own score, and no memory stands before one that matches better.
pub open spec fn presentable(sig: IntentView, found: Seq<ScoredView>) -> bool {
    &&& forall|i: int|
        0 <= i < found.len() ==> (#[trigger] found[i]).memory.applicability.applies_to(sig)
            && found[i].score == score(found[i].memory, sig)
    &&& forall|i: int, j: int|
        0 <= i <= j < found.len() ==> (#[trigger] found[i]).score >= (#[trigger] found[j]).score
}

proof fn lemma_ranked_presentable(memories: Seq<MemoryView>, sig: IntentView)
    ensures
        presentable(sig, ranked(memories, sig)),
{
    let found = ranked(memories, sig);
    assert forall|i: int| 0 <= i < found.len() implies (
    #[trigger] found[i]).memory.applicability.applies_to(sig) && found[i].score == score(
        found[i].memory,
        sig,
    ) by {
        law_found_memories_apply_and_are_ordered(memories, sig, i, i);
    }
    assert forall|i: int, j: int| 0 <= i <= j < found.len() implies (#[trigger] found[i]).score >= (
    #[trigger] found[j]).score by {
        law_found_memories_apply_and_are_ordered(memories, sig, i, j);
    }
}

/// Where structure finds enough, vectors make no difference.
pub proof fn law_enough_structure_needs_no_vector(
    records: Seq<MemoryRecordView>,
    sig: IntentView,
    distances: Option<Seq<u32>>,
    head_min: nat,
    tail_limit: nat,
)
    requires
        !thin(store::applicable(records, sig), head_min),
    ensures
        retrieved(records, sig, distances, head_min, tail_limit) == ranked(
            store::applicable(records, sig),
            sig,
        ),
{
}

/// Without a vector, what structure finds is all that is found.
pub proof fn law_no_vector_means_structure_only(
    records: Seq<MemoryRecordView>,
    sig: IntentView,
    head_min: nat,
    tail_limit: nat,
)
    ensures
        retrieved(records, sig, None, head_min, tail_limit) == ranked(
            store::applicable(records, sig),
            sig,
        ),
{
}

/// Each identifier is considered once, and what structure found comes first.
pub proof fn law_union_is_distinct(head: Seq<MemoryView>, tail: Seq<MemoryView>)
    requires
        memory_ids(head).no_duplicates(),
    ensures
        memory_ids(distinct(head + tail)).no_duplicates(),
        head.len() <= distinct(head + tail).len(),
        distinct(head + tail).take(head.len() as int) == head,
    decreases tail.len(),
{
    if tail.len() == 0 {
        assert(head + tail =~= head);
        lemma_distinct_of_distinct(head);
        assert(head.take(head.len() as int) =~= head);
    } else {
        let init = tail.drop_last();
        law_union_is_distinct(head, init);
        assert((head + tail).drop_last() =~= head + init);
        let rest = distinct(head + init);
        let last = tail.last();
        if !memory_ids(rest).contains(last.id) {
            assert(memory_ids(rest.push(last)) =~= memory_ids(rest).push(last.id));
            lemma_push_distinct(memory_ids(rest), last.id);
            assert(rest.push(last).take(head.len() as int) =~= rest.take(head.len() as int));
        }
    }
}

proof fn lemma_push_distinct(s: Seq<Seq<char>>, x: Seq<char>)
    requires
        s.no_duplicates(),
        !s.contains(x),
    ensures
        s.push(x).no_duplicates(),
{
    assert forall|i: int, j: int|
        0 <= i < s.len() + 1 && 0 <= j < s.len() + 1 && i != j implies s.push(x)[i]
        != s.push(x)[j] by {
        if i < s.len() {
            assert(s.contains(s[i]));
        }
        if j < s.len() {
            assert(s.contains(s[j]));
        }
    }
}

proof fn lemma_distinct_of_distinct(memories: Seq<MemoryView>)
    requires
        memory_ids(memories).no_duplicates(),
    ensures
        distinct(memories) == memories,
    decreases memories.len(),
{
    if memories.len() > 0 {
        let init = memories.drop_last();
        assert(memory_ids(init) =~= memory_ids(memories).drop_last());
        lemma_distinct_of_distinct(init);
        if memory_ids(init).contains(memories.last().id) {
            let i = memory_ids(init).index_of(memories.last().id);
            assert(memory_ids(memories)[i] == memory_ids(memories)[memories.len() - 1]);
        }
        assert(init.push(memories.last()) =~= memories);
    } else {
        assert(distinct(memories) =~= memories);
    }
}

/// Each entry is a memory that was considered and applies, with its score and rank.
pub proof fn lemma_entries(memories: Seq<MemoryView>, sig: IntentView)
    ensures
        forall|i: int|
            #![trigger entries(memories, sig)[i]]
            0 <= i < entries(memories, sig).len() ==> {
                let e = entries(memories, sig)[i];
                &&& memories.contains(e.1.memory)
                &&& e.1.memory.applicability.applies_to(sig)
                &&& e.1.score == score(e.1.memory, sig)
                &&& e.0 == 4 - e.1.score
            },
    decreases memories.len(),
{
    if memories.len() > 0 {
        let init = memories.drop_last();
        lemma_entries(init, sig);
        let rest = entries(init, sig);
        let all = entries(memories, sig);
        assert forall|i: int| #![trigger all[i]] 0 <= i < all.len() implies {
            let e = all[i];
            &&& memories.contains(e.1.memory)
            &&& e.1.memory.applicability.applies_to(sig)
            &&& e.1.score == score(e.1.memory, sig)
            &&& e.0 == 4 - e.1.score
        } by {
            if i < rest.len() {
                assert(all[i] == rest[i]);
                let j = init.index_of(rest[i].1.memory);
                assert(memories[j] == rest[i].1.memory);
            } else {
                assert(memories[memories.len() - 1] == memories.last());
            }
        }
    }
}

/// Everything found applies to the signature, was considered, carries its own
/// score, and no memory stands before one that matches better.
pub proof fn law_found_memories_apply_and_are_ordered(
    memories: Seq<MemoryView>,
    sig: IntentView,
    i: int,
    j: int,
)
    requires
        0 <= i <= j < ranked(memories, sig).len(),
    ensures
        memories.contains(ranked(memories, sig)[i].memory),
        ranked(memories, sig)[i].memory.applicability.applies_to(sig),
        ranked(memories, sig)[j].memory.applicability.applies_to(sig),
        ranked(memories, sig)[i].score == score(ranked(memories, sig)[i].memory, sig),
        ranked(memories, sig)[i].score >= ranked(memories, sig)[j].score,
{
    let es = entries(memories, sig);
    let order = ranking::ranked(es);
    ranking::law_ranking_is_an_ordered_rearrangement(es);
    lemma_entries(memories, sig);
    lemma_ranked_member(es, i);
    lemma_ranked_member(es, j);
    if i < j {
        assert(order[i].0 <= order[j].0);
    }
}

/// What is ranked is among the entries.
pub proof fn lemma_ranked_member(es: Seq<(u32, ScoredView)>, i: int)
    requires
        0 <= i < ranking::ranked(es).len(),
    ensures
        exists|k: int| 0 <= k < es.len() && #[trigger] es[k] == ranking::ranked(es)[i],
{
    let order = ranking::ranked(es);
    ranking::law_ranking_is_an_ordered_rearrangement(es);
    order.to_multiset_ensures();
    es.to_multiset_ensures();
    assert(order.contains(order[i]));
    assert(es.to_multiset().count(order[i]) > 0);
    assert(es.contains(order[i]));
}

proof fn lemma_entries_has(memories: Seq<MemoryView>, sig: IntentView, i: int)
    requires
        0 <= i < memories.len(),
        memories[i].applicability.applies_to(sig),
    ensures
        exists|k: int|
            0 <= k < entries(memories, sig).len() && (#[trigger] entries(memories, sig)[k]).1.memory
                == memories[i],
    decreases memories.len(),
{
    let init = memories.drop_last();
    let rest = entries(init, sig);
    let all = entries(memories, sig);
    if i == memories.len() - 1 {
        assert(all[rest.len() as int].1.memory == memories[i]);
    } else {
        assert(init[i] == memories[i]);
        lemma_entries_has(init, sig, i);
        let k = choose|k: int|
            0 <= k < rest.len() && (#[trigger] rest[k]).1.memory == memories[i];
        assert(all[k] == rest[k]);
    }
}

proof fn lemma_ranked_has(es: Seq<(u32, ScoredView)>, k: int)
    requires
        0 <= k < es.len(),
    ensures
        exists|i: int| 0 <= i < ranking::ranked(es).len() && #[trigger] ranking::ranked(es)[i] == es[k],
{
    let order = ranking::ranked(es);
    ranking::law_ranking_is_an_ordered_rearrangement(es);
    order.to_multiset_ensures();
    es.to_multiset_ensures();
    assert(es.contains(es[k]));
    assert(order.to_multiset().count(es[k]) > 0);
    assert(order.contains(es[k]));
}

proof fn lemma_candidates(
    records: Seq<MemoryRecordView>,
    sig: IntentView,
    tail: Option<Seq<MemoryView>>,
    head_min: nat,
)
    requires
        store::sound(records),
    ensures
        memory_ids(candidates(store::applicable(records, sig), tail, head_min)).no_duplicates(),
        store::applicable(records, sig).len() <= candidates(
            store::applicable(records, sig),
            tail,
            head_min,
        ).len(),
        forall|i: int|
            0 <= i < store::applicable(records, sig).len() ==> #[trigger] candidates(
                store::applicable(records, sig),
                tail,
                head_min,
            )[i] == store::applicable(records, sig)[i],
{
    let head = store::applicable(records, sig);
    store_laws::lemma_applicable_distinct(records, sig);
    assert(memory_ids(head) =~= head.map_values(|m: MemoryView| m.id));
    if thin(head, head_min) && tail is Some {
        law_union_is_distinct(head, tail->0);
        let union = distinct(head + tail->0);
        assert forall|i: int| 0 <= i < head.len() implies #[trigger] union[i] == head[i] by {
            assert(union.take(head.len() as int)[i] == head[i]);
        }
    }
}

/// Every memory of the store that applies to the signature is found, with or
/// without a vector.
pub proof fn law_applicable_memories_are_found(
    records: Seq<MemoryRecordView>,
    sig: IntentView,
    distances: Option<Seq<u32>>,
    head_min: nat,
    tail_limit: nat,
    i: int,
) -> (k: int)
    requires
        store::sound(records),
        0 <= i < records.len(),
        records[i].body.applicability.applies_to(sig),
    ensures
        0 <= k < retrieved(records, sig, distances, head_min, tail_limit).len(),
        retrieved(records, sig, distances, head_min, tail_limit)[k].memory == records[i].body,
{
    let head = store::applicable(records, sig);
    let tail = match distances {
        Some(d) => Some(store::nearest(records, d, tail_limit)),
        None => None,
    };
    let considered = candidates(head, tail, head_min);
    store_laws::lemma_applicable_has(records, sig, i);
    let j = head.index_of(records[i].body);
    lemma_candidates(records, sig, tail, head_min);
    assert(considered[j] == head[j]);
    lemma_entries_has(considered, sig, j);
    let es = entries(considered, sig);
    let e = choose|e: int| 0 <= e < es.len() && (#[trigger] es[e]).1.memory == considered[j];
    lemma_ranked_has(es, e);
    let order = ranking::ranked(es);
    let k = choose|k: int| 0 <= k < order.len() && #[trigger] order[k] == es[e];
    assert(ranking::values(order)[k] == order[k].1);
    k
}

proof fn lemma_entries_distinct(memories: Seq<MemoryView>, sig: IntentView)
    requires
        memory_ids(memories).no_duplicates(),
    ensures
        forall|i: int, j: int|
            0 <= i < j < entries(memories, sig).len() ==> (#[trigger] entries(
                memories,
                sig,
            )[i]).1.memory.id != (#[trigger] entries(memories, sig)[j]).1.memory.id,
    decreases memories.len(),
{
    if memories.len() > 0 {
        let init = memories.drop_last();
        let last = memories.last();
        let ids = memory_ids(memories);
        assert(memory_ids(init) =~= ids.drop_last());
        lemma_entries_distinct(init, sig);
        lemma_entries(init, sig);
        let rest = entries(init, sig);
        let all = entries(memories, sig);
        assert forall|i: int, j: int| 0 <= i < j < all.len() implies (
        #[trigger] all[i]).1.memory.id != (#[trigger] all[j]).1.memory.id by {
            assert(all[i] == rest[i]);
            if j < rest.len() {
                assert(all[j] == rest[j]);
            } else {
                let k = init.index_of(rest[i].1.memory);
                assert(ids[k] == rest[i].1.memory.id);
                assert(ids[memories.len() - 1] == last.id);
            }
        }
    }
}

/// No memory is ranked twice where none is considered twice.
pub proof fn law_ranking_repeats_nothing(memories: Seq<MemoryView>, sig: IntentView, i: int, j: int)
    requires
        memory_ids(memories).no_duplicates(),
        0 <= i < j < ranked(memories, sig).len(),
    ensures
        ranked(memories, sig)[i].memory.id != ranked(memories, sig)[j].memory.id,
{
    lemma_entries_distinct(memories, sig);
    let es = entries(memories, sig);
    let order = ranking::ranked(es);
    ranking::law_ranking_is_an_ordered_rearrangement(es);
    assert(es.no_duplicates());
    es.lemma_multiset_has_no_duplicates();
    order.lemma_multiset_has_no_duplicates_conv();
    lemma_ranked_member(es, i);
    lemma_ranked_member(es, j);
    let a = choose|a: int| 0 <= a < es.len() && #[trigger] es[a] == order[i];
    let b = choose|b: int| 0 <= b < es.len() && #[trigger] es[b] == order[j];
    assert(order[i] != order[j]);
}

/// No memory is found twice where the store filters none twice, whatever was
/// recalled by vector.
pub proof fn law_nothing_is_found_twice(
    head: Seq<MemoryView>,
    tail: Option<Seq<MemoryView>>,
    head_min: nat,
    sig: IntentView,
    i: int,
    j: int,
)
    requires
        memory_ids(head).no_duplicates(),
        0 <= i < j < ranked(candidates(head, tail, head_min), sig).len(),
    ensures
        ranked(candidates(head, tail, head_min), sig)[i].memory.id != ranked(
            candidates(head, tail, head_min),
            sig,
        )[j].memory.id,
{
    if thin(head, head_min) && tail is Some {
        law_union_is_distinct(head, tail->0);
    }
    law_ranking_repeats_nothing(candidates(head, tail, head_min), sig, i, j);
}

/// No memory of a store in order is found twice.
pub proof fn law_stored_memories_are_found_once(
    records: Seq<MemoryRecordView>,
    sig: IntentView,
    distances: Option<Seq<u32>>,
    head_min: nat,
    tail_limit: nat,
    i: int,
    j: int,
)
    requires
        store::sound(records),
        0 <= i < j < retrieved(records, sig, distances, head_min, tail_limit).len(),
    ensures
        retrieved(records, sig, distances, head_min, tail_limit)[i].memory.id != retrieved(
            records,
            sig,
            distances,
            head_min,
            tail_limit,
        )[j].memory.id,
{
    let tail = match distances {
        Some(d) => Some(store::nearest(records, d, tail_limit)),
        None => None,
    };
    lemma_candidates(records, sig, tail, head_min);
    law_ranking_repeats_nothing(
        candidates(store::applicable(records, sig), tail, head_min),
        sig,
        i,
        j,
    );
}

/// A memory that matches the signature in every field outranks one that does
/// not: no memory scores more than four, and only a full match scores four.
pub proof fn law_full_match_scores_highest(mem: MemoryView, sig: IntentView)
    ensures
        0 <= score(mem, sig) <= 4,
        score(mem, sig) == 4 <==> mem.intent == sig,
{
    if score(mem, sig) == 4 {
        assert(mem.intent =~= sig);
    }
}

} // verus!
