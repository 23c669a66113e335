//! The decisions of a store that keeps its records as rows of a table.
//!
//! The table is read and written elsewhere; here is which rows answer a query,
//! what a row holds, and when a table can be used at all. A row that cannot be
//! read is passed over by every query.

use vstd::prelude::*;
use vstd::string::*;

use crate::text;
use crate::tier2::memory::{
    Embedding, Memory, MemoryKind, MemoryRecordView, MemoryView, Plan, PlanView, Reinforcement,
};
use crate::tier2::ranking;
use crate::tier2::store;
use crate::tier2::store::MemoryStoreError;
use crate::types::{
    GoalNodeId, GoalTimestamp, IntentSignature, IntentView, MemoryId, SubtreeHash,
};
use crate::views;

verus! {

/// The version of the table's schema.
pub const SCHEMA_VERSION: i64 = 1;

/// Why a table cannot be used.
#[derive(Debug, PartialEq, Eq)]
pub enum SqliteStoreError {
    /// It could not be opened.
    Open {
        /// Where it was looked for.
        path: String,
        /// What the backend said.
        source: String,
    },
    /// Its schema is not known.
    Schema(String),
    /// It holds a memory that cannot be read.
    Corruption(String),
    /// The backend failed.
    Io(String),
    /// The memory may not be kept.
    Validation(MemoryStoreError),
}

/// The content of an error.
#[verifier::ext_equal]
pub enum SqliteErrorView {
    Open { path: Seq<char>, source: Seq<char> },
    Schema(Seq<char>),
    Corruption(Seq<char>),
    Io(Seq<char>),
    Validation(MemoryStoreError),
}

impl SqliteErrorView {
    /// The message shown for the error.
    pub open spec fn message(self) -> Seq<char> {
        match self {
            SqliteErrorView::Open { path, source } => "failed to open sqlite store at "@ + path
                + ": "@ + source,
            SqliteErrorView::Schema(s) =>
                "sqlite schema is incompatible or migration failed: "@ + s,
            SqliteErrorView::Corruption(s) =>
                "persisted memory record is corrupted or malformed: "@ + s,
            SqliteErrorView::Io(s) => "sqlite I/O error: "@ + s,
            SqliteErrorView::Validation(e) => e.message(),
        }
    }
}

impl View for SqliteStoreError {
    type V = SqliteErrorView;

    open spec fn view(&self) -> SqliteErrorView {
        match *self {
            SqliteStoreError::Open { path, source } => SqliteErrorView::Open {
                path: path@,
                source: source@,
            },
            SqliteStoreError::Schema(s) => SqliteErrorView::Schema(s@),
            SqliteStoreError::Corruption(s) => SqliteErrorView::Corruption(s@),
            SqliteStoreError::Io(s) => SqliteErrorView::Io(s@),
            SqliteStoreError::Validation(e) => SqliteErrorView::Validation(e),
        }
    }
}

impl SqliteStoreError {
    /// The message shown for the error.
    pub fn to_string(&self) -> (r: String)
        ensures
            r@ == self@.message(),
    {
        match self {
            SqliteStoreError::Open { path, source } => {
                let mut r = "failed to open sqlite store at ".to_owned();
                r.append(path.as_str());
                r.append(": ");
                r.append(source.as_str());
                r
            },
            SqliteStoreError::Schema(s) => {
                let mut r = "sqlite schema is incompatible or migration failed: ".to_owned();
                r.append(s.as_str());
                r
            },
            SqliteStoreError::Corruption(s) => {
                let mut r = "persisted memory record is corrupted or malformed: ".to_owned();
                r.append(s.as_str());
                r
            },
            SqliteStoreError::Io(s) => {
                let mut r = "sqlite I/O error: ".to_owned();
                r.append(s.as_str());
                r
            },
            SqliteStoreError::Validation(e) => e.to_string(),
        }
    }
}

/// What to do about the version of a table's schema.
#[derive(Debug, Clone, Copy, PartialEq, Eq, Structural)]
pub enum Migration {
    /// The table is new: its version has to be set.
    Stamp,
    /// The table is up to date.
    Keep,
}

/// What to do about a version, or the message that it is not known.
pub open spec fn migration(version: i64) -> Result<Migration, Seq<char>> {
    if version == 0 {
        Ok(Migration::Stamp)
    } else if version == SCHEMA_VERSION {
        Ok(Migration::Keep)
    } else {
        Err(
            "unsupported schema version "@ + text::signed_decimal(version as int)
                + ": this build supports version "@ + text::signed_decimal(SCHEMA_VERSION as int),
        )
    }
}

/// What to do about the version of a table's schema.
pub fn plan_migration(version: i64) -> (r: Result<Migration, SqliteStoreError>)
    ensures
        match migration(version) {
            Ok(step) => r == Ok::<Migration, SqliteStoreError>(step),
            Err(message) => r is Err && r->Err_0@ == SqliteErrorView::Schema(message),
        },
{
    if version == 0 {
        Ok(Migration::Stamp)
    } else if version == SCHEMA_VERSION {
        Ok(Migration::Keep)
    } else {
        let mut message = "unsupported schema version ".to_owned();
        text::push_signed_decimal(&mut message, version);
        message.append(": this build supports version ");
        text::push_signed_decimal(&mut message, SCHEMA_VERSION);
        Err(SqliteStoreError::Schema(message))
    }
}

/// The version after the migration.
pub open spec fn migrated(version: i64) -> i64 {
    if migration(version) == Ok::<Migration, Seq<char>>(Migration::Stamp) {
        SCHEMA_VERSION
    } else {
        version
    }
}

/// Migrating again changes nothing.
pub proof fn law_migration_is_idempotent(version: i64)
    requires
        migration(version) is Ok,
    ensures
        migration(migrated(version)) == Ok::<Migration, Seq<char>>(Migration::Keep),
        migrated(migrated(version)) == migrated(version),
{
}

/// The name of a kind in the table.
pub open spec fn kind_name(kind: MemoryKind) -> Seq<char> {
    match kind {
        MemoryKind::Fragment => "Fragment"@,
        MemoryKind::Composite => "Composite"@,
        MemoryKind::Negative => "Negative"@,
    }
}

/// The name of a kind in the table.
pub fn kind_tag(kind: MemoryKind) -> (r: &'static str)
    ensures
        r@ == kind_name(kind),
{
    match kind {
        MemoryKind::Fragment => "Fragment",
        MemoryKind::Composite => "Composite",
        MemoryKind::Negative => "Negative",
    }
}

/// A time as the table holds it: the same bits, signed.
pub open spec fn column_time(t: u64) -> int {
    if t < 0x8000_0000_0000_0000 {
        t as int
    } else {
        t - 0x1_0000_0000_0000_0000
    }
}

/// A time as the table holds it.
pub fn to_column(t: GoalTimestamp) -> (r: i64)
    ensures
        r == column_time(t.0),
{
    if t.0 < 0x8000_0000_0000_0000 {
        t.0 as i64
    } else {
        (t.0 - 0x8000_0000_0000_0000) as i64 + i64::MIN
    }
}

/// The time that the table holds.
pub fn from_column(v: i64) -> (r: GoalTimestamp)
    ensures
        column_time(r.0) == v,
{
    if v >= 0 {
        GoalTimestamp(v as u64)
    } else {
        GoalTimestamp((v - i64::MIN) as u64 + 0x8000_0000_0000_0000)
    }
}

/// A row of the table, but for the serialised forms of memory and vector.
#[derive(Debug, PartialEq)]
pub struct Row {
    /// The identifier of the memory.
    pub id: String,
    /// The intent type of the memory.
    pub intent_type: String,
    /// The target type of the memory.
    pub target_type: String,
    /// The target of the memory.
    pub target_ref: String,
    /// The scope of the memory.
    pub scope: String,
    /// The name of the memory's kind.
    pub kind: &'static str,
    /// The vector.
    pub embedding: Embedding,
    /// The memory.
    pub body: Memory,
    /// The node it was learned from.
    pub node_id: String,
    /// The hash of the subtree it was learned from.
    pub subtree_hash: String,
    /// When the record was made.
    pub created_at: i64,
    /// When the record last changed.
    pub updated_at: i64,
}

impl Row {
    /// Whether the row is the row of the record.
    pub open spec fn holds(&self, record: MemoryRecordView) -> bool {
        &&& self.id@ == record.id
        &&& self.intent_type@ == record.intent_type
        &&& self.target_type@ == record.target_type
        &&& self.target_ref@ == record.target_ref
        &&& self.scope@ == record.scope
        &&& self.kind@ == kind_name(record.kind)
        &&& self.embedding@ == record.embedding
        &&& self.body@ == record.body
        &&& self.node_id@ == record.node_id
        &&& self.subtree_hash@ == record.subtree_hash
        &&& self.created_at == column_time(record.created_at)
        &&& self.updated_at == column_time(record.updated_at)
    }
}

/// The row of a memory.
pub fn row_of(
    mem: Memory,
    node_id: GoalNodeId,
    subtree_hash: SubtreeHash,
    embedding: Embedding,
    created_at: GoalTimestamp,
    updated_at: GoalTimestamp,
) -> (r: Row)
    ensures
        r.holds(
            store::record_of(
                mem@,
                node_id@,
                subtree_hash@,
                embedding@,
                created_at.0,
                updated_at.0,
            ),
        ),
{
    Row {
        id: mem.id.0.clone(),
        intent_type: mem.intent.intent_type.0.clone(),
        target_type: mem.intent.target_type.0.clone(),
        target_ref: mem.intent.target_ref.0.clone(),
        scope: mem.intent.scope.0.clone(),
        kind: kind_tag(mem.kind),
        embedding,
        body: mem,
        node_id: node_id.0,
        subtree_hash: subtree_hash.0.0,
        created_at: to_column(created_at),
        updated_at: to_column(updated_at),
    }
}

/// The row that a memory is kept in, if it may be kept.
pub fn insert_row(key: (GoalNodeId, SubtreeHash), mem: Memory, embedding: Embedding) -> (r: Result<
    Row,
    MemoryStoreError,
>)
    ensures
        match store::fault(mem@) {
            Some(e) => r == Err::<Row, MemoryStoreError>(e),
            None => r is Ok && r->Ok_0.holds(
                store::record_of(mem@, key.0@, key.1@, embedding@, 0, 0),
            ),
        },
{
    match store::validate_memory(&mem) {
        Err(e) => Err(e),
        Ok(()) => {
            let now = GoalTimestamp(0);
            Ok(row_of(mem, key.0, key.1, embedding, now, now))
        },
    }
}

/// What reinforcing a memory writes.
#[derive(Debug, PartialEq)]
pub enum RowChange {
    /// Memory and time of the row under the identifier.
    Update {
        /// The memory.
        body: Memory,
        /// When the record last changed.
        updated_at: i64,
    },
    /// A new row.
    Insert(Row),
}

/// What reinforcing the memory `id` writes, given its row's memory and time if
/// there is a row, and the node to note where neither row nor candidate names
/// one.
pub fn reinforce_row(
    existing: Option<(Memory, i64)>,
    id: &MemoryId,
    candidate: Memory,
    fresh: GoalNodeId,
) -> (r: Result<RowChange, MemoryStoreError>)
    ensures
        store::fault(candidate@) matches Some(e) ==> r == Err::<RowChange, MemoryStoreError>(e),
        store::fault(candidate@) is None && existing is None ==> r is Ok && r->Ok_0 is Insert
            && r->Ok_0->Insert_0.holds(
            store::first_observation(
                id@,
                candidate@,
                if candidate@.provenance.origins.len() > 0 {
                    candidate@.provenance.origins[0].0
                } else {
                    fresh@
                },
            ),
        ),
        store::fault(candidate@) is None && existing is Some ==> r is Ok && r->Ok_0 is Update
            && forall|record: MemoryRecordView|
            #![trigger store::bumped(record, candidate@)]
            record.body == (existing->0).0@ && column_time(record.updated_at) == (existing->0).1 ==> {
                &&& r->Ok_0->body@ == store::bumped(record, candidate@).body
                &&& r->Ok_0->updated_at == column_time(store::bumped(record, candidate@).updated_at)
            },
{
    match store::validate_memory(&candidate) {
        Err(e) => {
            return Err(e);
        },
        Ok(()) => {},
    }
    match existing {
        Some((stored, updated_at)) => {
            let ghost before = stored@;
            let mut body = stored;
            let next = GoalTimestamp(from_column(updated_at).0.saturating_add(1));
            let counts = body.reinforcement;
            body.reinforcement =
            Reinforcement {
                hits: counts.hits.saturating_add(1),
                confirms: counts.confirms.saturating_add(1),
                contradicts: counts.contradicts,
                last_updated: next,
            };
            store::merge_origins(&mut body.provenance.origins, &candidate.provenance.origins);
            let change = RowChange::Update { body, updated_at: to_column(next) };
            proof {
                assert forall|record: MemoryRecordView|
                    #![trigger store::bumped(record, candidate@)]
                    record.body == before && column_time(record.updated_at) == updated_at implies {
                    &&& change->body@ == store::bumped(record, candidate@).body
                    &&& change->updated_at == column_time(store::bumped(record, candidate@).updated_at)
                } by {
                    assert(change->body@ =~= store::bumped(record, candidate@).body);
                }
            }
            Ok(change)
        },
        None => {
            let mut mem = candidate;
            let node_id = if mem.provenance.origins.len() > 0 {
                mem.provenance.origins[0].0.clone()
            } else {
                fresh
            };
            let subtree_hash = mem.version.0.clone();
            mem.id = id.clone();
            assert(mem@ =~= store::renamed(candidate@, id@));
            let now = GoalTimestamp(0);
            Ok(
                RowChange::Insert(
                    row_of(mem, node_id, subtree_hash, Embedding::default(), now, now),
                ),
            )
        },
    }
}

/// The memories of the rows that were read, in order.
pub open spec fn read(rows: Seq<Option<Memory>>) -> Seq<MemoryView>
    decreases rows.len(),
{
    if rows.len() == 0 {
        Seq::empty()
    } else {
        match rows.last() {
            Some(mem) => read(rows.drop_last()).push(mem@),
            None => read(rows.drop_last()),
        }
    }
}

/// The memories that apply to a signature, in order.
pub open spec fn applying(memories: Seq<MemoryView>, sig: IntentView) -> Seq<MemoryView> {
    memories.filter(|m: MemoryView| m.applicability.applies_to(sig))
}

/// The memories of the rows that apply to a signature.
pub fn filter_rows(rows: &Vec<Option<Memory>>, sig: &IntentSignature) -> (r: Vec<Memory>)
    ensures
        views::of_seq(r@) == applying(read(rows@), sig@),
{
    let mut r: Vec<Memory> = Vec::new();
    let mut i: usize = 0;
    proof {
        reveal(Seq::filter);
        assert(views::of_seq(r@) =~= applying(read(rows@.take(0)), sig@));
    }
    while i < rows.len()
        invariant
            i <= rows@.len(),
            views::of_seq(r@) == applying(read(rows@.take(i as int)), sig@),
        decreases rows@.len() - i,
    {
        proof {
            reveal(Seq::filter);
            assert(rows@.take(i + 1).drop_last() =~= rows@.take(i as int));
            assert(rows@.take(i + 1).last() == rows@[i as int]);
        }
        if let Some(mem) = &rows[i] {
            let ghost memories = read(rows@.take(i as int));
            let ghost before = views::of_seq(r@);
            assert(memories.push(mem@).drop_last() =~= memories);
            if mem.applicability.applies_to(sig) {
                r.push(mem.clone());
                assert(views::of_seq(r@) =~= before.push(mem@));
            }
        }
        i += 1;
    }
    assert(rows@.take(i as int) =~= rows@);
    r
}

/// The identifier of the first memory with this intent and this plan.
pub open spec fn first_like(
    memories: Seq<MemoryView>,
    intent: IntentView,
    plan: PlanView,
) -> Option<Seq<char>>
    decreases memories.len(),
{
    if memories.len() == 0 {
        None
    } else {
        match first_like(memories.drop_last(), intent, plan) {
            Some(id) => Some(id),
            None => if memories.last().intent == intent && memories.last().plan == plan {
                Some(memories.last().id)
            } else {
                None
            },
        }
    }
}

proof fn lemma_first_like_stays(
    rows: Seq<Option<Memory>>,
    i: int,
    intent: IntentView,
    plan: PlanView,
)
    requires
        0 <= i <= rows.len(),
        first_like(read(rows.take(i)), intent, plan) is Some,
    ensures
        first_like(read(rows), intent, plan) == first_like(read(rows.take(i)), intent, plan),
    decreases rows.len() - i,
{
    if i < rows.len() {
        assert(rows.take(i + 1).drop_last() =~= rows.take(i));
        let memories = read(rows.take(i));
        if rows[i] is Some {
            assert(memories.push(rows[i]->0@).drop_last() =~= memories);
        }
        lemma_first_like_stays(rows, i + 1, intent, plan);
    } else {
        assert(rows.take(i) =~= rows);
    }
}

/// The identifier of the first row with this intent and this plan.
pub fn find_duplicate_row(
    rows: &Vec<Option<Memory>>,
    intent: &IntentSignature,
    plan: &Plan,
) -> (r: Option<MemoryId>)
    ensures
        views::of_option(r) == first_like(read(rows@), intent@, plan@),
{
    let mut i: usize = 0;
    while i < rows.len()
        invariant
            i <= rows@.len(),
            first_like(read(rows@.take(i as int)), intent@, plan@) is None,
        decreases rows@.len() - i,
    {
        proof {
            assert(rows@.take(i + 1).drop_last() =~= rows@.take(i as int));
            assert(rows@.take(i + 1).last() == rows@[i as int]);
        }
        if let Some(mem) = &rows[i] {
            let ghost memories = read(rows@.take(i as int));
            assert(memories.push(mem@).drop_last() =~= memories);
            if mem.intent.same(intent) && mem.plan.same(plan) {
                proof {
                    lemma_first_like_stays(rows@, i + 1, intent@, plan@);
                }
                return Some(mem.id.clone());
            }
        }
        i += 1;
    }
    assert(rows@.take(i as int) =~= rows@);
    None
}

/// The rows that were read, each with the rank of its distance.
pub open spec fn ranked_rows(rows: Seq<Option<(u32, Memory)>>) -> Seq<(u32, MemoryView)>
    decreases rows.len(),
{
    if rows.len() == 0 {
        Seq::empty()
    } else {
        match rows.last() {
            Some((distance, mem)) => ranked_rows(rows.drop_last()).push(
                (store::total_order(distance), mem@),
            ),
            None => ranked_rows(rows.drop_last()),
        }
    }
}

/// The memories of the `limit` rows nearest to a query, given the bits of each
/// row's distance from it.
pub fn recall_rows(rows: Vec<Option<(u32, Memory)>>, limit: usize) -> (r: Vec<Memory>)
    ensures
        views::of_seq(r@) == ranking::first_values(ranked_rows(rows@), limit as nat),
{
    let mut entries: Vec<(u32, Memory)> = Vec::new();
    let mut i: usize = 0;
    assert(ranking::viewed(entries@) =~= ranked_rows(rows@.take(0)));
    while i < rows.len()
        invariant
            i <= rows@.len(),
            ranking::viewed(entries@) == ranked_rows(rows@.take(i as int)),
        decreases rows@.len() - i,
    {
        proof {
            assert(rows@.take(i + 1).drop_last() =~= rows@.take(i as int));
            assert(rows@.take(i + 1).last() == rows@[i as int]);
        }
        if let Some((distance, mem)) = &rows[i] {
            let ghost before = ranking::viewed(entries@);
            entries.push((store::total_order_key(*distance), mem.clone()));
            assert(ranking::viewed(entries@) =~= before.push(
                (store::total_order(*distance), mem@),
            ));
        }
        i += 1;
    }
    assert(rows@.take(i as int) =~= rows@);
    ranking::take_first(entries, limit)
}

/// How reading a row ended when the table was opened.
#[derive(Debug, PartialEq, Eq)]
pub enum RowCheck {
    /// The memory was read.
    Sound,
    /// The memory could not be read.
    Malformed {
        /// The identifier of the row.
        id: String,
        /// What the reader said.
        reason: String,
    },
    /// The row could not be read.
    Unreadable(String),
}

/// The error for a row, if it cannot be used.
pub open spec fn row_fault(check: RowCheck) -> Option<SqliteErrorView> {
    match check {
        RowCheck::Sound => None,
        RowCheck::Malformed { id, reason } => Some(
            SqliteErrorView::Corruption(
                "memory record "@ + id@ + " has a malformed body: "@ + reason@,
            ),
        ),
        RowCheck::Unreadable(reason) => Some(SqliteErrorView::Io(reason@)),
    }
}

/// The error for a table: that of the first row that cannot be used.
pub open spec fn table_fault(checks: Seq<RowCheck>) -> Option<SqliteErrorView>
    decreases checks.len(),
{
    if checks.len() == 0 {
        None
    } else if row_fault(checks[0]) is Some {
        row_fault(checks[0])
    } else {
        table_fault(checks.drop_first())
    }
}

/// Checks that every row can be used.
pub fn integrity_check(checks: &Vec<RowCheck>) -> (r: Result<(), SqliteStoreError>)
    ensures
        match table_fault(checks@) {
            Some(e) => r is Err && r->Err_0@ == e,
            None => r is Ok,
        },
{
    let mut i: usize = 0;
    assert(checks@.skip(0) =~= checks@);
    while i < checks.len()
        invariant
            i <= checks@.len(),
            table_fault(checks@) == table_fault(checks@.skip(i as int)),
        decreases checks@.len() - i,
    {
        assert(checks@.skip(i as int).drop_first() =~= checks@.skip(i + 1));
        match &checks[i] {
            RowCheck::Sound => {},
            RowCheck::Malformed { id, reason } => {
                let mut message = "memory record ".to_owned();
                message.append(id.as_str());
                message.append(" has a malformed body: ");
                message.append(reason.as_str());
                return Err(SqliteStoreError::Corruption(message));
            },
            RowCheck::Unreadable(reason) => {
                return Err(SqliteStoreError::Io(reason.clone()));
            },
        }
        i += 1;
    }
    Ok(())
}

/// Whether the rows are those of the records, all read.
pub open spec fn rows_of(rows: Seq<Option<Memory>>, records: Seq<MemoryRecordView>) -> bool {
    &&& rows.len() == records.len()
    &&& forall|i: int|
        0 <= i < rows.len() ==> (#[trigger] rows[i]) is Some && rows[i]->0@ == records[i].body
}

/// Rows answer as records do: the same memories apply, and the same memory is
/// found for an intent and a plan.
pub proof fn law_rows_answer_as_records(
    rows: Seq<Option<Memory>>,
    records: Seq<MemoryRecordView>,
    sig: IntentView,
    plan: PlanView,
)
    requires
        store::sound(records),
        rows_of(rows, records),
    ensures
        applying(read(rows), sig) == store::applicable(records, sig),
        first_like(read(rows), sig, plan) == store::first_id(records, store::plans(sig, plan)),
    decreases rows.len(),
{
    reveal(Seq::filter);
    if rows.len() > 0 {
        let init = records.drop_last();
        let last = records.last();
        assert forall|i: int| 0 <= i < init.len() implies store::mirrors(#[trigger] init[i]) by {
            assert(init[i] == records[i]);
        }
        assert(store::ids(init) =~= store::ids(records).drop_last());
        assert forall|i: int| 0 <= i < init.len() implies store::fault(
            (#[trigger] init[i]).body,
        ) is None by {
            assert(init[i] == records[i]);
        }
        law_rows_answer_as_records(rows.drop_last(), init, sig, plan);
        let memories = read(rows.drop_last());
        assert(rows[rows.len() - 1] is Some);
        assert(rows.last()->0@ == last.body);
        assert(memories.push(last.body).drop_last() =~= memories);
        assert(store::mirrors(records[records.len() - 1]));
        lemma_first_id_last(records, store::plans(sig, plan));
    }
}

proof fn lemma_first_id_last(
    records: Seq<MemoryRecordView>,
    holds: spec_fn(MemoryRecordView) -> bool,
)
    requires
        records.len() > 0,
    ensures
        store::first_id(records, holds) == match store::first_id(records.drop_last(), holds) {
            Some(id) => Some(id),
            None => if holds(records.last()) {
                Some(records.last().id)
            } else {
                None
            },
        },
    decreases records.len(),
{
    if records.len() > 1 {
        assert(records.drop_last()[0] == records[0]);
    }
    if records.len() > 1 && !holds(records[0]) {
        assert(records.drop_last().drop_first() =~= records.drop_first().drop_last());
        assert(records.drop_first().last() == records.last());
        lemma_first_id_last(records.drop_first(), holds);
    } else if records.len() == 1 {
        assert(records.last() == records[0]);
        assert(store::first_id(records.drop_first(), holds) is None);
        assert(store::first_id(records.drop_last(), holds) is None);
    }
}

/// Rows are recalled as records are: with the same distances the same memories
/// come in the same order.
pub proof fn law_rows_recall_as_records(
    rows: Seq<Option<(u32, Memory)>>,
    records: Seq<MemoryRecordView>,
    distances: Seq<u32>,
)
    requires
        rows.len() == records.len(),
        distances.len() == records.len(),
        forall|i: int|
            0 <= i < rows.len() ==> (#[trigger] rows[i]) is Some && (rows[i]->0).0 == distances[i]
                && (rows[i]->0).1@ == records[i].body,
    ensures
        ranked_rows(rows) == store::scored(records, distances),
    decreases rows.len(),
{
    if rows.len() > 0 {
        law_rows_recall_as_records(rows.drop_last(), records.drop_last(), distances.drop_last());
        let all = store::scored(records, distances);
        let init = store::scored(records.drop_last(), distances.drop_last());
        let n = rows.len() - 1;
        assert(rows[n] is Some);
        assert(ranked_rows(rows) =~= init.push((store::total_order(distances[n]), records[n].body)));
        assert(all =~= init.push((store::total_order(distances[n]), records[n].body)));
    } else {
        assert(ranked_rows(rows) =~= store::scored(records, distances));
    }
}

} // verus!
