//! What the rows of a table say, row by row.

use vstd::prelude::*;

use crate::text;
use crate::tier2::memory::{Memory, MemoryKind, MemoryRecordView, MemoryView, PlanView};
use crate::tier2::recall_laws;
use crate::tier2::sqlite_store;
use crate::tier2::sqlite_store::{Migration, Row, RowCheck, SqliteErrorView};
use crate::tier2::store;
use crate::types::IntentView;

verus! {

/// The memories read from rows are those of the readable rows, in order.
pub proof fn law_readable_rows_are_read(rows: Seq<Option<Memory>>)
    ensures
        sqlite_store::read(rows) == rows.filter(|r: Option<Memory>| r is Some).map_values(
            |r: Option<Memory>| r->0@,
        ),
    decreases rows.len(),
{
    reveal(Seq::filter);
    let readable = |r: Option<Memory>| r is Some;
    let content = |r: Option<Memory>| r->0@;
    if rows.len() > 0 {
        let init = rows.drop_last();
        law_readable_rows_are_read(init);
        if rows.last() is Some {
            assert(init.filter(readable).push(rows.last()).map_values(content) =~= init.filter(
                readable,
            ).map_values(content).push(rows.last()->0@));
        }
    }
    assert(sqlite_store::read(rows) =~= rows.filter(readable).map_values(content));
}

/// The readable rows with their distances are kept in order.
pub proof fn law_readable_rows_are_ranked(rows: Seq<Option<(u32, Memory)>>)
    ensures
        sqlite_store::ranked_rows(rows) == rows.filter(
            |r: Option<(u32, Memory)>| r is Some,
        ).map_values(|r: Option<(u32, Memory)>| (store::total_order((r->0).0), (r->0).1@)),
    decreases rows.len(),
{
    reveal(Seq::filter);
    let readable = |r: Option<(u32, Memory)>| r is Some;
    let content = |r: Option<(u32, Memory)>| (store::total_order((r->0).0), (r->0).1@);
    if rows.len() > 0 {
        let init = rows.drop_last();
        law_readable_rows_are_ranked(init);
        if rows.last() is Some {
            assert(init.filter(readable).push(rows.last()).map_values(content) =~= init.filter(
                readable,
            ).map_values(content).push(content(rows.last())));
        }
    }
    assert(sqlite_store::ranked_rows(rows) =~= rows.filter(readable).map_values(content));
}

/// The memories that apply are those whose required fields are all met, in order.
pub proof fn law_rows_that_apply_meet_all_fields(memories: Seq<MemoryView>, sig: IntentView)
    ensures
        sqlite_store::applying(memories, sig) == memories.filter(
            |m: MemoryView| recall_laws::meets(m.applicability, sig),
        ),
    decreases memories.len(),
{
    reveal(Seq::filter);
    if memories.len() > 0 {
        law_rows_that_apply_meet_all_fields(memories.drop_last(), sig);
        recall_laws::law_each_required_field_must_match(memories.last().applicability, sig);
    }
}

/// A duplicate is the first memory with the same intent and plan, and there is none
/// only where no memory has both.
pub proof fn law_duplicate_is_the_first_alike(
    memories: Seq<MemoryView>,
    intent: IntentView,
    plan: PlanView,
)
    ensures
        sqlite_store::first_like(memories, intent, plan) is None <==> forall|i: int|
            0 <= i < memories.len() ==> !((#[trigger] memories[i]).intent == intent
                && memories[i].plan == plan),
        sqlite_store::first_like(memories, intent, plan) matches Some(id) ==> exists|i: int|
            {
                &&& 0 <= i < memories.len()
                &&& (#[trigger] memories[i]).id == id
                &&& memories[i].intent == intent && memories[i].plan == plan
                &&& forall|j: int|
                    0 <= j < i ==> !((#[trigger] memories[j]).intent == intent && memories[j].plan
                        == plan)
            },
    decreases memories.len(),
{
    if memories.len() > 0 {
        let init = memories.drop_last();
        let n = memories.len() - 1;
        law_duplicate_is_the_first_alike(init, intent, plan);
        assert forall|i: int| 0 <= i < n implies init[i] == memories[i] by {}
        if sqlite_store::first_like(init, intent, plan) is Some {
            let id = sqlite_store::first_like(init, intent, plan)->0;
            let i = choose|i: int|
                {
                    &&& 0 <= i < init.len()
                    &&& (#[trigger] init[i]).id == id
                    &&& init[i].intent == intent && init[i].plan == plan
                    &&& forall|j: int|
                        0 <= j < i ==> !((#[trigger] init[j]).intent == intent && init[j].plan
                            == plan)
                };
            assert(memories[i] == init[i]);
            assert forall|j: int| 0 <= j < i implies !((#[trigger] memories[j]).intent == intent
                && memories[j].plan == plan) by {
                assert(init[j] == memories[j]);
            }
        } else {
            assert forall|j: int| 0 <= j < n implies !((#[trigger] memories[j]).intent == intent
                && memories[j].plan == plan) by {
                assert(init[j] == memories[j]);
            }
            assert(memories[n] == memories.last());
        }
    }
}

/// A table is refused for its first row that is not sound: a malformed one as
/// corruption, with its identifier and the reason, and an unreadable one as a
/// failure to read. A table of sound rows is not refused.
pub proof fn law_first_unsound_row_is_reported(checks: Seq<RowCheck>, at: int)
    ensures
        (forall|i: int| 0 <= i < checks.len() ==> (#[trigger] checks[i]) is Sound)
            ==> sqlite_store::table_fault(checks) is None,
        0 <= at < checks.len() && (forall|i: int| 0 <= i < at ==> (#[trigger] checks[i]) is Sound)
            ==> {
            &&& checks[at] is Unreadable ==> sqlite_store::table_fault(checks) == Some(
                SqliteErrorView::Io(checks[at]->Unreadable_0@),
            )
            &&& checks[at] is Malformed ==> sqlite_store::table_fault(checks) == Some(
                SqliteErrorView::Corruption(
                    "memory record "@ + checks[at]->id@ + " has a malformed body: "@
                        + checks[at]->reason@,
                ),
            )
        },
    decreases checks.len(),
{
    if checks.len() > 0 {
        let rest = checks.drop_first();
        assert forall|i: int| 0 <= i < rest.len() implies rest[i] == checks[i + 1] by {}
        law_first_unsound_row_is_reported(rest, at - 1);
        if forall|i: int| 0 <= i < checks.len() ==> (#[trigger] checks[i]) is Sound {
            assert(checks[0] is Sound);
            assert forall|i: int| 0 <= i < rest.len() implies (#[trigger] rest[i]) is Sound by {
                assert(checks[i + 1] is Sound);
            }
        }
        if 0 < at < checks.len() && (forall|i: int|
            0 <= i < at ==> (#[trigger] checks[i]) is Sound) {
            assert(checks[0] is Sound);
            assert forall|i: int| 0 <= i < at - 1 implies (#[trigger] rest[i]) is Sound by {
                assert(checks[i + 1] is Sound);
            }
        }
    }
}

/// A fresh database is stamped with version one, one of version one is kept as it
/// is, and any other is refused with both versions.
pub proof fn law_only_fresh_and_current_databases_open(version: i64)
    ensures
        version == 0 ==> sqlite_store::migration(version) == Ok::<Migration, Seq<char>>(
            Migration::Stamp,
        ) && sqlite_store::migrated(version) == 1,
        version == 1 ==> sqlite_store::migration(version) == Ok::<Migration, Seq<char>>(
            Migration::Keep,
        ) && sqlite_store::migrated(version) == 1,
        version != 0 && version != 1 ==> sqlite_store::migration(version) is Err
            && sqlite_store::migration(version)->Err_0 == "unsupported schema version "@
            + text::signed_decimal(version as int) + ": this build supports version "@
            + text::signed_decimal(1) && sqlite_store::migrated(version) == version,
{
}

/// A column holds every time in the range of signed numbers, equal to the time but
/// for a multiple of two to the sixty-fourth, so that two times never share one.
pub proof fn law_times_keep_their_bits(a: u64, b: u64)
    ensures
        i64::MIN <= sqlite_store::column_time(a) <= i64::MAX,
        sqlite_store::column_time(a) == a || sqlite_store::column_time(a) + 0x1_0000_0000_0000_0000
            == a,
        sqlite_store::column_time(a) == sqlite_store::column_time(b) <==> a == b,
{
}

/// Each kind has a name of its own.
pub proof fn law_kinds_are_named_apart(kind: MemoryKind)
    ensures
        sqlite_store::kind_name(kind) == "Fragment"@ <==> kind == MemoryKind::Fragment,
        sqlite_store::kind_name(kind) == "Composite"@ <==> kind == MemoryKind::Composite,
        sqlite_store::kind_name(kind) == "Negative"@ <==> kind == MemoryKind::Negative,
{
    reveal_strlit("Fragment");
    reveal_strlit("Composite");
    reveal_strlit("Negative");
    assert("Fragment"@[0] == 'F' && "Composite"@[0] == 'C' && "Negative"@[0] == 'N');
}

/// The row of a record has every field of it.
pub proof fn law_row_has_every_field(row: Row, record: MemoryRecordView)
    requires
        row.holds(record),
    ensures
        row.id@ == record.id,
        row.intent_type@ == record.intent_type,
        row.target_type@ == record.target_type,
        row.target_ref@ == record.target_ref,
        row.scope@ == record.scope,
        row.kind@ == "Fragment"@ <==> record.kind == MemoryKind::Fragment,
        row.kind@ == "Composite"@ <==> record.kind == MemoryKind::Composite,
        row.kind@ == "Negative"@ <==> record.kind == MemoryKind::Negative,
        row.embedding@ == record.embedding,
        row.body@ == record.body,
        row.node_id@ == record.node_id,
        row.subtree_hash@ == record.subtree_hash,
        row.created_at == record.created_at || row.created_at + 0x1_0000_0000_0000_0000
            == record.created_at,
        row.updated_at == record.updated_at || row.updated_at + 0x1_0000_0000_0000_0000
            == record.updated_at,
{
    law_kinds_are_named_apart(record.kind);
    law_times_keep_their_bits(record.created_at, record.updated_at);
    law_times_keep_their_bits(record.updated_at, record.created_at);
}

} // verus!
