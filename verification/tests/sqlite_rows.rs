//! The rows of the table of memories.

use halter_goals::tier2::sqlite_store::{
    filter_rows, find_duplicate_row, from_column, insert_row, integrity_check, kind_tag,
    plan_migration, recall_rows, reinforce_row, to_column, Migration, RowChange, RowCheck,
    SqliteStoreError, SCHEMA_VERSION,
};
use halter_goals::tier2::{
    Applicability, Embedding, EvidenceContract, InMemoryMemoryStore, Memory, MemoryKind,
    MemoryStore, MemoryStoreError, MemoryVersion, OutcomeShape, ParameterSchema, Plan, PlanStep,
    Provenance, Reinforcement,
};
use halter_goals::types::{
    GoalNodeId, IntentSignature, IntentType, MemoryId, OutcomeRef, Scope, Sha256, SubtreeHash,
    TargetRef, TargetType, Timestamp,
};

fn sig() -> IntentSignature {
    IntentSignature {
        intent_type: IntentType::from("lookup"),
        target_type: TargetType::from("file"),
        target_ref: TargetRef::from("src/lib.rs"),
        scope: Scope::from("repo"),
    }
}

fn memory(id: &str) -> Memory {
    Memory {
        id: MemoryId::from(id),
        kind: MemoryKind::Fragment,
        intent: sig(),
        parameter_schema: ParameterSchema::default(),
        applicability: Applicability::default(),
        plan: Plan {
            steps: vec![PlanStep { description: "read".to_owned(), tool: None, intent: None }],
        },
        evidence_contract: EvidenceContract::default(),
        outcome_shape: OutcomeShape {
            result_ref: OutcomeRef::from("outcome://1"),
            schema: "s".to_owned(),
        },
        cached_outcome: None,
        provenance: Provenance::default(),
        reinforcement: Reinforcement::default(),
        version: MemoryVersion(SubtreeHash(Sha256::from("v1"))),
    }
}

fn negative(id: &str) -> Memory {
    Memory { kind: MemoryKind::Negative, ..memory(id) }
}

fn key() -> (GoalNodeId, SubtreeHash) {
    (GoalNodeId::from("node"), SubtreeHash(Sha256::from("hash")))
}

#[test]
fn a_schema_is_stamped_once_and_then_kept() {
    assert_eq!(plan_migration(0), Ok(Migration::Stamp));
    assert_eq!(plan_migration(SCHEMA_VERSION), Ok(Migration::Keep));
}

#[test]
fn an_unknown_schema_is_refused() {
    for version in [2, -1, 999] {
        let error = plan_migration(version).unwrap_err();
        assert_eq!(
            error.to_string(),
            format!(
                "sqlite schema is incompatible or migration failed: unsupported schema version \
                 {version}: this build supports version 1"
            )
        );
    }
}

#[test]
fn errors_name_their_cause() {
    let open = SqliteStoreError::Open { path: "/x".to_owned(), source: "no".to_owned() };
    assert_eq!(open.to_string(), "failed to open sqlite store at /x: no");
    assert_eq!(SqliteStoreError::Io("gone".to_owned()).to_string(), "sqlite I/O error: gone");
    assert_eq!(
        SqliteStoreError::Validation(MemoryStoreError::InvalidMemoryKind).to_string(),
        MemoryStoreError::InvalidMemoryKind.to_string()
    );
}

#[test]
fn times_survive_their_column() {
    for (time, column) in
        [(0, 0), (5, 5), (i64::MAX as u64, i64::MAX), (1 << 63, i64::MIN), (u64::MAX, -1)]
    {
        assert_eq!(to_column(Timestamp(time)), column);
        assert_eq!(from_column(column), Timestamp(time));
    }
}

#[test]
fn kinds_have_tags() {
    assert_eq!(kind_tag(MemoryKind::Fragment), "Fragment");
    assert_eq!(kind_tag(MemoryKind::Composite), "Composite");
    assert_eq!(kind_tag(MemoryKind::Negative), "Negative");
}

#[test]
fn a_row_mirrors_its_memory() {
    let row = insert_row(key(), memory("a"), Embedding(vec![7])).unwrap();
    assert_eq!(row.id, "a");
    assert_eq!(row.intent_type, "lookup");
    assert_eq!(row.target_type, "file");
    assert_eq!(row.target_ref, "src/lib.rs");
    assert_eq!(row.scope, "repo");
    assert_eq!(row.kind, "Fragment");
    assert_eq!(row.embedding, Embedding(vec![7]));
    assert_eq!(row.body, memory("a"));
    assert_eq!(row.node_id, "node");
    assert_eq!(row.subtree_hash, "hash");
    assert_eq!(
        insert_row(key(), negative("a"), Embedding(Vec::new())),
        Err(MemoryStoreError::MissingEvidenceContract)
    );
}

#[test]
fn reinforcing_a_row_counts_on() {
    let id = MemoryId::from("a");
    let change =
        reinforce_row(Some((memory("a"), 4)), &id, memory("b"), GoalNodeId::from("f")).unwrap();
    let mut body = memory("a");
    body.reinforcement =
        Reinforcement { hits: 1, confirms: 1, contradicts: 0, last_updated: Timestamp(5) };
    assert_eq!(change, RowChange::Update { body, updated_at: 5 });
    let mut candidate = memory("b");
    candidate.provenance.origins = vec![key()];
    match reinforce_row(Some((memory("a"), 4)), &id, candidate, GoalNodeId::from("f")).unwrap() {
        RowChange::Update { body, .. } => assert_eq!(body.provenance.origins, vec![key()]),
        other => panic!("expected an update, got {other:?}"),
    }
    assert_eq!(
        reinforce_row(None, &id, negative("a"), GoalNodeId::from("f")),
        Err(MemoryStoreError::MissingEvidenceContract)
    );
}

#[test]
fn reinforcing_without_a_row_adds_one() {
    let id = MemoryId::from("a");
    let fresh = GoalNodeId::from("fresh");
    match reinforce_row(None, &id, memory("b"), fresh).unwrap() {
        RowChange::Insert(row) => {
            assert_eq!(row.id, "a");
            assert_eq!(row.body.id, id);
            assert_eq!(row.node_id, "fresh");
            assert_eq!(row.subtree_hash, "v1");
        }
        other => panic!("expected a new row, got {other:?}"),
    }
}

#[test]
fn rows_that_cannot_be_read_are_passed_over() {
    let mut other = memory("c");
    other.applicability.required_scope = Some(Scope::from("elsewhere"));
    let rows = vec![Some(memory("a")), None, Some(other.clone()), Some(memory("d"))];
    assert_eq!(filter_rows(&rows, &sig()), vec![memory("a"), memory("d")]);

    let duplicates = vec![None, Some(memory("b")), Some(memory("a"))];
    assert_eq!(
        find_duplicate_row(&duplicates, &sig(), &memory("x").plan),
        Some(MemoryId::from("b"))
    );
    assert_eq!(find_duplicate_row(&duplicates, &sig(), &Plan::default()), None);
}

#[test]
fn rows_are_recalled_as_records_are() {
    let distances = [0.5_f32, 2.0, -0.25, 0.5];
    let mut store = InMemoryMemoryStore::new();
    let mut rows = Vec::new();
    for (i, d) in distances.iter().enumerate() {
        store.insert(key(), memory(&format!("m{i}"))).unwrap();
        rows.push(Some((d.to_bits(), memory(&format!("m{i}")))));
        rows.push(None);
    }
    let bits: Vec<u32> = distances.iter().map(|d| d.to_bits()).collect();
    let recalled = recall_rows(rows, 3);
    assert_eq!(recalled, vec![memory("m2"), memory("m0"), memory("m3")]);
    assert_eq!(recalled, store.ann_recall(&bits, 3));
}

#[test]
fn the_first_bad_row_fails_the_check() {
    assert_eq!(integrity_check(&vec![RowCheck::Sound, RowCheck::Sound]), Ok(()));
    let checks = vec![
        RowCheck::Sound,
        RowCheck::Malformed { id: "a".to_owned(), reason: "eof".to_owned() },
        RowCheck::Unreadable("later".to_owned()),
    ];
    let error = integrity_check(&checks).unwrap_err();
    assert_eq!(
        error.to_string(),
        "persisted memory record is corrupted or malformed: memory record a has a malformed \
         body: eof"
    );
    assert_eq!(
        integrity_check(&vec![RowCheck::Unreadable("gone".to_owned())]),
        Err(SqliteStoreError::Io("gone".to_owned()))
    );
}
