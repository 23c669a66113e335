//! Exact texts, digests and messages.

use halter_goals::goal_model::{
    derive_intent, subtree_hash, GoalNode, GoalStoreError, GoalTree, IntentField, IntentInput,
    Resolution,
};
use halter_goals::tier1::normalize::canonical_number;
use halter_goals::tier1::{
    issue_token, normalize_args, IssueError, Json, NormalizationError, PutRejected,
    SourceProvider, SourceUnreachable,
};
use halter_goals::types::{
    CanonicalJson, ContentRef, EventKey, EventSeq, GoalNodeId, IntentSignature, IntentType,
    OutcomeRef, Scope, Sha256, SourceDescriptor, TargetRef, TargetType, Timestamp, ToolCall,
    ToolName, ValidityToken,
};
use sha2::Digest;

fn tool() -> ToolName {
    ToolName::from("t")
}

fn text(s: &str) -> Json {
    Json::Text(s.to_owned())
}

fn double(f: f64) -> Json {
    Json::Real { bits: f.to_bits(), text: format!("{f}") }
}

fn canonical(v: &Json) -> String {
    normalize_args(&tool(), v).unwrap().0
}

struct Fixed;

impl SourceProvider for Fixed {
    fn read_content(&self, content: &ContentRef) -> Result<Vec<u8>, SourceUnreachable> {
        match content.0.as_str() {
            "abc" => Ok(b"abc".to_vec()),
            "empty" => Ok(Vec::new()),
            _ => Err(SourceUnreachable::new("gone")),
        }
    }

    fn now(&self) -> Timestamp {
        Timestamp(7)
    }

    fn latest_event_seq(&self, _subscription: &EventKey) -> Result<EventSeq, SourceUnreachable> {
        Err(SourceUnreachable::new("closed"))
    }
}

fn pinned(content: &str) -> SourceDescriptor {
    SourceDescriptor::Pinnable { content: ContentRef::from(content) }
}

#[test]
fn content_tokens_hold_the_sha256_digest() {
    assert_eq!(
        issue_token(&pinned("abc"), &Fixed),
        Ok(ValidityToken::ContentHash(Sha256::from(
            "ba7816bf8f01cfea414140de5dae2223b00361a396177a9cb410ff61f20015ad"
        )))
    );
    assert_eq!(
        issue_token(&pinned("empty"), &Fixed),
        Ok(ValidityToken::ContentHash(Sha256::from(
            "e3b0c44298fc1c149afbf4c8996fb92427ae41e4649b934ca495991b7852b855"
        )))
    );
}

#[test]
fn strings_are_escaped() {
    assert_eq!(canonical(&text("a\"b\\c\n\t\r\u{8}\u{c}\u{1}\u{1f}é\u{7f}")),
        "\"a\\\"b\\\\c\\n\\t\\r\\b\\f\\u0001\\u001fé\u{7f}\"");
    let every: String = (0u8..=127).map(char::from).collect();
    assert_eq!(canonical(&text(&every)), serde_json::to_string(&every).unwrap());
}

#[test]
fn numbers_have_one_spelling() {
    assert_eq!(canonical(&Json::Unsigned(0)), "0");
    assert_eq!(canonical(&Json::Unsigned(u64::MAX)), "18446744073709551615");
    assert_eq!(canonical(&Json::Negative(i64::MIN)), "-9223372036854775808");
    assert_eq!(canonical(&double(1.0)), "1");
    assert_eq!(canonical(&double(-3.0)), "-3");
    assert_eq!(canonical(&double(0.5)), "0.5");
    assert_eq!(canonical(&double(-0.0)), "0");
    assert_eq!(canonical(&double(1e3)), canonical(&Json::Unsigned(1000)));
    assert_eq!(canonical(&double(1.25e-3)), "0.00125");
}

#[test]
fn large_integral_doubles_fold_with_the_equal_integer() {
    let two = 2.0_f64;
    assert_eq!(canonical(&double(two.powi(60))), "1152921504606846976");
    assert_eq!(canonical(&Json::Unsigned(1 << 60)), "1152921504606846976");
    assert_ne!(canonical(&double(two.powi(60))), canonical(&Json::Unsigned(1152921504606847000)));
    assert_eq!(canonical(&double(two.powi(53))), "9007199254740992");
    assert_eq!(canonical(&double(two.powi(63))), "9223372036854775808");
    assert_eq!(canonical(&double(-two.powi(63))), canonical(&Json::Negative(i64::MIN)));
    assert_eq!(canonical(&double(two.powi(64) - 2048.0)), "18446744073709549568");
    assert_eq!(canonical(&double(two.powi(64))), "18446744073709552000");
    assert_eq!(canonical(&double(-two.powi(63) - 2048.0)), "-9223372036854778000");
}

#[test]
fn members_stand_in_key_order() {
    let object = Json::Object(vec![
        ("b".to_owned(), Json::Array(vec![Json::Null, Json::Bool(true)])),
        ("a".to_owned(), Json::Object(vec![])),
    ]);
    assert_eq!(canonical(&object), "{\"a\":{},\"b\":[null,true]}");
}

#[test]
fn faults_are_reported() {
    let twice =
        Json::Object(vec![("k".to_owned(), Json::Null), ("k".to_owned(), Json::Bool(false))]);
    let error = normalize_args(&tool(), &twice).unwrap_err();
    assert_eq!(error, NormalizationError::DuplicateKey { key: "k".to_owned() });
    assert_eq!(error.to_string(), "duplicate object key `k` cannot be canonicalized");
    let error = normalize_args(&tool(), &Json::Array(vec![double(f64::NAN)])).unwrap_err();
    assert_eq!(error.to_string(), "number `NaN` cannot be canonicalized");
    let refused = NormalizationError::NotCanonicalizableForTool {
        tool: tool(),
        reason: "no".to_owned(),
    };
    assert_eq!(refused.to_string(), "arguments not canonicalizable for tool `t`: no");
}

#[test]
fn sources_that_cannot_be_observed_are_named() {
    let error = issue_token(&pinned("x"), &Fixed).unwrap_err();
    assert_eq!(
        error,
        IssueError::UnreadableContent {
            content: ContentRef::from("x"),
            reason: "gone".to_owned()
        }
    );
    assert_eq!(error.to_string(), "content `x` is unreadable at issuance: gone");
    let signalled = SourceDescriptor::Signalled { subscription: EventKey::from("fs") };
    assert_eq!(
        issue_token(&signalled, &Fixed).unwrap_err().to_string(),
        "subscription `fs` is unobservable at issuance: closed"
    );
    assert_eq!(SourceUnreachable::new("gone").to_string(), "source unreachable: gone");
    assert_eq!(
        PutRejected.to_string(),
        "cache write rejected: validity token did not hold at write time"
    );
}

#[test]
fn refusals_of_the_goal_store_say_why() {
    let id = GoalNodeId::from("n");
    let derivation = derive_intent(&IntentInput::default()).unwrap_err();
    assert!(derivation.is_unresolved(IntentField::Scope));
    let messages = [
        (GoalStoreError::ParentNotFound(id.clone()), "parent node not found: n".to_owned()),
        (GoalStoreError::NodeNotFound(id), "goal node not found: n".to_owned()),
        (
            GoalStoreError::EmptyHypothesis,
            "hypothesis is required and must be non-empty".to_owned(),
        ),
        (GoalStoreError::OpenResolution, "closure requires a non-Open resolution".to_owned()),
        (
            GoalStoreError::Conflict { expected: 3, actual: 12 },
            "goal event log advanced concurrently (expected head 3, found 12)".to_owned(),
        ),
        (
            GoalStoreError::IntentDerivation(derivation),
            "cannot derive intent signature: cannot derive IntentSignature: unresolved \
             field(s): intent_type, target_type, target_ref, scope"
                .to_owned(),
        ),
        (
            GoalStoreError::Log("down".to_owned()),
            "goal event log backend error: down".to_owned(),
        ),
    ];
    for (error, message) in messages {
        assert_eq!(error.to_string(), message);
    }
}

fn field(out: &mut Vec<u8>, tag: u8, content: &[u8]) {
    out.push(tag);
    out.extend((content.len() as u64).to_be_bytes());
    out.extend(content);
}

#[test]
fn subtree_hashes_cover_these_bytes() {
    let leaf = GoalNode {
        id: GoalNodeId::from("leaf"),
        parent: Some(GoalNodeId::from("top")),
        children: Vec::new(),
        hypothesis: "h é".to_owned(),
        resolution_conditions: vec!["c1".to_owned(), "c2".to_owned()],
        resolution: Resolution::Accepted,
        intent: IntentSignature {
            intent_type: IntentType::from("lookup"),
            target_type: TargetType::from("file"),
            target_ref: TargetRef::from("a\"b"),
            scope: Scope::from("repo"),
        },
        tool_calls: vec![ToolCall {
            tool: ToolName::from("read"),
            normalized_args: CanonicalJson("{}".to_owned()),
            validity_token: ValidityToken::EventDriven {
                subscription: EventKey::from("fs"),
                last_seen: EventSeq(4),
            },
            outcome: OutcomeRef::from("o"),
        }],
        subtree_hash: None,
    };
    let mut call = Vec::new();
    field(&mut call, 0, b"read");
    field(&mut call, 0, b"{}");
    field(&mut call, 0, b"{\"EventDriven\":{\"subscription\":\"fs\",\"last_seen\":4}}");
    field(&mut call, 0, b"o");
    let mut bytes = Vec::new();
    field(&mut bytes, 1, "h é".as_bytes());
    bytes.push(2);
    bytes.extend(2u64.to_be_bytes());
    field(&mut bytes, 2, b"c1");
    field(&mut bytes, 2, b"c2");
    field(&mut bytes, 3, b"\"Accepted\"");
    field(
        &mut bytes,
        4,
        b"{\"intent_type\":\"lookup\",\"target_type\":\"file\",\"target_ref\":\"a\\\"b\",\"scope\":\"repo\"}",
    );
    bytes.push(5);
    bytes.extend(1u64.to_be_bytes());
    field(&mut bytes, 5, &call);
    bytes.push(6);
    bytes.extend(0u64.to_be_bytes());
    let expected = format!("{:x}", sha2::Sha256::digest(&bytes));
    assert_eq!(subtree_hash(&leaf, &GoalTree::new()).to_string(), expected);
}

#[test]
fn equal_numbers_have_one_spelling() {
    let spelled = |v: &Json| canonical_number(v).unwrap();
    assert_eq!(spelled(&Json::Unsigned(1)), "1");
    assert_eq!(spelled(&double(1.0)), "1");
    assert_eq!(spelled(&Json::Negative(-3)), "-3");
    assert_eq!(spelled(&double(-3.0)), "-3");
    assert_eq!(spelled(&double(0.5)), "0.5");
    assert_eq!(spelled(&Json::Unsigned(1_152_921_504_606_846_976)), "1152921504606846976");
    assert_eq!(spelled(&double(1_152_921_504_606_846_976.0)), "1152921504606846976");
    assert_eq!(
        canonical_number(&double(f64::INFINITY)),
        Err(NormalizationError::NonCanonicalNumber { rendered: "inf".to_owned() })
    );
}
