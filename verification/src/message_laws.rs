//! What messages and JSON strings say.

use vstd::prelude::*;

use crate::goal_model::event_log::GoalStoreErrorView;
use crate::goal_model::intent;
use crate::goal_model::intent::IntentField;
use crate::json_text;
use crate::text;
use crate::text_laws;
use crate::tier1::normalize::NormalizationErrorView;
use crate::tier1::tokens::IssueErrorView;
use crate::tier2::sqlite_store::SqliteErrorView;
use crate::tier2::store::MemoryStoreError;
use crate::tier2::summary_laws;

verus! {

proof fn lemma_says(before: Seq<char>, part: Seq<char>, after: Seq<char>)
    ensures
        summary_laws::tells(before + part + after, part),
{
    let whole = before + part + after;
    let i = before.len() as int;
    assert(whole.subrange(i, i + part.len()) =~= part);
}

proof fn lemma_ends(before: Seq<char>, part: Seq<char>)
    ensures
        summary_laws::ends_with(before + part, part),
{
    let whole = before + part;
    assert(whole.skip(whole.len() - part.len()) =~= part);
}

/// A message of the goal store ends with the name, the fields or the reason that it
/// is about; one about a conflict tells both numbers, the expected one first.
pub proof fn law_goal_store_messages(e: GoalStoreErrorView)
    ensures
        match e {
            GoalStoreErrorView::ParentNotFound(id) => summary_laws::ends_with(e.message(), id),
            GoalStoreErrorView::NodeNotFound(id) => summary_laws::ends_with(e.message(), id),
            GoalStoreErrorView::Conflict { expected, actual } => summary_laws::ends_with(
                e.message(),
                text::decimal(expected as nat) + ", found "@ + text::decimal(actual as nat)
                    + ")"@,
            ),
            GoalStoreErrorView::IntentDerivation(fields) => summary_laws::ends_with(
                e.message(),
                intent::derivation_message(fields),
            ),
            GoalStoreErrorView::Log(reason) => summary_laws::ends_with(e.message(), reason),
            _ => e.message().len() > 0,
        },
{
    match e {
        GoalStoreErrorView::ParentNotFound(id) => lemma_ends("parent node not found: "@, id),
        GoalStoreErrorView::NodeNotFound(id) => lemma_ends("goal node not found: "@, id),
        GoalStoreErrorView::Conflict { expected, actual } => {
            let head = "goal event log advanced concurrently (expected head "@;
            let tail = text::decimal(expected as nat) + ", found "@ + text::decimal(actual as nat)
                + ")"@;
            lemma_ends(head, tail);
            assert(head + tail =~= e.message());
        },
        GoalStoreErrorView::IntentDerivation(fields) => lemma_ends(
            "cannot derive intent signature: "@,
            intent::derivation_message(fields),
        ),
        GoalStoreErrorView::Log(reason) => lemma_ends("goal event log backend error: "@, reason),
        GoalStoreErrorView::EmptyHypothesis => {
            reveal_strlit("hypothesis is required and must be non-empty");
        },
        GoalStoreErrorView::OpenResolution => {
            reveal_strlit("closure requires a non-Open resolution");
        },
    }
}

/// The message on fields without a candidate ends with their names, in order and
/// with commas between them.
pub proof fn law_unresolved_fields_are_listed(fields: Seq<IntentField>)
    ensures
        summary_laws::ends_with(
            intent::derivation_message(fields),
            text::joined(
                fields.map_values(
                    |f: IntentField|
                        match f {
                            IntentField::IntentType => "intent_type"@,
                            IntentField::TargetType => "target_type"@,
                            IntentField::TargetRef => "target_ref"@,
                            IntentField::Scope => "scope"@,
                        },
                ),
                ", "@,
            ),
        ),
{
    let names = fields.map_values(
        |f: IntentField|
            match f {
                IntentField::IntentType => "intent_type"@,
                IntentField::TargetType => "target_type"@,
                IntentField::TargetRef => "target_ref"@,
                IntentField::Scope => "scope"@,
            },
    );
    assert(fields.map_values(|f: IntentField| f.named()) =~= names);
    lemma_ends("cannot derive IntentSignature: unresolved field(s): "@, text::joined(names, ", "@));
}

/// A message on dimensions tells both numbers, what was given first.
pub proof fn law_dimension_messages(e: MemoryStoreError)
    ensures
        match e {
            MemoryStoreError::EmbeddingDimensionMismatch { actual, configured } =>
                summary_laws::ends_with(
                e.message(),
                text::decimal(actual as nat) + " != configured dimension "@ + text::decimal(
                    configured as nat,
                ),
            ),
            MemoryStoreError::EmbeddingDimensionMisconfigured { writer, source } =>
                summary_laws::ends_with(
                e.message(),
                text::decimal(writer as nat) + " != source dimension "@ + text::decimal(
                    source as nat,
                ),
            ),
            _ => true,
        },
{
    match e {
        MemoryStoreError::EmbeddingDimensionMismatch { actual, configured } => {
            let head = "embedding dimension mismatch: produced vector length "@;
            let tail = text::decimal(actual as nat) + " != configured dimension "@
                + text::decimal(configured as nat);
            lemma_ends(head, tail);
            assert(head + tail =~= e.message());
        },
        MemoryStoreError::EmbeddingDimensionMisconfigured { writer, source } => {
            let head = "embedding dimension misconfigured: writer dimension "@;
            let tail = text::decimal(writer as nat) + " != source dimension "@ + text::decimal(
                source as nat,
            );
            lemma_ends(head, tail);
            assert(head + tail =~= e.message());
        },
        _ => {},
    }
}

/// A message of the database store ends with the cause; one on opening names the
/// path too, and one on a refused memory is the store's own.
pub proof fn law_database_messages(e: SqliteErrorView)
    ensures
        match e {
            SqliteErrorView::Open { path, source } => summary_laws::ends_with(
                e.message(),
                path + ": "@ + source,
            ),
            SqliteErrorView::Schema(s) => summary_laws::ends_with(e.message(), s),
            SqliteErrorView::Corruption(s) => summary_laws::ends_with(e.message(), s),
            SqliteErrorView::Io(s) => summary_laws::ends_with(e.message(), s),
            SqliteErrorView::Validation(v) => e.message() == v.message(),
        },
{
    match e {
        SqliteErrorView::Open { path, source } => {
            let head = "failed to open sqlite store at "@;
            lemma_ends(head, path + ": "@ + source);
            assert(head + (path + ": "@ + source) =~= e.message());
        },
        SqliteErrorView::Schema(s) => lemma_ends(
            "sqlite schema is incompatible or migration failed: "@,
            s,
        ),
        SqliteErrorView::Corruption(s) => lemma_ends(
            "persisted memory record is corrupted or malformed: "@,
            s,
        ),
        SqliteErrorView::Io(s) => lemma_ends("sqlite I/O error: "@, s),
        SqliteErrorView::Validation(_) => {},
    }
}

/// A message on arguments tells the number, the key or the tool that it is about; a
/// message on a source tells the content or subscription, and ends with the reason.
pub proof fn law_evidence_messages(e: NormalizationErrorView, i: IssueErrorView)
    ensures
        match e {
            NormalizationErrorView::NonCanonicalNumber { rendered } => summary_laws::tells(
                e.message(),
                rendered,
            ),
            NormalizationErrorView::DuplicateKey { key } => summary_laws::tells(e.message(), key),
            NormalizationErrorView::NotCanonicalizableForTool { tool, reason } =>
                summary_laws::tells(e.message(), tool) && summary_laws::ends_with(
                e.message(),
                reason,
            ),
        },
        match i {
            IssueErrorView::UnreadableContent { content, reason } => summary_laws::tells(
                i.message(),
                content,
            ) && summary_laws::ends_with(i.message(), reason),
            IssueErrorView::UnobservableSubscription { subscription, reason } =>
                summary_laws::tells(i.message(), subscription) && summary_laws::ends_with(
                i.message(),
                reason,
            ),
        },
{
    match e {
        NormalizationErrorView::NonCanonicalNumber { rendered } => lemma_says(
            "number `"@,
            rendered,
            "` cannot be canonicalized"@,
        ),
        NormalizationErrorView::DuplicateKey { key } => lemma_says(
            "duplicate object key `"@,
            key,
            "` cannot be canonicalized"@,
        ),
        NormalizationErrorView::NotCanonicalizableForTool { tool, reason } => {
            let head = "arguments not canonicalizable for tool `"@;
            lemma_says(head, tool, "`: "@ + reason);
            assert(head + tool + ("`: "@ + reason) =~= e.message());
            lemma_ends(head + tool + "`: "@, reason);
        },
    }
    match i {
        IssueErrorView::UnreadableContent { content, reason } => {
            let tail = "` is unreadable at issuance: "@;
            lemma_says("content `"@, content, tail + reason);
            assert("content `"@ + content + (tail + reason) =~= i.message());
            lemma_ends("content `"@ + content + tail, reason);
        },
        IssueErrorView::UnobservableSubscription { subscription, reason } => {
            let tail = "` is unobservable at issuance: "@;
            lemma_says("subscription `"@, subscription, tail + reason);
            assert("subscription `"@ + subscription + (tail + reason) =~= i.message());
            lemma_ends("subscription `"@ + subscription + tail, reason);
        },
    }
}

/// The character that a two-character escape stands for, by its second character.
pub open spec fn short_escape(c: char) -> int {
    if c == 'b' {
        8
    } else if c == 't' {
        9
    } else if c == 'n' {
        10
    } else if c == 'f' {
        12
    } else if c == 'r' {
        13
    } else {
        c as int
    }
}

/// The value of a hexadecimal digit.
pub open spec fn hex_value(c: char) -> int {
    if c as int <= '9' as int {
        c as int - '0' as int
    } else {
        c as int - 'a' as int + 10
    }
}

/// In a JSON string a quote, a backslash and every character below the space are
/// escaped, and every other character stands for itself. An escape stands for the
/// character it is written for.
pub proof fn law_escapes_stand_for_their_character(c: char)
    ensures
        ({
            let e = json_text::escape(c);
            let plain = c as int >= 32 && c != '"' && c != '\\';
            &&& plain ==> e == seq![c]
            &&& !plain ==> e[0] == '\\' && (e.len() == 2 || e.len() == 6)
            &&& !plain && e.len() == 2 ==> short_escape(e[1]) == c as int
            &&& !plain && e.len() == 6 ==> e[1] == 'u' && e[2] == '0' && e[3] == '0' && 16
                * hex_value(e[4]) + hex_value(e[5]) == c as int
            &&& forall|i: int| 0 <= i < e.len() ==> (#[trigger] e[i]) as int >= 32
        }),
{
}

/// A JSON string is its characters' escapes, in order, between quotes.
pub proof fn law_json_strings_are_quoted_escapes(c: char, rest: Seq<char>)
    ensures
        json_text::json_string(rest) == seq!['"'] + json_text::escaped(rest) + seq!['"'],
        json_text::escaped(Seq::empty()) == Seq::<char>::empty(),
        json_text::escaped(seq![c] + rest) == json_text::escape(c) + json_text::escaped(rest),
{
    assert((seq![c] + rest).drop_first() =~= rest);
}

/// The JSON of an intent is an object with its four fields, in order.
pub proof fn law_intent_json_lists_the_fields(sig: crate::types::IntentView)
    ensures
        json_text::intent_json(sig) == "{"@ + text::joined(
            seq![
                "\"intent_type\":"@ + json_text::json_string(sig.intent_type),
                "\"target_type\":"@ + json_text::json_string(sig.target_type),
                "\"target_ref\":"@ + json_text::json_string(sig.target_ref),
                "\"scope\":"@ + json_text::json_string(sig.scope),
            ],
            ","@,
        ) + "}"@,
{
    let a = "\"intent_type\":"@ + json_text::json_string(sig.intent_type);
    let b = "\"target_type\":"@ + json_text::json_string(sig.target_type);
    let c = "\"target_ref\":"@ + json_text::json_string(sig.target_ref);
    let d = "\"scope\":"@ + json_text::json_string(sig.scope);
    let comma = ","@;
    text_laws::law_joining_separates_texts(seq![a], b, comma);
    text_laws::law_joining_separates_texts(seq![a, b], c, comma);
    text_laws::law_joining_separates_texts(seq![a, b, c], d, comma);
    assert(seq![a].push(b) =~= seq![a, b]);
    assert(seq![a, b].push(c) =~= seq![a, b, c]);
    assert(seq![a, b, c].push(d) =~= seq![a, b, c, d]);
    assert(text::joined(seq![a], comma) == a);
    reveal_strlit("{\"intent_type\":");
    reveal_strlit("{");
    reveal_strlit("\"intent_type\":");
    reveal_strlit(",\"target_type\":");
    reveal_strlit("\"target_type\":");
    reveal_strlit(",\"target_ref\":");
    reveal_strlit("\"target_ref\":");
    reveal_strlit(",\"scope\":");
    reveal_strlit("\"scope\":");
    reveal_strlit(",");
    assert("{"@ + "\"intent_type\":"@ =~= "{\"intent_type\":"@);
    assert(comma + "\"target_type\":"@ =~= ",\"target_type\":"@);
    assert(comma + "\"target_ref\":"@ =~= ",\"target_ref\":"@);
    assert(comma + "\"scope\":"@ =~= ",\"scope\":"@);
    assert(json_text::intent_json(sig) =~= "{"@ + (a + comma + b + comma + c + comma + d) + "}"@);
}

} // verus!
