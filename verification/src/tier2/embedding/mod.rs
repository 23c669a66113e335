//! Vectors for intents: what text is embedded, how results are cached, and how
//! a failing backend degrades.

use vstd::prelude::*;
use vstd::string::*;

use crate::types::{IntentSignature, IntentView};

pub mod cache;
pub mod request;
pub mod settings;
pub mod source;
pub mod vector_laws;
pub mod writer;

pub use cache::{EmbeddingCache, EmbeddingCacheKey};
pub use request::{EmbeddingClient, NoEmbeddingClient};
pub use settings::{
    ResolvedEmbeddingSettings, DEFAULT_EMBEDDING_BASE_URL, MAX_EMBEDDING_MAX_ATTEMPTS,
    MIN_EMBEDDING_MAX_ATTEMPTS,
};
pub use source::OpenAiEmbeddingSource;
pub use writer::{
    insert_memory_with_writer, EmbeddingWriteError, MemoryEmbeddingWriter, WriteEmbedding,
};

verus! {

/// Stands between the fields of an embedded intent.
pub const FIELD_SEPARATOR: char = '\u{001F}';

/// Stands for a field without text.
pub const EMPTY_FIELD_PLACEHOLDER: &'static str = "";

/// The text embedded for an intent: its four fields with the separator between
/// neighbours.
pub open spec fn input_text(sig: IntentView) -> Seq<char> {
    sig.intent_type.push(FIELD_SEPARATOR) + (sig.target_type.push(FIELD_SEPARATOR) + (
    sig.target_ref.push(FIELD_SEPARATOR) + sig.scope))
}

/// The field, or the placeholder where it is empty.
fn field_or_placeholder(field: &str) -> (r: &str)
    ensures
        r@ == field@,
{
    if field.unicode_len() == 0 {
        proof {
            reveal_strlit("");
            assert(field@ =~= ""@);
        }
        EMPTY_FIELD_PLACEHOLDER
    } else {
        field
    }
}

/// The text embedded for an intent.
pub fn embedding_input_text(sig: &IntentSignature) -> (r: String)
    ensures
        r@ == input_text(sig@),
        r@.len() >= 3,
{
    let mut r = field_or_placeholder(sig.intent_type.0.as_str()).to_owned();
    r.append("\u{001F}");
    r.append(field_or_placeholder(sig.target_type.0.as_str()));
    r.append("\u{001F}");
    r.append(field_or_placeholder(sig.target_ref.0.as_str()));
    r.append("\u{001F}");
    r.append(field_or_placeholder(sig.scope.0.as_str()));
    proof {
        reveal_strlit("\u{001F}");
        assert(r@ =~= input_text(sig@));
    }
    r
}

proof fn lemma_first_field(a: Seq<char>, x: Seq<char>, b: Seq<char>, y: Seq<char>)
    requires
        !a.contains(FIELD_SEPARATOR),
        !b.contains(FIELD_SEPARATOR),
        a.push(FIELD_SEPARATOR) + x == b.push(FIELD_SEPARATOR) + y,
    ensures
        a == b,
        x == y,
{
    let l = a.push(FIELD_SEPARATOR) + x;
    let r = b.push(FIELD_SEPARATOR) + y;
    if a.len() < b.len() {
        assert(l[a.len() as int] == FIELD_SEPARATOR);
        assert(r[a.len() as int] == b[a.len() as int]);
        assert(false);
    }
    if b.len() < a.len() {
        assert(r[b.len() as int] == FIELD_SEPARATOR);
        assert(l[b.len() as int] == a[b.len() as int]);
        assert(false);
    }
    assert(l.take(a.len() as int) =~= a);
    assert(r.take(a.len() as int) =~= b);
    assert(l.skip(a.len() as int + 1) =~= x);
    assert(r.skip(a.len() as int + 1) =~= y);
}

/// Different intents have different texts, as long as no field holds the
/// separator.
pub proof fn law_input_text_is_unambiguous(a: IntentView, b: IntentView)
    requires
        !a.intent_type.contains(FIELD_SEPARATOR),
        !a.target_type.contains(FIELD_SEPARATOR),
        !a.target_ref.contains(FIELD_SEPARATOR),
        !b.intent_type.contains(FIELD_SEPARATOR),
        !b.target_type.contains(FIELD_SEPARATOR),
        !b.target_ref.contains(FIELD_SEPARATOR),
    ensures
        input_text(a) == input_text(b) <==> a == b,
{
    if input_text(a) == input_text(b) {
        let xa = a.target_ref.push(FIELD_SEPARATOR) + a.scope;
        let xb = b.target_ref.push(FIELD_SEPARATOR) + b.scope;
        let ya = a.target_type.push(FIELD_SEPARATOR) + xa;
        let yb = b.target_type.push(FIELD_SEPARATOR) + xb;
        lemma_first_field(a.intent_type, ya, b.intent_type, yb);
        lemma_first_field(a.target_type, xa, b.target_type, xb);
        lemma_first_field(a.target_ref, a.scope, b.target_ref, b.scope);
        assert(a =~= b);
    }
}

} // verus!
