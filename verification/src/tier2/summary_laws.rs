//! What the description of a memory tells, and how many there are.

use vstd::prelude::*;

use crate::text;
use crate::tier2::memory::{AnswerMode, MemoryKind, MemoryView};
use crate::tier2::retrieval::ScoredView;
use crate::tier2::summary;
use crate::tier2::summary::SummaryConfig;

verus! {

/// Whether a text has another as a stretch of it.
pub open spec fn tells(whole: Seq<char>, part: Seq<char>) -> bool {
    exists|i: int|
        0 <= i && i + part.len() <= whole.len() && part == #[trigger] whole.subrange(
            i,
            i + part.len(),
        )
}

/// Whether a text ends with another.
pub open spec fn ends_with(whole: Seq<char>, part: Seq<char>) -> bool {
    part.len() <= whole.len() && part == whole.skip(whole.len() - part.len())
}

proof fn lemma_tells(before: Seq<char>, part: Seq<char>, after: Seq<char>)
    ensures
        tells(before + part + after, part),
{
    let whole = before + part + after;
    let i = before.len() as int;
    assert(whole.subrange(i, i + part.len()) =~= part);
}

proof fn lemma_tells_more(before: Seq<char>, whole: Seq<char>, after: Seq<char>, part: Seq<char>)
    requires
        tells(whole, part),
    ensures
        tells(before + whole + after, part),
{
    let i = choose|i: int|
        0 <= i && i + part.len() <= whole.len() && part == #[trigger] whole.subrange(
            i,
            i + part.len(),
        );
    let all = before + whole + after;
    let k = before.len() + i;
    assert(all.subrange(k, k + part.len()) =~= whole.subrange(i, i + part.len()));
}

proof fn lemma_joined_tells(parts: Seq<Seq<char>>, separator: Seq<char>, i: int)
    requires
        0 <= i < parts.len(),
    ensures
        tells(text::joined(parts, separator), parts[i]),
    decreases parts.len(),
{
    let none = Seq::<char>::empty();
    let all = text::joined(parts, separator);
    if parts.len() == 1 {
        lemma_tells(none, parts[0], none);
        assert(none + parts[0] + none =~= all);
    } else {
        let init = parts.drop_last();
        let head = text::joined(init, separator);
        if i == parts.len() - 1 {
            lemma_tells(head + separator, parts[i], none);
            assert(head + separator + parts[i] + none =~= all);
        } else {
            lemma_joined_tells(init, separator, i);
            lemma_tells_more(none, head, separator + parts.last(), parts[i]);
            assert(none + head + (separator + parts.last()) =~= all);
        }
    }
}

/// A description tells the four fields of the intent and every step of the plan, and
/// says so where there is no step.
pub proof fn law_description_tells_intent_and_steps(mem: MemoryView)
    ensures
        ({
            let did = summary::summarized(mem).did;
            &&& tells(did, mem.intent.intent_type)
            &&& tells(did, mem.intent.target_type)
            &&& tells(did, mem.intent.target_ref)
            &&& tells(did, mem.intent.scope)
            &&& forall|i: int|
                0 <= i < mem.plan.steps.len() ==> tells(
                    did,
                    (#[trigger] mem.plan.steps[i]).description,
                )
            &&& mem.plan.steps.len() == 0 ==> ends_with(did, " — no recorded steps"@)
            &&& mem.plan.steps.len() > 0 ==> ends_with(
                did,
                mem.plan.steps.last().description,
            )
        }),
{
    let did = summary::summarized(mem).did;
    let none = Seq::<char>::empty();
    let (a, b, c, d) = (
        mem.intent.intent_type,
        mem.intent.target_type,
        mem.intent.target_ref,
        mem.intent.scope,
    );
    let steps = mem.plan.steps;
    let texts = summary::step_texts(steps);
    let list = text::joined(texts, "; "@);
    let tail = if steps.len() == 0 {
        " — no recorded steps"@
    } else {
        " — steps: "@ + list
    };
    let head = a + " "@ + b + " "@ + c + " (scope: "@ + d + ")"@;
    assert(did =~= head + tail);
    lemma_tells(none, a, " "@ + b + " "@ + c + " (scope: "@ + d + ")"@ + tail);
    assert(none + a + (" "@ + b + " "@ + c + " (scope: "@ + d + ")"@ + tail) =~= did);
    lemma_tells(a + " "@, b, " "@ + c + " (scope: "@ + d + ")"@ + tail);
    assert(a + " "@ + b + (" "@ + c + " (scope: "@ + d + ")"@ + tail) =~= did);
    lemma_tells(a + " "@ + b + " "@, c, " (scope: "@ + d + ")"@ + tail);
    assert(a + " "@ + b + " "@ + c + (" (scope: "@ + d + ")"@ + tail) =~= did);
    lemma_tells(a + " "@ + b + " "@ + c + " (scope: "@, d, ")"@ + tail);
    assert(a + " "@ + b + " "@ + c + " (scope: "@ + d + (")"@ + tail) =~= did);
    if steps.len() == 0 {
        assert(did.skip(did.len() - tail.len()) =~= tail);
    } else {
        assert forall|i: int| 0 <= i < steps.len() implies tells(
            did,
            (#[trigger] steps[i]).description,
        ) by {
            lemma_joined_tells(texts, "; "@, i);
            lemma_tells_more(head + " — steps: "@, list, none, texts[i]);
            assert(head + " — steps: "@ + list + none =~= did);
            assert(texts[i] == steps[i].description);
        }
        let last = steps.last().description;
        assert(texts.last() == last);
        if texts.len() == 1 {
            assert(list == last);
        } else {
            assert(list == text::joined(texts.drop_last(), "; "@) + "; "@ + last);
        }
        assert(did.skip(did.len() - last.len()) =~= last);
    }
}

/// A conclusion tells the outcome's shape. That of a dead end calls it one; that of
/// another memory says whether an answer is cached, and of which mode.
pub proof fn law_conclusion_tells_outcome_and_answer(mem: MemoryView)
    ensures
        ({
            let said = summary::summarized(mem).concluded;
            let cached = mem.cached_outcome;
            &&& tells(said, mem.outcome_shape.schema)
            &&& summary::summarized(mem).dead_end <==> mem.kind == MemoryKind::Negative
            &&& mem.kind == MemoryKind::Negative ==> tells(said, "learned dead-end"@)
            &&& mem.kind == MemoryKind::Fragment ==> tells(said, "fragment"@)
            &&& mem.kind == MemoryKind::Composite ==> tells(said, "composite"@)
            &&& mem.kind != MemoryKind::Negative && cached is None ==> ends_with(
                said,
                "; no cached answer"@,
            )
            &&& mem.kind != MemoryKind::Negative && cached is Some && cached->0.mode
                == AnswerMode::SoundPinnable ==> ends_with(said, "(sound/pinnable)"@)
            &&& mem.kind != MemoryKind::Negative && cached is Some && cached->0.mode
                != AnswerMode::SoundPinnable ==> ends_with(said, "(bounded-volatile)"@)
        }),
{
    let said = summary::summarized(mem).concluded;
    let none = Seq::<char>::empty();
    let shape = mem.outcome_shape.schema;
    let dead = "learned dead-end: this approach did not resolve the goal (outcome shape: "@;
    let fragment = "resolved as a fragment procedure; outcome shape: "@;
    let composite = "resolved as a composite procedure; outcome shape: "@;
    let answer = summary::answer_text(mem.cached_outcome);
    reveal_strlit("learned dead-end: this approach did not resolve the goal (outcome shape: ");
    reveal_strlit("learned dead-end");
    reveal_strlit("resolved as a fragment procedure; outcome shape: ");
    reveal_strlit("fragment");
    reveal_strlit("resolved as a composite procedure; outcome shape: ");
    reveal_strlit("composite");
    match mem.kind {
        MemoryKind::Negative => {
            lemma_tells(dead, shape, ")"@);
            assert(said.subrange(0int, 0int + "learned dead-end"@.len()) =~= "learned dead-end"@);
        },
        MemoryKind::Fragment => {
            lemma_tells(fragment, shape, answer);
            assert(said.subrange(14int, 14int + "fragment"@.len()) =~= "fragment"@);
        },
        MemoryKind::Composite => {
            lemma_tells(composite, shape, answer);
            assert(said.subrange(14int, 14int + "composite"@.len()) =~= "composite"@);
        },
    }
    if mem.kind != MemoryKind::Negative {
        assert(said.skip(said.len() - answer.len()) =~= answer);
        let sound = "; a cached answer is available (sound/pinnable)"@;
        let volatile = "; a cached answer is available (bounded-volatile)"@;
        reveal_strlit("; a cached answer is available (sound/pinnable)");
        reveal_strlit("; a cached answer is available (bounded-volatile)");
        reveal_strlit("(sound/pinnable)");
        reveal_strlit("(bounded-volatile)");
        if mem.cached_outcome is Some {
            if mem.cached_outcome->0.mode == AnswerMode::SoundPinnable {
                assert(answer == sound);
                assert(said.skip(said.len() - "(sound/pinnable)"@.len()) =~= "(sound/pinnable)"@);
            } else {
                assert(answer == volatile);
                assert(said.skip(said.len() - "(bounded-volatile)"@.len())
                    =~= "(bounded-volatile)"@);
            }
        }
    }
}

/// There is one description for each memory found, in order, as far as the bound
/// goes, and none where they are switched off.
pub proof fn law_every_memory_within_the_bound_is_described(
    config: SummaryConfig,
    found: Seq<ScoredView>,
)
    ensures
        ({
            let all = summary::summaries(config, found);
            &&& !config.enabled ==> all.len() == 0
            &&& config.enabled && config.max_summaries is None ==> all.len() == found.len()
            &&& config.enabled && config.max_summaries is Some && config.max_summaries->0
                <= found.len() ==> all.len() == config.max_summaries->0
            &&& config.enabled && config.max_summaries is Some && config.max_summaries->0
                > found.len() ==> all.len() == found.len()
            &&& forall|i: int|
                0 <= i < all.len() ==> #[trigger] all[i] == summary::summarized(found[i].memory)
        }),
{
}

} // verus!
