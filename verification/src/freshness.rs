//! When an earlier outcome can be kept, in terms of generations, and what a check looks up.

use crate::compressed::is_list;
use crate::formats::lemma_list_ends;
use crate::incremental::{is_refreshed, law_incremental, refreshed};
use crate::model::{
    concat, context_of, database_fits, decode, is_segment, prepare_all, report_of, reports_of,
    roster_end, run_proof, segment_reads, start, start_compressed, statement_reads, take_steps,
    Context, Database, ProofState, SegmentReport,
};
use crate::parser::{is_before, Segment, SegmentId, StatementAddress, StatementType};
use crate::scopeck::{still_holds, Frame, ScopeResult};
use crate::verify::{can_reuse, lemma_follow_all_reads, lemma_roster_end};
use vstd::prelude::*;

verus! {

/// An outcome can stand for the check of a segment just if there is one, it is of the same
/// segment, and each label that was looked up has the generation that it had, or still none.
pub proof fn law_kept_if(
    earlier: Option<SegmentReport>,
    same_source: bool,
    scopes: ScopeResult,
)
    ensures
        can_reuse(earlier, same_source, scopes) <==> {
            &&& same_source
            &&& earlier is Some
            &&& forall|label: Seq<u8>, generation: Option<u64>| #[trigger]
                earlier->0.usage.contains((label, generation)) ==> match generation {
                    Some(number) => scopes.generations().contains_key(label)
                        && scopes.generations()[label] == number,
                    None => !scopes.generations().contains_key(label),
                }
        },
{
    if let Some(report) = earlier {
        if same_source {
            if can_reuse(earlier, same_source, scopes) {
                assert forall|label: Seq<u8>, generation: Option<u64>| #[trigger]
                    report.usage.contains((label, generation)) implies match generation {
                    Some(number) => scopes.generations().contains_key(label)
                        && scopes.generations()[label] == number,
                    None => !scopes.generations().contains_key(label),
                } by {
                    assert(scopes.status((label, generation).0) == (label, generation).1);
                }
            }
            if forall|label: Seq<u8>, generation: Option<u64>| #[trigger]
                report.usage.contains((label, generation)) ==> match generation {
                    Some(number) => scopes.generations().contains_key(label)
                        && scopes.generations()[label] == number,
                    None => !scopes.generations().contains_key(label),
                } {
                assert forall|pair: (Seq<u8>, Option<u64>)| #[trigger]
                    report.usage.contains(pair) implies scopes.status(pair.0) == pair.1 by {
                    assert(report.usage.contains((pair.0, pair.1)));
                }
            }
        }
    }
}

/// Outcomes that were kept are those of a new check, as long as symbols keep their names,
/// segments their order, and a frame of another generation is the only way for a label to get
/// another frame.
pub proof fn law_kept_outcomes(
    old_database: Database,
    new_database: Database,
    after: Map<SegmentId, SegmentReport>,
)
    requires
        database_fits(old_database),
        database_fits(new_database),
        old_database.names.len() <= new_database.names.len(),
        forall|i: int|
            0 <= i < old_database.names.len() ==> #[trigger] new_database.names[i]
                == old_database.names[i],
        forall|a: int, b: int|
            0 <= a < old_database.segments.order.positions@.len() && 0 <= b
                < old_database.segments.order.positions@.len() ==> (
            #[trigger] old_database.segments.order.positions@[a]
                < #[trigger] old_database.segments.order.positions@[b]
                <==> new_database.segments.order.positions@[a]
                < new_database.segments.order.positions@[b]),
        forall|label: Seq<u8>|
            old_database.scopes.generations().contains_key(label)
                && new_database.scopes.generations().contains_key(label)
                && old_database.scopes.generations()[label]
                == new_database.scopes.generations()[label]
                ==> #[trigger] old_database.scopes.frames()[label]
                == new_database.scopes.frames()[label],
        refreshed(reports_of(old_database), after, new_database),
    ensures
        after == reports_of(new_database),
{
    let before = old_database.segments.order.positions@;
    let later = new_database.segments.order.positions@;
    assert forall|left: StatementAddress, right: StatementAddress|
        left.segment_id < before.len() && right.segment_id
            < before.len() implies #[trigger] is_before(before, left, right) == is_before(
        later,
        left,
        right,
    ) by {
        let a = left.segment_id as int;
        let b = right.segment_id as int;
        assert(before[a] < before[b] <==> later[a] < later[b]);
        assert(before[b] < before[a] <==> later[b] < later[a]);
    }
    old_database.scopes.lemma_same_labels();
    new_database.scopes.lemma_same_labels();
    law_incremental(old_database, new_database, reports_of(old_database), after);
}

/// Checking again leaves an outcome for just the segments of the database.  Each is that of a
/// new check; or else it is the one that was there, it is of a segment that is the same, and
/// each label that was looked up has the generation that it had, or still none.
pub proof fn law_refreshed(
    before: Map<SegmentId, SegmentReport>,
    after: Map<SegmentId, SegmentReport>,
    database: Database,
    i: int,
    id: SegmentId,
    label: Seq<u8>,
    generation: Option<u64>,
)
    requires
        refreshed(before, after, database),
        0 <= i < database.segments.segments@.len(),
    ensures
        after.contains_key(database.segments.segments@[i].id),
        after.contains_key(id) ==> exists|j: int|
            0 <= j < database.segments.segments@.len() && (
            #[trigger] database.segments.segments@[j]).id == id,
        ({
            let segment = database.segments.segments@[i];
            let scopes = database.scopes;
            ||| after[segment.id] == report_of(database, segment)
            ||| {
                &&& before.contains_key(segment.id)
                &&& after[segment.id] == before[segment.id]
                &&& before[segment.id].source == *segment.segment
                &&& before[segment.id].usage.contains((label, generation)) ==> match generation {
                    Some(number) => scopes.generations().contains_key(label)
                        && scopes.generations()[label] == number,
                    None => !scopes.generations().contains_key(label),
                }
            }
        }),
{
    let segment = database.segments.segments@[i];
    assert(is_segment(database, segment.id, i));
    if after.contains_key(id) {
        let j = choose|j: int| is_segment(database, id, j);
        assert(database.segments.segments@[j].id == id);
    }
    assert(is_refreshed(before, after, database, segment));
    if before[segment.id].usage.contains((label, generation)) {
        if still_holds(before[segment.id].usage, database.scopes) {
            assert(database.scopes.status((label, generation).0) == (label, generation).1);
        }
    }
}

// ---------------------------------------------------------------------------------
// Lookups
// ---------------------------------------------------------------------------------

/// A segment speaks of a label: it is that of a `$p` statement, or a word of its proof.
pub open spec fn speaks_of(segment: Segment, label: Seq<u8>) -> bool {
    exists|k: int|
        0 <= k < segment.statements@.len() && (#[trigger] segment.statements@[k]).stype
            == StatementType::Provable && (segment.statements@[k].label@ == label
            || segment.statements@[k].proof_words().contains(label))
}

proof fn lemma_prepare_all_reads(
    context: Context,
    own: Frame,
    state: ProofState,
    labels: Seq<Seq<u8>>,
    label: Seq<u8>,
)
    ensures
        ({
            let run = prepare_all(context, own, state, labels);
            &&& run.state.reads.contains(label) ==> state.reads.contains(label) || labels.contains(
                label,
            )
            &&& run.fault is None && labels.contains(label) ==> run.state.reads.contains(label)
            &&& state.reads.contains(label) ==> run.state.reads.contains(label)
        }),
    decreases labels.len(),
{
    if labels.len() > 0 {
        let front = labels.drop_last();
        lemma_prepare_all_reads(context, own, state, front, label);
        assert(labels[labels.len() - 1] == labels.last());
        if front.contains(label) {
            let k = choose|k: int| 0 <= k < front.len() && front[k] == label;
            assert(labels[k] == label);
        }
        if labels.contains(label) && label != labels.last() {
            let k = choose|k: int| 0 <= k < labels.len() && labels[k] == label;
            assert(front[k] == label);
        }
    }
}

proof fn lemma_take_steps_reads(
    context: Context,
    own: Frame,
    state: ProofState,
    labels: Seq<Seq<u8>>,
    label: Seq<u8>,
)
    ensures
        ({
            let run = take_steps(context, own, state, labels);
            &&& run.state.reads.contains(label) ==> state.reads.contains(label) || labels.contains(
                label,
            )
            &&& run.fault is None && labels.contains(label) ==> run.state.reads.contains(label)
            &&& state.reads.contains(label) ==> run.state.reads.contains(label)
        }),
    decreases labels.len(),
{
    if labels.len() > 0 {
        let front = labels.drop_last();
        lemma_take_steps_reads(context, own, state, front, label);
        assert(labels[labels.len() - 1] == labels.last());
        if front.contains(label) {
            let k = choose|k: int| 0 <= k < front.len() && front[k] == label;
            assert(labels[k] == label);
        }
        if labels.contains(label) && label != labels.last() {
            let k = choose|k: int| 0 <= k < labels.len() && labels[k] == label;
            assert(front[k] == label);
        }
    }
}

/// A run looks up words of the proof only.
proof fn lemma_run_reads(context: Context, own: Frame, words: Seq<Seq<u8>>, label: Seq<u8>)
    ensures
        run_proof(context, own, words).state.reads.contains(label) ==> words.contains(label),
{
    if words.len() > 0 && words[0] == seq![0x28u8] {
        let end = roster_end(words, 1);
        lemma_roster_end(words, 1);
        let labels = words.subrange(1, end);
        let first = start_compressed(own, context.names);
        let roster = prepare_all(context, own, first, labels);
        lemma_prepare_all_reads(context, own, first, labels, label);
        if roster.fault is None && end < words.len() {
            lemma_follow_all_reads(
                own,
                roster.state,
                decode(concat(words.skip(end + 1)), 0, false),
            );
        }
        if labels.contains(label) {
            let k = choose|k: int| 0 <= k < labels.len() && labels[k] == label;
            assert(words[k + 1] == label);
        }
    } else {
        lemma_take_steps_reads(context, own, start(own), words, label);
    }
}

/// A proof that is run without a fault has looked up all of its labels: all words, or those
/// of the list where it is compressed.
pub proof fn law_all_looked_up(context: Context, own: Frame, words: Seq<Seq<u8>>, end: int, k: int)
    requires
        run_proof(context, own, words).fault is None,
        0 <= k < words.len(),
        words[0] != seq![0x28u8] || (is_list(words, end) && 1 <= k < end),
    ensures
        run_proof(context, own, words).state.reads.contains(words[k]),
{
    if words[0] == seq![0x28u8] {
        let labels = words.subrange(1, end);
        let first = start_compressed(own, context.names);
        lemma_list_ends(words, 1, end);
        lemma_prepare_all_reads(context, own, first, labels, words[k]);
        lemma_follow_all_reads(
            own,
            prepare_all(context, own, first, labels).state,
            decode(concat(words.skip(end + 1)), 0, false),
        );
        assert(labels[k - 1] == words[k]);
    } else {
        lemma_take_steps_reads(context, own, start(own), words, words[k]);
        assert(words.contains(words[k]));
    }
}

proof fn lemma_segment_reads(context: Context, n: nat, label: Seq<u8>)
    requires
        n <= context.segment.statements@.len(),
    ensures
        segment_reads(context, n).contains(label) ==> speaks_of(context.segment, label),
        forall|k: int|
            0 <= k < n && (#[trigger] context.segment.statements@[k]).stype
                == StatementType::Provable && context.segment.statements@[k].label@ == label
                ==> segment_reads(context, n).contains(label),
    decreases n,
{
    if n > 0 {
        let statement = context.segment.statements@[n - 1];
        lemma_segment_reads(context, (n - 1) as nat, label);
        if statement_reads(context, statement).contains(label) {
            if context.frames.contains_key(statement.label@) {
                lemma_run_reads(
                    context,
                    context.frames[statement.label@],
                    statement.proof_words(),
                    label,
                );
            }
            assert(context.segment.statements@[n - 1].stype == StatementType::Provable);
        }
    }
}

/// The outcome for a segment notes the labels that were looked up, each with its generation,
/// or with nothing where it has no frame: the label of every `$p` statement is among them, and
/// none but such labels and words of their proofs.
pub proof fn law_noted(database: Database, i: int, label: Seq<u8>, generation: Option<u64>, k: int)
    requires
        0 <= i < database.segments.segments@.len(),
    ensures
        ({
            let segment = *database.segments.segments@[i].segment;
            let usage = report_of(database, database.segments.segments@[i]).usage;
            let now = if database.scopes.generations().contains_key(label) {
                Some(database.scopes.generations()[label])
            } else {
                None
            };
            &&& usage.contains((label, generation)) ==> generation == now && speaks_of(
                segment,
                label,
            )
            &&& 0 <= k < segment.statements@.len() && segment.statements@[k].stype
                == StatementType::Provable && segment.statements@[k].label@ == label
                ==> usage.contains((label, now))
        }),
{
    let segment = database.segments.segments@[i];
    let context = context_of(database, segment);
    lemma_segment_reads(context, segment.segment.statements@.len(), label);
}

} // verus!
