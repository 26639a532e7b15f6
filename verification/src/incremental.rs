//! Outcomes of earlier checks: why they can be kept when nothing that they rest on has
//! changed.

use crate::model::{
    concat, context_fits, context_of, database_fits, decode, frame_fits, frames_fit,
    hypothesis_slot, is_compressed, is_named, is_segment, named_hypothesis, prepare, prepare_all,
    proof_fault, report_of, reports_of, roster_end, run_proof, segment_faults, segment_reads, start,
    start_compressed, statement_fault, statement_fits, statement_reads, take_step, take_steps,
    variable_names, Context, Database, ProofState, SegmentReport, UNKNOWN,
};
use crate::parser::{is_before, Segment, SegmentId, Statement, StatementAddress, StatementType};
use crate::scopeck::{status_of, still_holds, Frame, Hyp};
use crate::segment_set::SegmentRef;
use crate::verify::lemma_follow_all_reads;
use vstd::prelude::*;

verus! {

/// Whether the symbols of one list of names have the same names in another.
pub open spec fn names_kept(before: Seq<Seq<u8>>, after: Seq<Seq<u8>>) -> bool {
    before.len() <= after.len() && forall|i: int|
        0 <= i < before.len() ==> before[i] == #[trigger] after[i]
}

/// Whether segments that had a position still stand in the same order.
pub open spec fn order_kept(before: Seq<usize>, after: Seq<usize>) -> bool {
    forall|left: StatementAddress, right: StatementAddress|
        left.segment_id < before.len() && right.segment_id < before.len() ==> #[trigger] is_before(
            before,
            left,
            right,
        ) == is_before(after, left, right)
}

/// Whether two contexts have the same frame for a label.
pub open spec fn same_frame(before: Context, after: Context, label: Seq<u8>) -> bool {
    &&& before.frames.contains_key(label) == after.frames.contains_key(label)
    &&& before.frames.contains_key(label) ==> before.frames[label] == after.frames[label]
}

/// Whether two contexts have the same frames for all of the given labels.
pub open spec fn same_frames(before: Context, after: Context, labels: Set<Seq<u8>>) -> bool {
    forall|label: Seq<u8>| #[trigger] labels.contains(label) ==> same_frame(before, after, label)
}

/// Whether the statements of two segments have the same labels.
pub open spec fn labels_kept(before: Segment, after: Segment) -> bool {
    &&& before.statements@.len() == after.statements@.len()
    &&& forall|i: int|
        0 <= i < before.statements@.len() ==> (#[trigger] before.statements@[i]).label@
            == after.statements@[i].label@
}

/// Whether two contexts differ at most in their frames and in what the statements of the
/// segment are apart from their labels, and in names and segments that are new.
pub open spec fn context_kept(before: Context, after: Context) -> bool {
    &&& before.id == after.id
    &&& labels_kept(before.segment, after.segment)
    &&& names_kept(before.names, after.names)
    &&& order_kept(before.positions, after.positions)
}

/// Whether two contexts differ at most in what the statements of the segment are apart
/// from their labels, such as in the text of proofs.
pub open spec fn same_setting(before: Context, after: Context) -> bool {
    &&& before.frames == after.frames
    &&& before.names == after.names
    &&& before.positions == after.positions
    &&& before.id == after.id
    &&& labels_kept(before.segment, after.segment)
}

/// Whether a frame can be proved in a context.
pub open spec fn own_fits(context: Context, own: Frame) -> bool {
    &&& own.can_prove(context.names)
    &&& own.valid.start.segment_id < context.positions.len()
}

proof fn lemma_variable_names(before: Context, after: Context, own: Frame)
    requires
        context_kept(before, after),
        own_fits(before, own),
    ensures
        variable_names(own, before.names) == variable_names(own, after.names),
        forall|hyp: Hyp| #[trigger]
            hypothesis_slot(own, before.names, hyp) == hypothesis_slot(own, after.names, hyp),
{
    assert forall|var: usize| var < own.var_list@.len() implies
        before.names[own.var_list@[var as int] as int]
        == after.names[own.var_list@[var as int] as int] by {
        assert(own.var_list@[var as int] < before.names.len());
    }
    assert(variable_names(own, before.names) =~= variable_names(own, after.names));
}

proof fn lemma_named_hypothesis(
    before: Context,
    after: Context,
    own: Frame,
    label: Seq<u8>,
    from: int,
)
    requires
        context_kept(before, after),
    ensures
        named_hypothesis(before, own, label, from) == named_hypothesis(after, own, label, from),
    decreases own.hypotheses@.len() - from,
{
    if from < own.hypotheses@.len() {
        let hyp = own.hypotheses@[from];
        let index = hyp.address.index as int;
        if 0 <= index < before.segment.statements@.len() {
            assert(before.segment.statements@[index].label@
                == after.segment.statements@[index].label@);
        }
        assert(is_named(before, hyp, label) == is_named(after, hyp, label));
        if from + 1 <= own.hypotheses@.len() {
            lemma_named_hypothesis(before, after, own, label, from + 1);
        }
    }
}

/// Making a step available depends on the frame of its label alone.
proof fn lemma_prepare(
    before: Context,
    after: Context,
    own: Frame,
    state: ProofState,
    label: Seq<u8>,
)
    requires
        context_kept(before, after),
        frames_fit(before.positions.len(), before.frames),
        own_fits(before, own),
        same_frame(before, after, label),
    ensures
        prepare(before, own, state, label) == prepare(after, own, state, label),
        prepare(before, own, state, label).state.reads == state.reads.insert(label),
{
    lemma_variable_names(before, after, own);
    lemma_named_hypothesis(before, after, own, label, 0);
    if before.frames.contains_key(label) {
        let frame = before.frames[label];
        assert(frame_fits(before.positions.len(), frame));
        assert(is_before(before.positions, frame.valid.start, own.valid.start) == is_before(
            after.positions,
            frame.valid.start,
            own.valid.start,
        ));
    }
}

proof fn lemma_prepare_all(
    before: Context,
    after: Context,
    own: Frame,
    state: ProofState,
    labels: Seq<Seq<u8>>,
)
    requires
        context_kept(before, after),
        frames_fit(before.positions.len(), before.frames),
        own_fits(before, own),
        same_frames(before, after, prepare_all(before, own, state, labels).state.reads),
    ensures
        prepare_all(before, own, state, labels) == prepare_all(after, own, state, labels),
    decreases labels.len(),
{
    if labels.len() > 0 {
        let earlier = prepare_all(before, own, state, labels.drop_last());
        if earlier.fault is None {
            let label = labels.last();
            assert(prepare(before, own, earlier.state, label).state.reads
                == earlier.state.reads.insert(label));
            assert(earlier.state.reads.insert(label).contains(label));
            assert(same_frame(before, after, label));
            assert(same_frames(before, after, earlier.state.reads)) by {
                assert forall|other: Seq<u8>| #[trigger]
                    earlier.state.reads.contains(other) implies same_frame(
                    before,
                    after,
                    other,
                ) by {
                    assert(earlier.state.reads.insert(label).contains(other));
                }
            }
            lemma_prepare(before, after, own, earlier.state, label);
        }
        lemma_prepare_all(before, after, own, state, labels.drop_last());
    }
}

proof fn lemma_take_steps(
    before: Context,
    after: Context,
    own: Frame,
    state: ProofState,
    labels: Seq<Seq<u8>>,
)
    requires
        context_kept(before, after),
        frames_fit(before.positions.len(), before.frames),
        own_fits(before, own),
        same_frames(before, after, take_steps(before, own, state, labels).state.reads),
    ensures
        take_steps(before, own, state, labels) == take_steps(after, own, state, labels),
    decreases labels.len(),
{
    if labels.len() > 0 {
        let earlier = take_steps(before, own, state, labels.drop_last());
        if earlier.fault is None {
            let label = labels.last();
            let run = take_step(before, own, earlier.state, label);
            assert(same_frames(before, after, earlier.state.reads)) by {
                assert forall|other: Seq<u8>| #[trigger]
                    earlier.state.reads.contains(other) implies same_frame(
                    before,
                    after,
                    other,
                ) by {
                    assert(run.state.reads.contains(other));
                }
            }
            if label != seq![UNKNOWN] {
                assert(run.state.reads.contains(label));
                assert(same_frame(before, after, label));
                lemma_prepare(before, after, own, earlier.state, label);
            }
        }
        lemma_take_steps(before, after, own, state, labels.drop_last());
    }
}

/// The run of a proof depends on the frames of the labels that it looks up alone.
proof fn lemma_run_proof(before: Context, after: Context, own: Frame, words: Seq<Seq<u8>>)
    requires
        context_kept(before, after),
        frames_fit(before.positions.len(), before.frames),
        own_fits(before, own),
        same_frames(before, after, run_proof(before, own, words).state.reads),
    ensures
        run_proof(before, own, words) == run_proof(after, own, words),
        proof_fault(before, own, words) == proof_fault(after, own, words),
{
    lemma_variable_names(before, after, own);
    if is_compressed(words) {
        let first = start_compressed(own, before.names);
        assert(first.prepared =~= start_compressed(own, after.names).prepared);
        let end = roster_end(words, 1);
        let roster = prepare_all(before, own, first, words.subrange(1, end));
        if roster.fault is None && end < words.len() {
            lemma_follow_all_reads(
                own,
                roster.state,
                decode(concat(words.skip(end + 1)), 0, false),
            );
        }
        lemma_prepare_all(before, after, own, first, words.subrange(1, end));
    } else {
        lemma_take_steps(before, after, own, start(own), words);
    }
}

/// What the check of a statement finds, and what it looks up, depends on the frames of
/// the labels that it looks up alone.
pub proof fn law_statement_locality(before: Context, after: Context, statement: Statement)
    requires
        context_kept(before, after),
        frames_fit(before.positions.len(), before.frames),
        statement_fits(before, statement),
        same_frames(before, after, statement_reads(before, statement)),
    ensures
        statement_fault(after, statement) == statement_fault(before, statement),
        statement_reads(after, statement) == statement_reads(before, statement),
{
    let label = statement.label@;
    if statement.stype == StatementType::Provable {
        assert(statement_reads(before, statement).contains(label));
        assert(same_frame(before, after, label));
        if before.frames.contains_key(label) {
            let own = before.frames[label];
            let run = run_proof(before, own, statement.proof_words());
            assert(frame_fits(before.positions.len(), own));
            assert(same_frames(before, after, run.state.reads)) by {
                assert forall|other: Seq<u8>| #[trigger]
                    run.state.reads.contains(other) implies same_frame(before, after, other) by {
                    assert(statement_reads(before, statement).contains(other));
                }
            }
            lemma_run_proof(before, after, own, statement.proof_words());
        }
    }
}

/// Proofs do not depend on each other: where another proof of the segment is changed, what
/// the check of a statement finds, and what it looks up, stays the same.
pub proof fn law_one_proof_changed(before: Context, after: Context, changed: int, i: int)
    requires
        context_fits(before),
        same_setting(before, after),
        forall|k: int|
            0 <= k < before.segment.statements@.len() && k != changed
                ==> #[trigger] before.segment.statements@[k] == after.segment.statements@[k],
        0 <= i < before.segment.statements@.len(),
        i != changed,
    ensures
        statement_fault(after, after.segment.statements@[i]) == statement_fault(
            before,
            before.segment.statements@[i],
        ),
        statement_reads(after, after.segment.statements@[i]) == statement_reads(
            before,
            before.segment.statements@[i],
        ),
{
    let statement = before.segment.statements@[i];
    assert(statement_fits(before, statement));
    assert(after.segment.statements@[i] == statement);
    law_statement_locality(before, after, statement);
}

/// What the check of a segment finds, and what it looks up, depends on the frames of
/// the labels that it looks up alone.
pub proof fn law_segment_locality(before: Context, after: Context, n: nat)
    requires
        context_kept(before, after),
        before.segment == after.segment,
        context_fits(before),
        n <= before.segment.statements@.len(),
        same_frames(before, after, segment_reads(before, n)),
    ensures
        segment_faults(after, n) == segment_faults(before, n),
        segment_reads(after, n) == segment_reads(before, n),
    decreases n,
{
    if n > 0 {
        let statement = before.segment.statements@[n - 1];
        assert(statement_fits(before, statement));
        assert(same_frames(before, after, segment_reads(before, (n - 1) as nat))) by {
            assert forall|label: Seq<u8>| #[trigger]
                segment_reads(before, (n - 1) as nat).contains(label) implies same_frame(
                before,
                after,
                label,
            ) by {
                assert(segment_reads(before, n).contains(label));
            }
        }
        assert(same_frames(before, after, statement_reads(before, statement))) by {
            assert forall|label: Seq<u8>| #[trigger]
                statement_reads(before, statement).contains(label) implies same_frame(
                before,
                after,
                label,
            ) by {
                assert(segment_reads(before, n).contains(label));
            }
        }
        law_segment_locality(before, after, (n - 1) as nat);
        law_statement_locality(before, after, statement);
    }
}

/// Whether a database is a later form of another one: symbols keep their names,
/// segments their order, and frames that were replaced got another generation.
pub open spec fn carries_over(before: Database, after: Database) -> bool {
    &&& names_kept(before.names, after.names)
    &&& order_kept(before.segments.order.positions@, after.segments.order.positions@)
    &&& forall|label: Seq<u8>|
        before.scopes.frames().contains_key(label) && after.scopes.frames().contains_key(label)
            && before.scopes.status(label) == after.scopes.status(label)
            ==> #[trigger] before.scopes.frames()[label] == after.scopes.frames()[label]
}

/// An outcome can be kept where the segment is the same and the frames that were looked
/// up have the generations that they had: a new check would have the same outcome.
pub proof fn law_reuse(
    before: Database,
    after: Database,
    old_segment: SegmentRef,
    new_segment: SegmentRef,
)
    requires
        context_fits(context_of(before, old_segment)),
        carries_over(before, after),
        old_segment.id == new_segment.id,
        *old_segment.segment == *new_segment.segment,
        still_holds(report_of(before, old_segment).usage, after.scopes),
    ensures
        report_of(after, new_segment) == report_of(before, old_segment),
{
    let old_context = context_of(before, old_segment);
    let new_context = context_of(after, new_segment);
    let count = old_segment.segment.statements@.len();
    let reads = segment_reads(old_context, count);
    let usage = report_of(before, old_segment).usage;
    before.scopes.lemma_same_labels();
    after.scopes.lemma_same_labels();
    assert forall|label: Seq<u8>| #[trigger] reads.contains(label) implies same_frame(
        old_context,
        new_context,
        label,
    ) && before.scopes.status(label) == after.scopes.status(label) by {
        assert(usage.contains((label, before.scopes.status(label))));
        if before.scopes.frames().contains_key(label) {
            assert(before.scopes.frames()[label] == after.scopes.frames()[label]);
        }
    }
    law_segment_locality(old_context, new_context, count);
    assert(status_of(reads, after.scopes) =~= usage);
}

/// Whether `after` has an outcome for just the segments of a database, each of them new,
/// or one of `before` that can be kept.
pub open spec fn refreshed(
    before: Map<SegmentId, SegmentReport>,
    after: Map<SegmentId, SegmentReport>,
    database: Database,
) -> bool {
    &&& forall|id: SegmentId| #[trigger]
        after.contains_key(id) <==> exists|i: int| is_segment(database, id, i)
    &&& forall|i: int|
        0 <= i < database.segments.segments@.len() ==> is_refreshed(
            before,
            after,
            database,
            #[trigger] database.segments.segments@[i],
        )
}

/// The part of [`refreshed`] on one segment.
pub open spec fn is_refreshed(
    before: Map<SegmentId, SegmentReport>,
    after: Map<SegmentId, SegmentReport>,
    database: Database,
    segment: SegmentRef,
) -> bool {
    ||| after[segment.id] == report_of(database, segment)
    ||| {
        &&& before.contains_key(segment.id)
        &&& before[segment.id].source == *segment.segment
        &&& still_holds(before[segment.id].usage, database.scopes)
        &&& after[segment.id] == before[segment.id]
    }
}

/// A check that keeps earlier outcomes ends up with the outcome of a complete check.
pub proof fn law_incremental(
    old_database: Database,
    new_database: Database,
    before: Map<SegmentId, SegmentReport>,
    after: Map<SegmentId, SegmentReport>,
)
    requires
        database_fits(old_database),
        database_fits(new_database),
        carries_over(old_database, new_database),
        before == reports_of(old_database),
        refreshed(before, after, new_database),
    ensures
        after == reports_of(new_database),
{
    let expected = reports_of(new_database);
    assert forall|id: SegmentId| #[trigger] after.contains_key(id) implies after[id]
        == expected[id] by {
        let i = choose|i: int| is_segment(new_database, id, i);
        let segment = new_database.segments.segments@[i];
        assert(is_refreshed(before, after, new_database, segment));
        if after[id] != report_of(new_database, segment) {
            let j = choose|j: int| is_segment(old_database, id, j);
            let old_segment = old_database.segments.segments@[j];
            assert(context_fits(context_of(old_database, old_segment)));
            law_reuse(old_database, new_database, old_segment, segment);
        }
    }
    assert(after =~= expected);
}

/// A check that has nothing to keep is a complete check.
pub proof fn law_from_scratch(database: Database, after: Map<SegmentId, SegmentReport>)
    requires
        refreshed(Map::empty(), after, database),
    ensures
        after == reports_of(database),
{
    let expected = reports_of(database);
    assert forall|id: SegmentId| #[trigger] after.contains_key(id) implies after[id]
        == expected[id] by {
        let i = choose|i: int| is_segment(database, id, i);
        assert(is_refreshed(Map::empty(), after, database, database.segments.segments@[i]));
    }
    assert(after =~= expected);
}

/// A database is a later form of itself.
proof fn lemma_carries_over_itself(database: Database)
    ensures
        carries_over(database, database),
{
}

/// Checking again changes nothing: it keeps the outcome of a complete check.
pub proof fn law_repeated(
    database: Database,
    first: Map<SegmentId, SegmentReport>,
    second: Map<SegmentId, SegmentReport>,
)
    requires
        database_fits(database),
        first == reports_of(database),
        refreshed(first, second, database),
    ensures
        second == first,
{
    lemma_carries_over_itself(database);
    law_incremental(database, database, first, second);
}

/// Whatever the outcomes were before, checking again leaves outcomes for the same segments,
/// and an outcome that is not the old one is that of a new check.
pub proof fn law_repeated_anyway(
    database: Database,
    before: Map<SegmentId, SegmentReport>,
    first: Map<SegmentId, SegmentReport>,
    second: Map<SegmentId, SegmentReport>,
    i: int,
)
    requires
        refreshed(before, first, database),
        refreshed(first, second, database),
        0 <= i < database.segments.segments@.len(),
    ensures
        second.dom() == first.dom(),
        ({
            let segment = database.segments.segments@[i];
            ||| second[segment.id] == first[segment.id]
            ||| second[segment.id] == report_of(database, segment)
        }),
{
    assert forall|id: SegmentId| second.dom().contains(id) == first.dom().contains(id) by {
        assert(second.contains_key(id) == first.contains_key(id));
    }
    assert(second.dom() =~= first.dom());
    assert(is_refreshed(first, second, database, database.segments.segments@[i]));
}

} // verus!
