//! Which statements can be cited in a proof.

use crate::diag::Fault;
use crate::model::{named_hypothesis, prepare, Context, ProofState};
use crate::parser::{is_before, StatementAddress, NO_STATEMENT};
use crate::scopeck::Frame;
use vstd::prelude::*;

verus! {

/// Coming before is a strict order: nothing comes before itself, of two statements at most
/// one comes before the other, and what comes before something comes before all that follows
/// it.
pub proof fn law_order_strict(
    positions: Seq<usize>,
    a: StatementAddress,
    b: StatementAddress,
    c: StatementAddress,
)
    ensures
        !is_before(positions, a, a),
        !(is_before(positions, a, b) && is_before(positions, b, a)),
        is_before(positions, a, b) && is_before(positions, b, c) ==> is_before(positions, a, c),
{
}

/// Segments follow each other as a whole: all statements of a segment with a smaller
/// position come before all statements of one with a greater position, and never the other
/// way round.
pub proof fn law_order_of_segments(
    positions: Seq<usize>,
    a: StatementAddress,
    b: StatementAddress,
)
    ensures
        positions[a.segment_id as int] < positions[b.segment_id as int] ==> is_before(
            positions,
            a,
            b,
        ) && !is_before(positions, b, a),
{
}

/// In a segment, statements come in the order of their numbers, one before the other unless
/// they are the same.
pub proof fn law_order_in_segment(
    positions: Seq<usize>,
    a: StatementAddress,
    b: StatementAddress,
)
    requires
        a.segment_id == b.segment_id,
    ensures
        is_before(positions, a, b) <==> a.index < b.index,
        is_before(positions, a, b) || is_before(positions, b, a) || a.index == b.index,
{
}

/// A statement that has a frame can be cited in a proof just if it comes earlier in the
/// database, and the proof is not past the end of its scope: a scope that has an end is one
/// of a single segment, and the proof has to stand there, after its start and before its
/// end.
pub proof fn law_citable(context: Context, own: Frame, state: ProofState, label: Seq<u8>)
    requires
        context.frames.contains_key(label),
    ensures
        ({
            let cited = context.frames[label].valid;
            let here = own.valid.start;
            let there = context.positions[cited.start.segment_id as int];
            let position = context.positions[here.segment_id as int];
            &&& prepare(context, own, state, label).fault is None ==> there <= position
            &&& prepare(context, own, state, label).fault is None && there == position
                ==> cited.start.index < here.index
            &&& prepare(context, own, state, label).fault is None && cited.end != NO_STATEMENT
                ==> cited.start.segment_id == here.segment_id && cited.start.index < here.index
                < cited.end
            &&& (there < position || (there == position && cited.start.index < here.index)) && (
            cited.end == NO_STATEMENT || (cited.start.segment_id == here.segment_id && here.index
                < cited.end)) ==> prepare(context, own, state, label).fault is None
        }),
{
}

/// No two statements can be cited in proofs of each other, and none in its own.
pub proof fn law_no_circle(
    context: Context,
    left: Seq<u8>,
    right: Seq<u8>,
    a: ProofState,
    b: ProofState,
)
    requires
        context.frames.contains_key(left),
        context.frames.contains_key(right),
    ensures
        prepare(context, context.frames[left], a, right).fault is Some || prepare(
            context,
            context.frames[right],
            b,
            left,
        ).fault is Some,
{
}

/// Citing is transitive as far as the order goes: what can be cited where something can be
/// cited comes earlier in the database, so no chain of citations leads back to its start.
pub proof fn law_no_long_circle(
    context: Context,
    labels: Seq<Seq<u8>>,
    state: ProofState,
)
    requires
        labels.len() > 1,
        forall|i: int|
            0 <= i < labels.len() ==> context.frames.contains_key(#[trigger] labels[i]),
        forall|i: int|
            0 <= i < labels.len() - 1 ==> prepare(
                context,
                context.frames[#[trigger] labels[i]],
                state,
                labels[i + 1],
            ).fault is None,
    ensures
        is_before(
            context.positions,
            context.frames[labels.last()].valid.start,
            context.frames[labels[0]].valid.start,
        ),
        labels.last() != labels[0],
    decreases labels.len(),
{
    let front = labels.drop_last();
    let n = labels.len() - 1;
    let start = context.frames[labels[0]].valid.start;
    let end = context.frames[labels[n]].valid.start;
    let middle = context.frames[labels[n - 1]].valid.start;
    assert(prepare(context, context.frames[labels[n - 1]], state, labels[n - 1 + 1]).fault is None);
    assert(is_before(context.positions, end, middle));
    if n > 1 {
        assert forall|i: int| 0 <= i < front.len() implies context.frames.contains_key(
            #[trigger] front[i],
        ) by {
            assert(front[i] == labels[i]);
        }
        assert forall|i: int| 0 <= i < front.len() - 1 implies prepare(
            context,
            context.frames[#[trigger] front[i]],
            state,
            front[i + 1],
        ).fault is None by {
            assert(front[i] == labels[i] && front[i + 1] == labels[i + 1]);
        }
        law_no_long_circle(context, front, state);
        law_order_strict(context.positions, end, middle, start);
    }
    law_order_strict(context.positions, start, end, start);
}

/// What stands against citing a statement with a frame is told with its label: that it comes
/// too late, or else that its scope has ended.
pub proof fn law_refused_citation(
    context: Context,
    own: Frame,
    state: ProofState,
    label: Seq<u8>,
)
    requires
        context.frames.contains_key(label),
    ensures
        ({
            let cited = context.frames[label].valid;
            let here = own.valid.start;
            let there = context.positions[cited.start.segment_id as int];
            let position = context.positions[here.segment_id as int];
            let late = there > position || (there == position && cited.start.index >= here.index);
            let ended = cited.end != NO_STATEMENT && (cited.start.segment_id != here.segment_id
                || here.index >= cited.end);
            let fault = prepare(context, own, state, label).fault;
            &&& late ==> fault == Some(Fault::StepUsedBeforeDefinition(label))
            &&& !late && ended ==> fault == Some(Fault::StepUsedAfterScope(label))
            &&& !late && !ended ==> fault is None
        }),
{
}

/// Hypothesis `i` of the statement that is proved is a `$e` statement of the segment with the
/// given label.
pub open spec fn is_essential(context: Context, own: Frame, label: Seq<u8>, i: int) -> bool {
    let hyp = own.hypotheses@[i];
    &&& 0 <= i < own.hypotheses@.len()
    &&& hyp.variable_index is None
    &&& hyp.address.segment_id == context.id
    &&& 0 <= hyp.address.index < context.segment.statements@.len()
    &&& context.segment.statements@[hyp.address.index as int].label@ == label
}

/// The first `$e` hypothesis with a label is what a label without a frame stands for.
pub proof fn lemma_found(context: Context, own: Frame, label: Seq<u8>, from: int)
    requires
        0 <= from <= own.hypotheses@.len(),
    ensures
        match named_hypothesis(context, own, label, from) {
            Some(hyp) => exists|i: int|
                from <= i && #[trigger] is_essential(context, own, label, i) && hyp
                    == own.hypotheses@[i] && forall|j: int|
                    from <= j < i ==> !#[trigger] is_essential(context, own, label, j),
            None => forall|i: int| from <= i ==> !#[trigger] is_essential(context, own, label, i),
        },
    decreases own.hypotheses@.len() - from,
{
    if from < own.hypotheses@.len() {
        lemma_found(context, own, label, from + 1);
        if is_essential(context, own, label, from) {
            assert(named_hypothesis(context, own, label, from) == Some(own.hypotheses@[from]));
        } else {
            if let Some(hyp) = named_hypothesis(context, own, label, from + 1) {
                let i = choose|i: int|
                    from + 1 <= i && #[trigger] is_essential(context, own, label, i) && hyp
                        == own.hypotheses@[i] && forall|j: int|
                        from + 1 <= j < i ==> !#[trigger] is_essential(context, own, label, j);
                assert(is_essential(context, own, label, i));
            }
        }
    }
}

/// A label without a frame is that of the first `$e` hypothesis of the statement that has it
/// in the segment, and is missing just if none has.
pub proof fn law_named_hypothesis(
    context: Context,
    own: Frame,
    state: ProofState,
    label: Seq<u8>,
)
    requires
        !context.frames.contains_key(label),
    ensures
        match prepare(context, own, state, label).fault {
            Some(fault) => fault == Fault::StepMissing(label) && forall|i: int|
                0 <= i ==> !#[trigger] is_essential(context, own, label, i),
            None => exists|i: int|
                0 <= i && #[trigger] is_essential(context, own, label, i)
                    && named_hypothesis(context, own, label, 0) == Some(own.hypotheses@[i])
                    && forall|j: int|
                    0 <= j < i ==> !#[trigger] is_essential(context, own, label, j),
        },
{
    lemma_found(context, own, label, 0);
}

/// A scope that ends at a statement has an end, whichever statement it is: its label cannot be
/// used from there on, nor in another segment.
pub proof fn law_scope_ends(context: Context, own: Frame, state: ProofState, label: Seq<u8>)
    requires
        context.frames.contains_key(label),
        context.frames[label].valid.end >= 0,
        own.valid.start.segment_id != context.frames[label].valid.start.segment_id
            || own.valid.start.index >= context.frames[label].valid.end,
    ensures
        prepare(context, own, state, label).fault is Some,
{
}

/// A scope whose end is told by a number that no statement has, one less than that of the
/// first, has none: its label can be used in all that comes later.
pub proof fn law_scope_open(context: Context, own: Frame, state: ProofState, label: Seq<u8>)
    requires
        context.frames.contains_key(label),
        context.frames[label].valid.end == -1,
        ({
            let there = context.frames[label].valid.start;
            let here = own.valid.start;
            let position = context.positions[here.segment_id as int];
            ||| context.positions[there.segment_id as int] < position
            ||| there.segment_id == here.segment_id && there.index < here.index
        }),
    ensures
        prepare(context, own, state, label).fault is None,
{
}

} // verus!
