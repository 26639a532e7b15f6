//! Proofs step by step: which lists of labels are accepted, and what is told of the others.
//!
//! A trace has the judgements that are on the stack before and after each step.  A list of
//! labels is accepted just if it has a trace by the rules of [`crate::meaning`] that ends with
//! the statement alone; and where a trace cannot go on, what is told is why.

use crate::application::{are_values, law_misapplied, meets};
use crate::citation::{is_essential, law_named_hypothesis, law_refused_citation, lemma_found};
use crate::diag::Fault;
use crate::forms::{has_single_types, has_type, is_assertion_form};
use crate::meaning::{
    are_premises, is_cited, is_declared, is_proper, is_rule, lemma_follows, lemma_other_judgement,
    lemma_own_judgement, lemma_premises, lemma_proper, lemma_spelled, other_judgement, outcome,
    own_judgement, spelled, texts,
};
use crate::model::{
    apply, bindings, conclusion, execute, frame_fits, named_hypothesis, prepare, proof_fault, start,
    substitute, take_step, take_steps, Context, ProofState, Slot,
};
use crate::nameck::Atom;
use crate::rosters::{label_judgement, lemma_prepare_is, step_is};
use crate::scopeck::Frame;
use crate::soundness::{
    are_distinct, are_instances, denotes, follows, lemma_apply, lemma_denotes_kept,
    lemma_start_numbers, numbers_fit, own_is_sound, result, types_are_unique, usable, Judgement,
};
use crate::verify::lemma_take_steps_stops;
use vstd::prelude::*;

verus! {

/// A step by a label, from one stack of judgements to another.  `values` is what stands for
/// the variables of a rule.
pub open spec fn is_move(
    context: Context,
    own: Frame,
    label: Seq<u8>,
    before: Seq<Judgement>,
    after: Seq<Judgement>,
    values: Map<usize, Judgement>,
) -> bool {
    let frame = context.frames[label];
    let base = before.len() - frame.hypotheses@.len();
    &&& label != seq![0x3fu8]
    &&& if !context.frames.contains_key(label) {
        exists|i: int|
            #![trigger is_essential(context, own, label, i)]
            {
                &&& is_essential(context, own, label, i)
                &&& forall|j: int| 0 <= j < i ==> !#[trigger] is_essential(context, own, label, j)
                &&& after == before.push(
                    own_judgement(own, context.names, own.hypotheses@[i]),
                )
            }
    } else if !is_rule(frame) {
        is_cited(context, own, label) && after == before.push(other_judgement(frame))
    } else {
        &&& is_cited(context, own, label)
        &&& 0 <= base
        &&& are_premises(own, frame, before.skip(base), values)
        &&& after == before.take(base).push(outcome(frame, values))
    }
}

/// Stacks of judgements that steps by the given labels lead through.
pub open spec fn is_trace(
    context: Context,
    own: Frame,
    words: Seq<Seq<u8>>,
    stacks: Seq<Seq<Judgement>>,
    values: Seq<Map<usize, Judgement>>,
) -> bool {
    &&& stacks.len() == words.len() + 1
    &&& values.len() == words.len()
    &&& stacks[0].len() == 0
    &&& forall|k: int|
        0 <= k < words.len() ==> is_move(
            context,
            own,
            #[trigger] words[k],
            stacks[k],
            stacks[k + 1],
            values[k],
        )
}

/// Expressions stand for judgements, one by one.
pub open spec fn denote(
    own: Frame,
    state: ProofState,
    judgements: Seq<Judgement>,
) -> bool {
    &&& numbers_fit(own, state.bits)
    &&& state.stack.len() == judgements.len()
    &&& forall|i: int|
        0 <= i < judgements.len() ==> denotes(state.bits, #[trigger] state.stack[i], judgements[i])
}

/// What is made available for a label, and what that stands for.
proof fn lemma_ready(
    context: Context,
    own: Frame,
    state: ProofState,
    judgements: Seq<Judgement>,
    label: Seq<u8>,
)
    requires
        is_proper(context, own),
        denote(own, state, judgements),
        prepare(context, own, state, label).fault is None,
    ensures
        ({
            let ready = prepare(context, own, state, label).state;
            &&& denote(own, ready, judgements)
            &&& ready.prepared.len() > 0
            &&& step_is(context, own, ready.bits, ready.prepared.last(), label)
        }),
{
    lemma_proper(context, own);
    lemma_prepare_is(context, own, state, label);
    let ready = prepare(context, own, state, label).state;
    assert forall|i: int| 0 <= i < judgements.len() implies denotes(
        ready.bits,
        #[trigger] ready.stack[i],
        judgements[i],
    ) by {
        assert(denotes(state.bits, state.stack[i], judgements[i]));
        lemma_denotes_kept(state.bits, ready.bits, state.stack[i], judgements[i]);
    }
}

/// An expression is put on the stack.
pub proof fn lemma_pushed(
    own: Frame,
    before: ProofState,
    after: ProofState,
    judgements: Seq<Judgement>,
    slot: Slot,
    judgement: Judgement,
)
    requires
        denote(own, before, judgements),
        after.bits == before.bits,
        after.stack == before.stack.push(slot),
        denotes(before.bits, slot, judgement),
    ensures
        denote(own, after, judgements.push(judgement)),
{
    let longer = judgements.push(judgement);
    assert forall|i: int| 0 <= i < longer.len() implies denotes(
        after.bits,
        #[trigger] after.stack[i],
        longer[i],
    ) by {
        if i < judgements.len() {
            assert(after.stack[i] == before.stack[i]);
        }
    }
}

/// The top of the stack, and what it stands for.
pub proof fn lemma_top(
    own: Frame,
    frame: Frame,
    state: ProofState,
    judgements: Seq<Judgement>,
)
    requires
        own_is_ready(own, frame),
        denote(own, state, judgements),
        frame.hypotheses@.len() <= judgements.len(),
    ensures
        ({
            let base = judgements.len() - frame.hypotheses@.len();
            let slots = state.stack.skip(base);
            let premises = judgements.skip(base);
            let (stack, fault) = apply(frame, state.stack, own.optional_dv@);
            &&& are_instances(frame, premises) && are_distinct(own, frame, premises)
                <==> fault is None
            &&& are_instances(frame, premises) && !are_distinct(own, frame, premises)
                ==> fault == Some(Fault::ProofDvViolation)
            &&& fault is None ==> denote(
                own,
                ProofState { stack, ..state },
                judgements.take(base).push(result(frame, premises)),
            )
        }),
{
    let base = judgements.len() - frame.hypotheses@.len();
    let slots = state.stack.skip(base);
    let premises = judgements.skip(base);
    let count = frame.hypotheses@.len();
    assert forall|i: int| 0 <= i < slots.len() implies denotes(
        state.bits,
        #[trigger] slots[i],
        premises[i],
    ) by {
        assert(denotes(state.bits, state.stack[base + i], judgements[base + i]));
    }
    lemma_apply(own, frame, state.bits, slots, premises);
    let (stack, fault) = apply(frame, state.stack, own.optional_dv@);
    if fault is None {
        let after = ProofState { stack, ..state };
        let all = judgements.take(base).push(result(frame, premises));
        assert(stack == state.stack.take(base).push(
            conclusion(frame, bindings(frame, slots, count)),
        ));
        assert forall|i: int| 0 <= i < all.len() implies denotes(
            after.bits,
            #[trigger] after.stack[i],
            all[i],
        ) by {
            if i < base {
                assert(after.stack[i] == state.stack[i]);
                assert(denotes(state.bits, state.stack[i], judgements[i]));
            }
        }
    }
}

/// What [`lemma_top`] asks of frames.
pub open spec fn own_is_ready(own: Frame, frame: Frame) -> bool {
    &&& own_is_sound(own)
    &&& frame.can_apply()
    &&& types_are_unique(frame)
}

/// The hypothesis that a label without a frame stands for.
pub proof fn lemma_named(context: Context, own: Frame, label: Seq<u8>, i: int)
    requires
        is_essential(context, own, label, i),
        forall|j: int| 0 <= j < i ==> !#[trigger] is_essential(context, own, label, j),
    ensures
        named_hypothesis(context, own, label, 0) == Some(own.hypotheses@[i]),
{
    lemma_found(context, own, label, 0);
    if let Some(hyp) = named_hypothesis(context, own, label, 0) {
        let k = choose|k: int|
            0 <= k && #[trigger] is_essential(context, own, label, k) && hyp
                == own.hypotheses@[k] && forall|j: int|
                0 <= j < k ==> !#[trigger] is_essential(context, own, label, j);
        assert(is_essential(context, own, label, k));
        assert(k == i);
    }
}

/// A move is a step without a fault, to the stack that it leads to.
proof fn lemma_move_taken(
    context: Context,
    own: Frame,
    state: ProofState,
    label: Seq<u8>,
    before: Seq<Judgement>,
    after: Seq<Judgement>,
    values: Map<usize, Judgement>,
)
    requires
        is_proper(context, own),
        denote(own, state, before),
        is_move(context, own, label, before, after, values),
    ensures
        take_step(context, own, state, label).fault is None,
        denote(own, take_step(context, own, state, label).state, after),
{
    let frame = context.frames[label];
    let ready = prepare(context, own, state, label).state;
    lemma_proper(context, own);
    if !context.frames.contains_key(label) {
        let i = choose|i: int|
            #![trigger is_essential(context, own, label, i)]
            {
                &&& is_essential(context, own, label, i)
                &&& forall|j: int| 0 <= j < i ==> !#[trigger] is_essential(context, own, label, j)
                &&& after == before.push(
                    own_judgement(own, context.names, own.hypotheses@[i]),
                )
            };
        lemma_named(context, own, label, i);
        lemma_ready(context, own, state, before, label);
        lemma_own_judgement(own, context.names, own.hypotheses@[i]);
        let slot = ready.prepared.last()->Hyp_0;
        let run = execute(own, ready, ready.prepared.len() - 1);
        lemma_pushed(own, ready, run.state, before, slot, label_judgement(context, own, label));
    } else if !is_rule(frame) {
        lemma_ready(context, own, state, before, label);
        lemma_other_judgement(frame);
        let slot = ready.prepared.last()->Hyp_0;
        let run = execute(own, ready, ready.prepared.len() - 1);
        lemma_pushed(own, ready, run.state, before, slot, label_judgement(context, own, label));
    } else {
        lemma_ready(context, own, state, before, label);
        let base = before.len() - frame.hypotheses@.len();
        let premises = before.skip(base);
        lemma_follows(context, own, label, premises, values);
        assert(frame_fits(context.positions.len(), frame));
        lemma_top(own, frame, ready, before);
        assert(outcome(frame, values) == result(frame, premises));
    }
}

/// A step without a fault is a move.
proof fn lemma_taken_moves(
    context: Context,
    own: Frame,
    state: ProofState,
    label: Seq<u8>,
    before: Seq<Judgement>,
) -> (moved: (Seq<Judgement>, Map<usize, Judgement>))
    requires
        is_proper(context, own),
        denote(own, state, before),
        take_step(context, own, state, label).fault is None,
    ensures
        is_move(context, own, label, before, moved.0, moved.1),
        denote(own, take_step(context, own, state, label).state, moved.0),
{
    let frame = context.frames[label];
    let ready = prepare(context, own, state, label).state;
    let none = Map::<usize, Judgement>::empty();
    lemma_proper(context, own);
    lemma_ready(context, own, state, before, label);
    let run = execute(own, ready, ready.prepared.len() - 1);
    if !context.frames.contains_key(label) {
        law_named_hypothesis(context, own, state, label);
        let i = choose|i: int|
            0 <= i && #[trigger] is_essential(context, own, label, i) && named_hypothesis(
                context,
                own,
                label,
                0,
            ) == Some(own.hypotheses@[i]) && forall|j: int|
                0 <= j < i ==> !#[trigger] is_essential(context, own, label, j);
        assert(is_essential(context, own, label, i));
        lemma_own_judgement(own, context.names, own.hypotheses@[i]);
        let judgement = label_judgement(context, own, label);
        lemma_pushed(own, ready, run.state, before, ready.prepared.last()->Hyp_0, judgement);
        (before.push(judgement), none)
    } else if !is_rule(frame) {
        lemma_other_judgement(frame);
        let judgement = label_judgement(context, own, label);
        lemma_pushed(own, ready, run.state, before, ready.prepared.last()->Hyp_0, judgement);
        (before.push(judgement), none)
    } else {
        let base = before.len() - frame.hypotheses@.len();
        let premises = before.skip(base);
        assert(frame_fits(context.positions.len(), frame));
        assert(0 <= base);
        lemma_top(own, frame, ready, before);
        let judgement = result(frame, premises);
        assert(follows(context, own, label, premises, judgement));
        let values = lemma_premises(context, own, label, premises, judgement);
        (before.take(base).push(judgement), values)
    }
}

/// A trace is a run without a fault.
proof fn lemma_trace_runs(
    context: Context,
    own: Frame,
    words: Seq<Seq<u8>>,
    stacks: Seq<Seq<Judgement>>,
    values: Seq<Map<usize, Judgement>>,
)
    requires
        is_proper(context, own),
        is_trace(context, own, words, stacks, values),
    ensures
        take_steps(context, own, start(own), words).fault is None,
        denote(own, take_steps(context, own, start(own), words).state, stacks.last()),
    decreases words.len(),
{
    if words.len() == 0 {
        lemma_proper(context, own);
        lemma_start_numbers(own);
    } else {
        let front = words.drop_last();
        let n = front.len() as int;
        assert forall|k: int| 0 <= k < front.len() implies is_move(
            context,
            own,
            #[trigger] front[k],
            stacks.drop_last()[k],
            stacks.drop_last()[k + 1],
            values.drop_last()[k],
        ) by {
            assert(front[k] == words[k]);
        }
        lemma_trace_runs(context, own, front, stacks.drop_last(), values.drop_last());
        assert(is_move(context, own, words[n], stacks[n], stacks[n + 1], values[n]));
        lemma_move_taken(
            context,
            own,
            take_steps(context, own, start(own), front).state,
            words[n],
            stacks[n],
            stacks[n + 1],
            values[n],
        );
    }
}

/// A proof that lists its labels has a trace just as far as it has no fault; and where it has
/// one to its end, the verdict goes by what is left on the stack: nothing, more than one
/// judgement, one of another type or with other symbols than the statement are faults, and
/// the statement itself is none.
pub proof fn law_traced(
    context: Context,
    own: Frame,
    words: Seq<Seq<u8>>,
    stacks: Seq<Seq<Judgement>>,
    values: Seq<Map<usize, Judgement>>,
)
    requires
        is_proper(context, own),
        words.len() == 0 || words[0] != seq![0x28u8],
        is_trace(context, own, words, stacks, values),
    ensures
        ({
            let end = stacks.last();
            proof_fault(context, own, words) == if end.len() == 0 {
                Some(Fault::ProofNoSteps)
            } else if end.len() > 1 {
                Some(Fault::ProofExcessEnd)
            } else if end[0].code != own.target.typecode {
                Some(Fault::ProofWrongTypeEnd)
            } else if end[0].expr != substitute(own, own.target, spelled(own, context.names)) {
                Some(Fault::ProofWrongExprEnd)
            } else {
                None::<Fault>
            }
        }),
{
    lemma_trace_runs(context, own, words, stacks, values);
    lemma_spelled(own, context.names);
    let state = take_steps(context, own, start(own), words).state;
    if stacks.last().len() == 1 {
        assert(denotes(state.bits, state.stack[0], stacks.last()[0]));
    }
}

/// A list of labels that runs without a fault has a trace.
proof fn lemma_run_traced(context: Context, own: Frame, words: Seq<Seq<u8>>) -> (trace: (
    Seq<Seq<Judgement>>,
    Seq<Map<usize, Judgement>>,
))
    requires
        is_proper(context, own),
        take_steps(context, own, start(own), words).fault is None,
    ensures
        is_trace(context, own, words, trace.0, trace.1),
        denote(own, take_steps(context, own, start(own), words).state, trace.0.last()),
    decreases words.len(),
{
    if words.len() == 0 {
        lemma_proper(context, own);
        lemma_start_numbers(own);
        (seq![Seq::empty()], Seq::empty())
    } else {
        let front = words.drop_last();
        let n = front.len() as int;
        let (stacks, values) = lemma_run_traced(context, own, front);
        let state = take_steps(context, own, start(own), front).state;
        let (after, value) = lemma_taken_moves(context, own, state, words.last(), stacks.last());
        let all = stacks.push(after);
        let more = values.push(value);
        assert forall|k: int| 0 <= k < words.len() implies is_move(
            context,
            own,
            #[trigger] words[k],
            all[k],
            all[k + 1],
            more[k],
        ) by {
            if k < n {
                assert(front[k] == words[k]);
                assert(all[k] == stacks[k] && all[k + 1] == stacks[k + 1]);
                assert(more[k] == values[k]);
            } else {
                assert(all[k] == stacks.last());
            }
        }
        (all, more)
    }
}

/// An accepted list of labels has a trace that ends with the statement alone.
pub proof fn law_accepted_traced(context: Context, own: Frame, words: Seq<Seq<u8>>) -> (trace: (
    Seq<Seq<Judgement>>,
    Seq<Map<usize, Judgement>>,
))
    requires
        is_proper(context, own),
        words.len() == 0 || words[0] != seq![0x28u8],
        proof_fault(context, own, words) is None,
    ensures
        is_trace(context, own, words, trace.0, trace.1),
        trace.0.last().len() == 1,
        trace.0.last()[0].code == own.target.typecode,
        trace.0.last()[0].expr == substitute(own, own.target, spelled(own, context.names)),
{
    let trace = lemma_run_traced(context, own, words);
    law_traced(context, own, words, trace.0, trace.1);
    trace
}

/// Whether the judgement for hypothesis `i` is what the hypothesis asks for.
pub open spec fn suits(
    frame: Frame,
    premises: Seq<Judgement>,
    values: Map<usize, Judgement>,
    i: int,
) -> bool {
    let hyp = frame.hypotheses@[i];
    &&& premises[i].code == hyp.expr.typecode
    &&& hyp.variable_index is None ==> premises[i].expr == substitute(
        frame,
        hyp.expr,
        texts(values),
    )
}

/// Whether the judgements for `$f` hypotheses are the values of their variables.
pub open spec fn are_bound(
    frame: Frame,
    premises: Seq<Judgement>,
    values: Map<usize, Judgement>,
) -> bool {
    forall|j: int, var: usize|
        0 <= j < frame.hypotheses@.len() && (#[trigger] frame.hypotheses@[j]).variable_index
            == Some(var) ==> values.contains_key(var) && #[trigger] values[var] == premises[j]
}

/// Whether all judgements are what the hypotheses ask for.
pub open spec fn all_suit(
    frame: Frame,
    premises: Seq<Judgement>,
    values: Map<usize, Judgement>,
) -> bool {
    forall|j: int|
        0 <= j < frame.hypotheses@.len() ==> #[trigger] suits(frame, premises, values, j)
}

/// Whether judgement `i` is the first that is not what its hypothesis asks for.
pub open spec fn is_misfit(
    frame: Frame,
    premises: Seq<Judgement>,
    values: Map<usize, Judgement>,
    i: int,
) -> bool {
    &&& 0 <= i < frame.hypotheses@.len()
    &&& forall|j: int| 0 <= j < i ==> #[trigger] suits(frame, premises, values, j)
    &&& !suits(frame, premises, values, i)
}

/// Where the trace of a list of labels comes to a label by which there is no move, that is
/// its fault, and it tells why: the step is still unknown; the label is nothing's; what it
/// names comes too late, or is out of scope; there are too few judgements for its hypotheses;
/// the first that does not suit its hypothesis, by its type or by its symbols; or variables
/// that have to be distinct and are not declared so.
pub proof fn law_stopped(
    context: Context,
    own: Frame,
    words: Seq<Seq<u8>>,
    k: int,
    stacks: Seq<Seq<Judgement>>,
    traced: Seq<Map<usize, Judgement>>,
    values: Map<usize, Judgement>,
    i: int,
)
    requires
        is_proper(context, own),
        words[0] != seq![0x28u8],
        0 <= k < words.len(),
        is_trace(context, own, words.take(k), stacks, traced),
    ensures
        ({
            let label = words[k];
            let frame = context.frames[label];
            let here = own.valid.start;
            let there = context.positions[frame.valid.start.segment_id as int];
            let position = context.positions[here.segment_id as int];
            let late = there > position || (there == position && frame.valid.start.index
                >= here.index);
            let count = frame.hypotheses@.len();
            let before = stacks.last();
            let premises = before.skip(before.len() - count);
            let fault = proof_fault(context, own, words);
            if label == seq![0x3fu8] {
                fault == Some(Fault::ProofIncomplete)
            } else if !context.frames.contains_key(label) {
                (forall|n: int| 0 <= n ==> !#[trigger] is_essential(context, own, label, n))
                    ==> fault == Some(Fault::StepMissing(label))
            } else if late {
                fault == Some(Fault::StepUsedBeforeDefinition(label))
            } else if !is_cited(context, own, label) {
                fault == Some(Fault::StepUsedAfterScope(label))
            } else if !is_rule(frame) {
                true
            } else if before.len() < count {
                fault == Some(Fault::ProofUnderflow)
            } else {
                &&& are_bound(frame, premises, values) && is_misfit(frame, premises, values, i)
                    ==> fault == Some(
                    if premises[i].code == frame.hypotheses@[i].expr.typecode {
                        Fault::StepEssenWrong
                    } else if frame.hypotheses@[i].variable_index is Some {
                        Fault::StepFloatWrongType
                    } else {
                        Fault::StepEssenWrongType
                    },
                )
                &&& are_bound(frame, premises, values) && all_suit(frame, premises, values)
                    && !are_premises(own, frame, premises, values) ==> fault == Some(
                    Fault::ProofDvViolation,
                )
            }
        }),
{
    let label = words[k];
    let frame = context.frames[label];
    let before = stacks.last();
    let count = frame.hypotheses@.len();
    let state = take_steps(context, own, start(own), words.take(k)).state;
    lemma_proper(context, own);
    lemma_trace_runs(context, own, words.take(k), stacks, traced);
    assert(words.take(k + 1).drop_last() =~= words.take(k));
    assert(words.take(k + 1).last() == label);
    let run = take_step(context, own, state, label);
    assert(take_steps(context, own, start(own), words.take(k + 1)) == run);
    if run.fault is Some {
        lemma_take_steps_stops(context, own, start(own), words, k + 1);
        assert(proof_fault(context, own, words) == run.fault);
    }
    if label != seq![0x3fu8] {
        if !context.frames.contains_key(label) {
            law_named_hypothesis(context, own, state, label);
        } else {
            law_refused_citation(context, own, state, label);
            if is_cited(context, own, label) && is_rule(frame) {
                lemma_ready(context, own, state, before, label);
                let ready = prepare(context, own, state, label).state;
                assert(frame_fits(context.positions.len(), frame));
                assert(run == execute(own, ready, ready.prepared.len() - 1));
                assert(run.fault == apply(frame, ready.stack, own.optional_dv@).1);
                if count <= before.len() {
                    let premises = before.skip(before.len() - count);
                    if are_bound(frame, premises, values) {
                        lemma_alike(context, own, label, ready, before, values);
                        if is_misfit(frame, premises, values, i) {
                            lemma_misfit(context, own, label, ready, before, values, i);
                        }
                        if all_suit(frame, premises, values) && !are_premises(
                            own,
                            frame,
                            premises,
                            values,
                        ) {
                            lemma_undeclared(context, own, label, ready, before, values);
                        }
                    }
                }
            }
        }
    }
}

/// Expressions meet hypotheses just if the judgements that they stand for suit them.
proof fn lemma_alike(
    context: Context,
    own: Frame,
    label: Seq<u8>,
    state: ProofState,
    before: Seq<Judgement>,
    values: Map<usize, Judgement>,
)
    requires
        is_proper(context, own),
        denote(own, state, before),
        is_cited(context, own, label),
        is_rule(context.frames[label]),
        context.frames[label].hypotheses@.len() <= before.len(),
        are_bound(
            context.frames[label],
            before.skip(before.len() - context.frames[label].hypotheses@.len()),
            values,
        ),
    ensures
        ({
            let frame = context.frames[label];
            let count = frame.hypotheses@.len();
            let base = before.len() - count;
            let premises = before.skip(base);
            &&& is_assertion_form(frame) && has_single_types(frame)
            &&& are_values(frame, state.stack, texts(values))
            &&& forall|j: int|
                0 <= j < count ==> #[trigger] suits(frame, premises, values, j) == meets(
                    frame,
                    state.stack,
                    texts(values),
                    j,
                )
            &&& forall|j: int|
                0 <= j < count ==> state.stack[base + j].code == (#[trigger] premises[j]).code
        }),
{
    let frame = context.frames[label];
    let count = frame.hypotheses@.len();
    let base = before.len() - count;
    let premises = before.skip(base);
    let stack = state.stack;
    let symbols = texts(values);
    assert forall|j: int| 0 <= j < count implies stack[base + j].code == (
    #[trigger] premises[j]).code && stack[base + j].expr == premises[j].expr by {
        assert(denotes(state.bits, stack[base + j], before[base + j]));
    }
    assert forall|j: int, var: usize|
        0 <= j < count && (#[trigger] frame.hypotheses@[j]).variable_index == Some(
            var,
        ) implies #[trigger] symbols[var] == stack[stack.len() - count + j].expr by {
        assert(values[var] == premises[j]);
    }
    assert forall|j: int| 0 <= j < count implies #[trigger] suits(frame, premises, values, j)
        == meets(frame, stack, symbols, j) by {
        assert(stack[base + j].code == premises[j].code);
    }
}

/// What the first misfit among premises is told as.
pub proof fn lemma_misfit(
    context: Context,
    own: Frame,
    label: Seq<u8>,
    state: ProofState,
    before: Seq<Judgement>,
    values: Map<usize, Judgement>,
    i: int,
)
    requires
        is_proper(context, own),
        denote(own, state, before),
        is_cited(context, own, label),
        is_rule(context.frames[label]),
        ({
            let frame = context.frames[label];
            let premises = before.skip(before.len() - frame.hypotheses@.len());
            &&& frame.hypotheses@.len() <= before.len()
            &&& are_bound(frame, premises, values)
            &&& is_misfit(frame, premises, values, i)
        }),
    ensures
        ({
            let frame = context.frames[label];
            let premises = before.skip(before.len() - frame.hypotheses@.len());
            apply(frame, state.stack, own.optional_dv@).1 == Some(
                if premises[i].code == frame.hypotheses@[i].expr.typecode {
                    Fault::StepEssenWrong
                } else if frame.hypotheses@[i].variable_index is Some {
                    Fault::StepFloatWrongType
                } else {
                    Fault::StepEssenWrongType
                },
            )
        }),
{
    let frame = context.frames[label];
    let count = frame.hypotheses@.len();
    let premises = before.skip(before.len() - count);
    lemma_alike(context, own, label, state, before, values);
    assert forall|j: int| 0 <= j < i implies #[trigger] meets(
        frame,
        state.stack,
        texts(values),
        j,
    ) by {
        assert(suits(frame, premises, values, j));
    }
    assert(!suits(frame, premises, values, i));
    assert(!meets(frame, state.stack, texts(values), i));
    assert(state.stack[state.stack.len() - count + i].code == premises[i].code);
    law_misapplied(frame, state.stack, own.optional_dv@, texts(values), i);
}

/// What is told where only distinctness is missing.
pub proof fn lemma_undeclared(
    context: Context,
    own: Frame,
    label: Seq<u8>,
    state: ProofState,
    before: Seq<Judgement>,
    values: Map<usize, Judgement>,
)
    requires
        is_proper(context, own),
        denote(own, state, before),
        is_cited(context, own, label),
        is_rule(context.frames[label]),
        ({
            let frame = context.frames[label];
            let premises = before.skip(before.len() - frame.hypotheses@.len());
            &&& frame.hypotheses@.len() <= before.len()
            &&& are_bound(frame, premises, values)
            &&& all_suit(frame, premises, values)
            &&& !are_premises(own, frame, premises, values)
        }),
    ensures
        apply(context.frames[label], state.stack, own.optional_dv@).1 == Some(
            Fault::ProofDvViolation,
        ),
{
    let frame = context.frames[label];
    let count = frame.hypotheses@.len();
    let premises = before.skip(before.len() - count);
    lemma_proper(context, own);
    lemma_alike(context, own, label, state, before, values);
    assert forall|j: int| 0 <= j < count implies #[trigger] meets(
        frame,
        state.stack,
        texts(values),
        j,
    ) by {
        assert(suits(frame, premises, values, j));
    }
    law_misapplied(frame, state.stack, own.optional_dv@, texts(values), 0);
    if apply(frame, state.stack, own.optional_dv@).1 is None {
        assert(frame_fits(context.positions.len(), frame));
        lemma_top(own, frame, state, before);
        let judgement = result(frame, premises);
        assert(usable(context, own, label));
        assert(follows(context, own, label, premises, judgement));
        let other = lemma_premises(context, own, label, premises, judgement);
        assert forall|j: int| 0 <= j < premises.len() implies ({
            let hyp = frame.hypotheses@[j];
            &&& (#[trigger] premises[j]).code == hyp.expr.typecode
            &&& hyp.variable_index matches Some(var) ==> values.contains_key(var) && values[var]
                == premises[j]
            &&& hyp.variable_index is None ==> premises[j].expr == substitute(
                frame,
                hyp.expr,
                texts(values),
            )
        }) by {
            assert(suits(frame, premises, values, j));
            if let Some(var) = frame.hypotheses@[j].variable_index {
                assert(values[var] == premises[j]);
            }
        }
        assert forall|p: int, a: Atom, b: Atom|
            #![trigger values[frame.mandatory_dv@[p].0].vars.contains(a), values[frame.mandatory_dv@[p].1].vars.contains(b)]
            0 <= p < frame.mandatory_dv@.len() && values[frame.mandatory_dv@[p].0].vars.contains(a)
                && values[frame.mandatory_dv@[p].1].vars.contains(b) implies is_declared(
            own,
            a,
            b,
        ) by {
            let (x, y) = frame.mandatory_dv@[p];
            assert(has_type(frame, count as int, frame.mandatory_dv@[p].0));
            assert(has_type(frame, count as int, frame.mandatory_dv@[p].1));
            let m = choose|m: int|
                0 <= m < count && (#[trigger] frame.hypotheses@[m]).variable_index == Some(x);
            let n = choose|n: int|
                0 <= n < count && (#[trigger] frame.hypotheses@[n]).variable_index == Some(y);
            assert(premises[m].code == frame.hypotheses@[m].expr.typecode);
            assert(premises[n].code == frame.hypotheses@[n].expr.typecode);
            assert(values[x] == premises[m] && other[x] == premises[m]);
            assert(values[y] == premises[n] && other[y] == premises[n]);
            assert(other[frame.mandatory_dv@[p].0].vars.contains(a));
            assert(other[frame.mandatory_dv@[p].1].vars.contains(b));
        }
        assert(are_premises(own, frame, premises, values));
    }
}

} // verus!
