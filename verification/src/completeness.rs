//! Every theorem has a proof that the checker accepts, as long as frames are what soundness
//! asks for and the hypotheses of the statement have labels to cite them by.

use crate::diag::Fault;
use crate::model::{
    apply, bindings, conclusion, final_fault, frame_fits, good, hypothesis_slot, is_compressed,
    named_hypothesis, number_vars, proof_fault, start, stub_slot, substitute, take_step, take_steps,
    variable_names, Context, ProofState, Slot, OPEN, UNKNOWN,
};
use crate::scopeck::{Frame, Hyp};
use crate::soundness::{
    denotes, derivable, follows, hypothesis_judgement, is_hypothesis, is_sound_setting, is_stub,
    is_theorem, lemma_apply, lemma_denotes_kept, lemma_hypothesis_denotes, lemma_number_vars,
    lemma_start_numbers, lemma_stub_denotes, numbers_fit, numbers_kept, Judgement,
};
use vstd::prelude::*;

verus! {

/// Whether a word can be the label of a step: it is not one of the words with a meaning
/// of their own.
pub open spec fn is_label(word: Seq<u8>) -> bool {
    word != seq![UNKNOWN] && word != seq![OPEN]
}

/// Whether a hypothesis of `own` can be referred to by a label.
pub open spec fn cites(context: Context, own: Frame, label: Seq<u8>, hyp: Hyp) -> bool {
    &&& is_label(label)
    &&& {
        ||| !context.frames.contains_key(label) && named_hypothesis(context, own, label, 0) == Some(
            hyp,
        )
        ||| is_stub(context, own, label, hypothesis_judgement(own, context.names, hyp))
    }
}

/// Whether all hypotheses of `own` can be referred to by a label, and nothing has a word
/// for a label that means something else.
pub open spec fn has_labels(context: Context, own: Frame) -> bool {
    &&& forall|label: Seq<u8>| #[trigger] context.frames.contains_key(label) ==> is_label(label)
    &&& forall|i: int|
        0 <= i < own.hypotheses@.len() ==> exists|label: Seq<u8>|
            cites(context, own, label, #[trigger] own.hypotheses@[i])
}

/// Steps can be taken in two parts.
pub proof fn law_steps_compose(
    context: Context,
    own: Frame,
    state: ProofState,
    first: Seq<Seq<u8>>,
    second: Seq<Seq<u8>>,
)
    requires
        take_steps(context, own, state, first).fault is None,
    ensures
        take_steps(context, own, state, first + second) == take_steps(
            context,
            own,
            take_steps(context, own, state, first).state,
            second,
        ),
    decreases second.len(),
{
    if second.len() == 0 {
        assert(first + second =~= first);
    } else {
        law_steps_compose(context, own, state, first, second.drop_last());
        assert((first + second).drop_last() =~= first + second.drop_last());
        assert((first + second).last() == second.last());
    }
}

/// Whether steps put expressions on the stack that stand for the given judgements, and
/// change nothing below them.
pub open spec fn builds(
    context: Context,
    own: Frame,
    state: ProofState,
    labels: Seq<Seq<u8>>,
    slots: Seq<Slot>,
    judgements: Seq<Judgement>,
) -> bool {
    let run = take_steps(context, own, state, labels);
    &&& forall|i: int| 0 <= i < labels.len() ==> is_label(#[trigger] labels[i])
    &&& run.fault is None
    &&& run.state.stack == state.stack + slots
    &&& numbers_fit(own, run.state.bits)
    &&& numbers_kept(state.bits, run.state.bits)
    &&& slots.len() == judgements.len()
    &&& forall|i: int|
        0 <= i < slots.len() ==> denotes(run.state.bits, #[trigger] slots[i], judgements[i])
}

/// A step that puts one expression on the stack.
proof fn lemma_one_step(
    context: Context,
    own: Frame,
    state: ProofState,
    label: Seq<u8>,
    slot: Slot,
    judgement: Judgement,
)
    requires
        is_label(label),
        take_step(context, own, state, label).fault is None,
        take_step(context, own, state, label).state.stack == state.stack.push(slot),
        numbers_fit(own, take_step(context, own, state, label).state.bits),
        numbers_kept(state.bits, take_step(context, own, state, label).state.bits),
        denotes(take_step(context, own, state, label).state.bits, slot, judgement),
    ensures
        builds(context, own, state, seq![label], seq![slot], seq![judgement]),
{
    let labels = seq![label];
    assert(labels.drop_last().len() == 0);
    assert(take_steps(context, own, state, labels.drop_last()) == good(state));
    assert(state.stack.push(slot) =~= state.stack + seq![slot]);
}

/// A hypothesis of `own` can be put on the stack.
proof fn lemma_build_hypothesis(
    context: Context,
    own: Frame,
    state: ProofState,
    judgement: Judgement,
) -> (built: (Seq<Seq<u8>>, Slot))
    requires
        is_sound_setting(context, own),
        has_labels(context, own),
        numbers_fit(own, state.bits),
        is_hypothesis(context, own, judgement),
    ensures
        builds(context, own, state, built.0, seq![built.1], seq![judgement]),
{
    let i = choose|i: int|
        0 <= i < own.hypotheses@.len() && judgement == hypothesis_judgement(
            own,
            context.names,
            #[trigger] own.hypotheses@[i],
        );
    let hyp = own.hypotheses@[i];
    assert(own.hypothesis_can_prove(hyp));
    let label = choose|label: Seq<u8>| cites(context, own, label, hyp);
    (seq![label], lemma_build_cited(context, own, state, label, hyp))
}

/// A hypothesis of `own` can be put on the stack by a label that it has.
pub proof fn lemma_build_cited(
    context: Context,
    own: Frame,
    state: ProofState,
    label: Seq<u8>,
    hyp: Hyp,
) -> (slot: Slot)
    requires
        is_sound_setting(context, own),
        numbers_fit(own, state.bits),
        own.hypothesis_can_prove(hyp),
        cites(context, own, label, hyp),
    ensures
        builds(
            context,
            own,
            state,
            seq![label],
            seq![slot],
            seq![hypothesis_judgement(own, context.names, hyp)],
        ),
{
    let judgement = hypothesis_judgement(own, context.names, hyp);
    if is_stub(context, own, label, judgement) {
        lemma_build_stub(context, own, state, label, judgement)
    } else {
        let slot = hypothesis_slot(own, context.names, hyp);
        lemma_hypothesis_denotes(own, context.names, state.bits, hyp);
        lemma_one_step(context, own, state, label, slot, judgement);
        slot
    }
}

/// Another hypothesis can be put on the stack.
pub proof fn lemma_build_stub(
    context: Context,
    own: Frame,
    state: ProofState,
    label: Seq<u8>,
    judgement: Judgement,
) -> (slot: Slot)
    requires
        is_sound_setting(context, own),
        is_label(label),
        numbers_fit(own, state.bits),
        is_stub(context, own, label, judgement),
    ensures
        builds(context, own, state, seq![label], seq![slot], seq![judgement]),
{
    let frame = context.frames[label];
    let bits = number_vars(state.bits, frame.var_list@);
    let slot = stub_slot(frame, bits);
    lemma_number_vars(own, state.bits, frame.var_list@);
    lemma_stub_denotes(frame, bits);
    lemma_one_step(context, own, state, label, slot, judgement);
    slot
}

/// Steps that put expressions on the stack, and more steps that put another one there.
pub proof fn lemma_build_more(
    context: Context,
    own: Frame,
    state: ProofState,
    labels: Seq<Seq<u8>>,
    slots: Seq<Slot>,
    judgements: Seq<Judgement>,
    more: Seq<Seq<u8>>,
    slot: Slot,
    judgement: Judgement,
)
    requires
        builds(context, own, state, labels, slots, judgements),
        builds(
            context,
            own,
            take_steps(context, own, state, labels).state,
            more,
            seq![slot],
            seq![judgement],
        ),
    ensures
        builds(
            context,
            own,
            state,
            labels + more,
            slots.push(slot),
            judgements.push(judgement),
        ),
{
    let middle = take_steps(context, own, state, labels).state;
    let all_labels = labels + more;
    let all_slots = slots.push(slot);
    let all_judgements = judgements.push(judgement);
    law_steps_compose(context, own, state, labels, more);
    let after = take_steps(context, own, state, all_labels).state;
    assert(after.stack =~= state.stack + all_slots);
    assert forall|i: int| 0 <= i < all_slots.len() implies denotes(
        after.bits,
        #[trigger] all_slots[i],
        all_judgements[i],
    ) by {
        if i < slots.len() {
            assert(all_slots[i] == slots[i]);
            lemma_denotes_kept(middle.bits, after.bits, slots[i], judgements[i]);
        } else {
            assert(seq![slot][0] == slot);
            assert(seq![judgement][0] == judgement);
            assert(denotes(after.bits, seq![slot][0], seq![judgement][0]));
        }
    }
}

/// Steps that put the premises of an assertion on the stack, and then the assertion.
pub proof fn lemma_build_follows(
    context: Context,
    own: Frame,
    state: ProofState,
    labels: Seq<Seq<u8>>,
    slots: Seq<Slot>,
    premises: Seq<Judgement>,
    label: Seq<u8>,
    judgement: Judgement,
) -> (slot: Slot)
    requires
        is_sound_setting(context, own),
        is_label(label),
        builds(context, own, state, labels, slots, premises),
        follows(context, own, label, premises, judgement),
    ensures
        builds(context, own, state, labels.push(label), seq![slot], seq![judgement]),
{
    let frame = context.frames[label];
    assert(frame_fits(context.positions.len(), frame));
    let middle = take_steps(context, own, state, labels).state;
    let count = frame.hypotheses@.len();
    lemma_apply(own, frame, middle.bits, slots, premises);
    let slot = conclusion(frame, bindings(frame, slots, count));
    assert(middle.stack.skip(middle.stack.len() - count) =~= slots);
    assert(middle.stack.take(middle.stack.len() - count) =~= state.stack);
    assert(apply(frame, middle.stack, own.optional_dv@) == (
        state.stack.push(slot),
        None::<Fault>,
    ));
    let run = take_step(context, own, middle, label);
    assert(run.fault is None);
    let all_labels = labels.push(label);
    assert(all_labels.drop_last() =~= labels);
    assert(take_steps(context, own, state, all_labels) == run);
    assert(run.state.stack =~= state.stack + seq![slot]);
    assert forall|i: int| 0 <= i < all_labels.len() implies is_label(#[trigger] all_labels[i]) by {
        if i < labels.len() {
            assert(all_labels[i] == labels[i]);
        }
    }
    slot
}

/// Derived judgements can be put on the stack, one after the other.
proof fn lemma_build_all(
    context: Context,
    own: Frame,
    state: ProofState,
    judgements: Seq<Judgement>,
    depth: nat,
) -> (built: (Seq<Seq<u8>>, Seq<Slot>))
    requires
        is_sound_setting(context, own),
        has_labels(context, own),
        numbers_fit(own, state.bits),
        forall|i: int|
            0 <= i < judgements.len() ==> derivable(
                context,
                own,
                #[trigger] judgements[i],
                depth,
            ),
    ensures
        builds(context, own, state, built.0, built.1, judgements),
    decreases depth, 1nat, judgements.len(),
{
    if judgements.len() == 0 {
        assert(state.stack =~= state.stack + Seq::<Slot>::empty());
        (Seq::empty(), Seq::empty())
    } else {
        let front = judgements.drop_last();
        let last = judgements.last();
        assert forall|i: int| 0 <= i < front.len() implies derivable(
            context,
            own,
            #[trigger] front[i],
            depth,
        ) by {
            assert(front[i] == judgements[i]);
        }
        let (labels, slots) = lemma_build_all(context, own, state, front, depth);
        let middle = take_steps(context, own, state, labels).state;
        assert(judgements[judgements.len() - 1] == last);
        let (more, slot) = lemma_build(context, own, middle, last, depth);
        lemma_build_more(context, own, state, labels, slots, front, more, slot, last);
        assert(front.push(last) =~= judgements);
        (labels + more, slots.push(slot))
    }
}

/// A derived judgement can be put on the stack.
proof fn lemma_build(
    context: Context,
    own: Frame,
    state: ProofState,
    judgement: Judgement,
    depth: nat,
) -> (built: (Seq<Seq<u8>>, Slot))
    requires
        is_sound_setting(context, own),
        has_labels(context, own),
        numbers_fit(own, state.bits),
        derivable(context, own, judgement, depth),
    ensures
        builds(context, own, state, built.0, seq![built.1], seq![judgement]),
    decreases depth, 0nat, 0nat,
{
    if is_hypothesis(context, own, judgement) {
        lemma_build_hypothesis(context, own, state, judgement)
    } else if exists|label: Seq<u8>| is_stub(context, own, label, judgement) {
        let label = choose|label: Seq<u8>| is_stub(context, own, label, judgement);
        (seq![label], lemma_build_stub(context, own, state, label, judgement))
    } else {
        let (label, premises) = choose|label: Seq<u8>, premises: Seq<Judgement>| #[trigger]
            follows(context, own, label, premises, judgement) && forall|i: int|
                0 <= i < premises.len() ==> derivable(
                    context,
                    own,
                    #[trigger] premises[i],
                    (depth - 1) as nat,
                );
        let (labels, slots) = lemma_build_all(context, own, state, premises, (depth - 1) as nat);
        let slot = lemma_build_follows(
            context,
            own,
            state,
            labels,
            slots,
            premises,
            label,
            judgement,
        );
        (labels.push(label), slot)
    }
}

/// Completeness: a theorem has a proof without a fault, which lists the labels of its steps.
pub proof fn law_completeness(context: Context, own: Frame) -> (words: Seq<Seq<u8>>)
    requires
        is_sound_setting(context, own),
        has_labels(context, own),
        is_theorem(context, own),
    ensures
        !is_compressed(words),
        proof_fault(context, own, words) is None,
{
    let (judgement, depth) = choose|judgement: Judgement, depth: nat|
        {
            &&& #[trigger] derivable(context, own, judgement, depth)
            &&& judgement.code == own.target.typecode
            &&& judgement.expr == substitute(
                own,
                own.target,
                variable_names(own, context.names),
            )
        };
    lemma_start_numbers(own);
    let (words, slot) = lemma_build(context, own, start(own), judgement, depth);
    let run = take_steps(context, own, start(own), words);
    assert(run.state.stack =~= seq![slot]);
    assert(denotes(run.state.bits, seq![slot][0], seq![judgement][0]));
    assert(!is_compressed(words)) by {
        if words.len() > 0 {
            assert(is_label(words[0]));
        }
    }
    words
}

/// A `$e` hypothesis that repeats what is to be proved has just its symbols, and is a
/// proof of it where the types agree too.
pub proof fn law_assumed(own: Frame, names: Seq<Seq<u8>>, hyp: Hyp)
    requires
        hyp.variable_index is None,
        hyp.expr.tail@ == own.target.tail@,
        hyp.expr.rump == own.target.rump,
    ensures
        hypothesis_slot(own, names, hyp).expr == substitute(
            own,
            own.target,
            variable_names(own, names),
        ),
        hyp.expr.typecode == own.target.typecode ==> final_fault(
            own,
            names,
            seq![hypothesis_slot(own, names, hyp)],
        ) is None,
{
}

/// Citing a `$e` hypothesis that repeats what is to be proved is a complete proof.
pub proof fn law_assumed_is_proved(context: Context, own: Frame, label: Seq<u8>, hyp: Hyp)
    requires
        is_label(label),
        !context.frames.contains_key(label),
        named_hypothesis(context, own, label, 0) == Some(hyp),
        hyp.variable_index is None,
        hyp.expr.tail@ == own.target.tail@,
        hyp.expr.rump == own.target.rump,
        hyp.expr.typecode == own.target.typecode,
    ensures
        proof_fault(context, own, seq![label]) is None,
{
    let slot = hypothesis_slot(own, context.names, hyp);
    let words = seq![label];
    law_assumed(own, context.names, hyp);
    assert(words.drop_last().len() == 0);
    assert(take_steps(context, own, start(own), words.drop_last()) == good(start(own)));
    assert(take_steps(context, own, start(own), words).state.stack =~= seq![slot]);
}

} // verus!
