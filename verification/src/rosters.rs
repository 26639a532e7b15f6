//! Compressed proofs say the same as the proofs that list their steps, whatever their
//! list of labels is.
//!
//! The two formats may number the variables differently, so the expressions on the two
//! stacks agree up to the numbers of their variables: they stand for the same judgements.

use crate::completeness::cites;
use crate::formats::lemma_compressed_words;
use crate::incremental::{law_statement_locality, same_setting};
use crate::letters::{encode_all, has_letters, is_orderly, law_instructions_read_back};
use crate::model::{
    bindings, conclusion, execute, final_fault, follow, follow_all, frame_fits, good, has_proof,
    hypothesis_slot, is_compressed, named_hypothesis, prepare, prepare_all, proof_fault, run_proof,
    start, start_compressed, statement_fault, take_steps, Context, Instruction, ProofState, Slot,
    Step, CLOSE, DIGITS_LIMIT, OPEN, UNKNOWN,
};
use crate::nameck::Atom;
use crate::numbering::lemma_follow_all_bits;
use crate::parser::Statement;
use crate::scopeck::Frame;
use crate::soundness::{
    denotes, hypothesis_judgement, is_sound_setting, lemma_apply, lemma_denotes_kept,
    lemma_hypothesis_denotes, lemma_named_is_own, lemma_number_vars, lemma_start_numbers,
    lemma_stub_denotes, numbers_fit, numbers_kept, result, stub_judgement, Judgement,
};
use vstd::prelude::*;

verus! {

// ---------------------------------------------------------------------------------
// Expressions that agree
// ---------------------------------------------------------------------------------

/// Whether two expressions agree up to the numbers of their variables.
pub open spec fn alike(
    left_bits: Map<Atom, usize>,
    left: Slot,
    right_bits: Map<Atom, usize>,
    right: Slot,
) -> bool {
    exists|judgement: Judgement| #[trigger]
        denotes(left_bits, left, judgement) && denotes(right_bits, right, judgement)
}

/// Whether two stacks agree up to the numbers of variables.
pub open spec fn stacks_alike(left: ProofState, right: ProofState) -> bool {
    &&& left.stack.len() == right.stack.len()
    &&& forall|i: int|
        0 <= i < left.stack.len() ==> alike(
            left.bits,
            #[trigger] left.stack[i],
            right.bits,
            right.stack[i],
        )
}

/// Whether two stacks have expressions of the same types, with the same symbols.
pub open spec fn same_text(left: Seq<Slot>, right: Seq<Slot>) -> bool {
    &&& left.len() == right.len()
    &&& forall|i: int|
        0 <= i < left.len() ==> (#[trigger] left[i]).code == right[i].code && left[i].expr
            == right[i].expr
}

/// Proofs that end with the same symbols have the same verdict.
pub proof fn lemma_same_verdict(
    own: Frame,
    names: Seq<Seq<u8>>,
    left: Seq<Slot>,
    right: Seq<Slot>,
)
    requires
        same_text(left, right),
    ensures
        final_fault(own, names, left) == final_fault(own, names, right),
{
    if left.len() > 0 {
        assert(left[0].code == right[0].code);
    }
}

/// The judgement that a hypothesis with a label stands for.
pub open spec fn label_judgement(context: Context, own: Frame, label: Seq<u8>) -> Judgement {
    if context.frames.contains_key(label) {
        stub_judgement(context.frames[label])
    } else {
        hypothesis_judgement(own, context.names, named_hypothesis(context, own, label, 0)->0)
    }
}

/// Whether a step is the one that a label stands for.
pub open spec fn step_is(
    context: Context,
    own: Frame,
    bits: Map<Atom, usize>,
    step: Step,
    label: Seq<u8>,
) -> bool {
    if context.frames.contains_key(label) && context.frames[label].is_assertion() {
        step == Step::Assert(context.frames[label])
    } else {
        step matches Step::Hyp(slot) && denotes(bits, slot, label_judgement(context, own, label))
    }
}

proof fn lemma_step_kept(
    context: Context,
    own: Frame,
    before: Map<Atom, usize>,
    after: Map<Atom, usize>,
    step: Step,
    label: Seq<u8>,
)
    requires
        numbers_kept(before, after),
        step_is(context, own, before, step, label),
    ensures
        step_is(context, own, after, step, label),
{
    if let Step::Hyp(slot) = step {
        lemma_denotes_kept(before, after, slot, label_judgement(context, own, label));
    }
}

/// What is made available for a label is the step that the label stands for.
pub proof fn lemma_prepare_is(context: Context, own: Frame, state: ProofState, label: Seq<u8>)
    requires
        is_sound_setting(context, own),
        numbers_fit(own, state.bits),
        prepare(context, own, state, label).fault is None,
    ensures
        ({
            let after = prepare(context, own, state, label).state;
            &&& numbers_fit(own, after.bits)
            &&& numbers_kept(state.bits, after.bits)
            &&& after.stack == state.stack
            &&& after.prepared.len() == state.prepared.len() + 1
            &&& after.prepared == state.prepared.push(after.prepared.last())
            &&& step_is(context, own, after.bits, after.prepared.last(), label)
        }),
{
    let after = prepare(context, own, state, label).state;
    if !context.frames.contains_key(label) {
        let hyp = named_hypothesis(context, own, label, 0)->0;
        lemma_named_is_own(context, own, label, 0);
        let i = choose|i: int|
            0 <= i < own.hypotheses@.len() && #[trigger] own.hypotheses@[i] == hyp;
        assert(own.hypothesis_can_prove(own.hypotheses@[i]));
        lemma_hypothesis_denotes(own, context.names, state.bits, hyp);
    } else {
        let frame = context.frames[label];
        if !frame.is_assertion() {
            lemma_number_vars(own, state.bits, frame.var_list@);
            lemma_stub_denotes(frame, after.bits);
        }
    }
}

/// Whether a label can be made available does not depend on what is.
proof fn lemma_prepare_anywhere(
    context: Context,
    own: Frame,
    left: ProofState,
    right: ProofState,
    label: Seq<u8>,
)
    ensures
        prepare(context, own, left, label).fault == prepare(context, own, right, label).fault,
{
}

// ---------------------------------------------------------------------------------
// The list of labels
// ---------------------------------------------------------------------------------

/// Whether a number of a compressed proof stands for a label: that of a hypothesis for a
/// label of it, that of an entry of the list for the entry.
pub open spec fn refers(
    context: Context,
    own: Frame,
    roster: Seq<Seq<u8>>,
    index: int,
    label: Seq<u8>,
) -> bool {
    let count = own.hypotheses@.len();
    if index < count {
        0 <= index && cites(context, own, label, own.hypotheses@[index])
    } else {
        index < count + roster.len() && roster[index - count] == label
    }
}

/// Whether all labels of a list can be made available.
pub open spec fn can_list(context: Context, own: Frame, roster: Seq<Seq<u8>>) -> bool {
    prepare_all(context, own, start_compressed(own, context.names), roster).fault is None
}

/// The steps of the list are those that its labels stand for.
proof fn lemma_listed(context: Context, own: Frame, roster: Seq<Seq<u8>>)
    requires
        is_sound_setting(context, own),
        can_list(context, own, roster),
    ensures
        ({
            let first = start_compressed(own, context.names);
            let state = prepare_all(context, own, first, roster).state;
            let count = own.hypotheses@.len();
            &&& numbers_fit(own, state.bits)
            &&& numbers_kept(first.bits, state.bits)
            &&& state.stack == first.stack
            &&& state.prepared.len() == count + roster.len()
            &&& forall|i: int|
                0 <= i < count ==> #[trigger] state.prepared[i] == Step::Hyp(
                    hypothesis_slot(own, context.names, own.hypotheses@[i]),
                )
            &&& forall|i: int|
                0 <= i < roster.len() ==> step_is(
                    context,
                    own,
                    state.bits,
                    state.prepared[count + i],
                    #[trigger] roster[i],
                )
            &&& forall|i: int|
                0 <= i < roster.len() ==> prepare(
                    context,
                    own,
                    first,
                    #[trigger] roster[i],
                ).fault is None
        }),
    decreases roster.len(),
{
    let first = start_compressed(own, context.names);
    let state = prepare_all(context, own, first, roster).state;
    let count = own.hypotheses@.len();
    if roster.len() == 0 {
        lemma_start_numbers(own);
    } else {
        let front = roster.drop_last();
        let earlier = prepare_all(context, own, first, front).state;
        lemma_listed(context, own, front);
        lemma_prepare_is(context, own, earlier, roster.last());
        lemma_prepare_anywhere(context, own, first, earlier, roster.last());
        assert forall|i: int| 0 <= i < count implies #[trigger] state.prepared[i] == Step::Hyp(
            hypothesis_slot(own, context.names, own.hypotheses@[i]),
        ) by {
            assert(earlier.prepared[i] == state.prepared[i]);
        }
        assert forall|i: int| 0 <= i < roster.len() implies step_is(
            context,
            own,
            state.bits,
            state.prepared[count + i],
            #[trigger] roster[i],
        ) && prepare(context, own, first, roster[i]).fault is None by {
            if i < front.len() {
                assert(front[i] == roster[i]);
                assert(earlier.prepared[count + i] == state.prepared[count + i]);
                lemma_step_kept(
                    context,
                    own,
                    earlier.bits,
                    state.bits,
                    state.prepared[count + i],
                    roster[i],
                );
            }
        }
    }
}

/// A number that stands for a label is that of the step that the label stands for, and
/// the label can be made available.
proof fn lemma_refers(
    context: Context,
    own: Frame,
    roster: Seq<Seq<u8>>,
    index: int,
    label: Seq<u8>,
    state: ProofState,
)
    requires
        is_sound_setting(context, own),
        can_list(context, own, roster),
        refers(context, own, roster, index, label),
    ensures
        ({
            let listed = prepare_all(
                context,
                own,
                start_compressed(own, context.names),
                roster,
            ).state;
            &&& 0 <= index < listed.prepared.len()
            &&& step_is(context, own, listed.bits, listed.prepared[index], label)
            &&& prepare(context, own, state, label).fault is None
        }),
{
    let first = start_compressed(own, context.names);
    let listed = prepare_all(context, own, first, roster).state;
    let count = own.hypotheses@.len();
    lemma_listed(context, own, roster);
    if index < count {
        let hyp = own.hypotheses@[index];
        assert(own.hypothesis_can_prove(hyp));
        lemma_hypothesis_denotes(own, context.names, listed.bits, hyp);
        assert(listed.prepared[index] == Step::Hyp(hypothesis_slot(own, context.names, hyp)));
    } else {
        assert(roster[index - count] == label);
        assert(listed.prepared[count + (index - count)] == listed.prepared[index]);
        lemma_prepare_anywhere(context, own, first, state, label);
    }
}

// ---------------------------------------------------------------------------------
// Steps that agree
// ---------------------------------------------------------------------------------

/// Whether stacks agree, and hold numbers that fit.
pub open spec fn states_alike(own: Frame, left: ProofState, right: ProofState) -> bool {
    &&& numbers_fit(own, left.bits)
    &&& numbers_fit(own, right.bits)
    &&& stacks_alike(left, right)
}

/// Steps for the same label have the same effect on stacks that agree.
proof fn lemma_execute_alike(
    context: Context,
    own: Frame,
    left: ProofState,
    right: ProofState,
    i: int,
    j: int,
    label: Seq<u8>,
)
    requires
        is_sound_setting(context, own),
        states_alike(own, left, right),
        0 <= i < left.prepared.len(),
        0 <= j < right.prepared.len(),
        step_is(context, own, left.bits, left.prepared[i], label),
        step_is(context, own, right.bits, right.prepared[j], label),
    ensures
        execute(own, left, i).fault is None <==> execute(own, right, j).fault is None,
        execute(own, left, i).fault is None ==> states_alike(
            own,
            execute(own, left, i).state,
            execute(own, right, j).state,
        ),
{
    let a = execute(own, left, i).state;
    let b = execute(own, right, j).state;
    if context.frames.contains_key(label) && context.frames[label].is_assertion() {
        let frame = context.frames[label];
        let count = frame.hypotheses@.len();
        assert(frame_fits(context.positions.len(), frame));
        if left.stack.len() >= count {
            let base = left.stack.len() - count;
            let first = left.stack.skip(base);
            let second = right.stack.skip(base);
            let premises = Seq::new(
                count,
                |k: int|
                    choose|judgement: Judgement| #[trigger]
                        denotes(left.bits, first[k], judgement) && denotes(
                            right.bits,
                            second[k],
                            judgement,
                        ),
            );
            assert forall|k: int| 0 <= k < count implies denotes(
                left.bits,
                #[trigger] first[k],
                premises[k],
            ) && denotes(right.bits, second[k], premises[k]) by {
                assert(first[k] == left.stack[base + k]);
                assert(second[k] == right.stack[base + k]);
                assert(alike(left.bits, left.stack[base + k], right.bits, right.stack[base + k]));
            }
            assert forall|k: int| 0 <= k < count implies denotes(
                right.bits,
                #[trigger] second[k],
                premises[k],
            ) by {
                assert(denotes(left.bits, first[k], premises[k]));
            }
            lemma_apply(own, frame, left.bits, first, premises);
            lemma_apply(own, frame, right.bits, second, premises);
            if execute(own, left, i).fault is None {
                let top = conclusion(frame, bindings(frame, first, count));
                let other = conclusion(frame, bindings(frame, second, count));
                assert(a.stack == left.stack.take(base).push(top));
                assert(b.stack == right.stack.take(base).push(other));
                assert(denotes(left.bits, top, result(frame, premises)));
                assert(alike(left.bits, top, right.bits, other));
                assert forall|k: int| 0 <= k < a.stack.len() implies alike(
                    a.bits,
                    #[trigger] a.stack[k],
                    b.bits,
                    b.stack[k],
                ) by {
                    if k < base {
                        assert(a.stack[k] == left.stack[k] && b.stack[k] == right.stack[k]);
                    }
                }
            }
        }
    } else {
        let judgement = label_judgement(context, own, label);
        assert forall|k: int| 0 <= k < a.stack.len() implies alike(
            a.bits,
            #[trigger] a.stack[k],
            b.bits,
            b.stack[k],
        ) by {
            if k < left.stack.len() {
                assert(a.stack[k] == left.stack[k] && b.stack[k] == right.stack[k]);
            } else {
                assert(denotes(a.bits, a.stack[k], judgement));
            }
        }
    }
}

/// Instructions can be carried out in two parts.
pub proof fn law_instructions_compose(
    own: Frame,
    state: ProofState,
    first: Seq<Instruction>,
    second: Seq<Instruction>,
)
    ensures
        follow_all(own, state, first + second) == {
            let run = follow_all(own, state, first);
            if run.fault is Some {
                run
            } else {
                follow_all(own, run.state, second)
            }
        },
    decreases first.len(),
{
    if first.len() == 0 {
        assert(first + second =~= second);
    } else {
        let step = follow(own, state, first[0]);
        assert((first + second)[0] == first[0]);
        assert((first + second).drop_first() =~= first.drop_first() + second);
        if step.fault is None {
            law_instructions_compose(own, step.state, first.drop_first(), second);
        }
    }
}

proof fn lemma_follow_one(own: Frame, state: ProofState, instruction: Instruction)
    ensures
        follow_all(own, state, seq![instruction]) == follow(own, state, instruction),
{
    let first = follow(own, state, instruction);
    let rest = seq![instruction].drop_first();
    assert(rest.len() == 0);
    assert(follow_all(own, first.state, rest) == good(first.state));
}

/// The instructions to take the steps with the given numbers.
pub open spec fn uses_of(indices: Seq<int>) -> Seq<Instruction> {
    indices.map_values(|index: int| Instruction::Use(index))
}

proof fn lemma_follow_keeps(own: Frame, state: ProofState, indices: Seq<int>)
    ensures
        follow_all(own, state, uses_of(indices)).state.prepared == state.prepared,
    decreases indices.len(),
{
    if indices.len() > 0 {
        assert(uses_of(indices).drop_first() =~= uses_of(indices.drop_first()));
        lemma_follow_keeps(
            own,
            follow(own, state, uses_of(indices)[0]).state,
            indices.drop_first(),
        );
    }
}

/// Steps by label and steps by number run alike.
proof fn lemma_run_alike(
    context: Context,
    own: Frame,
    roster: Seq<Seq<u8>>,
    labels: Seq<Seq<u8>>,
    indices: Seq<int>,
)
    requires
        is_sound_setting(context, own),
        can_list(context, own, roster),
        labels.len() == indices.len(),
        forall|i: int| 0 <= i < labels.len() ==> #[trigger] labels[i] != seq![UNKNOWN],
        forall|i: int|
            0 <= i < labels.len() ==> refers(
                context,
                own,
                roster,
                indices[i],
                #[trigger] labels[i],
            ),
    ensures
        ({
            let listed = prepare_all(
                context,
                own,
                start_compressed(own, context.names),
                roster,
            ).state;
            let taken = take_steps(context, own, start(own), labels);
            let followed = follow_all(own, listed, uses_of(indices));
            &&& taken.fault is None <==> followed.fault is None
            &&& taken.fault is None ==> states_alike(own, taken.state, followed.state)
        }),
    decreases labels.len(),
{
    let listed = prepare_all(context, own, start_compressed(own, context.names), roster).state;
    lemma_listed(context, own, roster);
    if labels.len() == 0 {
        lemma_start_numbers(own);
    } else {
        let front = labels.drop_last();
        let label = labels.last();
        let index = indices.last();
        let before = indices.drop_last();
        assert forall|i: int| 0 <= i < front.len() implies #[trigger] front[i] != seq![UNKNOWN]
            && refers(context, own, roster, before[i], front[i]) by {
            assert(front[i] == labels[i]);
        }
        lemma_run_alike(context, own, roster, front, before);
        let taken = take_steps(context, own, start(own), front);
        let followed = follow_all(own, listed, uses_of(before));
        let last = seq![Instruction::Use(index)];
        assert(uses_of(indices) =~= uses_of(before) + last);
        law_instructions_compose(own, listed, uses_of(before), last);
        if taken.fault is None {
            assert(labels[labels.len() - 1] == label);
            lemma_refers(context, own, roster, index, label, taken.state);
            lemma_follow_keeps(own, listed, before);
            lemma_follow_all_bits(own, listed, uses_of(before));
            lemma_prepare_is(context, own, taken.state, label);
            let ready = prepare(context, own, taken.state, label).state;
            assert(states_alike(own, ready, followed.state)) by {
                assert forall|k: int| 0 <= k < ready.stack.len() implies alike(
                    ready.bits,
                    #[trigger] ready.stack[k],
                    followed.state.bits,
                    followed.state.stack[k],
                ) by {
                    let slot = taken.state.stack[k];
                    let other = followed.state.stack[k];
                    assert(alike(taken.state.bits, slot, followed.state.bits, other));
                    let judgement = choose|judgement: Judgement| #[trigger]
                        denotes(taken.state.bits, slot, judgement) && denotes(
                            followed.state.bits,
                            other,
                            judgement,
                        );
                    lemma_denotes_kept(taken.state.bits, ready.bits, slot, judgement);
                }
            }
            lemma_execute_alike(
                context,
                own,
                ready,
                followed.state,
                ready.prepared.len() - 1,
                index,
                label,
            );
            assert(take_steps(context, own, start(own), labels) == execute(
                own,
                ready,
                ready.prepared.len() - 1,
            ));
            lemma_follow_one(own, followed.state, Instruction::Use(index));
        }
    }
}

proof fn lemma_uses_of_orderly(indices: Seq<int>, can_save: bool)
    requires
        forall|i: int| 0 <= i < indices.len() ==> 0 <= #[trigger] indices[i],
    ensures
        is_orderly(uses_of(indices), can_save),
    decreases indices.len(),
{
    if indices.len() > 0 {
        let rest = indices.drop_first();
        assert forall|i: int| 0 <= i < rest.len() implies 0 <= #[trigger] rest[i] by {
            assert(rest[i] == indices[i + 1]);
        }
        assert(0 <= indices[0]);
        lemma_uses_of_orderly(rest, true);
        assert(uses_of(indices).drop_first() =~= uses_of(rest));
    }
}

/// A compressed proof with the given list of labels that takes the steps with the given
/// numbers.
pub open spec fn compress_with(roster: Seq<Seq<u8>>, indices: Seq<int>) -> Seq<Seq<u8>> {
    seq![seq![OPEN]] + roster + seq![seq![CLOSE], encode_all(uses_of(indices))]
}

/// Whether a list has only labels of a proof.
pub open spec fn lists_only(roster: Seq<Seq<u8>>, labels: Seq<Seq<u8>>) -> bool {
    forall|i: int| 0 <= i < roster.len() ==> labels.contains(#[trigger] roster[i])
}

/// Where the labels of a list cannot all be made available, one of them cannot be.
proof fn lemma_unlisted(context: Context, own: Frame, roster: Seq<Seq<u8>>) -> (i: int)
    requires
        !can_list(context, own, roster),
    ensures
        0 <= i < roster.len(),
        prepare(context, own, start(own), roster[i]).fault is Some,
    decreases roster.len(),
{
    let front = roster.drop_last();
    let first = start_compressed(own, context.names);
    if can_list(context, own, front) {
        let earlier = prepare_all(context, own, first, front).state;
        lemma_prepare_anywhere(context, own, earlier, start(own), roster.last());
        roster.len() - 1
    } else {
        lemma_unlisted(context, own, front)
    }
}

/// The labels of a proof that runs without a fault can all be made available.
proof fn lemma_taken(context: Context, own: Frame, labels: Seq<Seq<u8>>, k: int)
    requires
        take_steps(context, own, start(own), labels).fault is None,
        0 <= k < labels.len(),
    ensures
        prepare(context, own, start(own), labels[k]).fault is None,
    decreases labels.len(),
{
    let front = labels.drop_last();
    let earlier = take_steps(context, own, start(own), front).state;
    if k < front.len() {
        lemma_taken(context, own, front, k);
    } else {
        lemma_prepare_anywhere(context, own, earlier, start(own), labels.last());
    }
}

/// The two formats accept the same proofs, whatever list a compressed proof has, as long
/// as its labels can be made available or are all labels of the other proof: if its
/// numbers stand for the labels of a proof, one runs without a fault just if the other
/// does, they then end with the same symbols, and one is accepted just if the other is.
pub proof fn law_any_roster(
    context: Context,
    own: Frame,
    roster: Seq<Seq<u8>>,
    labels: Seq<Seq<u8>>,
    indices: Seq<int>,
)
    requires
        is_sound_setting(context, own),
        can_list(context, own, roster) || lists_only(roster, labels),
        forall|i: int| 0 <= i < roster.len() ==> #[trigger] roster[i] != seq![CLOSE],
        !is_compressed(labels),
        labels.len() == indices.len(),
        forall|i: int| 0 <= i < labels.len() ==> #[trigger] labels[i] != seq![UNKNOWN],
        forall|i: int|
            0 <= i < labels.len() ==> refers(
                context,
                own,
                roster,
                indices[i],
                #[trigger] labels[i],
            ),
        forall|i: int| 0 <= i < indices.len() ==> #[trigger] indices[i] < DIGITS_LIMIT * 20,
    ensures
        ({
            let words = compress_with(roster, indices);
            let plain = run_proof(context, own, labels);
            let compressed = run_proof(context, own, words);
            &&& is_compressed(words)
            &&& plain.fault is None <==> compressed.fault is None
            &&& plain.fault is None ==> same_text(plain.state.stack, compressed.state.stack)
            &&& plain.fault is None ==> proof_fault(context, own, labels) == proof_fault(
                context,
                own,
                words,
            )
            &&& proof_fault(context, own, labels) is None <==> proof_fault(
                context,
                own,
                words,
            ) is None
        }),
{
    let instructions = uses_of(indices);
    let letters = encode_all(instructions);
    let words = compress_with(roster, indices);
    lemma_compressed_words(context, own, roster, letters);
    if !can_list(context, own, roster) {
        let i = lemma_unlisted(context, own, roster);
        assert(labels.contains(roster[i]));
        let k = choose|k: int| 0 <= k < labels.len() && labels[k] == roster[i];
        if run_proof(context, own, labels).fault is None {
            lemma_taken(context, own, labels, k);
        }
    } else {
        lemma_listed_verdict(context, own, roster, labels, indices);
    }
}

/// The part of [`law_any_roster`] on lists whose labels can be made available.
proof fn lemma_listed_verdict(
    context: Context,
    own: Frame,
    roster: Seq<Seq<u8>>,
    labels: Seq<Seq<u8>>,
    indices: Seq<int>,
)
    requires
        is_sound_setting(context, own),
        can_list(context, own, roster),
        forall|i: int| 0 <= i < roster.len() ==> #[trigger] roster[i] != seq![CLOSE],
        !is_compressed(labels),
        labels.len() == indices.len(),
        forall|i: int| 0 <= i < labels.len() ==> #[trigger] labels[i] != seq![UNKNOWN],
        forall|i: int|
            0 <= i < labels.len() ==> refers(
                context,
                own,
                roster,
                indices[i],
                #[trigger] labels[i],
            ),
        forall|i: int| 0 <= i < indices.len() ==> #[trigger] indices[i] < DIGITS_LIMIT * 20,
    ensures
        ({
            let words = compress_with(roster, indices);
            let plain = run_proof(context, own, labels);
            let compressed = run_proof(context, own, words);
            &&& plain.fault is None <==> compressed.fault is None
            &&& plain.fault is None ==> same_text(plain.state.stack, compressed.state.stack)
            &&& plain.fault is None ==> proof_fault(context, own, labels) == proof_fault(
                context,
                own,
                words,
            )
        }),
{
    let instructions = uses_of(indices);
    let letters = encode_all(instructions);
    let words = compress_with(roster, indices);
    lemma_compressed_words(context, own, roster, letters);
    assert forall|i: int| 0 <= i < indices.len() implies 0 <= #[trigger] indices[i] by {
        assert(refers(context, own, roster, indices[i], labels[i]));
    }
    lemma_uses_of_orderly(indices, false);
    assert forall|i: int| 0 <= i < instructions.len() implies has_letters(
        #[trigger] instructions[i],
    ) by {
        assert(instructions[i] == Instruction::Use(indices[i]));
    }
    law_instructions_read_back(instructions, false);
    lemma_run_alike(context, own, roster, labels, indices);
    let plain = run_proof(context, own, labels);
    let compressed = run_proof(context, own, words);
    if plain.fault is None {
        let left = plain.state.stack;
        let right = compressed.state.stack;
        assert forall|i: int| 0 <= i < left.len() implies (#[trigger] left[i]).code
            == right[i].code && left[i].expr == right[i].expr by {
            assert(alike(plain.state.bits, left[i], compressed.state.bits, right[i]));
        }
        lemma_same_verdict(own, context.names, left, right);
    }
}

/// The two formats accept the same proofs of a statement.  The two contexts are those with
/// the one proof and with the other.
pub proof fn law_statement_formats(
    left: Context,
    right: Context,
    plain: Statement,
    compressed: Statement,
    roster: Seq<Seq<u8>>,
    indices: Seq<int>,
)
    requires
        same_setting(left, right),
        has_proof(left, plain),
        compressed.stype == plain.stype,
        compressed.label@ == plain.label@,
        is_sound_setting(left, left.frames[plain.label@]),
        can_list(left, left.frames[plain.label@], roster) || lists_only(
            roster,
            plain.proof_words(),
        ),
        forall|i: int| 0 <= i < roster.len() ==> #[trigger] roster[i] != seq![CLOSE],
        !is_compressed(plain.proof_words()),
        forall|i: int|
            0 <= i < plain.proof_words().len() ==> #[trigger] plain.proof_words()[i]
                != seq![UNKNOWN],
        plain.proof_words().len() == indices.len(),
        forall|i: int|
            0 <= i < plain.proof_words().len() ==> refers(
                left,
                left.frames[plain.label@],
                roster,
                indices[i],
                #[trigger] plain.proof_words()[i],
            ),
        forall|i: int| 0 <= i < indices.len() ==> #[trigger] indices[i] < DIGITS_LIMIT * 20,
        compressed.proof_words() == compress_with(roster, indices),
    ensures
        statement_fault(left, plain) is None <==> statement_fault(right, compressed) is None,
{
    let own = left.frames[plain.label@];
    law_any_roster(left, own, roster, plain.proof_words(), indices);
    law_statement_locality(left, right, compressed);
}

} // verus!
