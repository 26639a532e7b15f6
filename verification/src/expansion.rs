//! Compressed proofs, written out: each step that was saved is replaced by the steps that
//! led to it.

use crate::completeness::{
    builds, cites, is_label, lemma_build_cited, lemma_build_follows, lemma_build_more,
    lemma_build_stub,
};
use crate::letters::{is_orderly, lemma_decode_orderly};
use crate::model::{
    bindings, concat, conclusion, decode, execute, follow, follow_all, frame_fits, hypothesis_slot,
    is_compressed, named_hypothesis, prepare, prepare_all, proof_fault, roster_end, run_proof,
    start, start_compressed, stub_slot, take_steps, Context, Instruction, ProofState, Slot, Step,
};
use crate::nameck::Atom;
use crate::rosters::{lemma_same_verdict, same_text};
use crate::scopeck::Frame;
use crate::soundness::{
    denotes, follows, hypothesis_judgement, is_sound_setting, is_stub, lemma_apply,
    lemma_denotes_kept, lemma_hypothesis_denotes, lemma_named_is_own, lemma_number_vars,
    lemma_start_numbers, lemma_stub_denotes, numbers_fit, numbers_kept, result, stub_judgement,
    usable, Judgement,
};
use crate::verify::lemma_roster_end;
use vstd::prelude::*;

verus! {

/// For each expression of a compressed proof, the labels of the steps that lead to it; for
/// an assertion, its label.
pub struct Outline {
    pub prepared: Seq<Seq<Seq<u8>>>,
    pub stack: Seq<Seq<Seq<u8>>>,
}

/// Lists of labels, one after the other.
pub open spec fn join(parts: Seq<Seq<Seq<u8>>>) -> Seq<Seq<u8>>
    decreases parts.len(),
{
    if parts.len() == 0 {
        Seq::empty()
    } else {
        join(parts.drop_last()) + parts.last()
    }
}

/// The outline after an instruction.
pub open spec fn outline_step(
    state: ProofState,
    outline: Outline,
    instruction: Instruction,
) -> Outline {
    match instruction {
        Instruction::Use(index) => match state.prepared[index] {
            Step::Hyp(slot) => Outline {
                stack: outline.stack.push(outline.prepared[index]),
                ..outline
            },
            Step::Assert(frame) => {
                let base = outline.stack.len() - frame.hypotheses@.len();
                Outline {
                    stack: outline.stack.take(base).push(
                        join(outline.stack.skip(base)) + outline.prepared[index],
                    ),
                    ..outline
                }
            },
        },
        Instruction::Save => Outline {
            prepared: outline.prepared.push(outline.stack.last()),
            ..outline
        },
        Instruction::Stop(fault) => outline,
    }
}

/// The outline after several instructions.
pub open spec fn outline_all(
    own: Frame,
    state: ProofState,
    outline: Outline,
    instructions: Seq<Instruction>,
) -> Outline
    decreases instructions.len(),
{
    if instructions.len() == 0 {
        outline
    } else {
        outline_all(
            own,
            follow(own, state, instructions[0]).state,
            outline_step(state, outline, instructions[0]),
            instructions.drop_first(),
        )
    }
}

/// The outline with which the letters of a compressed proof begin: hypotheses and listed
/// statements are a single step each.
pub open spec fn start_outline(cited: Seq<Seq<u8>>, roster: Seq<Seq<u8>>) -> Outline {
    Outline {
        prepared: (cited + roster).map_values(|label: Seq<u8>| seq![label]),
        stack: Seq::empty(),
    }
}

/// A compressed proof as a list of labels, when `cited` are the labels of the hypotheses.
pub open spec fn expand(
    context: Context,
    own: Frame,
    cited: Seq<Seq<u8>>,
    words: Seq<Seq<u8>>,
) -> Seq<Seq<u8>> {
    let end = roster_end(words, 1);
    let roster = words.subrange(1, end);
    let listed = prepare_all(context, own, start_compressed(own, context.names), roster).state;
    join(
        outline_all(
            own,
            listed,
            start_outline(cited, roster),
            decode(concat(words.skip(end + 1)), 0, false),
        ).stack,
    )
}

// ---------------------------------------------------------------------------------
// What labels lead to
// ---------------------------------------------------------------------------------

/// Whether steps put an expression for a judgement on the stack, wherever they are taken.
#[verifier::opaque]
pub open spec fn leads_to(
    context: Context,
    own: Frame,
    labels: Seq<Seq<u8>>,
    judgement: Judgement,
) -> bool {
    forall|state: ProofState| #[trigger]
        numbers_fit(own, state.bits) ==> exists|slot: Slot|
            builds(context, own, state, labels, seq![slot], seq![judgement])
}

/// The expression that steps put on the stack.
proof fn lemma_leads(
    context: Context,
    own: Frame,
    labels: Seq<Seq<u8>>,
    judgement: Judgement,
    state: ProofState,
) -> (slot: Slot)
    requires
        leads_to(context, own, labels, judgement),
        numbers_fit(own, state.bits),
    ensures
        builds(context, own, state, labels, seq![slot], seq![judgement]),
{
    reveal(leads_to);
    choose|slot: Slot| builds(context, own, state, labels, seq![slot], seq![judgement])
}

/// Whether steps lead to what an expression stands for.
pub open spec fn explains(
    context: Context,
    own: Frame,
    bits: Map<Atom, usize>,
    slot: Slot,
    labels: Seq<Seq<u8>>,
) -> bool {
    exists|judgement: Judgement| #[trigger]
        denotes(bits, slot, judgement) && leads_to(context, own, labels, judgement)
}

/// Whether labels lead to what a step makes available, or are the label of an assertion.
pub open spec fn explains_step(
    context: Context,
    own: Frame,
    bits: Map<Atom, usize>,
    step: Step,
    labels: Seq<Seq<u8>>,
) -> bool {
    match step {
        Step::Hyp(slot) => explains(context, own, bits, slot, labels),
        Step::Assert(frame) => {
            &&& labels.len() == 1
            &&& is_label(labels[0])
            &&& usable(context, own, labels[0])
            &&& context.frames[labels[0]] == frame
            &&& frame.is_assertion()
        },
    }
}

/// Whether an outline is right.
pub open spec fn outline_fits(
    context: Context,
    own: Frame,
    state: ProofState,
    outline: Outline,
) -> bool {
    &&& numbers_fit(own, state.bits)
    &&& outline.stack.len() == state.stack.len()
    &&& outline.prepared.len() == state.prepared.len()
    &&& forall|i: int|
        0 <= i < state.stack.len() ==> explains(
            context,
            own,
            state.bits,
            #[trigger] state.stack[i],
            outline.stack[i],
        )
    &&& forall|i: int|
        0 <= i < state.prepared.len() ==> explains_step(
            context,
            own,
            state.bits,
            #[trigger] state.prepared[i],
            outline.prepared[i],
        )
}

/// Steps that lead to judgements put expressions for them on the stack, one after the
/// other.
proof fn lemma_build_parts(
    context: Context,
    own: Frame,
    state: ProofState,
    parts: Seq<Seq<Seq<u8>>>,
    judgements: Seq<Judgement>,
) -> (slots: Seq<Slot>)
    requires
        numbers_fit(own, state.bits),
        parts.len() == judgements.len(),
        forall|i: int|
            0 <= i < parts.len() ==> leads_to(context, own, #[trigger] parts[i], judgements[i]),
    ensures
        builds(context, own, state, join(parts), slots, judgements),
    decreases parts.len(),
{
    if parts.len() == 0 {
        assert(state.stack =~= state.stack + Seq::<Slot>::empty());
        Seq::empty()
    } else {
        let front = parts.drop_last();
        let before = judgements.drop_last();
        let last = judgements.last();
        assert forall|i: int| 0 <= i < front.len() implies leads_to(
            context,
            own,
            #[trigger] front[i],
            before[i],
        ) by {
            assert(front[i] == parts[i]);
        }
        let slots = lemma_build_parts(context, own, state, front, before);
        let middle = take_steps(context, own, state, join(front)).state;
        assert(leads_to(context, own, parts[parts.len() - 1], last));
        let slot = lemma_leads(context, own, parts.last(), last, middle);
        lemma_build_more(
            context,
            own,
            state,
            join(front),
            slots,
            before,
            parts.last(),
            slot,
            last,
        );
        assert(before.push(last) =~= judgements);
        slots.push(slot)
    }
}

/// Steps that lead to the premises of an assertion, followed by the assertion, lead to
/// what follows.
proof fn lemma_leads_further(
    context: Context,
    own: Frame,
    parts: Seq<Seq<Seq<u8>>>,
    premises: Seq<Judgement>,
    label: Seq<u8>,
    judgement: Judgement,
)
    requires
        is_sound_setting(context, own),
        is_label(label),
        parts.len() == premises.len(),
        forall|i: int|
            0 <= i < parts.len() ==> leads_to(context, own, #[trigger] parts[i], premises[i]),
        follows(context, own, label, premises, judgement),
    ensures
        leads_to(context, own, join(parts) + seq![label], judgement),
{
    let labels = join(parts) + seq![label];
    assert(labels =~= join(parts).push(label));
    reveal(leads_to);
    assert forall|state: ProofState| #[trigger] numbers_fit(own, state.bits) implies exists|
        slot: Slot,
    |
        builds(context, own, state, labels, seq![slot], seq![judgement]) by {
        let slots = lemma_build_parts(context, own, state, parts, premises);
        let slot = lemma_build_follows(
            context,
            own,
            state,
            join(parts),
            slots,
            premises,
            label,
            judgement,
        );
        assert(builds(context, own, state, labels, seq![slot], seq![judgement]));
    }
}

proof fn lemma_cited_leads(context: Context, own: Frame, label: Seq<u8>, i: int)
    requires
        is_sound_setting(context, own),
        0 <= i < own.hypotheses@.len(),
        cites(context, own, label, own.hypotheses@[i]),
    ensures
        leads_to(
            context,
            own,
            seq![label],
            hypothesis_judgement(own, context.names, own.hypotheses@[i]),
        ),
{
    let hyp = own.hypotheses@[i];
    let judgement = hypothesis_judgement(own, context.names, hyp);
    assert(own.hypothesis_can_prove(hyp));
    reveal(leads_to);
    assert forall|state: ProofState| #[trigger] numbers_fit(own, state.bits) implies exists|
        slot: Slot,
    |
        builds(context, own, state, seq![label], seq![slot], seq![judgement]) by {
        let slot = lemma_build_cited(context, own, state, label, hyp);
        assert(builds(context, own, state, seq![label], seq![slot], seq![judgement]));
    }
}

proof fn lemma_stub_leads(context: Context, own: Frame, label: Seq<u8>, judgement: Judgement)
    requires
        is_sound_setting(context, own),
        is_label(label),
        is_stub(context, own, label, judgement),
    ensures
        leads_to(context, own, seq![label], judgement),
{
    reveal(leads_to);
    assert forall|state: ProofState| #[trigger] numbers_fit(own, state.bits) implies exists|
        slot: Slot,
    |
        builds(context, own, state, seq![label], seq![slot], seq![judgement]) by {
        let slot = lemma_build_stub(context, own, state, label, judgement);
        assert(builds(context, own, state, seq![label], seq![slot], seq![judgement]));
    }
}

// ---------------------------------------------------------------------------------
// The outline stays right
// ---------------------------------------------------------------------------------

proof fn lemma_explains_kept(
    context: Context,
    own: Frame,
    before: Map<Atom, usize>,
    after: Map<Atom, usize>,
    slot: Slot,
    labels: Seq<Seq<u8>>,
)
    requires
        numbers_kept(before, after),
        explains(context, own, before, slot, labels),
    ensures
        explains(context, own, after, slot, labels),
{
    let judgement = choose|judgement: Judgement| #[trigger]
        denotes(before, slot, judgement) && leads_to(context, own, labels, judgement);
    lemma_denotes_kept(before, after, slot, judgement);
}

/// An outline stays right when a step is added to it.
proof fn lemma_outline_push(
    context: Context,
    own: Frame,
    before: ProofState,
    after: ProofState,
    outline: Outline,
    step: Step,
    labels: Seq<Seq<u8>>,
)
    requires
        outline_fits(context, own, before, outline),
        after.stack == before.stack,
        after.prepared == before.prepared.push(step),
        numbers_kept(before.bits, after.bits),
        numbers_fit(own, after.bits),
        explains_step(context, own, after.bits, step, labels),
    ensures
        outline_fits(
            context,
            own,
            after,
            Outline { prepared: outline.prepared.push(labels), ..outline },
        ),
{
    let longer = outline.prepared.push(labels);
    assert forall|i: int| 0 <= i < after.stack.len() implies explains(
        context,
        own,
        after.bits,
        #[trigger] after.stack[i],
        outline.stack[i],
    ) by {
        assert(explains(context, own, before.bits, before.stack[i], outline.stack[i]));
        lemma_explains_kept(
            context,
            own,
            before.bits,
            after.bits,
            after.stack[i],
            outline.stack[i],
        );
    }
    assert forall|i: int| 0 <= i < after.prepared.len() implies explains_step(
        context,
        own,
        after.bits,
        #[trigger] after.prepared[i],
        longer[i],
    ) by {
        if i < before.prepared.len() {
            assert(after.prepared[i] == before.prepared[i]);
            assert(explains_step(
                context,
                own,
                before.bits,
                before.prepared[i],
                outline.prepared[i],
            ));
            if let Step::Hyp(slot) = before.prepared[i] {
                lemma_explains_kept(
                    context,
                    own,
                    before.bits,
                    after.bits,
                    slot,
                    outline.prepared[i],
                );
            }
        }
    }
}

proof fn lemma_prepare_outline(
    context: Context,
    own: Frame,
    state: ProofState,
    outline: Outline,
    label: Seq<u8>,
)
    requires
        is_sound_setting(context, own),
        outline_fits(context, own, state, outline),
        is_label(label),
        prepare(context, own, state, label).fault is None,
    ensures
        outline_fits(
            context,
            own,
            prepare(context, own, state, label).state,
            Outline { prepared: outline.prepared.push(seq![label]), ..outline },
        ),
{
    let after = prepare(context, own, state, label).state;
    let labels = seq![label];
    if !context.frames.contains_key(label) {
        let hyp = named_hypothesis(context, own, label, 0)->0;
        let judgement = hypothesis_judgement(own, context.names, hyp);
        lemma_named_is_own(context, own, label, 0);
        let i = choose|i: int|
            0 <= i < own.hypotheses@.len() && #[trigger] own.hypotheses@[i] == hyp;
        assert(own.hypothesis_can_prove(own.hypotheses@[i]));
        lemma_hypothesis_denotes(own, context.names, state.bits, hyp);
        lemma_cited_leads(context, own, label, i);
        let slot = hypothesis_slot(own, context.names, hyp);
        assert(denotes(after.bits, slot, judgement));
        lemma_outline_push(context, own, state, after, outline, Step::Hyp(slot), labels);
    } else {
        let frame = context.frames[label];
        assert(usable(context, own, label));
        if frame.is_assertion() {
            lemma_outline_push(context, own, state, after, outline, Step::Assert(frame), labels);
        } else {
            let judgement = stub_judgement(frame);
            let slot = stub_slot(frame, after.bits);
            lemma_number_vars(own, state.bits, frame.var_list@);
            lemma_stub_denotes(frame, after.bits);
            lemma_stub_leads(context, own, label, judgement);
            assert(denotes(after.bits, slot, judgement));
            lemma_outline_push(context, own, state, after, outline, Step::Hyp(slot), labels);
        }
    }
}

/// Whether `cited` has a label for each hypothesis.
pub open spec fn cites_all(context: Context, own: Frame, cited: Seq<Seq<u8>>) -> bool {
    &&& cited.len() == own.hypotheses@.len()
    &&& forall|i: int|
        0 <= i < cited.len() ==> cites(context, own, #[trigger] cited[i], own.hypotheses@[i])
}

proof fn lemma_list_outline(
    context: Context,
    own: Frame,
    cited: Seq<Seq<u8>>,
    roster: Seq<Seq<u8>>,
)
    requires
        is_sound_setting(context, own),
        cites_all(context, own, cited),
        forall|i: int| 0 <= i < roster.len() ==> is_label(#[trigger] roster[i]),
        prepare_all(context, own, start_compressed(own, context.names), roster).fault is None,
    ensures
        outline_fits(
            context,
            own,
            prepare_all(context, own, start_compressed(own, context.names), roster).state,
            start_outline(cited, roster),
        ),
    decreases roster.len(),
{
    let first = start_compressed(own, context.names);
    let outline = start_outline(cited, roster);
    if roster.len() == 0 {
        lemma_start_numbers(own);
        assert forall|i: int| 0 <= i < first.prepared.len() implies explains_step(
            context,
            own,
            first.bits,
            #[trigger] first.prepared[i],
            outline.prepared[i],
        ) by {
            let hyp = own.hypotheses@[i];
            assert(own.hypothesis_can_prove(hyp));
            assert(cites(context, own, cited[i], hyp));
            lemma_hypothesis_denotes(own, context.names, first.bits, hyp);
            lemma_cited_leads(context, own, cited[i], i);
            assert(outline.prepared[i] == seq![cited[i]]);
        }
    } else {
        let front = roster.drop_last();
        let last = roster.last();
        assert forall|i: int| 0 <= i < front.len() implies is_label(#[trigger] front[i]) by {
            assert(front[i] == roster[i]);
        }
        assert(is_label(roster[roster.len() - 1]));
        lemma_list_outline(context, own, cited, front);
        let earlier = prepare_all(context, own, first, front).state;
        lemma_prepare_outline(context, own, earlier, start_outline(cited, front), last);
        assert(outline.prepared =~= start_outline(cited, front).prepared.push(seq![last]));
    }
}

proof fn lemma_execute_outline(
    context: Context,
    own: Frame,
    state: ProofState,
    outline: Outline,
    index: int,
)
    requires
        is_sound_setting(context, own),
        outline_fits(context, own, state, outline),
        0 <= index,
        execute(own, state, index).fault is None,
    ensures
        outline_fits(
            context,
            own,
            execute(own, state, index).state,
            outline_step(state, outline, Instruction::Use(index)),
        ),
{
    let after = execute(own, state, index).state;
    let next = outline_step(state, outline, Instruction::Use(index));
    let bits = state.bits;
    assert(explains_step(context, own, bits, state.prepared[index], outline.prepared[index]));
    match state.prepared[index] {
        Step::Hyp(slot) => {
            assert forall|i: int| 0 <= i < after.stack.len() implies explains(
                context,
                own,
                bits,
                #[trigger] after.stack[i],
                next.stack[i],
            ) by {
                if i < state.stack.len() {
                    assert(after.stack[i] == state.stack[i]);
                }
            }
        },
        Step::Assert(frame) => {
            let label = outline.prepared[index][0];
            assert(outline.prepared[index] =~= seq![label]);
            assert(frame_fits(context.positions.len(), frame));
            let count = frame.hypotheses@.len();
            let base = state.stack.len() - count;
            let slots = state.stack.skip(base);
            let parts = outline.stack.skip(base);
            let premises = Seq::new(
                count,
                |i: int|
                    choose|judgement: Judgement| #[trigger]
                        denotes(bits, slots[i], judgement) && leads_to(
                            context,
                            own,
                            parts[i],
                            judgement,
                        ),
            );
            assert forall|i: int| 0 <= i < count implies denotes(
                bits,
                #[trigger] slots[i],
                premises[i],
            ) && leads_to(context, own, parts[i], premises[i]) by {
                assert(slots[i] == state.stack[base + i]);
                assert(parts[i] == outline.stack[base + i]);
                assert(explains(
                    context,
                    own,
                    bits,
                    state.stack[base + i],
                    outline.stack[base + i],
                ));
            }
            assert forall|i: int| 0 <= i < parts.len() implies leads_to(
                context,
                own,
                #[trigger] parts[i],
                premises[i],
            ) by {
                assert(denotes(bits, slots[i], premises[i]));
            }
            lemma_apply(own, frame, bits, slots, premises);
            let judgement = result(frame, premises);
            assert(follows(context, own, label, premises, judgement));
            lemma_leads_further(context, own, parts, premises, label, judgement);
            let top = conclusion(frame, bindings(frame, slots, count));
            assert(after.stack == state.stack.take(base).push(top));
            assert(denotes(bits, top, judgement));
            assert forall|i: int| 0 <= i < after.stack.len() implies explains(
                context,
                own,
                bits,
                #[trigger] after.stack[i],
                next.stack[i],
            ) by {
                if i < base {
                    assert(after.stack[i] == state.stack[i]);
                    assert(next.stack[i] == outline.stack[i]);
                }
            }
        },
    }
}

proof fn lemma_follow_outline(
    context: Context,
    own: Frame,
    state: ProofState,
    outline: Outline,
    instructions: Seq<Instruction>,
    can_save: bool,
)
    requires
        is_sound_setting(context, own),
        outline_fits(context, own, state, outline),
        is_orderly(instructions, can_save),
        can_save ==> state.stack.len() > 0,
        follow_all(own, state, instructions).fault is None,
    ensures
        outline_fits(
            context,
            own,
            follow_all(own, state, instructions).state,
            outline_all(own, state, outline, instructions),
        ),
    decreases instructions.len(),
{
    if instructions.len() > 0 {
        let first = follow(own, state, instructions[0]);
        let next = outline_step(state, outline, instructions[0]);
        let rest = instructions.drop_first();
        match instructions[0] {
            Instruction::Use(index) => {
                lemma_execute_outline(context, own, state, outline, index);
                lemma_follow_outline(context, own, first.state, next, rest, true);
            },
            Instruction::Save => {
                let slot = state.stack.last();
                assert(explains(
                    context,
                    own,
                    state.bits,
                    state.stack[state.stack.len() - 1],
                    outline.stack[state.stack.len() - 1],
                ));
                lemma_outline_push(
                    context,
                    own,
                    state,
                    first.state,
                    outline,
                    Step::Hyp(slot),
                    outline.stack.last(),
                );
                lemma_follow_outline(context, own, first.state, next, rest, false);
            },
            Instruction::Stop(fault) => {},
        }
    }
}

/// A compressed proof that runs without a fault does so when it is written out too, ends
/// with the same symbols, and has the same verdict.
pub proof fn law_expand(
    context: Context,
    own: Frame,
    cited: Seq<Seq<u8>>,
    words: Seq<Seq<u8>>,
)
    requires
        is_sound_setting(context, own),
        cites_all(context, own, cited),
        is_compressed(words),
        forall|i: int| 1 <= i < roster_end(words, 1) ==> is_label(#[trigger] words[i]),
        run_proof(context, own, words).fault is None,
    ensures
        ({
            let labels = expand(context, own, cited, words);
            let plain = run_proof(context, own, labels);
            let compressed = run_proof(context, own, words);
            &&& !is_compressed(labels)
            &&& plain.fault is None
            &&& same_text(compressed.state.stack, plain.state.stack)
            &&& proof_fault(context, own, labels) == proof_fault(context, own, words)
        }),
{
    let end = roster_end(words, 1);
    let roster = words.subrange(1, end);
    let first = start_compressed(own, context.names);
    let listed = prepare_all(context, own, first, roster).state;
    let letters = concat(words.skip(end + 1));
    let instructions = decode(letters, 0, false);
    lemma_roster_end(words, 1);
    assert forall|i: int| 0 <= i < roster.len() implies is_label(#[trigger] roster[i]) by {
        assert(roster[i] == words[i + 1]);
    }
    lemma_list_outline(context, own, cited, roster);
    lemma_decode_orderly(letters, 0, false);
    lemma_follow_outline(
        context,
        own,
        listed,
        start_outline(cited, roster),
        instructions,
        false,
    );
    let outline = outline_all(own, listed, start_outline(cited, roster), instructions);
    let compressed = run_proof(context, own, words).state;
    let labels = expand(context, own, cited, words);
    let judgements = Seq::new(
        compressed.stack.len(),
        |i: int|
            choose|judgement: Judgement| #[trigger]
                denotes(compressed.bits, compressed.stack[i], judgement) && leads_to(
                    context,
                    own,
                    outline.stack[i],
                    judgement,
                ),
    );
    assert forall|i: int| 0 <= i < compressed.stack.len() implies denotes(
        compressed.bits,
        #[trigger] compressed.stack[i],
        judgements[i],
    ) && leads_to(context, own, outline.stack[i], judgements[i]) by {
        assert(explains(context, own, compressed.bits, compressed.stack[i], outline.stack[i]));
    }
    assert forall|i: int| 0 <= i < outline.stack.len() implies leads_to(
        context,
        own,
        #[trigger] outline.stack[i],
        judgements[i],
    ) by {
        assert(denotes(compressed.bits, compressed.stack[i], judgements[i]));
    }
    lemma_start_numbers(own);
    let slots = lemma_build_parts(context, own, start(own), outline.stack, judgements);
    let run = take_steps(context, own, start(own), labels);
    assert(run.state.stack =~= slots);
    assert(!is_compressed(labels)) by {
        if labels.len() > 0 {
            assert(is_label(labels[0]));
        }
    }
    assert forall|i: int| 0 <= i < compressed.stack.len() implies (
    #[trigger] compressed.stack[i]).code == slots[i].code && compressed.stack[i].expr
        == slots[i].expr by {
        assert(denotes(run.state.bits, slots[i], judgements[i]));
    }
    lemma_same_verdict(own, context.names, compressed.stack, slots);
}

} // verus!
