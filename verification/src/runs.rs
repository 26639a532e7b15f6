//! Runs of proofs, word by word: how the run of a proof goes on when it gets one more word,
//! whatever the frames are like.

use crate::citation::{is_essential, lemma_found};
use crate::compressed::is_list;
use crate::diag::Fault;
use crate::formats::lemma_list_ends;
use crate::meaning::{is_rule, lemma_spelled, spelled};
use crate::model::{
    concat, decode, execute, follow, follow_all, hypothesis_slot, number_vars, own_numbers, prepare,
    prepare_all, proof_fault, roster_end, run_proof, start_compressed, substitute, Context,
    Instruction, ProofState, Step,
};
use crate::nameck::Atom;
use crate::rosters::law_instructions_compose;
use crate::scopeck::Frame;
use vstd::prelude::*;

verus! {

/// A proof without words proves nothing.
pub proof fn law_no_words(context: Context, own: Frame)
    ensures
        proof_fault(context, own, Seq::empty()) == Some(Fault::ProofNoSteps),
{
}

/// A proof begins with nothing on the stack, and with nothing to refer to.
pub proof fn law_begun(context: Context, own: Frame)
    ensures
        ({
            let run = run_proof(context, own, Seq::empty());
            &&& run.fault is None
            &&& run.state.stack.len() == 0
            &&& run.state.prepared.len() == 0
            &&& run.state.bits == own_numbers(own.var_list@)
            &&& forall|label: Seq<u8>| !#[trigger] run.state.reads.contains(label)
        }),
{
}

/// A further word of a proof that is not compressed is looked at just if there was no fault
/// before: `?` is a step that is still unknown; another word is the label of a statement,
/// which is made available as a step and then taken.
pub proof fn law_next_word(context: Context, own: Frame, words: Seq<Seq<u8>>, label: Seq<u8>)
    requires
        words.push(label)[0] != seq![0x28u8],
    ensures
        ({
            let before = run_proof(context, own, words);
            let after = run_proof(context, own, words.push(label));
            let ready = prepare(context, own, before.state, label);
            if before.fault is Some {
                after == before
            } else if label == seq![0x3fu8] {
                after.state == before.state && after.fault == Some(Fault::ProofIncomplete)
            } else if ready.fault is Some {
                after == ready
            } else {
                after == execute(own, ready.state, ready.state.prepared.len() - 1)
            }
        }),
{
    assert(words.push(label).drop_last() =~= words);
    if words.len() > 0 {
        assert(words.push(label)[0] == words[0]);
    }
}

/// A fault of the run is the fault of the proof.  Without one the proof is judged by what is
/// left on the stack: it has to be one expression, of the type of the statement and with its
/// symbols.
pub proof fn law_judged(context: Context, own: Frame, words: Seq<Seq<u8>>)
    ensures
        ({
            let run = run_proof(context, own, words);
            let left = run.state.stack;
            proof_fault(context, own, words) == if run.fault is Some {
                run.fault
            } else if left.len() == 0 {
                Some(Fault::ProofNoSteps)
            } else if left.len() > 1 {
                Some(Fault::ProofExcessEnd)
            } else if left[0].code != own.target.typecode {
                Some(Fault::ProofWrongTypeEnd)
            } else if left[0].expr != substitute(own, own.target, spelled(own, context.names)) {
                Some(Fault::ProofWrongExprEnd)
            } else {
                None::<Fault>
            }
        }),
{
    lemma_spelled(own, context.names);
}

/// The statement with a label is made available: it becomes the last step, after all that
/// were there, and neither they nor the stack change.  An axiom or a theorem is a step that
/// is applied; another statement with a frame is an expression with its symbols; and a label
/// without a frame is the first `$e` hypothesis that has it.
pub proof fn law_made_available(context: Context, own: Frame, state: ProofState, label: Seq<u8>)
    ensures
        ({
            let run = prepare(context, own, state, label);
            let frame = context.frames[label];
            &&& run.state.stack == state.stack
            &&& run.state.reads == state.reads.insert(label)
            &&& run.fault is Some ==> run.state.prepared == state.prepared && run.state.bits
                == state.bits
            &&& run.fault is None ==> run.state.prepared.len() == state.prepared.len() + 1
            &&& forall|i: int|
                0 <= i < state.prepared.len() ==> #[trigger] run.state.prepared[i]
                    == state.prepared[i]
            &&& run.fault is None && context.frames.contains_key(label) && is_rule(frame)
                ==> run.state.prepared.last() == Step::Assert(frame) && run.state.bits
                == state.bits
            &&& run.fault is None && context.frames.contains_key(label) && !is_rule(frame) ==> {
                &&& run.state.prepared.last() is Hyp
                &&& run.state.prepared.last()->Hyp_0.code == frame.target.typecode
                &&& run.state.prepared.last()->Hyp_0.expr == frame.stub_expr@
                &&& forall|v: usize| #[trigger]
                    run.state.prepared.last()->Hyp_0.vars.contains(v) <==> exists|t: int|
                        0 <= t < frame.var_list@.len() && run.state.bits[
                        #[trigger] frame.var_list@[t]] == v
                &&& run.state.bits == number_vars(state.bits, frame.var_list@)
            }
            &&& run.fault is None && !context.frames.contains_key(label) ==> run.state.bits
                == state.bits && exists|i: int|
                #![trigger is_essential(context, own, label, i)]
                {
                    &&& is_essential(context, own, label, i)
                    &&& forall|j: int|
                        0 <= j < i ==> !#[trigger] is_essential(context, own, label, j)
                    &&& run.state.prepared.last() == Step::Hyp(
                        hypothesis_slot(own, context.names, own.hypotheses@[i]),
                    )
                }
        }),
{
    if !context.frames.contains_key(label) {
        lemma_found(context, own, label, 0);
    }
}

// ---------------------------------------------------------------------------------
// Numbers of variables
// ---------------------------------------------------------------------------------

/// A variable of the statement that is proved has the last place in its list where it stands
/// for a number, and other variables have none to begin with.
pub proof fn law_own_places(vars: Seq<Atom>, i: int, atom: Atom)
    requires
        vars.len() <= usize::MAX,
        0 <= i < vars.len(),
        forall|j: int| i < j < vars.len() ==> #[trigger] vars[j] != vars[i],
    ensures
        own_numbers(vars).contains_key(vars[i]),
        own_numbers(vars)[vars[i]] == i,
        !vars.contains(atom) ==> !own_numbers(vars).contains_key(atom),
    decreases vars.len(),
{
    let front = vars.drop_last();
    if i < vars.len() - 1 {
        assert(vars[vars.len() - 1] != vars[i]);
        assert forall|j: int| i < j < front.len() implies #[trigger] front[j] != front[i] by {
            assert(vars[j] != vars[i]);
        }
        law_own_places(front, i, atom);
        assert(front.contains(atom) ==> vars.contains(atom));
    } else {
        lemma_own_places_only(front, atom);
        assert(vars.contains(vars[i]));
        if front.contains(atom) {
            let k = choose|k: int| 0 <= k < front.len() && front[k] == atom;
            assert(vars[k] == atom);
        }
    }
}

proof fn lemma_own_places_only(vars: Seq<Atom>, atom: Atom)
    ensures
        own_numbers(vars).contains_key(atom) ==> vars.contains(atom),
    decreases vars.len(),
{
    if vars.len() > 0 {
        let front = vars.drop_last();
        lemma_own_places_only(front, atom);
        if front.contains(atom) {
            let k = choose|k: int| 0 <= k < front.len() && front[k] == atom;
            assert(vars[k] == atom);
        }
        if atom == vars.last() {
            assert(vars[vars.len() - 1] == atom);
        }
    }
}

/// Variables get their numbers one after the other: one that has a number keeps it, and
/// another gets the number of all that have one.
pub proof fn law_next_number(bits: Map<Atom, usize>, vars: Seq<Atom>, var: Atom)
    ensures
        number_vars(bits, Seq::empty()) == bits,
        ({
            let before = number_vars(bits, vars);
            let after = number_vars(bits, vars.push(var));
            if before.contains_key(var) {
                after == before
            } else {
                after == before.insert(var, before.dom().len() as usize)
            }
        }),
{
    assert(vars.push(var).drop_last() =~= vars);
}

// ---------------------------------------------------------------------------------
// Compressed proofs
// ---------------------------------------------------------------------------------

/// A compressed proof begins with the hypotheses of the statement, in order, as steps that can
/// be referred to, and with a list that has no end yet.
pub proof fn law_list_begun(context: Context, own: Frame)
    ensures
        ({
            let run = run_proof(context, own, seq![seq![0x28u8]]);
            &&& run.fault == Some(Fault::ProofUnterminatedRoster)
            &&& run.state.stack.len() == 0
            &&& run.state.bits == own_numbers(own.var_list@)
            &&& run.state.prepared.len() == own.hypotheses@.len()
            &&& forall|i: int|
                0 <= i < own.hypotheses@.len() ==> #[trigger] run.state.prepared[i] == Step::Hyp(
                    hypothesis_slot(own, context.names, own.hypotheses@[i]),
                )
            &&& forall|label: Seq<u8>| !#[trigger] run.state.reads.contains(label)
        }),
{
    let words = seq![seq![0x28u8]];
    assert(words.subrange(1, 1).len() == 0);
    assert(roster_end(words, 1) == 1);
}

proof fn lemma_open_list(words: Seq<Seq<u8>>, from: int)
    requires
        0 <= from <= words.len(),
        forall|i: int| from <= i < words.len() ==> #[trigger] words[i] != seq![0x29u8],
    ensures
        roster_end(words, from) == words.len(),
    decreases words.len() - from,
{
    if from < words.len() {
        assert(words[from] != seq![0x29u8]);
        lemma_open_list(words, from + 1);
    }
}

/// A further label in the list of a compressed proof is made available, just if all labels
/// before it were.
pub proof fn law_next_label(context: Context, own: Frame, words: Seq<Seq<u8>>, label: Seq<u8>)
    requires
        words.len() > 0,
        words[0] == seq![0x28u8],
        forall|i: int| 1 <= i < words.len() ==> #[trigger] words[i] != seq![0x29u8],
        label != seq![0x29u8],
    ensures
        ({
            let before = run_proof(context, own, words);
            let after = run_proof(context, own, words.push(label));
            let ready = prepare(context, own, before.state, label);
            if before.fault != Some(Fault::ProofUnterminatedRoster) {
                after == before
            } else if ready.fault is Some {
                after == ready
            } else {
                after.state == ready.state && after.fault == Some(Fault::ProofUnterminatedRoster)
            }
        }),
{
    let longer = words.push(label);
    let count = words.len() as int;
    let first = start_compressed(own, context.names);
    assert forall|i: int| 1 <= i < longer.len() implies #[trigger] longer[i] != seq![0x29u8] by {
        if i < count {
            assert(longer[i] == words[i]);
        }
    }
    assert(longer[0] == words[0]);
    lemma_open_list(words, 1);
    lemma_open_list(longer, 1);
    assert(longer.subrange(1, count + 1).drop_last() =~= words.subrange(1, count));
    lemma_never_unterminated(context, own, first, words.subrange(1, count));
}

/// Labels that are made available never tell that their list has no end.
proof fn lemma_never_unterminated(
    context: Context,
    own: Frame,
    state: ProofState,
    labels: Seq<Seq<u8>>,
)
    ensures
        prepare_all(context, own, state, labels).fault != Some(Fault::ProofUnterminatedRoster),
    decreases labels.len(),
{
    if labels.len() > 0 {
        lemma_never_unterminated(context, own, state, labels.drop_last());
    }
}

/// The end of the list of a compressed proof changes nothing else.
pub proof fn law_list_closed(context: Context, own: Frame, words: Seq<Seq<u8>>)
    requires
        words.len() > 0,
        words[0] == seq![0x28u8],
        forall|i: int| 1 <= i < words.len() ==> #[trigger] words[i] != seq![0x29u8],
    ensures
        ({
            let before = run_proof(context, own, words);
            let after = run_proof(context, own, words.push(seq![0x29u8]));
            if before.fault != Some(Fault::ProofUnterminatedRoster) {
                after == before
            } else {
                after.state == before.state && after.fault is None
            }
        }),
{
    let longer = words.push(seq![0x29u8]);
    let count = words.len() as int;
    let first = start_compressed(own, context.names);
    assert forall|i: int| 1 <= i < count implies #[trigger] longer[i] != seq![0x29u8] by {
        assert(longer[i] == words[i]);
    }
    assert(longer[0] == words[0]);
    lemma_open_list(words, 1);
    lemma_list_ends(longer, 1, count);
    assert(longer.subrange(1, count) =~= words.subrange(1, count));
    lemma_never_unterminated(context, own, first, words.subrange(1, count));
    let letters = concat(longer.skip(count + 1));
    assert(longer.skip(count + 1).len() == 0);
    assert(letters.len() == 0);
    assert(decode(letters, 0, false).len() == 0);
}

/// What comes after the list of a compressed proof are letters: what they ask for is carried
/// out, just if all labels of the list were made available.
pub proof fn law_letters_run(context: Context, own: Frame, words: Seq<Seq<u8>>, end: int)
    requires
        is_list(words, end),
    ensures
        ({
            let listed = run_proof(context, own, words.take(end + 1));
            run_proof(context, own, words) == if listed.fault is Some {
                listed
            } else {
                follow_all(own, listed.state, decode(concat(words.skip(end + 1)), 0, false))
            }
        }),
{
    let front = words.take(end + 1);
    lemma_list_ends(words, 1, end);
    assert forall|i: int| 1 <= i < end implies #[trigger] front[i] != seq![0x29u8] by {
        assert(front[i] == words[i]);
    }
    lemma_list_ends(front, 1, end);
    assert(front.subrange(1, end) =~= words.subrange(1, end));
    assert(front.skip(end + 1).len() == 0);
    assert(concat(front.skip(end + 1)).len() == 0);
    assert(decode(concat(front.skip(end + 1)), 0, false).len() == 0);
}

/// A further instruction is carried out just if there was no fault before: a number takes the
/// step with that number; saving makes the topmost expression the last step, after all that
/// were there, and leaves the stack as it is; and letters that are at fault end the run.
pub proof fn law_next_instruction(
    own: Frame,
    state: ProofState,
    instructions: Seq<Instruction>,
    next: Instruction,
)
    ensures
        follow_all(own, state, Seq::empty()).fault is None,
        follow_all(own, state, Seq::empty()).state == state,
        ({
            let before = follow_all(own, state, instructions);
            let after = follow_all(own, state, instructions.push(next));
            if before.fault is Some {
                after == before
            } else {
                match next {
                    Instruction::Use(index) => after == execute(own, before.state, index),
                    Instruction::Save => {
                        &&& after.fault is None
                        &&& after.state.stack == before.state.stack
                        &&& after.state.bits == before.state.bits
                        &&& after.state.reads == before.state.reads
                        &&& after.state.prepared == before.state.prepared.push(
                            Step::Hyp(before.state.stack.last()),
                        )
                    },
                    Instruction::Stop(fault) => after.state == before.state && after.fault == Some(
                        fault,
                    ),
                }
            }
        }),
{
    let before = follow_all(own, state, instructions);
    let last = seq![next];
    assert(instructions.push(next) =~= instructions + last);
    law_instructions_compose(own, state, instructions, last);
    let first = follow(own, before.state, next);
    assert(last.drop_first().len() == 0);
    assert(follow_all(own, first.state, last.drop_first()).state == first.state);
}

} // verus!
