//! The two formats of proofs: a proof that lists the labels of its steps can be put in
//! the compressed format, and back.

use crate::completeness::{has_labels, law_completeness};
use crate::incremental::{law_statement_locality, same_setting};
use crate::letters::{
    encode_all, has_letters, is_orderly, law_instructions_read_back, law_other_bytes, strip,
};
use crate::model::{
    concat, decode, execute, follow, follow_all, frames_fit, good, hypothesis_slot, is_compressed,
    prepare, prepare_all, proof_fault, roster_end, run_proof, save, start, start_compressed,
    statement_fault, statement_fits, take_step, take_steps, Context, Instruction, ProofState, Step,
    CLOSE, DIGITS_LIMIT, OPEN,
};
use crate::parser::Statement;
use crate::scopeck::Frame;
use crate::soundness::{is_sound_setting, law_soundness};
use crate::verify::lemma_roster_end;
use vstd::prelude::*;

verus! {

/// The instructions to take `count` steps in a row, from number `from` on.
pub open spec fn uses(from: nat, count: nat) -> Seq<Instruction> {
    Seq::new(count, |i: int| Instruction::Use(from + i))
}

/// A proof that lists the labels of its steps, in the compressed format: all labels in
/// the list, and then each of them used once.
pub open spec fn compress(own: Frame, labels: Seq<Seq<u8>>) -> Seq<Seq<u8>> {
    seq![seq![OPEN]] + labels + seq![
        seq![CLOSE],
        encode_all(uses(own.hypotheses@.len(), labels.len())),
    ]
}

/// What is made available for a label does not depend on the stack, nor on what was made
/// available before.
proof fn lemma_prepare_alike(
    context: Context,
    own: Frame,
    left: ProofState,
    right: ProofState,
    label: Seq<u8>,
)
    requires
        left.bits == right.bits,
        left.reads == right.reads,
    ensures
        ({
            let a = prepare(context, own, left, label);
            let b = prepare(context, own, right, label);
            &&& a.fault == b.fault
            &&& a.fault is None ==> {
                &&& a.state.prepared.len() > 0
                &&& a.state.prepared == left.prepared.push(a.state.prepared.last())
                &&& b.state.prepared == right.prepared.push(a.state.prepared.last())
                &&& a.state.bits == b.state.bits
                &&& a.state.reads == b.state.reads
                &&& a.state.stack == left.stack
                &&& b.state.stack == right.stack
            }
        }),
{
}

/// Making all steps available first leads to the same steps as making each available
/// when it is taken.
proof fn lemma_prepare_first(context: Context, own: Frame, labels: Seq<Seq<u8>>)
    requires
        take_steps(context, own, start(own), labels).fault is None,
    ensures
        ({
            let taken = take_steps(context, own, start(own), labels).state;
            let first = start_compressed(own, context.names);
            let listed = prepare_all(context, own, first, labels);
            &&& listed.fault is None
            &&& listed.state.prepared == first.prepared + taken.prepared
            &&& listed.state.bits == taken.bits
            &&& listed.state.reads == taken.reads
            &&& listed.state.stack == first.stack
            &&& taken.prepared.len() == labels.len()
        }),
    decreases labels.len(),
{
    let first = start_compressed(own, context.names);
    let taken = take_steps(context, own, start(own), labels).state;
    let listed = prepare_all(context, own, first, labels);
    if labels.len() == 0 {
        assert(listed.state.prepared =~= first.prepared + taken.prepared);
    } else {
        let front = labels.drop_last();
        lemma_prepare_first(context, own, front);
        let before = take_steps(context, own, start(own), front).state;
        let earlier = prepare_all(context, own, first, front).state;
        lemma_prepare_alike(context, own, before, earlier, labels.last());
        assert(listed.state.prepared =~= first.prepared + taken.prepared);
    }
}

/// The steps that a part of a proof makes available are the first ones of the whole.
proof fn lemma_prefix(context: Context, own: Frame, labels: Seq<Seq<u8>>, i: int)
    requires
        take_steps(context, own, start(own), labels).fault is None,
        0 <= i <= labels.len(),
    ensures
        ({
            let part = take_steps(context, own, start(own), labels.take(i));
            let whole = take_steps(context, own, start(own), labels);
            &&& part.fault is None
            &&& whole.state.prepared.len() == labels.len()
            &&& part.state.prepared == whole.state.prepared.take(i)
        }),
    decreases labels.len(),
{
    let whole = take_steps(context, own, start(own), labels);
    lemma_prepare_first(context, own, labels);
    if i == labels.len() {
        assert(labels.take(i) =~= labels);
        assert(whole.state.prepared.take(i) =~= whole.state.prepared);
    } else {
        let front = labels.drop_last();
        lemma_prefix(context, own, front, i);
        let before = take_steps(context, own, start(own), front).state;
        lemma_prepare_alike(context, own, before, before, labels.last());
        assert(front.take(i) =~= labels.take(i));
        assert(before.prepared.take(i) =~= whole.state.prepared.take(i));
    }
}

/// Steps that are available take the stack where they would take it one by one.
proof fn lemma_follow_uses(
    context: Context,
    own: Frame,
    labels: Seq<Seq<u8>>,
    state: ProofState,
    i: int,
)
    requires
        take_steps(context, own, start(own), labels).fault is None,
        0 <= i <= labels.len(),
        state.prepared == start_compressed(own, context.names).prepared + take_steps(
            context,
            own,
            start(own),
            labels,
        ).state.prepared,
        state.stack == take_steps(context, own, start(own), labels.take(i)).state.stack,
    ensures
        follow_all(
            own,
            state,
            uses((own.hypotheses@.len() + i) as nat, (labels.len() - i) as nat),
        ) == good(
            ProofState {
                stack: take_steps(context, own, start(own), labels).state.stack,
                ..state
            },
        ),
    decreases labels.len() - i,
{
    let count = own.hypotheses@.len();
    let all = take_steps(context, own, start(own), labels).state.prepared;
    let instructions = uses((count + i) as nat, (labels.len() - i) as nat);
    if i == labels.len() {
        assert(labels.take(i) =~= labels);
        assert(instructions.len() == 0);
    } else {
        lemma_prefix(context, own, labels, i);
        lemma_prefix(context, own, labels, i + 1);
        let before = take_steps(context, own, start(own), labels.take(i)).state;
        let after = take_steps(context, own, start(own), labels.take(i + 1));
        assert(labels.take(i + 1).drop_last() =~= labels.take(i));
        assert(labels.take(i + 1).last() == labels[i]);
        assert(after == take_step(context, own, before, labels[i]));
        lemma_prepare_alike(context, own, before, before, labels[i]);
        let prepared = prepare(context, own, before, labels[i]).state;
        assert(after == execute(own, prepared, i));
        assert(after.state.prepared == all.take(i + 1));
        assert(prepared.prepared[i] == all[i]) by {
            assert(after.state.prepared == prepared.prepared);
        }
        assert(state.prepared[count + i] == all[i]);
        let next = follow(own, state, instructions[0]);
        assert(next == good(ProofState { stack: after.state.stack, ..state }));
        assert(instructions.drop_first() =~= uses(
            (count + i + 1) as nat,
            (labels.len() - (i + 1)) as nat,
        ));
        lemma_follow_uses(context, own, labels, next.state, i + 1);
    }
}

proof fn lemma_uses_orderly(from: nat, count: nat, can_save: bool)
    ensures
        is_orderly(uses(from, count), can_save),
    decreases count,
{
    if count > 0 {
        lemma_uses_orderly(from + 1, (count - 1) as nat, true);
        assert(uses(from, count).drop_first() =~= uses(from + 1, (count - 1) as nat));
    }
}

/// The list of labels ends at the first `)`.
pub proof fn lemma_list_ends(words: Seq<Seq<u8>>, from: int, end: int)
    requires
        0 <= from <= end < words.len(),
        words[end] == seq![CLOSE],
        forall|i: int| from <= i < end ==> #[trigger] words[i] != seq![CLOSE],
    ensures
        roster_end(words, from) == end,
    decreases end - from,
{
    if from < end {
        assert(words[from] != seq![CLOSE]);
        lemma_list_ends(words, from + 1, end);
    }
}

/// A compressed proof is made of its list of labels and its letters.
pub proof fn lemma_compressed_words(
    context: Context,
    own: Frame,
    labels: Seq<Seq<u8>>,
    letters: Seq<u8>,
)
    requires
        forall|i: int| 0 <= i < labels.len() ==> #[trigger] labels[i] != seq![CLOSE],
    ensures
        ({
            let words = seq![seq![OPEN]] + labels + seq![seq![CLOSE], letters];
            let roster = prepare_all(
                context,
                own,
                start_compressed(own, context.names),
                labels,
            );
            &&& is_compressed(words)
            &&& run_proof(context, own, words) == if roster.fault is Some {
                roster
            } else {
                follow_all(own, roster.state, decode(letters, 0, false))
            }
        }),
{
    let words = seq![seq![OPEN]] + labels + seq![seq![CLOSE], letters];
    let end = labels.len() as int + 1;
    assert(words[0] == seq![OPEN]);
    assert forall|i: int| 1 <= i < end implies #[trigger] words[i] != seq![CLOSE] by {
        assert(words[i] == labels[i - 1]);
    }
    assert(words[end] == seq![CLOSE]);
    lemma_list_ends(words, 1, end);
    assert(words.subrange(1, end) =~= labels);
    assert(words.skip(end + 1) =~= seq![letters]);
    assert(concat(seq![letters]) =~= letters) by {
        assert(seq![letters].drop_first().len() == 0);
        assert(concat(seq![letters].drop_first()) == Seq::<u8>::empty());
    }
}

/// A proof that runs without a fault does so in the compressed format too, and ends with
/// the same expressions, as long as its labels can be listed and there are letters for
/// the number of steps.
pub proof fn law_compress(context: Context, own: Frame, labels: Seq<Seq<u8>>)
    requires
        !is_compressed(labels),
        run_proof(context, own, labels).fault is None,
        forall|i: int| 0 <= i < labels.len() ==> #[trigger] labels[i] != seq![CLOSE],
        own.hypotheses@.len() + labels.len() <= DIGITS_LIMIT * 20,
    ensures
        is_compressed(compress(own, labels)),
        run_proof(context, own, compress(own, labels)).fault is None,
        run_proof(context, own, compress(own, labels)).state.stack == run_proof(
            context,
            own,
            labels,
        ).state.stack,
        proof_fault(context, own, compress(own, labels)) == proof_fault(context, own, labels),
{
    let instructions = uses(own.hypotheses@.len(), labels.len());
    let letters = encode_all(instructions);
    lemma_compressed_words(context, own, labels, letters);
    lemma_uses_orderly(own.hypotheses@.len(), labels.len(), false);
    assert forall|i: int| 0 <= i < instructions.len() implies has_letters(
        #[trigger] instructions[i],
    ) by {}
    law_instructions_read_back(instructions, false);
    assert(decode(letters, 0, false) == instructions);
    lemma_prepare_first(context, own, labels);
    let listed = prepare_all(context, own, start_compressed(own, context.names), labels);
    assert(labels.take(0).len() == 0);
    lemma_follow_uses(context, own, labels, listed.state, 0);
}

/// A statement that has a compressed proof without a fault also has one that lists the
/// labels of its steps, as long as its hypotheses have labels.
pub proof fn law_decompress(context: Context, own: Frame, words: Seq<Seq<u8>>) -> (labels: Seq<
    Seq<u8>,
>)
    requires
        is_sound_setting(context, own),
        has_labels(context, own),
        is_compressed(words),
        proof_fault(context, own, words) is None,
    ensures
        !is_compressed(labels),
        proof_fault(context, own, labels) is None,
{
    law_soundness(context, own, words);
    law_completeness(context, own)
}

/// What follows the list of labels does not change where it ends.
proof fn lemma_list_kept(front: Seq<Seq<u8>>, rest: Seq<Seq<u8>>, from: int)
    requires
        0 <= from,
        roster_end(front, from) < front.len(),
    ensures
        roster_end(front + rest, from) == roster_end(front, from),
    decreases front.len() - from,
{
    if from < front.len() {
        assert((front + rest)[from] == front[from]);
        if front[from] != seq![CLOSE] {
            lemma_list_kept(front, rest, from + 1);
        }
    }
}

/// After the list of labels, breaks between words and bytes that are no letters carry no
/// meaning: proofs with the same list and the same letters run alike.
pub proof fn law_letters_alone(
    context: Context,
    own: Frame,
    front: Seq<Seq<u8>>,
    left: Seq<Seq<u8>>,
    right: Seq<Seq<u8>>,
)
    requires
        is_compressed(front),
        roster_end(front, 1) == front.len() - 1,
        strip(concat(left)) == strip(concat(right)),
    ensures
        run_proof(context, own, front + left) == run_proof(context, own, front + right),
        proof_fault(context, own, front + left) == proof_fault(context, own, front + right),
{
    let end = front.len() - 1;
    lemma_list_kept(front, left, 1);
    lemma_list_kept(front, right, 1);
    assert(1 <= end) by {
        assert(front[0] == seq![OPEN]);
        assert(roster_end(front, 1) >= 1) by {
            lemma_roster_end(front, 1);
        }
    }
    assert((front + left)[0] == front[0] && (front + right)[0] == front[0]);
    assert((front + left).subrange(1, end) =~= (front + right).subrange(1, end));
    assert((front + left).skip(end + 1) =~= left);
    assert((front + right).skip(end + 1) =~= right);
    law_other_bytes(concat(left), 0, false);
    law_other_bytes(concat(right), 0, false);
}

/// Steps that are available stay available, under the same numbers.
proof fn lemma_steps_kept(own: Frame, state: ProofState, instructions: Seq<Instruction>, i: int)
    requires
        0 <= i < state.prepared.len(),
    ensures
        i < follow_all(own, state, instructions).state.prepared.len(),
        follow_all(own, state, instructions).state.prepared[i] == state.prepared[i],
    decreases instructions.len(),
{
    if instructions.len() > 0 {
        let first = follow(own, state, instructions[0]).state;
        assert(i < first.prepared.len() && first.prepared[i] == state.prepared[i]);
        lemma_steps_kept(own, first, instructions.drop_first(), i);
    }
}

/// A saved step brings back the expression that was saved, whatever came in between.
pub proof fn law_saved_step(own: Frame, state: ProofState, instructions: Seq<Instruction>)
    requires
        state.stack.len() > 0,
    ensures
        ({
            let after = follow_all(own, save(state), instructions).state;
            execute(own, after, state.prepared.len() as int) == good(
                ProofState { stack: after.stack.push(state.stack.last()), ..after },
            )
        }),
{
    lemma_steps_kept(own, save(state), instructions, state.prepared.len() as int);
}

/// Proofs of a statement with the same list of labels and the same letters have the same
/// verdict.  The two contexts are those with the one proof and with the other.
pub proof fn law_statement_letters(
    before: Context,
    after: Context,
    old_statement: Statement,
    new_statement: Statement,
    front: Seq<Seq<u8>>,
    left: Seq<Seq<u8>>,
    right: Seq<Seq<u8>>,
)
    requires
        same_setting(before, after),
        frames_fit(before.positions.len(), before.frames),
        statement_fits(before, old_statement),
        new_statement.stype == old_statement.stype,
        new_statement.label@ == old_statement.label@,
        old_statement.proof_words() == front + left,
        new_statement.proof_words() == front + right,
        is_compressed(front),
        roster_end(front, 1) == front.len() - 1,
        strip(concat(left)) == strip(concat(right)),
    ensures
        statement_fault(after, new_statement) == statement_fault(before, old_statement),
{
    let own = before.frames[old_statement.label@];
    law_letters_alone(before, own, front, left, right);
    law_statement_locality(before, after, new_statement);
}

/// The steps of a compressed proof are numbered in this order: the hypotheses, in the order
/// of the frame, and then the statements of the list, in its order.
pub proof fn law_steps_listed(context: Context, own: Frame, roster: Seq<Seq<u8>>, i: int)
    requires
        prepare_all(context, own, start_compressed(own, context.names), roster).fault is None,
    ensures
        ({
            let first = start_compressed(own, context.names);
            let listed = prepare_all(context, own, first, roster).state.prepared;
            let count = own.hypotheses@.len();
            &&& listed.len() == count + roster.len()
            &&& 0 <= i < count ==> listed[i] == Step::Hyp(
                hypothesis_slot(own, context.names, own.hypotheses@[i]),
            )
            &&& 0 <= i < roster.len() ==> listed[count + i] == prepare(
                context,
                own,
                prepare_all(context, own, first, roster.take(i)).state,
                roster[i],
            ).state.prepared.last()
        }),
    decreases roster.len(),
{
    if roster.len() > 0 {
        let first = start_compressed(own, context.names);
        let front = roster.drop_last();
        let earlier = prepare_all(context, own, first, front).state;
        law_steps_listed(context, own, front, i);
        lemma_prepare_alike(context, own, earlier, earlier, roster.last());
        if 0 <= i < front.len() {
            assert(front.take(i) =~= roster.take(i));
        } else if i == front.len() {
            assert(roster.take(i) =~= front);
        }
    }
}

/// The steps that instructions save, in order.
pub open spec fn saved_steps(
    own: Frame,
    state: ProofState,
    instructions: Seq<Instruction>,
) -> Seq<Step>
    decreases instructions.len(),
{
    if instructions.len() == 0 {
        Seq::empty()
    } else {
        let rest = saved_steps(
            own,
            follow(own, state, instructions[0]).state,
            instructions.drop_first(),
        );
        if instructions[0] is Save {
            seq![Step::Hyp(state.stack.last())] + rest
        } else {
            rest
        }
    }
}

/// Saved steps get the next numbers, in the order in which they are saved.
pub proof fn law_saved_in_order(own: Frame, state: ProofState, instructions: Seq<Instruction>)
    requires
        follow_all(own, state, instructions).fault is None,
    ensures
        follow_all(own, state, instructions).state.prepared == state.prepared + saved_steps(
            own,
            state,
            instructions,
        ),
    decreases instructions.len(),
{
    if instructions.len() > 0 {
        law_saved_in_order(
            own,
            follow(own, state, instructions[0]).state,
            instructions.drop_first(),
        );
    }
    assert(follow_all(own, state, instructions).state.prepared =~= state.prepared + saved_steps(
        own,
        state,
        instructions,
    ));
}

/// Something that can happen in the course of a proof.
pub enum Action {
    /// The statement with a label is made available.
    Prepare(Seq<u8>),
    /// An instruction is carried out.
    Follow(Instruction),
}

/// The state after several actions, whether or not they end in a fault.
pub open spec fn act_all(
    context: Context,
    own: Frame,
    state: ProofState,
    actions: Seq<Action>,
) -> ProofState
    decreases actions.len(),
{
    if actions.len() == 0 {
        state
    } else {
        let earlier = act_all(context, own, state, actions.drop_last());
        match actions.last() {
            Action::Prepare(label) => prepare(context, own, earlier, label).state,
            Action::Follow(instruction) => follow(own, earlier, instruction).state,
        }
    }
}

proof fn lemma_actions_keep(
    context: Context,
    own: Frame,
    state: ProofState,
    actions: Seq<Action>,
    i: int,
)
    requires
        0 <= i < state.prepared.len(),
    ensures
        i < act_all(context, own, state, actions).prepared.len(),
        act_all(context, own, state, actions).prepared[i] == state.prepared[i],
    decreases actions.len(),
{
    if actions.len() > 0 {
        lemma_actions_keep(context, own, state, actions.drop_last(), i);
    }
}

/// A saved step brings back the expression that was saved, whatever was made available and
/// whatever steps were taken in between.
pub proof fn law_saved_step_stays(
    context: Context,
    own: Frame,
    state: ProofState,
    actions: Seq<Action>,
)
    requires
        state.stack.len() > 0,
    ensures
        ({
            let after = act_all(context, own, save(state), actions);
            execute(own, after, state.prepared.len() as int) == good(
                ProofState { stack: after.stack.push(state.stack.last()), ..after },
            )
        }),
{
    lemma_actions_keep(context, own, save(state), actions, state.prepared.len() as int);
}

} // verus!
