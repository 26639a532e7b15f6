//! Each variable has a number of its own during a proof.

use crate::model::{
    concat, decode, follow, follow_all, is_compressed, number_var, number_vars, own_numbers,
    prepare, prepare_all, roster_end, run_proof, start, start_compressed, take_steps, Context,
    Instruction, ProofState,
};
use crate::nameck::Atom;
use crate::scopeck::Frame;
use crate::soundness::{lemma_atoms_fit, lemma_own_numbers, numbers_kept};
use vstd::prelude::*;

verus! {

/// No two variables have the same number.
pub open spec fn no_number_shared(bits: Map<Atom, usize>) -> bool {
    forall|left: Atom, right: Atom|
        #![trigger bits.contains_key(left), bits.contains_key(right)]
        bits.contains_key(left) && bits.contains_key(right) && bits[left] == bits[right] ==> left
            == right
}

/// Whether a number is that of a variable.
pub open spec fn is_given(bits: Map<Atom, usize>, number: int) -> bool {
    exists|atom: Atom| #[trigger] bits.contains_key(atom) && bits[atom] == number
}

/// The numbers that were given are the first ones, each of them once.
pub open spec fn are_compact(bits: Map<Atom, usize>) -> bool {
    &&& bits.dom().finite()
    &&& forall|atom: Atom| #[trigger] bits.contains_key(atom) ==> bits[atom] < bits.dom().len()
    &&& forall|number: int| 0 <= number < bits.dom().len() ==> #[trigger] is_given(bits, number)
    &&& no_number_shared(bits)
}

/// Giving a variable a number keeps numbers the first ones, each of them once, and changes
/// none that was given before.
pub proof fn law_number_var(bits: Map<Atom, usize>, var: Atom)
    requires
        are_compact(bits),
    ensures
        are_compact(number_var(bits, var)),
        numbers_kept(bits, number_var(bits, var)),
        number_var(bits, var).contains_key(var),
{
    let after = number_var(bits, var);
    if !bits.contains_key(var) {
        lemma_atoms_fit(bits.dom().insert(var));
        assert(after.dom() =~= bits.dom().insert(var));
        assert forall|number: int| 0 <= number < after.dom().len() implies #[trigger] is_given(
            after,
            number,
        ) by {
            if number < bits.dom().len() {
                assert(is_given(bits, number));
                let atom = choose|atom: Atom| #[trigger]
                    bits.contains_key(atom) && bits[atom] == number;
                assert(after.contains_key(atom) && after[atom] == number);
            } else {
                assert(after.contains_key(var) && after[var] == number);
            }
        }
    }
}

proof fn lemma_number_vars_compact(bits: Map<Atom, usize>, vars: Seq<Atom>)
    requires
        are_compact(bits),
    ensures
        are_compact(number_vars(bits, vars)),
    decreases vars.len(),
{
    if vars.len() > 0 {
        lemma_number_vars_compact(bits, vars.drop_last());
        law_number_var(number_vars(bits, vars.drop_last()), vars.last());
    }
}

proof fn lemma_start_compact(own: Frame)
    requires
        own.var_list@.no_duplicates(),
    ensures
        are_compact(own_numbers(own.var_list@)),
{
    let vars = own.var_list@;
    let bits = own_numbers(vars);
    assert(vars.len() == own.var_list.len());
    lemma_own_numbers(vars);
    assert forall|atom: Atom| #[trigger] bits.contains_key(atom) implies bits[atom] < vars.len()
        && vars[bits[atom] as int] == atom by {
        assert(vars.to_set().contains(atom));
        let i = choose|i: int| 0 <= i < vars.len() && vars[i] == atom;
        assert(bits[vars[i]] == i);
    }
    assert forall|number: int| 0 <= number < bits.dom().len() implies #[trigger] is_given(
        bits,
        number,
    ) by {
        assert(vars.to_set().contains(vars[number]));
        assert(bits.contains_key(vars[number]) && bits[vars[number]] == number);
    }
}

proof fn lemma_prepare_compact(context: Context, own: Frame, state: ProofState, label: Seq<u8>)
    requires
        are_compact(state.bits),
    ensures
        are_compact(prepare(context, own, state, label).state.bits),
{
    if context.frames.contains_key(label) {
        lemma_number_vars_compact(state.bits, context.frames[label].var_list@);
    }
}

proof fn lemma_prepare_all_compact(
    context: Context,
    own: Frame,
    state: ProofState,
    labels: Seq<Seq<u8>>,
)
    requires
        are_compact(state.bits),
    ensures
        are_compact(prepare_all(context, own, state, labels).state.bits),
    decreases labels.len(),
{
    if labels.len() > 0 {
        let earlier = prepare_all(context, own, state, labels.drop_last());
        lemma_prepare_all_compact(context, own, state, labels.drop_last());
        lemma_prepare_compact(context, own, earlier.state, labels.last());
    }
}

proof fn lemma_take_steps_compact(
    context: Context,
    own: Frame,
    state: ProofState,
    labels: Seq<Seq<u8>>,
)
    requires
        are_compact(state.bits),
    ensures
        are_compact(take_steps(context, own, state, labels).state.bits),
    decreases labels.len(),
{
    if labels.len() > 0 {
        let earlier = take_steps(context, own, state, labels.drop_last());
        lemma_take_steps_compact(context, own, state, labels.drop_last());
        lemma_prepare_compact(context, own, earlier.state, labels.last());
    }
}

/// Instructions give no numbers.
pub proof fn lemma_follow_all_bits(own: Frame, state: ProofState, instructions: Seq<Instruction>)
    ensures
        follow_all(own, state, instructions).state.bits == state.bits,
    decreases instructions.len(),
{
    if instructions.len() > 0 {
        lemma_follow_all_bits(
            own,
            follow(own, state, instructions[0]).state,
            instructions.drop_first(),
        );
    }
}

/// However far a proof runs, the variables have the first numbers, each of them once: no
/// two variables have the same number.
pub proof fn law_numbers_not_shared(context: Context, own: Frame, words: Seq<Seq<u8>>)
    requires
        own.var_list@.no_duplicates(),
    ensures
        are_compact(run_proof(context, own, words).state.bits),
        no_number_shared(run_proof(context, own, words).state.bits),
{
    lemma_start_compact(own);
    if is_compressed(words) {
        let end = roster_end(words, 1);
        let first = start_compressed(own, context.names);
        let roster = prepare_all(context, own, first, words.subrange(1, end));
        lemma_prepare_all_compact(context, own, first, words.subrange(1, end));
        lemma_follow_all_bits(
            own,
            roster.state,
            decode(concat(words.skip(end + 1)), 0, false),
        );
    } else {
        lemma_take_steps_compact(context, own, start(own), words);
    }
}

} // verus!
