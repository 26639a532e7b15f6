//! Applying an assertion: what it takes from the stack, what it asks for, and what it puts
//! there.

use crate::bit_set::Bitset;
use crate::diag::Fault;
use crate::forms::{has_single_types, is_assertion_form, is_premise, lemma_assertion_form};
use crate::model::{
    all_distinct, apply, bindings, conclusion, declared_distinct, distinctness_holds, execute,
    first_fault, hypothesis_fault, hypothesis_slot, stub_slot, substitute, values_of,
    variable_names, ProofState, Slot, Step,
};
use crate::nameck::Atom;
use crate::scopeck::{Frame, Hyp};
use crate::soundness::{lemma_binding, lemma_no_fault};
use crate::substitute::lemma_substitute_values;
use crate::verify::lemma_first_fault;
use vstd::prelude::*;

verus! {

/// Whether expression `i` of the topmost ones is what hypothesis `i` asks for: it has the
/// type of the hypothesis and, for a `$e` hypothesis, just the symbols of its instance.
pub open spec fn meets(
    frame: Frame,
    stack: Seq<Slot>,
    values: Map<usize, Seq<u8>>,
    i: int,
) -> bool {
    let hyp = frame.hypotheses@[i];
    let slot = stack[stack.len() - frame.hypotheses@.len() + i];
    &&& slot.code == hyp.expr.typecode
    &&& hyp.variable_index is None ==> slot.expr == substitute(frame, hyp.expr, values)
}

/// Whether `values` has for each variable the symbols of the expression that stands where its
/// `$f` hypothesis asks for one.
pub open spec fn are_values(frame: Frame, stack: Seq<Slot>, values: Map<usize, Seq<u8>>) -> bool {
    forall|i: int, var: usize|
        0 <= i < frame.hypotheses@.len() && (#[trigger] frame.hypotheses@[i]).variable_index
            == Some(var) ==> #[trigger] values[var] == stack[stack.len() - frame.hypotheses@.len()
            + i].expr
}

proof fn lemma_meets(
    frame: Frame,
    stack: Seq<Slot>,
    values: Map<usize, Seq<u8>>,
    i: int,
)
    requires
        is_assertion_form(frame),
        has_single_types(frame),
        frame.hypotheses@.len() <= stack.len(),
        are_values(frame, stack, values),
        0 <= i < frame.hypotheses@.len(),
    ensures
        ({
            let slots = stack.skip(stack.len() - frame.hypotheses@.len());
            let hyp = frame.hypotheses@[i];
            &&& hypothesis_fault(frame, slots, i) is None <==> meets(frame, stack, values, i)
            &&& hyp.variable_index is None ==> substitute(
                frame,
                hyp.expr,
                values_of(bindings(frame, slots, i as nat)),
            ) == substitute(frame, hyp.expr, values)
        }),
{
    let base = stack.len() - frame.hypotheses@.len();
    let slots = stack.skip(base);
    let hyp = frame.hypotheses@[i];
    assert(slots[i] == stack[base + i]);
    assert(is_premise(frame, i, hyp));
    if hyp.variable_index is None {
        let bound = bindings(frame, slots, i as nat);
        let tail = hyp.expr.tail@;
        assert forall|t: int| 0 <= t < tail.len() implies values_of(bound)[(
        #[trigger] tail[t]).var] == values[tail[t].var] by {
            let var = tail[t].var;
            let j = choose|j: int|
                0 <= j < i && (#[trigger] frame.hypotheses@[j]).variable_index == Some(var);
            lemma_binding(frame, slots, j, i as nat, var);
            assert(frame.hypotheses@[j].variable_index == Some(var));
            assert(values[var] == stack[base + j].expr);
        }
        lemma_substitute_values(frame, tail, values_of(bound), values);
    }
}

/// An assertion is applied without a fault just if the stack has an expression for each
/// hypothesis, each of them is what its hypothesis asks for, and all variables of the
/// expressions in place of two variables that have to be distinct are declared so, one by
/// one, in `distinct`.
pub proof fn law_applied(
    frame: Frame,
    stack: Seq<Slot>,
    distinct: Seq<Bitset>,
    values: Map<usize, Seq<u8>>,
)
    requires
        is_assertion_form(frame),
        has_single_types(frame),
        are_values(frame, stack, values),
    ensures
        ({
            let count = frame.hypotheses@.len();
            let base = stack.len() - count;
            apply(frame, stack, distinct).1 is None <==> {
                &&& count <= stack.len()
                &&& forall|i: int| 0 <= i < count ==> #[trigger] meets(frame, stack, values, i)
                &&& forall|p: int, i: int, j: int, a: usize, b: usize|
                    #![trigger frame.mandatory_dv@[p], frame.hypotheses@[i], frame.hypotheses@[j], stack[base + i].vars.contains(a), stack[base + j].vars.contains(b)]
                    0 <= p < frame.mandatory_dv@.len() && 0 <= i < count && 0 <= j < count
                        && frame.hypotheses@[i].variable_index == Some(frame.mandatory_dv@[p].0)
                        && frame.hypotheses@[j].variable_index == Some(frame.mandatory_dv@[p].1)
                        && stack[base + i].vars.contains(a) && stack[base + j].vars.contains(b)
                        ==> a < distinct.len() && distinct[a as int]@.contains(b)
            }
        }),
{
    let count = frame.hypotheses@.len();
    let base = stack.len() - count;
    if count <= stack.len() {
        let slots = stack.skip(base);
        let bound = bindings(frame, slots, count);
        lemma_assertion_form(frame);
        lemma_no_fault(frame, slots, count);
        assert forall|i: int| 0 <= i < count implies (#[trigger] hypothesis_fault(frame, slots, i)
            is None <==> meets(frame, stack, values, i)) by {
            lemma_meets(frame, stack, values, i);
        }
        assert(first_fault(frame, slots, count) is None <==> forall|i: int|
            0 <= i < count ==> #[trigger] meets(frame, stack, values, i)) by {
            if first_fault(frame, slots, count) is None {
                assert forall|i: int| 0 <= i < count implies #[trigger] meets(
                    frame,
                    stack,
                    values,
                    i,
                ) by {
                    assert(hypothesis_fault(frame, slots, i) is None);
                }
            }
            if forall|i: int| 0 <= i < count ==> #[trigger] meets(frame, stack, values, i) {
                assert forall|i: int| 0 <= i < count implies #[trigger] hypothesis_fault(
                    frame,
                    slots,
                    i,
                ) is None by {
                    assert(meets(frame, stack, values, i));
                }
            }
        }
        assert forall|i: int, var: usize|
            0 <= i < count && #[trigger] frame.hypotheses@[i].variable_index == Some(
                var,
            ) implies #[trigger] bound[var] == stack[base + i] by {
            lemma_binding(frame, slots, i, count, var);
            assert(slots[i] == stack[base + i]);
        }
        if distinctness_holds(frame, bound, distinct) {
            assert forall|p: int, i: int, j: int, a: usize, b: usize|
                #![trigger frame.mandatory_dv@[p], frame.hypotheses@[i], frame.hypotheses@[j], stack[base + i].vars.contains(a), stack[base + j].vars.contains(b)]
                0 <= p < frame.mandatory_dv@.len() && 0 <= i < count && 0 <= j < count
                    && frame.hypotheses@[i].variable_index == Some(frame.mandatory_dv@[p].0)
                    && frame.hypotheses@[j].variable_index == Some(frame.mandatory_dv@[p].1)
                    && stack[base + i].vars.contains(a) && stack[base + j].vars.contains(b)
                implies a < distinct.len() && distinct[a as int]@.contains(b) by {
                assert(bound[frame.mandatory_dv@[p].0] == stack[base + i]);
                assert(bound[frame.mandatory_dv@[p].1] == stack[base + j]);
                assert(declared_distinct(distinct, a, b));
            }
        }
        if forall|p: int, i: int, j: int, a: usize, b: usize|
            #![trigger frame.mandatory_dv@[p], frame.hypotheses@[i], frame.hypotheses@[j], stack[base + i].vars.contains(a), stack[base + j].vars.contains(b)]
            0 <= p < frame.mandatory_dv@.len() && 0 <= i < count && 0 <= j < count
                && frame.hypotheses@[i].variable_index == Some(frame.mandatory_dv@[p].0)
                && frame.hypotheses@[j].variable_index == Some(frame.mandatory_dv@[p].1)
                && stack[base + i].vars.contains(a) && stack[base + j].vars.contains(b)
                ==> a < distinct.len() && distinct[a as int]@.contains(b) {
            assert forall|p: int| 0 <= p < frame.mandatory_dv@.len() implies all_distinct(
                distinct,
                bound[(#[trigger] frame.mandatory_dv@[p]).0],
                bound[frame.mandatory_dv@[p].1],
            ) by {
                let (x, y) = frame.mandatory_dv@[p];
                let i = choose|i: int|
                    0 <= i < count && (#[trigger] frame.hypotheses@[i]).variable_index == Some(x);
                let j = choose|j: int|
                    0 <= j < count && (#[trigger] frame.hypotheses@[j]).variable_index == Some(y);
                assert(bound[x] == stack[base + i]);
                assert(bound[y] == stack[base + j]);
                assert forall|a: usize, b: usize|
                    bound[x].vars.contains(a) && bound[y].vars.contains(
                        b,
                    ) implies #[trigger] declared_distinct(distinct, a, b) by {
                    assert(stack[base + i].vars.contains(a) && stack[base + j].vars.contains(b));
                }
            }
        }
    }
}

/// What an applied assertion leaves: all below its hypotheses as it was, and on top of that
/// the instance of what it says, of its type, with its symbols, and with just the variables
/// of the expressions in place of the variables that occur in it.
pub proof fn law_conclusion(
    frame: Frame,
    stack: Seq<Slot>,
    distinct: Seq<Bitset>,
    values: Map<usize, Seq<u8>>,
)
    requires
        is_assertion_form(frame),
        has_single_types(frame),
        are_values(frame, stack, values),
        apply(frame, stack, distinct).1 is None || apply(frame, stack, distinct).1 == Some(
            Fault::ProofDvViolation,
        ),
    ensures
        ({
            let count = frame.hypotheses@.len();
            let base = stack.len() - count;
            let after = apply(frame, stack, distinct).0;
            &&& 0 <= base
            &&& after.len() == base + 1
            &&& forall|i: int| 0 <= i < base ==> #[trigger] after[i] == stack[i]
            &&& after[base].code == frame.target.typecode
            &&& after[base].expr == substitute(frame, frame.target, values)
            &&& forall|v: usize| #[trigger]
                after[base].vars.contains(v) <==> exists|t: int, j: int|
                    0 <= t < frame.target.tail@.len() && 0 <= j < count && (
                    #[trigger] frame.hypotheses@[j]).variable_index == Some(
                        (#[trigger] frame.target.tail@[t]).var,
                    ) && stack[base + j].vars.contains(v)
        }),
{
    let count = frame.hypotheses@.len();
    let base = stack.len() - count;
    let slots = stack.skip(base);
    let bound = bindings(frame, slots, count);
    let after = apply(frame, stack, distinct).0;
    let tail = frame.target.tail@;
    lemma_no_violation(frame, slots, count);
    assert(0 <= base);
    assert(after[base] == conclusion(frame, bound));
    assert forall|i: int, var: usize|
        0 <= i < count && #[trigger] frame.hypotheses@[i].variable_index == Some(
            var,
        ) implies #[trigger] bound[var] == stack[base + i] && bound.contains_key(var) by {
        lemma_binding(frame, slots, i, count, var);
        assert(slots[i] == stack[base + i]);
    }
    assert forall|t: int| 0 <= t < tail.len() implies values_of(bound)[(#[trigger] tail[t]).var]
        == values[tail[t].var] by {
        let var = tail[t].var;
        let j = choose|j: int|
            0 <= j < count && (#[trigger] frame.hypotheses@[j]).variable_index == Some(var);
        assert(bound[var] == stack[base + j]);
        assert(values[var] == stack[base + j].expr);
    }
    lemma_substitute_values(frame, tail, values_of(bound), values);
    assert forall|v: usize| #[trigger] after[base].vars.contains(v) <==> exists|t: int, j: int|
        0 <= t < tail.len() && 0 <= j < count && (
        #[trigger] frame.hypotheses@[j]).variable_index == Some((#[trigger] tail[t]).var)
            && stack[base + j].vars.contains(v) by {
        if after[base].vars.contains(v) {
            let t = choose|t: int|
                0 <= t < tail.len() && bound[(#[trigger] tail[t]).var].vars.contains(v);
            let var = tail[t].var;
            let j = choose|j: int|
                0 <= j < count && (#[trigger] frame.hypotheses@[j]).variable_index == Some(var);
            assert(bound[var] == stack[base + j]);
            assert(frame.hypotheses@[j].variable_index == Some(tail[t].var));
        }
        if exists|t: int, j: int|
            0 <= t < tail.len() && 0 <= j < count && (
            #[trigger] frame.hypotheses@[j]).variable_index == Some((#[trigger] tail[t]).var)
                && stack[base + j].vars.contains(v) {
            let (t, j) = choose|t: int, j: int|
                0 <= t < tail.len() && 0 <= j < count && (
                #[trigger] frame.hypotheses@[j]).variable_index == Some((#[trigger] tail[t]).var)
                    && stack[base + j].vars.contains(v);
            assert(bound[tail[t].var] == stack[base + j]);
            assert(bound[tail[t].var].vars.contains(v));
        }
    }
}

proof fn lemma_no_violation(frame: Frame, slots: Seq<Slot>, n: nat)
    ensures
        first_fault(frame, slots, n) != Some(Fault::ProofDvViolation),
    decreases n,
{
    if n > 0 {
        lemma_no_violation(frame, slots, (n - 1) as nat);
    }
}

/// Where nothing is declared distinct, an assertion with variables that have to be distinct
/// can only be applied with an expression without variables for one of the two.
pub proof fn law_nothing_declared(
    frame: Frame,
    stack: Seq<Slot>,
    distinct: Seq<Bitset>,
    p: int,
    i: int,
    j: int,
)
    requires
        is_assertion_form(frame),
        has_single_types(frame),
        forall|k: int, v: usize|
            0 <= k < distinct.len() ==> !#[trigger] distinct[k]@.contains(v),
        apply(frame, stack, distinct).1 is None,
        0 <= p < frame.mandatory_dv@.len(),
        0 <= i < frame.hypotheses@.len(),
        0 <= j < frame.hypotheses@.len(),
        frame.hypotheses@[i].variable_index == Some(frame.mandatory_dv@[p].0),
        frame.hypotheses@[j].variable_index == Some(frame.mandatory_dv@[p].1),
    ensures
        ({
            let base = stack.len() - frame.hypotheses@.len();
            ||| forall|v: usize| !#[trigger] stack[base + i].vars.contains(v)
            ||| forall|v: usize| !#[trigger] stack[base + j].vars.contains(v)
        }),
{
    let base = stack.len() - frame.hypotheses@.len();
    let values = Map::<usize, Seq<u8>>::new(
        |var: usize| true,
        |var: usize|
            stack[base + choose|k: int|
                0 <= k < frame.hypotheses@.len() && (
                #[trigger] frame.hypotheses@[k]).variable_index == Some(var)].expr,
    );
    assert(are_values(frame, stack, values)) by {
        assert forall|k: int, var: usize|
            0 <= k < frame.hypotheses@.len() && (#[trigger] frame.hypotheses@[k]).variable_index
                == Some(var) implies #[trigger] values[var] == stack[stack.len()
            - frame.hypotheses@.len() + k].expr by {
            let other = choose|m: int|
                0 <= m < frame.hypotheses@.len() && (
                #[trigger] frame.hypotheses@[m]).variable_index == Some(var);
            assert(frame.hypotheses@[other].variable_index == Some(var));
            assert(other == k);
        }
    }
    law_applied(frame, stack, distinct, values);
    if exists|v: usize| #[trigger] stack[base + i].vars.contains(v) {
        let a = choose|v: usize| #[trigger] stack[base + i].vars.contains(v);
        assert forall|b: usize| !#[trigger] stack[base + j].vars.contains(b) by {
            if stack[base + j].vars.contains(b) {
                assert(frame.mandatory_dv@[p].0 == frame.mandatory_dv@[p].0);
                assert(a < distinct.len() && distinct[a as int]@.contains(b));
            }
        }
    }
}

/// What stands against an assertion: too few expressions; or else the first expression that
/// is not what its hypothesis asks for, by its type or its symbols; or else distinctness.
pub proof fn law_misapplied(
    frame: Frame,
    stack: Seq<Slot>,
    distinct: Seq<Bitset>,
    values: Map<usize, Seq<u8>>,
    i: int,
)
    requires
        is_assertion_form(frame),
        has_single_types(frame),
        are_values(frame, stack, values),
    ensures
        ({
            let count = frame.hypotheses@.len();
            let base = stack.len() - count;
            let (after, fault) = apply(frame, stack, distinct);
            &&& count > stack.len() <==> fault == Some(Fault::ProofUnderflow)
            &&& count > stack.len() ==> after == stack
            &&& 0 <= i < count <= stack.len() && (forall|k: int|
                0 <= k < i ==> #[trigger] meets(frame, stack, values, k)) && !meets(
                frame,
                stack,
                values,
                i,
            ) ==> after == stack && fault == Some(
                if stack[base + i].code == frame.hypotheses@[i].expr.typecode {
                    Fault::StepEssenWrong
                } else if frame.hypotheses@[i].variable_index is Some {
                    Fault::StepFloatWrongType
                } else {
                    Fault::StepEssenWrongType
                },
            )
            &&& count <= stack.len() && (forall|k: int|
                0 <= k < count ==> #[trigger] meets(frame, stack, values, k)) ==> fault is None
                || fault == Some(Fault::ProofDvViolation)
        }),
{
    let count = frame.hypotheses@.len();
    let base = stack.len() - count;
    if count <= stack.len() {
        let slots = stack.skip(base);
        lemma_no_fault(frame, slots, count);
        assert forall|k: int| 0 <= k < count implies (#[trigger] hypothesis_fault(frame, slots, k)
            is None <==> meets(frame, stack, values, k)) by {
            lemma_meets(frame, stack, values, k);
        }
        lemma_kinds(frame, slots, count);
        if 0 <= i < count && (forall|k: int| 0 <= k < i ==> #[trigger] meets(
            frame,
            stack,
            values,
            k,
        )) && !meets(frame, stack, values, i) {
            lemma_no_fault(frame, slots, i as nat);
            assert forall|k: int| 0 <= k < i implies #[trigger] hypothesis_fault(frame, slots, k)
                is None by {
                assert(meets(frame, stack, values, k));
            }
            lemma_meets(frame, stack, values, i);
            assert(slots[i] == stack[base + i]);
            lemma_first_fault(frame, slots, i as nat, count);
        }
        if forall|k: int| 0 <= k < count ==> #[trigger] meets(frame, stack, values, k) {
            assert forall|k: int| 0 <= k < count implies #[trigger] hypothesis_fault(
                frame,
                slots,
                k,
            ) is None by {
                assert(meets(frame, stack, values, k));
            }
        }
    }
}

proof fn lemma_kinds(frame: Frame, slots: Seq<Slot>, n: nat)
    ensures
        first_fault(frame, slots, n) != Some(Fault::ProofUnderflow),
    decreases n,
{
    if n > 0 {
        lemma_kinds(frame, slots, (n - 1) as nat);
    }
}

/// Taking a step: a number that no step has is out of range; an expression is put on the
/// stack as it is; and in no case does anything but the stack change.
pub proof fn law_step_taken(own: Frame, state: ProofState, index: int)
    requires
        0 <= index,
    ensures
        ({
            let run = execute(own, state, index);
            &&& index >= state.prepared.len() <==> run.fault == Some(Fault::StepOutOfRange)
            &&& index >= state.prepared.len() ==> run.state == state
            &&& index < state.prepared.len() && state.prepared[index] is Hyp ==> run.fault is None
                && run.state.stack.len() == state.stack.len() + 1 && run.state.stack.last()
                == state.prepared[index]->Hyp_0 && run.state.stack.drop_last() == state.stack
            &&& index < state.prepared.len() && state.prepared[index] is Assert ==> run.fault
                == apply(state.prepared[index]->Assert_0, state.stack, own.optional_dv@).1
                && run.state.stack == apply(
                state.prepared[index]->Assert_0,
                state.stack,
                own.optional_dv@,
            ).0
            &&& run.state.prepared == state.prepared
            &&& run.state.bits == state.bits
            &&& run.state.reads == state.reads
        }),
{
    if index < state.prepared.len() {
        match state.prepared[index] {
            Step::Hyp(slot) => {
                assert(state.stack.push(slot).drop_last() =~= state.stack);
            },
            Step::Assert(frame) => {
                let count = frame.hypotheses@.len();
                if count <= state.stack.len() {
                    lemma_range(frame, state.stack.skip(state.stack.len() - count), count);
                }
            },
        }
    }
}

proof fn lemma_range(frame: Frame, slots: Seq<Slot>, n: nat)
    ensures
        first_fault(frame, slots, n) != Some(Fault::StepOutOfRange),
    decreases n,
{
    if n > 0 {
        lemma_range(frame, slots, (n - 1) as nat);
    }
}

/// A hypothesis of the statement that is proved, as an expression: of its type; for a `$f`
/// hypothesis the name of its variable, which is its one variable; for a `$e` hypothesis its
/// symbols, with the variables that occur in it.
pub proof fn law_hypothesis_expression(own: Frame, names: Seq<Seq<u8>>, hyp: Hyp)
    ensures
        ({
            let slot = hypothesis_slot(own, names, hyp);
            &&& slot.code == hyp.expr.typecode
            &&& hyp.variable_index matches Some(var) ==> slot.expr == variable_names(
                own,
                names,
            )[var] && forall|v: usize| #[trigger] slot.vars.contains(v) <==> v == var
            &&& hyp.variable_index is None ==> slot.expr == substitute(
                own,
                hyp.expr,
                variable_names(own, names),
            ) && forall|v: usize| #[trigger]
                slot.vars.contains(v) <==> exists|t: int|
                    0 <= t < hyp.expr.tail@.len() && (#[trigger] hyp.expr.tail@[t]).var == v
        }),
{
}

/// Another hypothesis, as an expression: of its type, with its symbols, and with the numbers
/// of all its variables.
pub proof fn law_stub_expression(frame: Frame, bits: Map<Atom, usize>)
    ensures
        ({
            let slot = stub_slot(frame, bits);
            &&& slot.code == frame.target.typecode
            &&& slot.expr == frame.stub_expr@
            &&& forall|v: usize| #[trigger]
                slot.vars.contains(v) <==> exists|t: int|
                    0 <= t < frame.var_list@.len() && bits[#[trigger] frame.var_list@[t]] == v
        }),
{
}

} // verus!
