//! Assertions with several `$f` hypotheses for one variable: the latest one counts.

use crate::bit_set::Bitset;
use crate::diag::Fault;
use crate::forms::{has_type, is_assertion_form, is_premise};
use crate::model::{
    all_distinct, apply, bindings, conclusion, declared_distinct, distinctness_holds,
    hypothesis_fault, instance_vars, substitute, values_of, Slot,
};
use crate::scopeck::{ExprFragment, Frame};
use crate::soundness::lemma_no_fault;
use crate::substitute::lemma_substitute_values;
use crate::verify::lemma_first_fault;
use vstd::prelude::*;

verus! {

/// For each variable, `values` has the expression that stands where the latest of the first
/// `n` hypotheses on it asks for one.
pub open spec fn are_latest(
    frame: Frame,
    stack: Seq<Slot>,
    n: int,
    values: Map<usize, Slot>,
) -> bool {
    forall|j: int, var: usize|
        0 <= j < n && (#[trigger] frame.hypotheses@[j]).variable_index == Some(var) && (forall|
            k: int,
        |
            j < k < n ==> (#[trigger] frame.hypotheses@[k]).variable_index != Some(var))
            ==> #[trigger] values[var] == stack[stack.len() - frame.hypotheses@.len() + j]
}

/// The symbols of what stands for each variable.
pub open spec fn symbols_of(values: Map<usize, Slot>) -> Map<usize, Seq<u8>> {
    Map::new(|var: usize| true, |var: usize| values[var].expr)
}

/// Expression `i` of the topmost ones suits hypothesis `i`: it has its type and, for a `$e`
/// hypothesis, just the symbols of its instance.
pub open spec fn fits_in(
    frame: Frame,
    stack: Seq<Slot>,
    values: Map<usize, Slot>,
    i: int,
) -> bool {
    let hyp = frame.hypotheses@[i];
    let slot = stack[stack.len() - frame.hypotheses@.len() + i];
    &&& slot.code == hyp.expr.typecode
    &&& hyp.variable_index is None ==> slot.expr == substitute(
        frame,
        hyp.expr,
        symbols_of(values),
    )
}

/// All variables of what stands for two variables that have to be distinct are declared so.
pub open spec fn all_declared(
    frame: Frame,
    values: Map<usize, Slot>,
    distinct: Seq<Bitset>,
) -> bool {
    forall|p: int, a: usize, b: usize|
        #![trigger values[frame.mandatory_dv@[p].0].vars.contains(a), values[frame.mandatory_dv@[p].1].vars.contains(b)]
        0 <= p < frame.mandatory_dv@.len() && values[frame.mandatory_dv@[p].0].vars.contains(a)
            && values[frame.mandatory_dv@[p].1].vars.contains(b) ==> a < distinct.len()
            && distinct[a as int]@.contains(b)
}

proof fn lemma_latest(frame: Frame, slots: Seq<Slot>, n: nat, j: int, var: usize)
    requires
        0 <= j < n,
        frame.hypotheses@[j].variable_index == Some(var),
        forall|k: int| j < k < n ==> (#[trigger] frame.hypotheses@[k]).variable_index != Some(var),
    ensures
        bindings(frame, slots, n).contains_key(var),
        bindings(frame, slots, n)[var] == slots[j],
    decreases n,
{
    if j < n - 1 {
        assert(frame.hypotheses@[n - 1].variable_index != Some(var));
        lemma_latest(frame, slots, (n - 1) as nat, j, var);
    }
}

proof fn lemma_last_of(frame: Frame, n: int, var: usize) -> (last: int)
    requires
        has_type(frame, n, var),
    ensures
        0 <= last < n,
        frame.hypotheses@[last].variable_index == Some(var),
        forall|k: int|
            last < k < n ==> (#[trigger] frame.hypotheses@[k]).variable_index != Some(var),
    decreases n,
{
    let j = choose|j: int|
        0 <= j < n && (#[trigger] frame.hypotheses@[j]).variable_index == Some(var);
    if frame.hypotheses@[n - 1].variable_index == Some(var) {
        n - 1
    } else {
        assert(j < n - 1);
        assert(frame.hypotheses@[j].variable_index == Some(var));
        lemma_last_of(frame, n - 1, var)
    }
}

proof fn lemma_agree(
    frame: Frame,
    stack: Seq<Slot>,
    n: nat,
    values: Map<usize, Slot>,
    var: usize,
)
    requires
        n <= frame.hypotheses@.len() <= stack.len(),
        are_latest(frame, stack, n as int, values),
        has_type(frame, n as int, var),
    ensures
        ({
            let bound = bindings(
                frame,
                stack.skip(stack.len() - frame.hypotheses@.len()),
                n,
            );
            bound.contains_key(var) && bound[var] == values[var]
        }),
{
    let base = stack.len() - frame.hypotheses@.len();
    let slots = stack.skip(base);
    let j = lemma_last_of(frame, n as int, var);
    lemma_latest(frame, slots, n, j, var);
    assert(frame.hypotheses@[j].variable_index == Some(var));
    assert(values[var] == stack[base + j]);
    assert(slots[j] == stack[base + j]);
}

proof fn lemma_alike(
    frame: Frame,
    stack: Seq<Slot>,
    n: nat,
    values: Map<usize, Slot>,
    tail: Seq<ExprFragment>,
)
    requires
        n <= frame.hypotheses@.len() <= stack.len(),
        are_latest(frame, stack, n as int, values),
        forall|t: int| 0 <= t < tail.len() ==> has_type(frame, n as int, (#[trigger] tail[t]).var),
    ensures
        ({
            let bound = bindings(
                frame,
                stack.skip(stack.len() - frame.hypotheses@.len()),
                n,
            );
            forall|t: int|
                0 <= t < tail.len() ==> values_of(bound)[(#[trigger] tail[t]).var] == symbols_of(
                    values,
                )[tail[t].var] && bound[tail[t].var] == values[tail[t].var]
        }),
{
    let bound = bindings(frame, stack.skip(stack.len() - frame.hypotheses@.len()), n);
    assert forall|t: int| 0 <= t < tail.len() implies values_of(bound)[(#[trigger] tail[t]).var]
        == symbols_of(values)[tail[t].var] && bound[tail[t].var] == values[tail[t].var] by {
        lemma_agree(frame, stack, n, values, tail[t].var);
    }
}

proof fn lemma_fits_in(
    frame: Frame,
    stack: Seq<Slot>,
    values: Map<usize, Slot>,
    i: int,
)
    requires
        is_assertion_form(frame),
        frame.hypotheses@.len() <= stack.len(),
        0 <= i < frame.hypotheses@.len(),
        are_latest(frame, stack, i, values),
    ensures
        ({
            let slots = stack.skip(stack.len() - frame.hypotheses@.len());
            hypothesis_fault(frame, slots, i) == if fits_in(frame, stack, values, i) {
                None::<Fault>
            } else if slots[i].code == frame.hypotheses@[i].expr.typecode {
                Some(Fault::StepEssenWrong)
            } else if frame.hypotheses@[i].variable_index is Some {
                Some(Fault::StepFloatWrongType)
            } else {
                Some(Fault::StepEssenWrongType)
            }
        }),
{
    let base = stack.len() - frame.hypotheses@.len();
    let slots = stack.skip(base);
    let hyp = frame.hypotheses@[i];
    assert(slots[i] == stack[base + i]);
    assert(is_premise(frame, i, hyp));
    if hyp.variable_index is None {
        let bound = bindings(frame, slots, i as nat);
        lemma_alike(frame, stack, i as nat, values, hyp.expr.tail@);
        lemma_substitute_values(frame, hyp.expr.tail@, values_of(bound), symbols_of(values));
    }
}

proof fn lemma_all_declared(
    frame: Frame,
    stack: Seq<Slot>,
    values: Map<usize, Slot>,
    distinct: Seq<Bitset>,
)
    requires
        is_assertion_form(frame),
        frame.hypotheses@.len() <= stack.len(),
        are_latest(frame, stack, frame.hypotheses@.len() as int, values),
    ensures
        ({
            let count = frame.hypotheses@.len();
            let bound = bindings(frame, stack.skip(stack.len() - count), count);
            distinctness_holds(frame, bound, distinct) == all_declared(frame, values, distinct)
        }),
{
    let count = frame.hypotheses@.len();
    let bound = bindings(frame, stack.skip(stack.len() - count), count);
    assert forall|p: int| 0 <= p < frame.mandatory_dv@.len() implies bound[(
    #[trigger] frame.mandatory_dv@[p]).0] == values[frame.mandatory_dv@[p].0]
        && bound[frame.mandatory_dv@[p].1] == values[frame.mandatory_dv@[p].1] by {
        lemma_agree(frame, stack, count, values, frame.mandatory_dv@[p].0);
        lemma_agree(frame, stack, count, values, frame.mandatory_dv@[p].1);
    }
    if distinctness_holds(frame, bound, distinct) {
        assert forall|p: int, a: usize, b: usize|
            #![trigger values[frame.mandatory_dv@[p].0].vars.contains(a), values[frame.mandatory_dv@[p].1].vars.contains(b)]
            0 <= p < frame.mandatory_dv@.len() && values[frame.mandatory_dv@[p].0].vars.contains(a)
                && values[frame.mandatory_dv@[p].1].vars.contains(b) implies a < distinct.len()
            && distinct[a as int]@.contains(b) by {
            assert(all_distinct(
                distinct,
                bound[frame.mandatory_dv@[p].0],
                bound[frame.mandatory_dv@[p].1],
            ));
            assert(declared_distinct(distinct, a, b));
        }
    }
    if all_declared(frame, values, distinct) {
        assert forall|p: int| 0 <= p < frame.mandatory_dv@.len() implies all_distinct(
            distinct,
            bound[(#[trigger] frame.mandatory_dv@[p]).0],
            bound[frame.mandatory_dv@[p].1],
        ) by {
            assert forall|a: usize, b: usize|
                bound[frame.mandatory_dv@[p].0].vars.contains(a)
                    && bound[frame.mandatory_dv@[p].1].vars.contains(
                    b,
                ) implies #[trigger] declared_distinct(distinct, a, b) by {
                assert(values[frame.mandatory_dv@[p].0].vars.contains(a));
                assert(values[frame.mandatory_dv@[p].1].vars.contains(b));
            }
        }
    }
}

/// An assertion asks for one expression for each of its hypotheses.
pub proof fn law_too_few(frame: Frame, stack: Seq<Slot>, distinct: Seq<Bitset>)
    ensures
        stack.len() < frame.hypotheses@.len() ==> apply(frame, stack, distinct).1 == Some(
            Fault::ProofUnderflow,
        ) && apply(frame, stack, distinct).0 == stack,
{
}

/// The first expression that does not suit its hypothesis is the fault, and leaves the stack
/// as it was.  A variable in a `$e` hypothesis stands for what the latest `$f` hypothesis on
/// it before has.
pub proof fn law_first_misfit(
    frame: Frame,
    stack: Seq<Slot>,
    distinct: Seq<Bitset>,
    values: Seq<Map<usize, Slot>>,
    i: int,
)
    requires
        is_assertion_form(frame),
        frame.hypotheses@.len() <= stack.len(),
        0 <= i < frame.hypotheses@.len(),
        i < values.len(),
        forall|k: int| 0 <= k <= i ==> are_latest(frame, stack, k, #[trigger] values[k]),
        forall|k: int| 0 <= k < i ==> fits_in(frame, stack, #[trigger] values[k], k),
        !fits_in(frame, stack, values[i], i),
    ensures
        ({
            let hyp = frame.hypotheses@[i];
            let slot = stack[stack.len() - frame.hypotheses@.len() + i];
            &&& apply(frame, stack, distinct).0 == stack
            &&& apply(frame, stack, distinct).1 == if slot.code == hyp.expr.typecode {
                Some(Fault::StepEssenWrong)
            } else if hyp.variable_index is Some {
                Some(Fault::StepFloatWrongType)
            } else {
                Some(Fault::StepEssenWrongType)
            }
        }),
{
    let count = frame.hypotheses@.len();
    let slots = stack.skip(stack.len() - count);
    assert(are_latest(frame, stack, i, values[i]));
    lemma_fits_in(frame, stack, values[i], i);
    assert forall|k: int| 0 <= k < i implies #[trigger] hypothesis_fault(frame, slots, k)
        is None by {
        assert(are_latest(frame, stack, k, values[k]));
        lemma_fits_in(frame, stack, values[k], k);
    }
    lemma_no_fault(frame, slots, i as nat);
    lemma_first_fault(frame, slots, i as nat, count);
}

/// Where all expressions suit their hypotheses, they are replaced by the instance of what the
/// assertion says: a variable stands for what the latest `$f` hypothesis on it has.  It is a
/// fault just if variables that have to be distinct are not declared so.
pub proof fn law_latest_counts(
    frame: Frame,
    stack: Seq<Slot>,
    distinct: Seq<Bitset>,
    values: Seq<Map<usize, Slot>>,
)
    requires
        is_assertion_form(frame),
        frame.hypotheses@.len() <= stack.len(),
        values.len() == frame.hypotheses@.len() + 1,
        forall|k: int| 0 <= k < values.len() ==> are_latest(frame, stack, k, #[trigger] values[k]),
        forall|k: int|
            0 <= k < frame.hypotheses@.len() ==> fits_in(frame, stack, #[trigger] values[k], k),
    ensures
        ({
            let base = stack.len() - frame.hypotheses@.len();
            let end = values[frame.hypotheses@.len() as int];
            let after = apply(frame, stack, distinct).0;
            &&& apply(frame, stack, distinct).1 == if all_declared(frame, end, distinct) {
                None::<Fault>
            } else {
                Some(Fault::ProofDvViolation)
            }
            &&& after.len() == base + 1
            &&& forall|k: int| 0 <= k < base ==> #[trigger] after[k] == stack[k]
            &&& after[base].code == frame.target.typecode
            &&& after[base].expr == substitute(frame, frame.target, symbols_of(end))
            &&& forall|v: usize| #[trigger]
                after[base].vars.contains(v) <==> exists|t: int|
                    0 <= t < frame.target.tail@.len() && end[(
                    #[trigger] frame.target.tail@[t]).var].vars.contains(v)
        }),
{
    let count = frame.hypotheses@.len();
    let base = stack.len() - count;
    let slots = stack.skip(base);
    let bound = bindings(frame, slots, count);
    let end = values[count as int];
    let tail = frame.target.tail@;
    assert forall|k: int| 0 <= k < count implies #[trigger] hypothesis_fault(frame, slots, k)
        is None by {
        assert(are_latest(frame, stack, k, values[k]));
        lemma_fits_in(frame, stack, values[k], k);
    }
    lemma_no_fault(frame, slots, count);
    assert(are_latest(frame, stack, count as int, end));
    lemma_all_declared(frame, stack, end, distinct);
    lemma_alike(frame, stack, count, end, tail);
    lemma_substitute_values(frame, tail, values_of(bound), symbols_of(end));
    let after = apply(frame, stack, distinct).0;
    assert(after[base] == conclusion(frame, bound));
    assert forall|v: usize| #[trigger] after[base].vars.contains(v) <==> exists|t: int|
        0 <= t < tail.len() && end[(#[trigger] tail[t]).var].vars.contains(v) by {
        assert(after[base].vars == instance_vars(tail, bound));
        if after[base].vars.contains(v) {
            let t = choose|t: int|
                0 <= t < tail.len() && bound[(#[trigger] tail[t]).var].vars.contains(v);
            assert(end[tail[t].var].vars.contains(v));
        }
        if exists|t: int| 0 <= t < tail.len() && end[(#[trigger] tail[t]).var].vars.contains(v) {
            let t = choose|t: int|
                0 <= t < tail.len() && end[(#[trigger] tail[t]).var].vars.contains(v);
            assert(bound[tail[t].var].vars.contains(v));
        }
    }
}

} // verus!
