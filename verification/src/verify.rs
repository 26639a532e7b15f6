//! The checker.

use crate::bit_set::Bitset;
use crate::diag::{fault_of, Diagnostic, Fault};
use crate::incremental::{carries_over, is_refreshed, law_from_scratch, law_incremental, refreshed};
use crate::model::{
    all_distinct, bindings, concat, conclusion, context_fits, context_of, database_fits,
    declared_distinct, decode, distinctness_holds, execute, final_fault, first_fault, follow,
    follow_all, frames_fit, good, has_proof, hypothesis_fault, hypothesis_slot, is_compressed,
    is_segment, named_hypothesis, number_var, number_vars, own_numbers, prepare, prepare_all,
    report_of, reports_of, roster_end, run_compressed, run_proof, save, segment_faults,
    segment_reads, start, start_compressed, statement_fault, statement_fits, statement_reads,
    stub_slot, substitute, substitute_tail, take_step, take_steps, values_of, variable_names,
    Context, Database, Instruction, ProofState, SegmentReport, Slot, Step, CLOSE, DIGITS_LIMIT,
    LETTER_A, LETTER_T, LETTER_U, LETTER_Y, LETTER_Z, OPEN, UNKNOWN,
};
use crate::nameck::{Atom, Nameset};
use crate::numbering::{are_compact, law_number_var};
use crate::parser::{
    Segment, SegmentId, SegmentOrder, Statement, StatementAddress, StatementType, NO_STATEMENT,
};
use crate::reports::law_faults_in_order;
use crate::scopeck::{still_holds, ExprFragment, Frame, Hyp, ScopeReader, ScopeResult, ScopeUsage};
use crate::segment_set::{SegmentRef, SegmentSet};
use crate::soundness::numbers_kept;
use crate::substitute::{
    all_in_buffer, buffer_values, do_substitute, do_substitute_eq, do_substitute_raw,
    do_substitute_vars, in_buffer, lemma_substitute_values, push_symbol,
};
use crate::util::{copy_token, fast_extend, same_bytes};
use std::collections::HashMap;
use std::ops::Range;
use std::sync::Arc;
use vstd::prelude::*;
use vstd::slice::slice_subrange;

verus! {

broadcast use vstd::std_specs::hash::group_hash_axioms;

/// Something that a proof can refer to by number.
enum PreparedStep<'a> {
    /// An expression: its variables, its type, and where its symbols stand.
    Hyp(Bitset, Atom, Range<usize>),
    /// An axiom or a theorem.
    Assert(&'a Frame),
}

/// An expression on the stack.
struct StackSlot {
    vars: Bitset,
    code: Atom,
    /// Where the symbols stand in the buffer.
    expr: Range<usize>,
}

/// The state of the checker.  The buffers are kept from proof to proof.
struct VerifyState<'a> {
    id: SegmentId,
    this_seg: &'a Segment,
    order: &'a SegmentOrder,
    nameset: &'a Nameset,
    scoper: ScopeReader<'a>,
    /// The frame whose statement is proved.
    cur_frame: &'a Frame,
    prepared: Vec<PreparedStep<'a>>,
    stack: Vec<StackSlot>,
    /// The symbols of all expressions of the proof.
    stack_buffer: Vec<u8>,
    temp_buffer: Vec<u8>,
    /// For each variable of an assertion, where the expression for it stands, and the
    /// variables of that.
    subst_info: Vec<(Range<usize>, Bitset)>,
    var2bit: HashMap<Atom, usize>,
    /// The labels that were looked up before the proof.
    earlier: Ghost<Set<Seq<u8>>>,
    /// The labels that were looked up for the proof.
    reads: Ghost<Set<Seq<u8>>>,
}

/// What stays the same during a proof.
struct Setting {
    source: ScopeResult,
    context: Context,
    own: Frame,
    earlier: Set<Seq<u8>>,
}

spec fn text(buffer: Seq<u8>, place: Range<usize>) -> Seq<u8> {
    buffer.subrange(place.start as int, place.end as int)
}

spec fn slot_view(buffer: Seq<u8>, slot: StackSlot) -> Slot {
    Slot { vars: slot.vars@, code: slot.code, expr: text(buffer, slot.expr) }
}

spec fn slots_view(buffer: Seq<u8>, slots: Seq<StackSlot>) -> Seq<Slot> {
    Seq::new(slots.len(), |i: int| slot_view(buffer, slots[i]))
}

spec fn step_view(buffer: Seq<u8>, step: PreparedStep) -> Step {
    match step {
        PreparedStep::Hyp(vars, code, expr) => Step::Hyp(
            Slot { vars: vars@, code, expr: text(buffer, expr) },
        ),
        PreparedStep::Assert(frame) => Step::Assert(*frame),
    }
}

spec fn steps_view(buffer: Seq<u8>, steps: Seq<PreparedStep>) -> Seq<Step> {
    Seq::new(steps.len(), |i: int| step_view(buffer, steps[i]))
}

/// The buffer holds what it held, and maybe more after that.
spec fn grows(before: Seq<u8>, after: Seq<u8>) -> bool {
    before.len() <= after.len() && after.take(before.len() as int) == before
}

/// A place is that of what was appended to the buffer.
spec fn is_appended(place: Range<usize>, before: Seq<u8>, after: Seq<u8>) -> bool {
    place.start == before.len() && place.end == after.len()
}

/// Steps are those from before and a new one, an expression whose symbols are what was
/// appended to the buffer.
spec fn adds_text(
    before: Seq<PreparedStep>,
    after: Seq<PreparedStep>,
    old_buffer: Seq<u8>,
    new_buffer: Seq<u8>,
) -> bool {
    &&& after.len() == before.len() + 1
    &&& after.drop_last() == before
    &&& after.last() matches PreparedStep::Hyp(vars, code, place) && is_appended(
        place,
        old_buffer,
        new_buffer,
    )
}

proof fn lemma_grows(a: Seq<u8>, b: Seq<u8>, c: Seq<u8>)
    requires
        grows(a, b),
        grows(b, c),
    ensures
        grows(a, c),
{
    assert(c.take(a.len() as int) =~= c.take(b.len() as int).take(a.len() as int));
}

proof fn lemma_append_grows(before: Seq<u8>, more: Seq<u8>)
    ensures
        grows(before, before + more),
        grows(before, before),
{
    assert((before + more).take(before.len() as int) =~= before);
    assert(before.take(before.len() as int) =~= before);
}

/// The symbols that have to be put into the buffer to make the statement with a label
/// available.
spec fn text_for(context: Context, own: Frame, label: Seq<u8>) -> Seq<u8> {
    if !context.frames.contains_key(label) {
        match named_hypothesis(context, own, label, 0) {
            Some(hyp) => hypothesis_slot(own, context.names, hyp).expr,
            None => Seq::empty(),
        }
    } else if context.frames[label].is_assertion() {
        Seq::empty()
    } else {
        context.frames[label].stub_expr@
    }
}

/// Whether a label is that of an assertion.
spec fn takes_hypotheses(context: Context, label: Seq<u8>) -> bool {
    context.frames.contains_key(label) && context.frames[label].is_assertion()
}

/// All expressions on the stack stand in the buffer.
spec fn slots_in_buffer(slots: Seq<StackSlot>, len: nat) -> bool {
    forall|i: int| 0 <= i < slots.len() ==> in_buffer((#[trigger] slots[i]).expr, len)
}

spec fn step_fits(step: PreparedStep, len: nat) -> bool {
    match step {
        PreparedStep::Hyp(vars, code, expr) => in_buffer(expr, len),
        PreparedStep::Assert(frame) => frame.can_apply(),
    }
}

/// All steps can be used.
spec fn steps_fit(steps: Seq<PreparedStep>, len: nat) -> bool {
    forall|i: int| 0 <= i < steps.len() ==> step_fits(#[trigger] steps[i], len)
}

/// Expressions stay what they are when the buffer grows.
proof fn lemma_buffer_grows(
    buffer: Seq<u8>,
    more: Seq<u8>,
    slots: Seq<StackSlot>,
    steps: Seq<PreparedStep>,
)
    requires
        slots_in_buffer(slots, buffer.len()),
        steps_fit(steps, buffer.len()),
    ensures
        slots_in_buffer(slots, (buffer + more).len()),
        steps_fit(steps, (buffer + more).len()),
        slots_view(buffer + more, slots) == slots_view(buffer, slots),
        steps_view(buffer + more, steps) == steps_view(buffer, steps),
{
    assert forall|place: Range<usize>| in_buffer(place, buffer.len()) implies #[trigger] text(
        buffer + more,
        place,
    ) == text(buffer, place) by {
        assert(text(buffer + more, place) =~= text(buffer, place));
    }
    assert forall|i: int| 0 <= i < steps.len() implies step_fits(
        #[trigger] steps[i],
        (buffer + more).len(),
    ) && step_view(buffer + more, steps[i]) == step_view(buffer, steps[i]) by {
        assert(step_fits(steps[i], buffer.len()));
    }
    assert(slots_view(buffer + more, slots) =~= slots_view(buffer, slots));
    assert(steps_view(buffer + more, steps) =~= steps_view(buffer, steps));
}

impl<'a> VerifyState<'a> {
    spec fn context(&self) -> Context {
        Context {
            frames: self.scoper.source().frames(),
            names: self.nameset@,
            positions: self.order.positions@,
            id: self.id,
            segment: *self.this_seg,
        }
    }

    spec fn setting(&self) -> Setting {
        Setting {
            source: self.scoper.source(),
            context: self.context(),
            own: *self.cur_frame,
            earlier: self.earlier@,
        }
    }

    spec fn view(&self) -> ProofState {
        ProofState {
            prepared: steps_view(self.stack_buffer@, self.prepared@),
            stack: slots_view(self.stack_buffer@, self.stack@),
            bits: self.var2bit@,
            reads: self.reads@,
        }
    }

    /// What holds between proofs.
    spec fn ready(&self) -> bool {
        &&& self.scoper.wf()
        &&& frames_fit(self.order.positions@.len(), self.scoper.source().frames())
    }

    /// What holds during a proof.
    spec fn inv(&self) -> bool {
        &&& self.ready()
        &&& self.scoper.lookups() == self.earlier@.union(self.reads@)
        &&& self.cur_frame.can_prove(self.nameset@)
        &&& self.cur_frame.valid.start.segment_id < self.order.positions@.len()
        &&& slots_in_buffer(self.stack@, self.stack_buffer@.len())
        &&& steps_fit(self.prepared@, self.stack_buffer@.len())
    }
}

/// The number of a variable; one that has none yet gets the next number.
fn map_var(var2bit: &mut HashMap<Atom, usize>, token: Atom) -> (bit: usize)
    ensures
        final(var2bit)@ == number_var(old(var2bit)@, token),
        final(var2bit)@.contains_key(token),
        bit == final(var2bit)@[token],
        numbers_kept(old(var2bit)@, final(var2bit)@),
        are_compact(old(var2bit)@) ==> are_compact(final(var2bit)@),
{
    let nbit: usize = var2bit.len();
    let bit: usize = *var2bit.entry(token).or_insert(nbit);
    proof {
        assert(var2bit@ =~= number_var(old(var2bit)@, token));
        if are_compact(old(var2bit)@) {
            law_number_var(old(var2bit)@, token);
        }
    }
    bit
}

/// Makes a hypothesis of the frame available as a step.
fn prepare_hypothesis<'a>(state: &mut VerifyState<'a>, hyp: &'a Hyp)
    requires
        old(state).inv(),
        old(state).cur_frame.hypothesis_can_prove(*hyp),
    ensures
        final(state).inv(),
        final(state).setting() == old(state).setting(),
        final(state)@ == (ProofState {
            prepared: old(state)@.prepared.push(
                Step::Hyp(
                    hypothesis_slot(
                        old(state).setting().own,
                        old(state).setting().context.names,
                        *hyp,
                    ),
                ),
            ),
            ..old(state)@
        }),
        final(state).stack_buffer@ == old(state).stack_buffer@ + hypothesis_slot(
            old(state).setting().own,
            old(state).setting().context.names,
            *hyp,
        ).expr,
        adds_text(
            old(state).prepared@,
            final(state).prepared@,
            old(state).stack_buffer@,
            final(state).stack_buffer@,
        ),
        *final(state) == (VerifyState {
            prepared: final(state).prepared,
            stack_buffer: final(state).stack_buffer,
            ..*old(state)
        }),
{
    let mut vars = Bitset::new();
    let tos: usize = state.stack_buffer.len();
    let ghost before = state.stack_buffer@;
    let frame: &'a Frame = state.cur_frame;
    let ghost slot = hypothesis_slot(*frame, state.nameset@, *hyp);
    match hyp.variable_index {
        Some(var) => {
            push_symbol(&mut state.stack_buffer, state.nameset.atom_name(frame.var_list[var]));
            vars.set_bit(var);
        },
        None => {
            do_substitute_raw(&mut state.stack_buffer, frame, &hyp.expr, state.nameset);
            let mut i: usize = 0;
            while i < hyp.expr.tail.len()
                invariant
                    i <= hyp.expr.tail@.len(),
                    forall|var: usize|
                        vars@.contains(var) <==> exists|k: int|
                            0 <= k < i && (#[trigger] hyp.expr.tail@[k]).var == var,
                decreases hyp.expr.tail@.len() - i,
            {
                let ghost prior = vars@;
                let var: usize = hyp.expr.tail[i].var;
                vars.set_bit(var);
                proof {
                    assert(hyp.expr.tail@[i as int].var == var);
                    assert forall|other: usize|
                        vars@.contains(other) <==> exists|k: int|
                            0 <= k < i + 1 && (#[trigger] hyp.expr.tail@[k]).var == other by {
                        if prior.contains(other) {
                            let k = choose|k: int|
                                0 <= k < i && (#[trigger] hyp.expr.tail@[k]).var == other;
                            assert(hyp.expr.tail@[k].var == other);
                        }
                    }
                }
                i += 1;
            }
        },
    }
    assert(vars@ =~= slot.vars);
    assert(state.stack_buffer@ == before + slot.expr);
    let ntos: usize = state.stack_buffer.len();
    proof {
        lemma_buffer_grows(before, slot.expr, state.stack@, state.prepared@);
        assert(text(state.stack_buffer@, tos..ntos) =~= slot.expr);
    }
    state.prepared.push(PreparedStep::Hyp(vars, hyp.expr.typecode, tos..ntos));
    proof {
        assert(state@.prepared =~= old(state)@.prepared.push(Step::Hyp(slot)));
        assert(state.prepared@.drop_last() =~= old(state).prepared@);
    }
}

/// Makes a `$e` hypothesis available by its label.  The table of frames does not have
/// these while their own scope is open.
fn prepare_named_hyp<'a>(state: &mut VerifyState<'a>, label: &[u8]) -> (fault: Option<Diagnostic>)
    requires
        old(state).inv(),
    ensures
        final(state).inv(),
        final(state).setting() == old(state).setting(),
        match named_hypothesis(
            old(state).setting().context,
            old(state).setting().own,
            label@,
            0,
        ) {
            Some(hyp) => fault is None && final(state)@ == (ProofState {
                prepared: old(state)@.prepared.push(
                    Step::Hyp(
                        hypothesis_slot(
                            old(state).setting().own,
                            old(state).setting().context.names,
                            hyp,
                        ),
                    ),
                ),
                ..old(state)@
            }) && adds_text(
                old(state).prepared@,
                final(state).prepared@,
                old(state).stack_buffer@,
                final(state).stack_buffer@,
            ) && final(state).stack_buffer@ == old(state).stack_buffer@ + hypothesis_slot(
                old(state).setting().own,
                old(state).setting().context.names,
                hyp,
            ).expr,
            None => fault_of(fault) == Some(Fault::StepMissing(label@)) && *final(state) == *old(
                state,
            ),
        },
        *final(state) == (VerifyState {
            prepared: final(state).prepared,
            stack_buffer: final(state).stack_buffer,
            ..*old(state)
        }),
{
    let frame: &'a Frame = state.cur_frame;
    let mut i: usize = 0;
    while i < frame.hypotheses.len()
        invariant
            i <= frame.hypotheses@.len(),
            *frame == state.setting().own,
            *state == *old(state),
            state.inv(),
            named_hypothesis(state.context(), *frame, label@, 0) == named_hypothesis(
                state.context(),
                *frame,
                label@,
                i as int,
            ),
        decreases frame.hypotheses@.len() - i,
    {
        let hyp: &'a Hyp = &frame.hypotheses[i];
        assert(*hyp == frame.hypotheses@[i as int]);
        if !hyp.is_float() && hyp.address.segment_id == state.id && hyp.address.index >= 0 && (
        hyp.address.index as usize) < state.this_seg.statements.len() {
            let found: &Statement = &state.this_seg.statements[hyp.address.index as usize];
            if same_bytes(found.label.as_slice(), label) {
                prepare_hypothesis(state, hyp);
                return None;
            }
        }
        i += 1;
    }
    Some(Diagnostic::StepMissing(copy_token(label)))
}

/// Makes the statement with a label available as a step.
fn prepare_step<'a>(state: &mut VerifyState<'a>, label: &[u8]) -> (fault: Option<Diagnostic>)
    requires
        old(state).inv(),
    ensures
        final(state).inv(),
        final(state).setting() == old(state).setting(),
        fault_of(fault) == prepare(
            old(state).setting().context,
            old(state).setting().own,
            old(state)@,
            label@,
        ).fault,
        final(state)@ == prepare(
            old(state).setting().context,
            old(state).setting().own,
            old(state)@,
            label@,
        ).state,
        fault is Some ==> *final(state) == (VerifyState {
            scoper: final(state).scoper,
            reads: final(state).reads,
            ..*old(state)
        }),
        fault is None ==> final(state).stack_buffer@ == old(state).stack_buffer@ + text_for(
            old(state).setting().context,
            old(state).setting().own,
            label@,
        ),
        fault is None ==> if takes_hypotheses(old(state).setting().context, label@) {
            &&& final(state).prepared@ == old(state).prepared@.push(final(state).prepared@.last())
            &&& final(state).prepared@.last() matches PreparedStep::Assert(frame) && *frame == old(
                state,
            ).setting().context.frames[label@]
            &&& *final(state) == (VerifyState {
                prepared: final(state).prepared,
                scoper: final(state).scoper,
                reads: final(state).reads,
                ..*old(state)
            })
        } else {
            adds_text(
                old(state).prepared@,
                final(state).prepared@,
                old(state).stack_buffer@,
                final(state).stack_buffer@,
            )
        },
        *final(state) == (VerifyState {
            prepared: final(state).prepared,
            stack_buffer: final(state).stack_buffer,
            var2bit: final(state).var2bit,
            scoper: final(state).scoper,
            reads: final(state).reads,
            ..*old(state)
        }),
        numbers_kept(old(state).var2bit@, final(state).var2bit@),
        grows(old(state).stack_buffer@, final(state).stack_buffer@),
{
    proof {
        lemma_append_grows(
            state.stack_buffer@,
            text_for(state.context(), *state.cur_frame, label@),
        );
    }
    let found: Option<&'a Frame> = state.scoper.get(label);
    proof {
        state.reads@ = state.reads@.insert(label@);
        assert(state.scoper.lookups() =~= state.earlier@.union(state.reads@));
    }
    let frame: &'a Frame = match found {
        Some(frame) => frame,
        None => {
            return prepare_named_hyp(state, label);
        },
    };
    let pos = state.cur_frame.valid.start;
    if !state.order.precedes(frame.valid.start, pos) {
        return Some(Diagnostic::StepUsedBeforeDefinition(copy_token(label)));
    }
    if frame.valid.end != NO_STATEMENT {
        if pos.segment_id != frame.valid.start.segment_id || pos.index >= frame.valid.end {
            return Some(Diagnostic::StepUsedAfterScope(copy_token(label)));
        }
    }
    if frame.stype == StatementType::Axiom || frame.stype == StatementType::Provable {
        state.prepared.push(PreparedStep::Assert(frame));
        proof {
            assert(state@.prepared =~= old(state)@.prepared.push(Step::Assert(*frame)));
            assert(state.stack_buffer@ =~= state.stack_buffer@ + Seq::<u8>::empty());
        }
    } else {
        let mut vars = Bitset::new();
        let ghost bits = state.var2bit@;
        let ghost list = frame.var_list@;
        let mut i: usize = 0;
        assert(list.take(0).len() == 0);
        let ghost middle = *state;
        while i < frame.var_list.len()
            invariant
                i <= list.len(),
                list == frame.var_list@,
                state.var2bit@ == number_vars(bits, list.take(i as int)),
                numbers_kept(bits, state.var2bit@),
                forall|k: int| 0 <= k < i ==> state.var2bit@.contains_key(#[trigger] list[k]),
                forall|bit: usize|
                    vars@.contains(bit) <==> exists|k: int|
                        0 <= k < i && state.var2bit@[#[trigger] list[k]] == bit,
                *state == (VerifyState { var2bit: state.var2bit, ..middle }),
            decreases list.len() - i,
        {
            let ghost known = state.var2bit@;
            let ghost prior = vars@;
            let bit: usize = map_var(&mut state.var2bit, frame.var_list[i]);
            vars.set_bit(bit);
            proof {
                assert(list.take(i + 1).drop_last() =~= list.take(i as int));
                assert forall|other: usize|
                    vars@.contains(other) <==> exists|k: int|
                        0 <= k < i + 1 && state.var2bit@[#[trigger] list[k]] == other by {
                    if prior.contains(other) {
                        let k = choose|k: int| 0 <= k < i && known[#[trigger] list[k]] == other;
                        assert(state.var2bit@[list[k]] == other);
                    }
                    assert(state.var2bit@[list[i as int]] == bit);
                    if exists|k: int| 0 <= k < i + 1 && state.var2bit@[#[trigger] list[k]] == other {
                        let k = choose|k: int|
                            0 <= k < i + 1 && state.var2bit@[#[trigger] list[k]] == other;
                        if k < i {
                            assert(known[list[k]] == other);
                        }
                    }
                }
            }
            i += 1;
        }
        assert(list.take(i as int) =~= list);
        let tos: usize = state.stack_buffer.len();
        let ghost before = state.stack_buffer@;
        fast_extend(&mut state.stack_buffer, frame.stub_expr.as_slice());
        let ntos: usize = state.stack_buffer.len();
        let ghost slot = stub_slot(*frame, state.var2bit@);
        proof {
            lemma_buffer_grows(before, frame.stub_expr@, state.stack@, state.prepared@);
            assert(text(state.stack_buffer@, tos..ntos) =~= slot.expr);
            assert(vars@ =~= slot.vars);
        }
        state.prepared.push(PreparedStep::Hyp(vars, frame.target.typecode, tos..ntos));
        proof {
            assert(state@.prepared =~= old(state)@.prepared.push(Step::Hyp(slot)));
            assert(state.prepared@.drop_last() =~= old(state).prepared@);
        }
    }
    None
}

/// `subst_info` has the expression that is bound to each variable.
spec fn has_bindings(
    subst_info: Seq<(Range<usize>, Bitset)>,
    buffer: Seq<u8>,
    bound: Map<usize, Slot>,
) -> bool {
    forall|var: usize| #[trigger]
        bound.contains_key(var) ==> {
            &&& var < subst_info.len()
            &&& in_buffer(subst_info[var as int].0, buffer.len())
            &&& text(buffer, subst_info[var as int].0) == bound[var].expr
            &&& subst_info[var as int].1@ == bound[var].vars
        }
}

/// A variable gets an expression from the hypotheses just if one of them binds it.
proof fn lemma_bindings(frame: Frame, slots: Seq<Slot>, n: nat, var: usize)
    requires
        n <= frame.hypotheses@.len(),
    ensures
        bindings(frame, slots, n).contains_key(var) == frame.binds(n as int, var),
    decreases n,
{
    if n > 0 {
        lemma_bindings(frame, slots, (n - 1) as nat, var);
        let last = frame.hypotheses@[n - 1].variable_index;
        if frame.binds(n as int, var) {
            let i = choose|i: int|
                0 <= i < n && (#[trigger] frame.hypotheses@[i]).variable_index == Some(var);
            if i < n - 1 {
                assert(frame.binds(n - 1, var));
            }
        }
        if frame.binds(n - 1, var) {
            let i = choose|i: int|
                0 <= i < n - 1 && (#[trigger] frame.hypotheses@[i]).variable_index == Some(var);
            assert(frame.hypotheses@[i].variable_index == Some(var));
        }
        if last == Some(var) {
            assert(frame.hypotheses@[n - 1].variable_index == Some(var));
        }
    }
}

/// The values in the buffer are those of the bindings, as far as an expression is
/// concerned whose variables are all bound.
proof fn lemma_values(
    frame: Frame,
    slots: Seq<Slot>,
    n: nat,
    subst_info: Seq<(Range<usize>, Bitset)>,
    buffer: Seq<u8>,
    tail: Seq<ExprFragment>,
)
    requires
        n <= frame.hypotheses@.len(),
        has_bindings(subst_info, buffer, bindings(frame, slots, n)),
        forall|i: int| 0 <= i < tail.len() ==> frame.binds(n as int, (#[trigger] tail[i]).var),
    ensures
        all_in_buffer(tail, subst_info, buffer.len()),
        substitute_tail(frame, tail, buffer_values(subst_info, buffer)) == substitute_tail(
            frame,
            tail,
            values_of(bindings(frame, slots, n)),
        ),
{
    let bound = bindings(frame, slots, n);
    let left = buffer_values(subst_info, buffer);
    let right = values_of(bound);
    assert forall|i: int| 0 <= i < tail.len() implies left[(#[trigger] tail[i]).var]
        == right[tail[i].var] && tail[i].var < subst_info.len() && in_buffer(
        subst_info[tail[i].var as int].0,
        buffer.len(),
    ) by {
        lemma_bindings(frame, slots, n, tail[i].var);
        assert(bound.contains_key(tail[i].var));
    }
    lemma_substitute_values(frame, tail, left, right);
}

/// Checks the topmost expressions of the stack against the hypotheses of an assertion,
/// and finds the expression for each of its variables.
fn check_hypotheses(
    frame: &Frame,
    stack: &Vec<StackSlot>,
    sbase: usize,
    buffer: &Vec<u8>,
    subst_info: &mut Vec<(Range<usize>, Bitset)>,
) -> (fault: Option<Diagnostic>)
    requires
        frame.can_apply(),
        sbase + frame.hypotheses@.len() == stack@.len(),
        slots_in_buffer(stack@, buffer@.len()),
        frame.mandatory_count <= old(subst_info)@.len(),
    ensures
        fault_of(fault) == first_fault(
            *frame,
            slots_view(buffer@, stack@).skip(sbase as int),
            frame.hypotheses@.len(),
        ),
        fault is None ==> has_bindings(
            final(subst_info)@,
            buffer@,
            bindings(
                *frame,
                slots_view(buffer@, stack@).skip(sbase as int),
                frame.hypotheses@.len(),
            ),
        ),
{
    let ghost slots = slots_view(buffer@, stack@).skip(sbase as int);
    let ghost count = frame.hypotheses@.len();
    let mut ix: usize = 0;
    while ix < frame.hypotheses.len()
        invariant
            ix <= count == frame.hypotheses@.len(),
            frame.can_apply(),
            sbase + count == stack@.len(),
            slots == slots_view(buffer@, stack@).skip(sbase as int),
            slots_in_buffer(stack@, buffer@.len()),
            frame.mandatory_count <= subst_info@.len(),
            first_fault(*frame, slots, ix as nat) is None,
            has_bindings(subst_info@, buffer@, bindings(*frame, slots, ix as nat)),
        decreases count - ix,
    {
        let hyp: &Hyp = &frame.hypotheses[ix];
        assert(sbase + ix < stack.len());
        let slot: &StackSlot = &stack[sbase + ix];
        proof {
            assert(frame.hypothesis_can_apply(ix as int, frame.hypotheses@[ix as int]));
            assert(slots[ix as int] == slot_view(buffer@, *slot));
        }
        if slot.code != hyp.expr.typecode {
            let fault = if hyp.is_float() {
                Diagnostic::StepFloatWrongType
            } else {
                Diagnostic::StepEssenWrongType
            };
            proof {
                lemma_first_fault(*frame, slots, ix as nat, count);
            }
            return Some(fault);
        }
        match hyp.variable_index {
            Some(var) => {
                subst_info[var] = (slot.expr.start..slot.expr.end, slot.vars.clone());
                assert(has_bindings(
                    subst_info@,
                    buffer@,
                    bindings(*frame, slots, (ix + 1) as nat),
                ));
            },
            None => {
                proof {
                    lemma_values(
                        *frame,
                        slots,
                        ix as nat,
                        subst_info@,
                        buffer@,
                        hyp.expr.tail@,
                    );
                }
                let compare: &[u8] = slice_subrange(
                    buffer.as_slice(),
                    slot.expr.start,
                    slot.expr.end,
                );
                if !do_substitute_eq(
                    compare,
                    frame,
                    &hyp.expr,
                    subst_info.as_slice(),
                    buffer.as_slice(),
                ) {
                    proof {
                        lemma_first_fault(*frame, slots, ix as nat, count);
                    }
                    return Some(Diagnostic::StepEssenWrong);
                }
            },
        }
        ix += 1;
    }
    None
}

/// The first fault is the one that comes first.
pub proof fn lemma_first_fault(frame: Frame, slots: Seq<Slot>, i: nat, n: nat)
    requires
        i < n,
        first_fault(frame, slots, i) is None,
        hypothesis_fault(frame, slots, i as int) is Some,
    ensures
        first_fault(frame, slots, n) == hypothesis_fault(frame, slots, i as int),
    decreases n,
{
    if i + 1 < n {
        lemma_first_fault(frame, slots, i, (n - 1) as nat);
    }
}

/// Whether the expressions in place of the variables of an assertion are as distinct as
/// it demands.
fn check_distinct(
    frame: &Frame,
    subst_info: &Vec<(Range<usize>, Bitset)>,
    dv_map: &Vec<Bitset>,
    Ghost(buffer): Ghost<Seq<u8>>,
    Ghost(bound): Ghost<Map<usize, Slot>>,
) -> (holds: bool)
    requires
        has_bindings(subst_info@, buffer, bound),
        forall|i: int|
            0 <= i < frame.mandatory_dv@.len() ==> bound.contains_key(
                (#[trigger] frame.mandatory_dv@[i]).0,
            ) && bound.contains_key(frame.mandatory_dv@[i].1),
    ensures
        holds == distinctness_holds(*frame, bound, dv_map@),
{
    let mut i: usize = 0;
    while i < frame.mandatory_dv.len()
        invariant
            i <= frame.mandatory_dv@.len(),
            has_bindings(subst_info@, buffer, bound),
            forall|k: int|
                0 <= k < frame.mandatory_dv@.len() ==> bound.contains_key(
                    (#[trigger] frame.mandatory_dv@[k]).0,
                ) && bound.contains_key(frame.mandatory_dv@[k].1),
            forall|k: int|
                0 <= k < i ==> all_distinct(
                    dv_map@,
                    bound[(#[trigger] frame.mandatory_dv@[k]).0],
                    bound[frame.mandatory_dv@[k].1],
                ),
        decreases frame.mandatory_dv@.len() - i,
    {
        let ix1: usize = frame.mandatory_dv[i].0;
        let ix2: usize = frame.mandatory_dv[i].1;
        let ghost pair = frame.mandatory_dv@[i as int];
        assert(bound.contains_key(pair.0) && bound.contains_key(pair.1));
        let vars1: Vec<usize> = subst_info[ix1].1.members();
        let vars2: Vec<usize> = subst_info[ix2].1.members();
        let ghost left = bound[ix1];
        let ghost right = bound[ix2];
        let mut j: usize = 0;
        while j < vars1.len()
            invariant
                j <= vars1@.len(),
                vars1@.to_set() == left.vars,
                vars2@.to_set() == right.vars,
                i < frame.mandatory_dv@.len(),
                left == bound[frame.mandatory_dv@[i as int].0],
                right == bound[frame.mandatory_dv@[i as int].1],
                forall|k: int, b: usize|
                    0 <= k < j && right.vars.contains(b) ==> #[trigger] declared_distinct(
                        dv_map@,
                        vars1@[k],
                        b,
                    ),
            decreases vars1@.len() - j,
        {
            let var1: usize = vars1[j];
            assert(vars1@.to_set().contains(var1));
            let mut k: usize = 0;
            while k < vars2.len()
                invariant
                    k <= vars2@.len(),
                    j < vars1@.len(),
                    var1 == vars1@[j as int],
                    left.vars.contains(var1),
                    vars2@.to_set() == right.vars,
                    i < frame.mandatory_dv@.len(),
                    left == bound[frame.mandatory_dv@[i as int].0],
                    right == bound[frame.mandatory_dv@[i as int].1],
                    forall|m: int|
                        0 <= m < k ==> #[trigger] declared_distinct(dv_map@, var1, vars2@[m]),
                decreases vars2@.len() - k,
            {
                let var2: usize = vars2[k];
                assert(vars2@.to_set().contains(var2));
                if var1 >= dv_map.len() || !dv_map[var1].has_bit(var2) {
                    proof {
                        assert(!declared_distinct(dv_map@, var1, var2));
                        assert(!all_distinct(dv_map@, left, right));
                        assert(!distinctness_holds(*frame, bound, dv_map@));
                    }
                    return false;
                }
                k += 1;
            }
            proof {
                assert forall|m: int, b: usize|
                    0 <= m < j + 1 && right.vars.contains(b) implies #[trigger] declared_distinct(
                    dv_map@,
                    vars1@[m],
                    b,
                ) by {
                    if m == j {
                        assert(vars2@.to_set().contains(b));
                        let at = choose|at: int| 0 <= at < vars2@.len() && vars2@[at] == b;
                        assert(declared_distinct(dv_map@, var1, vars2@[at]));
                    }
                }
            }
            j += 1;
        }
        proof {
            assert forall|a: usize, b: usize|
                left.vars.contains(a) && right.vars.contains(
                    b,
                ) implies #[trigger] declared_distinct(dv_map@, a, b) by {
                assert(vars1@.to_set().contains(a));
                let at = choose|at: int| 0 <= at < vars1@.len() && vars1@[at] == a;
                assert(declared_distinct(dv_map@, vars1@[at], b));
            }
        }
        i += 1;
    }
    true
}

/// What can be wrong with an instance of a hypothesis is its type or its symbols.
proof fn lemma_misfit(frame: Frame, slots: Seq<Slot>, n: nat)
    ensures
        first_fault(frame, slots, n) matches Some(fault) ==> fault is StepFloatWrongType
            || fault is StepEssenWrongType || fault is StepEssenWrong,
    decreases n,
{
    if n > 0 {
        lemma_misfit(frame, slots, (n - 1) as nat);
    }
}

/// Whether an assertion was applied: all is well, or else only distinctness is not.
spec fn is_applied(fault: Option<Diagnostic>) -> bool {
    fault is None || fault_of(fault) == Some(Fault::ProofDvViolation)
}

/// Takes a step.
fn execute_step<'a>(state: &mut VerifyState<'a>, index: usize) -> (fault: Option<Diagnostic>)
    requires
        old(state).inv(),
    ensures
        final(state).inv(),
        final(state).setting() == old(state).setting(),
        final(state)@.reads == old(state)@.reads,
        fault_of(fault) == execute(old(state).setting().own, old(state)@, index as int).fault,
        final(state)@ == execute(old(state).setting().own, old(state)@, index as int).state,
        fault is None ==> final(state)@.stack.len() > 0,
        fault_of(fault) == Some(Fault::StepOutOfRange) || fault_of(fault) == Some(
            Fault::ProofUnderflow,
        ) ==> *final(state) == *old(state),
        fault is Some && fault_of(fault) != Some(Fault::ProofDvViolation) ==> *final(state) == (
        VerifyState { subst_info: final(state).subst_info, ..*old(state) }),
        index < old(state).prepared@.len() ==> match old(state).prepared@[index as int] {
            PreparedStep::Hyp(vars, code, place) => {
                let top = final(state).stack@.last();
                &&& final(state).stack@ == old(state).stack@.push(top)
                &&& top.vars@ == vars@ && top.code == code && top.expr == place
                &&& *final(state) == (VerifyState { stack: final(state).stack, ..*old(state) })
            },
            PreparedStep::Assert(frame) => is_applied(fault) ==> {
                let top = final(state).stack@.last();
                let added = final(state)@.stack.last().expr;
                let base = old(state).stack@.len() - frame.hypotheses@.len();
                &&& 0 <= base
                &&& final(state).stack@ == old(state).stack@.take(base).push(top)
                &&& final(state).stack_buffer@ == old(state).stack_buffer@ + added
                &&& is_appended(top.expr, old(state).stack_buffer@, final(state).stack_buffer@)
            },
        },
        *final(state) == (VerifyState {
            stack: final(state).stack,
            stack_buffer: final(state).stack_buffer,
            subst_info: final(state).subst_info,
            ..*old(state)
        }),
        grows(old(state).stack_buffer@, final(state).stack_buffer@),
{
    proof {
        lemma_append_grows(state.stack_buffer@, Seq::empty());
    }
    if index >= state.prepared.len() {
        return Some(Diagnostic::StepOutOfRange);
    }
    assert(step_fits(state.prepared@[index as int], state.stack_buffer@.len()));
    let frame: &'a Frame = match &state.prepared[index] {
        PreparedStep::Hyp(vars, code, expr) => {
            let slot = StackSlot { vars: vars.clone(), code: *code, expr: expr.start..expr.end };
            let ghost pushed = slot_view(state.stack_buffer@, slot);
            state.stack.push(slot);
            proof {
                assert(old(state)@.prepared[index as int] == Step::Hyp(pushed));
                assert(state@.stack =~= old(state)@.stack.push(pushed));
            }
            return None;
        },
        PreparedStep::Assert(frame) => *frame,
    };
    assert(state@.prepared[index as int] == Step::Assert(*frame));
    if state.stack.len() < frame.hypotheses.len() {
        return Some(Diagnostic::ProofUnderflow);
    }
    let sbase: usize = state.stack.len() - frame.hypotheses.len();
    while state.subst_info.len() < frame.mandatory_count
        invariant
            *state == (VerifyState { subst_info: state.subst_info, ..*old(state) }),
        decreases frame.mandatory_count - state.subst_info@.len(),
    {
        state.subst_info.push((0..0, Bitset::new()));
    }
    let ghost slots = state@.stack.skip(sbase as int);
    let ghost count = frame.hypotheses@.len();
    let ghost bound = bindings(*frame, slots, count);
    let fault = check_hypotheses(
        frame,
        &state.stack,
        sbase,
        &state.stack_buffer,
        &mut state.subst_info,
    );
    if fault.is_some() {
        proof {
            lemma_misfit(*frame, slots, count);
        }
        return fault;
    }
    let tos: usize = state.stack_buffer.len();
    let ghost before = state.stack_buffer@;
    let ghost result = conclusion(*frame, bound);
    proof {
        lemma_values(*frame, slots, count, state.subst_info@, before, frame.target.tail@);
    }
    do_substitute(
        &mut state.stack_buffer,
        frame,
        &frame.target,
        state.subst_info.as_slice(),
    );
    let ntos: usize = state.stack_buffer.len();
    assert(state.stack_buffer@ == before + result.expr);
    let vars: Bitset = do_substitute_vars(
        frame.target.tail.as_slice(),
        state.subst_info.as_slice(),
    );
    proof {
        lemma_buffer_grows(before, result.expr, state.stack@, state.prepared@);
        lemma_append_grows(before, result.expr);
        assert(text(state.stack_buffer@, tos..ntos) =~= result.expr);
        assert forall|i: int| 0 <= i < frame.target.tail@.len() implies state.subst_info@[(
        #[trigger] frame.target.tail@[i]).var as int].1@ == bound[frame.target.tail@[i].var].vars by {
            lemma_bindings(*frame, slots, count, frame.target.tail@[i].var);
            assert(bound.contains_key(frame.target.tail@[i].var));
        }
        assert(vars@ =~= result.vars) by {
            assert forall|var: usize| vars@.contains(var) == result.vars.contains(var) by {
                if vars@.contains(var) {
                    let i = choose|i: int|
                        0 <= i < frame.target.tail@.len() && state.subst_info@[(
                        #[trigger] frame.target.tail@[i]).var as int].1@.contains(var);
                    assert(bound[frame.target.tail@[i].var].vars.contains(var));
                }
                if result.vars.contains(var) {
                    let i = choose|i: int|
                        0 <= i < frame.target.tail@.len() && bound[(
                        #[trigger] frame.target.tail@[i]).var].vars.contains(var);
                    assert(state.subst_info@[frame.target.tail@[i].var as int].1@.contains(var));
                }
            }
        }
    }
    state.stack.truncate(sbase);
    state.stack.push(StackSlot { vars, code: frame.target.typecode, expr: tos..ntos });
    proof {
        assert(state@.stack =~= old(state)@.stack.take(sbase as int).push(result));
        assert forall|i: int| 0 <= i < frame.mandatory_dv@.len() implies bound.contains_key(
            (#[trigger] frame.mandatory_dv@[i]).0,
        ) && bound.contains_key(frame.mandatory_dv@[i].1) by {
            lemma_bindings(*frame, slots, count, frame.mandatory_dv@[i].0);
            lemma_bindings(*frame, slots, count, frame.mandatory_dv@[i].1);
        }
    }
    if !check_distinct(
        frame,
        &state.subst_info,
        &state.cur_frame.optional_dv,
        Ghost(before),
        Ghost(bound),
    ) {
        return Some(Diagnostic::ProofDvViolation);
    }
    None
}

/// Compares the outcome of a complete proof with what was to be proved.
fn finalize_step<'a>(state: &mut VerifyState<'a>) -> (fault: Option<Diagnostic>)
    requires
        old(state).inv(),
    ensures
        final(state).inv(),
        final(state).setting() == old(state).setting(),
        final(state)@ == old(state)@,
        fault_of(fault) == final_fault(
            old(state).setting().own,
            old(state).setting().context.names,
            old(state)@.stack,
        ),
        *final(state) == (VerifyState { temp_buffer: final(state).temp_buffer, ..*old(state) }),
{
    if state.stack.len() == 0 {
        return Some(Diagnostic::ProofNoSteps);
    }
    if state.stack.len() > 1 {
        return Some(Diagnostic::ProofExcessEnd);
    }
    let tos: &StackSlot = &state.stack[0];
    assert(state@.stack[0] == slot_view(state.stack_buffer@, *tos));
    if tos.code != state.cur_frame.target.typecode {
        return Some(Diagnostic::ProofWrongTypeEnd);
    }
    state.temp_buffer.clear();
    do_substitute_raw(
        &mut state.temp_buffer,
        state.cur_frame,
        &state.cur_frame.target,
        state.nameset,
    );
    assert(state.temp_buffer@ =~= substitute(
        *state.cur_frame,
        state.cur_frame.target,
        variable_names(*state.cur_frame, state.nameset@),
    ));
    let proved: &[u8] = slice_subrange(state.stack_buffer.as_slice(), tos.expr.start, tos.expr.end);
    if !same_bytes(proved, state.temp_buffer.as_slice()) {
        return Some(Diagnostic::ProofWrongExprEnd);
    }
    None
}

/// Makes the topmost expression available as a step.
fn save_step<'a>(state: &mut VerifyState<'a>)
    requires
        old(state).inv(),
        old(state)@.stack.len() > 0,
    ensures
        final(state).inv(),
        final(state).setting() == old(state).setting(),
        final(state)@ == save(old(state)@),
        final(state).prepared@.len() == old(state).prepared@.len() + 1,
        final(state).prepared@.drop_last() == old(state).prepared@,
        final(state).prepared@.last() matches PreparedStep::Hyp(vars, code, place) && {
            let top = old(state).stack@.last();
            vars@ == top.vars@ && code == top.code && place == top.expr
        },
        *final(state) == (VerifyState { prepared: final(state).prepared, ..*old(state) }),
{
    let top: &StackSlot = &state.stack[state.stack.len() - 1];
    let step = PreparedStep::Hyp(top.vars.clone(), top.code, top.expr.start..top.expr.end);
    assert(step_view(state.stack_buffer@, step) == Step::Hyp(state@.stack.last()));
    state.prepared.push(step);
    assert(state@.prepared =~= save(old(state)@).prepared);
    assert(state.prepared@.drop_last() =~= old(state).prepared@);
}

/// Steps after a fault are not prepared.
pub proof fn lemma_prepare_all_stops(
    context: Context,
    own: Frame,
    state: ProofState,
    labels: Seq<Seq<u8>>,
    i: int,
)
    requires
        0 <= i <= labels.len(),
        prepare_all(context, own, state, labels.take(i)).fault is Some,
    ensures
        prepare_all(context, own, state, labels) == prepare_all(
            context,
            own,
            state,
            labels.take(i),
        ),
    decreases labels.len(),
{
    if i == labels.len() {
        assert(labels.take(i) =~= labels);
    } else {
        assert(labels.drop_last().take(i) =~= labels.take(i));
        lemma_prepare_all_stops(context, own, state, labels.drop_last(), i);
    }
}

/// Steps after a fault are not taken.
pub proof fn lemma_take_steps_stops(
    context: Context,
    own: Frame,
    state: ProofState,
    labels: Seq<Seq<u8>>,
    i: int,
)
    requires
        0 <= i <= labels.len(),
        take_steps(context, own, state, labels.take(i)).fault is Some,
    ensures
        take_steps(context, own, state, labels) == take_steps(context, own, state, labels.take(i)),
    decreases labels.len(),
{
    if i == labels.len() {
        assert(labels.take(i) =~= labels);
    } else {
        assert(labels.drop_last().take(i) =~= labels.take(i));
        lemma_take_steps_stops(context, own, state, labels.drop_last(), i);
    }
}

/// A list of labels ends within the proof.
pub proof fn lemma_roster_end(words: Seq<Seq<u8>>, from: int)
    requires
        0 <= from <= words.len(),
    ensures
        from <= roster_end(words, from) <= words.len(),
    decreases words.len() - from,
{
    if from < words.len() && words[from] != seq![CLOSE] {
        lemma_roster_end(words, from + 1);
    }
}

/// Whether a word is a single given letter.
fn is_word(word: &[u8], letter: u8) -> (same: bool)
    ensures
        same == (word@ == seq![letter]),
{
    let same: bool = word.len() == 1 && word[0] == letter;
    proof {
        if same {
            assert(word@ =~= seq![letter]);
        }
    }
    same
}

/// Makes the statements in the list of a compressed proof available, and gives the
/// number of the first word after the list.
fn prepare_roster<'a>(state: &mut VerifyState<'a>, stmt: &'a Statement) -> (outcome: Result<
    usize,
    Diagnostic,
>)
    requires
        old(state).inv(),
        is_compressed(stmt.proof_words()),
    ensures
        final(state).inv(),
        final(state).setting() == old(state).setting(),
        ({
            let words = stmt.proof_words();
            let end = roster_end(words, 1);
            let roster = prepare_all(
                old(state).setting().context,
                old(state).setting().own,
                old(state)@,
                words.subrange(1, end),
            );
            &&& final(state)@ == roster.state
            &&& match outcome {
                Ok(next) => roster.fault is None && end < words.len() && next == end + 1,
                Err(fault) => if roster.fault is Some {
                    Some(fault@) == roster.fault
                } else {
                    end >= words.len() && fault@ == Fault::ProofUnterminatedRoster
                },
            }
        }),
        grows(old(state).stack_buffer@, final(state).stack_buffer@),
{
    let ghost words = stmt.proof_words();
    let ghost context = state.context();
    let ghost own = *state.cur_frame;
    let ghost first = state@;
    let ghost end = roster_end(words, 1);
    let ghost labels = words.subrange(1, end);
    let mut i: usize = 1;
    proof {
        lemma_roster_end(words, 1);
        lemma_append_grows(state.stack_buffer@, Seq::empty());
        assert(labels.take(0).len() == 0);
    }
    loop
        invariant
            state.inv(),
            state.setting() == old(state).setting(),
            words == stmt.proof_words(),
            context == state.setting().context,
            own == state.setting().own,
            first == old(state)@,
            end == roster_end(words, 1),
            end == roster_end(words, i as int),
            labels == words.subrange(1, end),
            1 <= i <= end <= words.len(),
            prepare_all(context, own, first, labels.take(i - 1)) == good(state@),
            grows(old(state).stack_buffer@, state.stack_buffer@),
        decreases words.len() - i,
    {
        if i >= stmt.proof.len() {
            assert(labels.take(i - 1) =~= labels);
            return Err(Diagnostic::ProofUnterminatedRoster);
        }
        let chunk: &[u8] = stmt.proof[i].as_slice();
        assert(chunk@ == words[i as int]);
        if is_word(chunk, CLOSE) {
            assert(labels.take(i - 1) =~= labels);
            return Ok(i + 1);
        }
        proof {
            lemma_roster_end(words, i + 1);
            assert(labels.take(i as int).drop_last() =~= labels.take(i - 1));
            assert(labels.take(i as int).last() == chunk@);
        }
        let ghost buffer = state.stack_buffer@;
        let fault = prepare_step(state, chunk);
        proof {
            lemma_grows(old(state).stack_buffer@, buffer, state.stack_buffer@);
        }
        if let Some(fault) = fault {
            proof {
                lemma_prepare_all_stops(context, own, first, labels, i as int);
            }
            return Err(fault);
        }
        i += 1;
    }
}

/// Instructions do not look up labels.
pub proof fn lemma_follow_all_reads(own: Frame, state: ProofState, instructions: Seq<Instruction>)
    ensures
        follow_all(own, state, instructions).state.reads == state.reads,
    decreases instructions.len(),
{
    if instructions.len() > 0 {
        lemma_follow_all_reads(
            own,
            follow(own, state, instructions[0]).state,
            instructions.drop_first(),
        );
    }
}

/// The first of several instructions.
proof fn lemma_follow_first(
    own: Frame,
    state: ProofState,
    first: Instruction,
    rest: Seq<Instruction>,
)
    ensures
        follow_all(own, state, seq![first] + rest) == {
            let run = follow(own, state, first);
            if run.fault is Some {
                run
            } else {
                follow_all(own, run.state, rest)
            }
        },
{
    assert((seq![first] + rest).drop_first() =~= rest);
}

/// Carries out the letters of a compressed proof, which begin with word `from`.
fn follow_letters<'a>(state: &mut VerifyState<'a>, stmt: &'a Statement, from: usize) -> (fault:
    Option<Diagnostic>)
    requires
        old(state).inv(),
        from <= stmt.proof@.len(),
    ensures
        final(state).inv(),
        final(state).setting() == old(state).setting(),
        final(state)@.reads == old(state)@.reads,
        ({
            let run = follow_all(
                old(state).setting().own,
                old(state)@,
                decode(concat(stmt.proof_words().skip(from as int)), 0, false),
            );
            &&& fault_of(fault) == run.fault
            &&& final(state)@ == run.state
        }),
        grows(old(state).stack_buffer@, final(state).stack_buffer@),
{
    proof {
        lemma_append_grows(state.stack_buffer@, Seq::empty());
    }
    let ghost words = stmt.proof_words();
    let ghost own = *state.cur_frame;
    let ghost run = follow_all(own, state@, decode(concat(words.skip(from as int)), 0, false));
    let mut i: usize = from;
    let mut k: usize = 0;
    let mut can_save: bool = false;
    while i < stmt.proof.len()
        invariant
            state.inv(),
            state.setting() == old(state).setting(),
            state@.reads == old(state)@.reads,
            grows(old(state).stack_buffer@, state.stack_buffer@),
            own == state.setting().own,
            words == stmt.proof_words(),
            i <= stmt.proof@.len(),
            k < DIGITS_LIMIT,
            can_save ==> state@.stack.len() > 0,
            run == follow_all(
                old(state).setting().own,
                old(state)@,
                decode(concat(words.skip(from as int)), 0, false),
            ),
            run == follow_all(
                own,
                state@,
                decode(concat(words.skip(i as int)), k as int, can_save),
            ),
        decreases stmt.proof@.len() - i,
    {
        let chunk: &[u8] = stmt.proof[i].as_slice();
        let ghost after = concat(words.skip(i + 1));
        let mut j: usize = 0;
        proof {
            assert(words.skip(i as int)[0] == chunk@);
            assert(words.skip(i as int).drop_first() =~= words.skip(i + 1));
            assert(chunk@.skip(0) =~= chunk@);
        }
        while j < chunk.len()
            invariant
                state.inv(),
                state.setting() == old(state).setting(),
                state@.reads == old(state)@.reads,
                grows(old(state).stack_buffer@, state.stack_buffer@),
                own == state.setting().own,
                j <= chunk@.len(),
                k < DIGITS_LIMIT,
                can_save ==> state@.stack.len() > 0,
                run == follow_all(
                    old(state).setting().own,
                    old(state)@,
                    decode(concat(stmt.proof_words().skip(from as int)), 0, false),
                ),
                run == follow_all(
                    own,
                    state@,
                    decode(chunk@.skip(j as int) + after, k as int, can_save),
                ),
            decreases chunk@.len() - j,
        {
            let ch: u8 = chunk[j];
            let ghost letters = chunk@.skip(j as int) + after;
            let ghost rest = chunk@.skip(j + 1) + after;
            proof {
                assert(letters[0] == ch);
                assert(letters.drop_first() =~= rest);
            }
            if ch >= LETTER_A && ch <= LETTER_T {
                k = k * 20 + (ch - LETTER_A) as usize;
                proof {
                    lemma_follow_first(
                        own,
                        state@,
                        Instruction::Use(k as int),
                        decode(rest, 0, true),
                    );
                }
                let ghost buffer = state.stack_buffer@;
                let fault = execute_step(state, k);
                proof {
                    lemma_grows(old(state).stack_buffer@, buffer, state.stack_buffer@);
                }
                if fault.is_some() {
                    return fault;
                }
                k = 0;
                can_save = true;
            } else if ch >= LETTER_U && ch <= LETTER_Y {
                k = k * 5 + 1 + (ch - LETTER_U) as usize;
                if k >= DIGITS_LIMIT {
                    return Some(Diagnostic::ProofMalformedVarint);
                }
                can_save = false;
            } else if ch == LETTER_Z {
                if !can_save {
                    return Some(Diagnostic::ProofInvalidSave);
                }
                proof {
                    lemma_follow_first(
                        own,
                        state@,
                        Instruction::Save,
                        decode(rest, k as int, false),
                    );
                }
                save_step(state);
                can_save = false;
            } else if ch == UNKNOWN {
                if k > 0 {
                    return Some(Diagnostic::ProofMalformedVarint);
                }
                return Some(Diagnostic::ProofIncomplete);
            }
            j += 1;
        }
        proof {
            assert(chunk@.skip(j as int) + after =~= after);
        }
        i += 1;
    }
    assert(words.skip(i as int).len() == 0);
    if k > 0 {
        return Some(Diagnostic::ProofMalformedVarint);
    }
    None
}

/// Runs a proof in the compressed format.
fn run_compressed_proof<'a>(state: &mut VerifyState<'a>, stmt: &'a Statement) -> (fault: Option<
    Diagnostic,
>)
    requires
        old(state).inv(),
        old(state)@ == start(old(state).setting().own),
        is_compressed(stmt.proof_words()),
    ensures
        final(state).inv(),
        final(state).setting() == old(state).setting(),
        ({
            let run = run_compressed(
                old(state).setting().context,
                old(state).setting().own,
                stmt.proof_words(),
            );
            &&& fault_of(fault) == run.fault
            &&& final(state)@ == run.state
        }),
        grows(old(state).stack_buffer@, final(state).stack_buffer@),
{
    proof {
        lemma_append_grows(state.stack_buffer@, Seq::empty());
    }
    let frame: &'a Frame = state.cur_frame;
    let ghost own = *frame;
    let ghost names = state.nameset@;
    let ghost to_step = |hyp: Hyp| Step::Hyp(hypothesis_slot(own, names, hyp));
    let mut n: usize = 0;
    assert(state@.prepared =~= own.hypotheses@.take(0).map_values(to_step));
    while n < frame.hypotheses.len()
        invariant
            n <= frame.hypotheses@.len(),
            state.inv(),
            state.setting() == old(state).setting(),
            *frame == state.setting().own,
            own == *frame,
            names == state.setting().context.names,
            to_step == (|hyp: Hyp| Step::Hyp(hypothesis_slot(own, names, hyp))),
            state@ == (ProofState {
                prepared: own.hypotheses@.take(n as int).map_values(to_step),
                ..start(own)
            }),
            grows(old(state).stack_buffer@, state.stack_buffer@),
        decreases frame.hypotheses@.len() - n,
    {
        assert(own.hypothesis_can_prove(own.hypotheses@[n as int]));
        let ghost buffer = state.stack_buffer@;
        prepare_hypothesis(state, &frame.hypotheses[n]);
        proof {
            lemma_append_grows(
                buffer,
                hypothesis_slot(own, names, own.hypotheses@[n as int]).expr,
            );
            lemma_grows(old(state).stack_buffer@, buffer, state.stack_buffer@);
        }
        n += 1;
        assert(state@.prepared =~= own.hypotheses@.take(n as int).map_values(to_step));
    }
    assert(own.hypotheses@.take(n as int) =~= own.hypotheses@);
    assert(state@.prepared =~= start_compressed(own, names).prepared);
    let ghost listed = state.stack_buffer@;
    let outcome = prepare_roster(state, stmt);
    proof {
        lemma_grows(old(state).stack_buffer@, listed, state.stack_buffer@);
    }
    let from: usize = match outcome {
        Ok(from) => from,
        Err(fault) => {
            return Some(fault);
        },
    };
    let ghost buffer = state.stack_buffer@;
    let fault = follow_letters(state, stmt, from);
    proof {
        lemma_grows(old(state).stack_buffer@, buffer, state.stack_buffer@);
    }
    fault
}

/// Runs a proof that lists the labels of its steps.
fn run_normal_proof<'a>(state: &mut VerifyState<'a>, stmt: &'a Statement) -> (fault: Option<
    Diagnostic,
>)
    requires
        old(state).inv(),
        old(state)@ == start(old(state).setting().own),
    ensures
        final(state).inv(),
        final(state).setting() == old(state).setting(),
        ({
            let run = take_steps(
                old(state).setting().context,
                old(state).setting().own,
                start(old(state).setting().own),
                stmt.proof_words(),
            );
            &&& fault_of(fault) == run.fault
            &&& final(state)@ == run.state
        }),
        grows(old(state).stack_buffer@, final(state).stack_buffer@),
{
    proof {
        lemma_append_grows(state.stack_buffer@, Seq::empty());
    }
    let ghost context = state.context();
    let ghost own = *state.cur_frame;
    let ghost words = stmt.proof_words();
    let mut i: usize = 0;
    assert(words.take(0).len() == 0);
    while i < stmt.proof.len()
        invariant
            i <= stmt.proof@.len(),
            state.inv(),
            state.setting() == old(state).setting(),
            context == state.setting().context,
            own == state.setting().own,
            words == stmt.proof_words(),
            state@.prepared.len() == i,
            take_steps(context, own, start(own), words.take(i as int)) == good(state@),
            grows(old(state).stack_buffer@, state.stack_buffer@),
        decreases stmt.proof@.len() - i,
    {
        let chunk: &[u8] = stmt.proof[i].as_slice();
        let ghost run = take_steps(context, own, start(own), words.take(i + 1));
        proof {
            assert(words.take(i + 1).drop_last() =~= words.take(i as int));
            assert(words.take(i + 1).last() == chunk@);
            assert(run == take_step(context, own, state@, chunk@));
            if run.fault is Some {
                lemma_take_steps_stops(context, own, start(own), words, i + 1);
            }
        }
        if is_word(chunk, UNKNOWN) {
            return Some(Diagnostic::ProofIncomplete);
        }
        let ghost buffer = state.stack_buffer@;
        let missing = prepare_step(state, chunk);
        proof {
            lemma_grows(old(state).stack_buffer@, buffer, state.stack_buffer@);
        }
        if missing.is_some() {
            return missing;
        }
        let ghost buffer = state.stack_buffer@;
        let fault = execute_step(state, i);
        proof {
            lemma_grows(old(state).stack_buffer@, buffer, state.stack_buffer@);
        }
        if fault.is_some() {
            return fault;
        }
        i += 1;
    }
    assert(words.take(i as int) =~= words);
    None
}

/// Checks the proof of a statement.  A proof has at most one fault: what comes after it
/// would not mean much.  Nothing that earlier proofs left behind counts: the verdict
/// depends on the statement and on what it is checked against alone.
fn verify_proof<'a>(state: &mut VerifyState<'a>, stmt: &'a Statement) -> (fault: Option<Diagnostic>)
    requires
        old(state).ready(),
        statement_fits(old(state).context(), *stmt),
    ensures
        final(state).ready(),
        final(state).context() == old(state).context(),
        final(state).scoper.source() == old(state).scoper.source(),
        fault_of(fault) == statement_fault(old(state).context(), *stmt),
        final(state).scoper.lookups() == old(state).scoper.lookups().union(
            statement_reads(old(state).context(), *stmt),
        ),
        if has_proof(old(state).context(), *stmt) {
            let own = old(state).context().frames[stmt.label@];
            &&& *final(state).cur_frame == own
            &&& final(state)@ == run_proof(
                old(state).context(),
                own,
                stmt.proof_words(),
            ).state
        } else {
            *final(state) == (VerifyState { scoper: final(state).scoper, ..*old(state) })
        },
{
    let ghost context = state.context();
    // only `$p` statements have proofs
    if stmt.stype != StatementType::Provable {
        assert(state.scoper.lookups() =~= old(state).scoper.lookups().union(
            statement_reads(context, *stmt),
        ));
        return None;
    }
    // without a frame there is nothing to check against
    let found: Option<&'a Frame> = state.scoper.get(stmt.label.as_slice());
    let frame: &'a Frame = match found {
        Some(frame) => frame,
        None => {
            assert(state.scoper.lookups() =~= old(state).scoper.lookups().union(
                statement_reads(context, *stmt),
            ));
            return None;
        },
    };
    state.cur_frame = frame;
    state.stack.clear();
    state.stack_buffer.clear();
    state.prepared.clear();
    state.var2bit.clear();
    let ghost list = frame.var_list@;
    let ghost middle = *state;
    let mut index: usize = 0;
    assert(list.take(0).len() == 0);
    while index < frame.var_list.len()
        invariant
            index <= list.len(),
            list == frame.var_list@,
            state.var2bit@ == own_numbers(list.take(index as int)),
            *state == (VerifyState { var2bit: state.var2bit, ..middle }),
        decreases list.len() - index,
    {
        state.var2bit.insert(frame.var_list[index], index);
        assert(list.take(index + 1).drop_last() =~= list.take(index as int));
        index += 1;
    }
    proof {
        assert(list.take(index as int) =~= list);
        state.earlier@ = state.scoper.lookups();
        state.reads@ = Set::empty();
        assert(state.scoper.lookups() =~= state.earlier@.union(state.reads@));
        assert(state@.stack =~= Seq::empty());
        assert(state@.prepared =~= Seq::empty());
    }
    let compressed: bool = stmt.proof.len() > 0 && is_word(stmt.proof[0].as_slice(), OPEN);
    let fault = if compressed {
        run_compressed_proof(state, stmt)
    } else {
        run_normal_proof(state, stmt)
    };
    proof {
        assert(state.scoper.lookups() =~= old(state).scoper.lookups().union(
            statement_reads(context, *stmt),
        ));
    }
    if fault.is_some() {
        return fault;
    }
    finalize_step(state)
}

/// The outcome of the check of a segment.
#[derive(Debug)]
pub struct VerifySegment {
    source: Arc<Segment>,
    scope_usage: ScopeUsage,
    /// At most one for each statement, in the order of the statements.
    diagnostics: Vec<(StatementAddress, Diagnostic)>,
}

impl VerifySegment {
    /// There is at most one diagnostic for each address, in the order of the statements of
    /// one segment.
    #[verifier::type_invariant]
    spec fn wf(&self) -> bool {
        forall|i: int, j: int|
            0 <= i < j < self.diagnostics@.len() ==> {
                let (left, right) = (
                    #[trigger] self.diagnostics@[i],
                    #[trigger] self.diagnostics@[j],
                );
                left.0.segment_id == right.0.segment_id && left.0.index < right.0.index
            }
    }
}

/// Whether faults are in the order of the statements of one segment, with at most one for
/// each statement.
pub open spec fn are_ordered(faults: Seq<(StatementAddress, Fault)>) -> bool {
    forall|i: int, j: int|
        0 <= i < j < faults.len() ==> (#[trigger] faults[i]).0.segment_id == (
        #[trigger] faults[j]).0.segment_id && faults[i].0.index < faults[j].0.index
}

/// Diagnostics as faults.
pub open spec fn faults_of(diagnostics: Seq<(StatementAddress, Diagnostic)>) -> Seq<
    (StatementAddress, Fault),
> {
    diagnostics.map_values(|entry: (StatementAddress, Diagnostic)| (entry.0, entry.1@))
}

impl View for VerifySegment {
    type V = SegmentReport;

    closed spec fn view(&self) -> SegmentReport {
        SegmentReport {
            source: *self.source,
            usage: self.scope_usage@,
            faults: faults_of(self.diagnostics@),
        }
    }
}

/// Checks all proofs of a segment.
pub fn verify_segment(
    sset: &SegmentSet,
    nset: &Nameset,
    scopes: &ScopeResult,
    sref: &SegmentRef,
) -> (outcome: VerifySegment)
    requires
        context_fits(context_of(Database::of(sset, nset, scopes), *sref)),
    ensures
        outcome@ == report_of(Database::of(sset, nset, scopes), *sref),
{
    let ghost database = Database::of(sset, nset, scopes);
    let ghost context = context_of(database, *sref);
    let mut diagnostics: Vec<(StatementAddress, Diagnostic)> = Vec::new();
    let dummy_frame = Frame::default();
    let segment: &Segment = &*sref.segment;
    let mut state = VerifyState {
        id: sref.id,
        this_seg: segment,
        order: &sset.order,
        nameset: nset,
        scoper: ScopeReader::new(scopes),
        cur_frame: &dummy_frame,
        prepared: Vec::new(),
        stack: Vec::new(),
        stack_buffer: Vec::new(),
        temp_buffer: Vec::new(),
        subst_info: Vec::new(),
        var2bit: HashMap::new(),
        earlier: Ghost(Set::empty()),
        reads: Ghost(Set::empty()),
    };
    let mut i: usize = 0;
    assert(faults_of(diagnostics@) =~= segment_faults(context, 0));
    while i < segment.statements.len()
        invariant
            i <= segment.statements@.len(),
            *segment == context.segment,
            context_fits(context),
            context.id == sref.id,
            state.ready(),
            state.context() == context,
            state.scoper.lookups() == segment_reads(context, i as nat),
            state.scoper.source() == *scopes,
            faults_of(diagnostics@) == segment_faults(context, i as nat),
        decreases segment.statements@.len() - i,
    {
        let stmt: &Statement = &segment.statements[i];
        assert(statement_fits(context, segment.statements@[i as int]));
        let fault = verify_proof(&mut state, stmt);
        if let Some(diagnostic) = fault {
            let address = StatementAddress { segment_id: sref.id, index: i as i32 };
            diagnostics.push((address, diagnostic));
        }
        i += 1;
        assert(faults_of(diagnostics@) =~= segment_faults(context, i as nat));
    }
    let scope_usage = state.scoper.into_usage();
    proof {
        law_faults_in_order(context, i as nat);
        assert forall|k: int| 0 <= k < diagnostics@.len() implies (
        #[trigger] diagnostics@[k]).0 == segment_faults(context, i as nat)[k].0 by {
            assert(faults_of(diagnostics@)[k].0 == diagnostics@[k].0);
        }
    }
    VerifySegment { source: sref.segment.clone(), scope_usage, diagnostics }
}

/// [`Arc::ptr_eq`]: whether two handles belong to the same segment in memory.  If they
/// do, the segments are equal.  Nothing is claimed of handles for which it says no: equal
/// segments may well stand in two places.
#[verifier::external_body]
fn ptr_eq(left: &Arc<Segment>, right: &Arc<Segment>) -> (same: bool)
    ensures
        same ==> **left == **right,
{
    Arc::ptr_eq(left, right)
}

/// Whether an earlier outcome can stand for the check of a segment: the segment is the
/// same, and so are all frames that were looked up.
pub open spec fn can_reuse(
    earlier: Option<SegmentReport>,
    same_source: bool,
    scopes: ScopeResult,
) -> bool {
    match earlier {
        Some(report) => same_source && still_holds(report.usage, scopes),
        None => false,
    }
}

/// The outcome of an earlier check, if any.
pub open spec fn report_in(earlier: Option<&Arc<VerifySegment>>) -> Option<SegmentReport> {
    match earlier {
        Some(outcome) => Some(outcome@),
        None => None,
    }
}

/// The outcome of an earlier check of a segment where it still holds, or else that of a
/// new one.  `same_source` tells whether the earlier check was on this same segment.
pub fn refresh_segment(
    sset: &SegmentSet,
    nset: &Nameset,
    scopes: &ScopeResult,
    sref: &SegmentRef,
    earlier: Option<&Arc<VerifySegment>>,
    same_source: bool,
) -> (outcome: Arc<VerifySegment>)
    requires
        context_fits(context_of(Database::of(sset, nset, scopes), *sref)),
    ensures
        outcome@ == if can_reuse(report_in(earlier), same_source, *scopes) {
            report_in(earlier)->0
        } else {
            report_of(Database::of(sset, nset, scopes), *sref)
        },
{
    if let Some(old_res) = earlier {
        if old_res.is_current(scopes) && same_source {
            return old_res.clone();
        }
    }
    Arc::new(verify_segment(sset, nset, scopes, sref))
}

/// The outcome of the check of a database.
#[derive(Debug)]
pub struct VerifyResult {
    segments: HashMap<SegmentId, Arc<VerifySegment>>,
}

impl View for VerifyResult {
    type V = Map<SegmentId, SegmentReport>;

    closed spec fn view(&self) -> Map<SegmentId, SegmentReport> {
        self.segments@.map_values(|outcome: Arc<VerifySegment>| outcome@)
    }
}

impl Default for VerifyResult {
    /// The outcome for a database without segments.
    fn default() -> (result: VerifyResult)
        ensures
            result@ == Map::<SegmentId, SegmentReport>::empty(),
    {
        let result = VerifyResult { segments: HashMap::new() };
        assert(result@ =~= Map::<SegmentId, SegmentReport>::empty());
        result
    }
}

impl Clone for VerifyResult {
    fn clone(&self) -> (copy: VerifyResult)
        ensures
            copy@ == self@,
    {
        VerifyResult { segments: self.segments.clone() }
    }
}

/// Whether a list of diagnostics has just the faults of the given outcomes, each as
/// often as it occurs there.
pub open spec fn lists_faults(
    list: Seq<(StatementAddress, Fault)>,
    reports: Map<SegmentId, SegmentReport>,
) -> bool {
    exists|ids: Seq<SegmentId>| #[trigger] lists_in_order(list, reports, ids)
}

/// Whether a list of diagnostics has the faults of all outcomes, segment by segment, when
/// the segments are taken in the order of `ids`.
pub open spec fn lists_in_order(
    list: Seq<(StatementAddress, Fault)>,
    reports: Map<SegmentId, SegmentReport>,
    ids: Seq<SegmentId>,
) -> bool {
    &&& ids.no_duplicates()
    &&& ids.to_set() == reports.dom()
    &&& list == joined_faults(reports, ids)
}

/// The faults of several segments, one after the other.
pub open spec fn joined_faults(reports: Map<SegmentId, SegmentReport>, ids: Seq<SegmentId>) -> Seq<
    (StatementAddress, Fault),
>
    decreases ids.len(),
{
    if ids.len() == 0 {
        Seq::empty()
    } else {
        joined_faults(reports, ids.drop_last()) + reports[ids.last()].faults
    }
}

impl VerifySegment {
    /// Whether this is the outcome of a check of the same segment in memory.  Nothing is
    /// known of a segment for which it is not.
    pub fn is_of(&self, sref: &SegmentRef) -> (same: bool)
        ensures
            same ==> self@.source == *sref.segment,
    {
        ptr_eq(&self.source, &sref.segment)
    }

    /// Whether all frames that were looked up have the generations that they had.
    pub fn is_current(&self, scopes: &ScopeResult) -> (current: bool)
        ensures
            current == still_holds(self@.usage, *scopes),
    {
        self.scope_usage.valid(scopes)
    }
}

impl VerifyResult {
    /// The outcome for the segment with an id.
    pub fn segment(&self, id: SegmentId) -> (outcome: Option<&Arc<VerifySegment>>)
        ensures
            report_in(outcome) == (if self@.contains_key(id) {
                Some(self@[id])
            } else {
                None
            }),
            outcome matches Some(outcome) ==> are_ordered(outcome@.faults),
    {
        let outcome: Option<&Arc<VerifySegment>> = self.segments.get(&id);
        proof {
            if let Some(outcome) = outcome {
                use_type_invariant(&**outcome);
            }
        }
        outcome
    }

    /// Replaces the outcome for the segment with an id.
    pub fn set_segment(&mut self, id: SegmentId, outcome: Arc<VerifySegment>)
        ensures
            final(self)@ == old(self)@.insert(id, outcome@),
    {
        self.segments.insert(id, outcome);
        assert(self@ =~= old(self)@.insert(id, outcome@));
    }

    /// All diagnostics, in no particular order of the segments.
    pub fn diagnostics(&self) -> (out: Vec<(StatementAddress, Diagnostic)>)
        ensures
            lists_faults(faults_of(out@), self@),
    {
        let mut out: Vec<(StatementAddress, Diagnostic)> = Vec::new();
        let ghost mut ids: Seq<SegmentId> = Seq::empty();
        assert(faults_of(out@) =~= joined_faults(self@, ids));
        for id in keys: self.segments.keys()
            invariant
                keys.seq().unref().to_set() == self.segments@.dom(),
                keys.seq().no_duplicates(),
                ids == keys.seq().unref().take(keys.index()),
                ids.no_duplicates(),
                keys.index() == keys.seq().len() ==> ids.to_set() == self.segments@.dom(),
                faults_of(out@) == joined_faults(self@, ids),
        {
            let ghost at = keys.index();
            let ghost all = keys.seq().unref();
            assert(all[at] == *id);
            assert(all.to_set().contains(*id));
            let outcome: &Arc<VerifySegment> = self.segments.get(id).unwrap();
            let mut i: usize = 0;
            assert(faults_of(out@) =~= joined_faults(self@, ids) + faults_of(
                outcome.diagnostics@.take(0),
            ));
            while i < outcome.diagnostics.len()
                invariant
                    i <= outcome.diagnostics@.len(),
                    faults_of(out@) == joined_faults(self@, ids) + faults_of(
                        outcome.diagnostics@.take(i as int),
                    ),
                decreases outcome.diagnostics@.len() - i,
            {
                let entry: &(StatementAddress, Diagnostic) = &outcome.diagnostics[i];
                let ghost prior = out@;
                out.push((entry.0, entry.1.clone()));
                assert(faults_of(out@) =~= faults_of(prior).push((entry.0, entry.1@)));
                i += 1;
                assert(faults_of(outcome.diagnostics@.take(i as int)) =~= faults_of(
                    outcome.diagnostics@.take(i - 1),
                ).push((entry.0, entry.1@)));
                assert(faults_of(out@) =~= joined_faults(self@, ids) + faults_of(
                    outcome.diagnostics@.take(i as int),
                ));
            }
            proof {
                assert(outcome.diagnostics@.take(i as int) =~= outcome.diagnostics@);
                assert(ids.push(*id).drop_last() =~= ids);
                ids = ids.push(*id);
                assert(ids =~= all.take(at + 1));
                assert(ids.no_duplicates()) by {
                    assert forall|a: int, b: int|
                        0 <= a < ids.len() && 0 <= b < ids.len() && a != b implies ids[a]
                        != ids[b] by {
                        assert(ids[a] == *keys.seq()[a] && ids[b] == *keys.seq()[b]);
                    }
                }
                assert(at + 1 == all.len() ==> ids =~= all);
            }
        }
        proof {
            assert(self@.dom() =~= self.segments@.dom());
            assert(lists_in_order(faults_of(out@), self@, ids));
        }
        out
    }
}

/// Checks all proofs of a database.  `result` holds the outcome of an earlier check, as
/// far as there was one, and gets the new one.  Outcomes are kept for segments that are
/// the same in memory and whose proofs would look up the same frames.
pub fn verify(
    result: &mut VerifyResult,
    segments: &Arc<SegmentSet>,
    nset: &Arc<Nameset>,
    scope: &Arc<ScopeResult>,
)
    requires
        database_fits(Database::of(&**segments, &**nset, &**scope)),
    ensures
        refreshed(
            old(result)@,
            final(result)@,
            Database::of(&**segments, &**nset, &**scope),
        ),
        old(result)@.dom().is_empty() ==> final(result)@ == reports_of(
            Database::of(&**segments, &**nset, &**scope),
        ),
        forall|earlier: Database|
            old(result)@ == #[trigger] reports_of(earlier) && database_fits(earlier)
                && carries_over(earlier, Database::of(&**segments, &**nset, &**scope))
                ==> final(result)@ == reports_of(Database::of(&**segments, &**nset, &**scope)),
{
    let ghost database = Database::of(&**segments, &**nset, &**scope);
    let ghost before = result@;
    let mut old_segments: HashMap<SegmentId, Arc<VerifySegment>> = HashMap::new();
    std::mem::swap(&mut old_segments, &mut result.segments);
    let mut i: usize = 0;
    while i < segments.segments.len()
        invariant
            i <= segments.segments@.len(),
            database == Database::of(&**segments, &**nset, &**scope),
            database_fits(database),
            before == old_segments@.map_values(|outcome: Arc<VerifySegment>| outcome@),
            forall|id: SegmentId| #[trigger]
                result@.contains_key(id) <==> exists|k: int|
                    k < i && #[trigger] is_segment(database, id, k),
            forall|k: int|
                0 <= k < i ==> is_refreshed(
                    before,
                    result@,
                    database,
                    #[trigger] segments.segments@[k],
                ),
        decreases segments.segments@.len() - i,
    {
        let sref: &SegmentRef = &segments.segments[i];
        assert(context_fits(context_of(database, segments.segments@[i as int])));
        let old_res: Option<&Arc<VerifySegment>> = old_segments.get(&sref.id);
        let same_source: bool = match old_res {
            Some(outcome) => outcome.is_of(sref),
            None => false,
        };
        let outcome = refresh_segment(segments, nset, scope, sref, old_res, same_source);
        let ghost prior = result@;
        result.set_segment(sref.id, outcome);
        proof {
            assert(is_refreshed(before, result@, database, *sref));
            assert forall|k: int| 0 <= k < i + 1 implies is_refreshed(
                before,
                result@,
                database,
                #[trigger] segments.segments@[k],
            ) by {
                if k < i {
                    assert(segments.segments@[k].id != sref.id);
                    assert(is_refreshed(before, prior, database, segments.segments@[k]));
                }
            }
            assert forall|id: SegmentId| #[trigger]
                result@.contains_key(id) <==> exists|k: int|
                    k < i + 1 && #[trigger] is_segment(database, id, k) by {
                if id == sref.id {
                    assert(is_segment(database, id, i as int));
                }
                if prior.contains_key(id) {
                    let k = choose|k: int| k < i && #[trigger] is_segment(database, id, k);
                    assert(is_segment(database, id, k));
                }
                if exists|k: int| k < i + 1 && #[trigger] is_segment(database, id, k) {
                    let k = choose|k: int| k < i + 1 && #[trigger] is_segment(database, id, k);
                    if k < i {
                        assert(prior.contains_key(id));
                    }
                }
            }
        }
        i += 1;
    }
    proof {
        assert forall|id: SegmentId| #[trigger]
            result@.contains_key(id) <==> exists|k: int| is_segment(database, id, k) by {
            if exists|k: int| is_segment(database, id, k) {
                let k = choose|k: int| is_segment(database, id, k);
                assert(k < i && is_segment(database, id, k));
            }
        }
        if before.dom().is_empty() {
            assert(before =~= Map::empty());
            law_from_scratch(database, result@);
        }
        assert forall|earlier: Database|
            before == #[trigger] reports_of(earlier) && database_fits(earlier) && carries_over(
                earlier,
                database,
            ) implies result@ == reports_of(database) by {
            law_incremental(earlier, database, before, result@);
        }
    }
}

} // verus!
