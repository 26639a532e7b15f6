//! What it means to check a proof: the mathematical model that the checker is held to.
//!
//! A proof is run on a stack of expressions.  Each of its steps either puts an
//! expression on the stack, or replaces the topmost expressions, which have to be
//! instances of the hypotheses of an assertion, by the same instance of what the
//! assertion says.

use crate::bit_set::Bitset;
use crate::diag::Fault;
use crate::nameck::{Atom, Nameset};
use crate::parser::{
    is_before, GlobalRange, Segment, SegmentId, Statement, StatementAddress, StatementType,
    NO_STATEMENT,
};
use crate::scopeck::{status_of, ExprFragment, Frame, Hyp, ScopeResult, VerifyExpr};
use crate::segment_set::{SegmentRef, SegmentSet};
use vstd::prelude::*;

verus! {

/// An expression: its type, its symbols, and the numbers of its variables.
pub struct Slot {
    pub vars: Set<usize>,
    pub code: Atom,
    pub expr: Seq<u8>,
}

/// Something that a proof can refer to.
pub enum Step {
    /// A hypothesis, or an expression that was proved before.
    Hyp(Slot),
    /// An axiom or a theorem.
    Assert(Frame),
}

/// How far the check of a proof has come.
pub struct ProofState {
    /// What the proof can refer to by number.
    pub prepared: Seq<Step>,
    /// The expressions that were proved and not used yet.
    pub stack: Seq<Slot>,
    /// The numbers of the variables.
    pub bits: Map<Atom, usize>,
    /// The labels that were looked up.
    pub reads: Set<Seq<u8>>,
}

/// How far a check came, and the fault that ended it, if any.
pub struct Run {
    pub state: ProofState,
    pub fault: Option<Fault>,
}

/// All that a proof is checked against, apart from its own frame.
pub struct Context {
    /// The frames of the database, by label.
    pub frames: Map<Seq<u8>, Frame>,
    /// The names of the symbols.
    pub names: Seq<Seq<u8>>,
    /// The positions of the segments.
    pub positions: Seq<usize>,
    /// The segment that the proof is in.
    pub id: SegmentId,
    pub segment: Segment,
}

/// Whether a frame is fit to be looked up: its place is known, and the frame of an
/// assertion can be used as a step.
pub open spec fn frame_fits(positions: nat, frame: Frame) -> bool {
    &&& frame.valid.start.segment_id < positions
    &&& frame.is_assertion() ==> frame.can_apply()
}

/// Whether all frames are fit to be looked up.
pub open spec fn frames_fit(positions: nat, frames: Map<Seq<u8>, Frame>) -> bool {
    forall|label: Seq<u8>| #[trigger]
        frames.contains_key(label) ==> frame_fits(positions, frames[label])
}

/// Whether the proof of a statement can be checked against its frame.
pub open spec fn statement_fits(context: Context, statement: Statement) -> bool {
    has_proof(context, statement) ==> context.frames[statement.label@].can_prove(context.names)
}

/// Whether all that a segment is checked against is fit for it.
pub open spec fn context_fits(context: Context) -> bool {
    &&& frames_fit(context.positions.len(), context.frames)
    &&& context.segment.statements@.len() <= i32::MAX
    &&& forall|i: int|
        0 <= i < context.segment.statements@.len() ==> statement_fits(
            context,
            #[trigger] context.segment.statements@[i],
        )
}

// ---------------------------------------------------------------------------------
// Substitution
// ---------------------------------------------------------------------------------

/// The symbols of the fragments of an expression, each variable replaced by what
/// `values` gives for it.
pub open spec fn substitute_tail(
    frame: Frame,
    tail: Seq<ExprFragment>,
    values: Map<usize, Seq<u8>>,
) -> Seq<u8>
    decreases tail.len(),
{
    if tail.len() == 0 {
        Seq::empty()
    } else {
        substitute_tail(frame, tail.drop_last(), values) + frame.constants(tail.last().prefix)
            + values[tail.last().var]
    }
}

/// The symbols of an expression, each variable replaced by what `values` gives for it.
pub open spec fn substitute(frame: Frame, expr: VerifyExpr, values: Map<usize, Seq<u8>>) -> Seq<
    u8,
> {
    substitute_tail(frame, expr.tail@, values) + frame.constants(expr.rump)
}

/// A symbol as it stands in an expression: the top bit of the last byte marks its end.
pub open spec fn marked(name: Seq<u8>) -> Seq<u8> {
    name.drop_last().push(name.last() | 0x80)
}

/// Each variable of a frame, standing for itself.
pub open spec fn variable_names(frame: Frame, names: Seq<Seq<u8>>) -> Map<usize, Seq<u8>> {
    Map::new(
        |var: usize| var < frame.var_list@.len(),
        |var: usize| marked(names[frame.var_list@[var as int] as int]),
    )
}

/// The variables of the fragments of an expression.
pub open spec fn tail_vars(tail: Seq<ExprFragment>) -> Set<usize> {
    Set::new(|var: usize| exists|i: int| 0 <= i < tail.len() && (#[trigger] tail[i]).var == var)
}

// ---------------------------------------------------------------------------------
// Applying an assertion
// ---------------------------------------------------------------------------------

/// The expression that the first `n` hypotheses give to each variable, when `slots`
/// are the expressions for the hypotheses.
pub open spec fn bindings(frame: Frame, slots: Seq<Slot>, n: nat) -> Map<usize, Slot>
    decreases n,
{
    if n == 0 {
        Map::empty()
    } else {
        let earlier = bindings(frame, slots, (n - 1) as nat);
        match frame.hypotheses@[n - 1].variable_index {
            Some(var) => earlier.insert(var, slots[n - 1]),
            None => earlier,
        }
    }
}

/// The symbols of what is bound to each variable.
pub open spec fn values_of(bound: Map<usize, Slot>) -> Map<usize, Seq<u8>> {
    Map::new(|var: usize| bound.contains_key(var), |var: usize| bound[var].expr)
}

/// What is wrong with `slots[i]` as an instance of hypothesis `i`.
pub open spec fn hypothesis_fault(frame: Frame, slots: Seq<Slot>, i: int) -> Option<Fault> {
    let hyp = frame.hypotheses@[i];
    if slots[i].code != hyp.expr.typecode {
        if hyp.variable_index is Some {
            Some(Fault::StepFloatWrongType)
        } else {
            Some(Fault::StepEssenWrongType)
        }
    } else if hyp.variable_index is None && slots[i].expr != substitute(
        frame,
        hyp.expr,
        values_of(bindings(frame, slots, i as nat)),
    ) {
        Some(Fault::StepEssenWrong)
    } else {
        None
    }
}

/// The first fault among the instances of the first `n` hypotheses.
pub open spec fn first_fault(frame: Frame, slots: Seq<Slot>, n: nat) -> Option<Fault>
    decreases n,
{
    if n == 0 {
        None
    } else {
        match first_fault(frame, slots, (n - 1) as nat) {
            Some(fault) => Some(fault),
            None => hypothesis_fault(frame, slots, n - 1),
        }
    }
}

/// The numbers of all variables in the instance of an expression.
pub open spec fn instance_vars(tail: Seq<ExprFragment>, bound: Map<usize, Slot>) -> Set<usize> {
    Set::new(
        |var: usize|
            exists|i: int|
                0 <= i < tail.len() && bound[(#[trigger] tail[i]).var].vars.contains(var),
    )
}

/// What an assertion says, for given expressions in place of its variables.
pub open spec fn conclusion(frame: Frame, bound: Map<usize, Slot>) -> Slot {
    Slot {
        vars: instance_vars(frame.target.tail@, bound),
        code: frame.target.typecode,
        expr: substitute(frame, frame.target, values_of(bound)),
    }
}

/// Whether two variables, by number, are declared distinct.
pub open spec fn declared_distinct(distinct: Seq<Bitset>, left: usize, right: usize) -> bool {
    left < distinct.len() && distinct[left as int]@.contains(right)
}

/// Whether all variables of one expression are declared distinct from all variables of
/// another.
pub open spec fn all_distinct(distinct: Seq<Bitset>, left: Slot, right: Slot) -> bool {
    forall|a: usize, b: usize|
        left.vars.contains(a) && right.vars.contains(b) ==> #[trigger] declared_distinct(
            distinct,
            a,
            b,
        )
}

/// Whether the expressions in place of the variables of an assertion are as distinct as
/// it demands.
pub open spec fn distinctness_holds(
    frame: Frame,
    bound: Map<usize, Slot>,
    distinct: Seq<Bitset>,
) -> bool {
    forall|i: int|
        0 <= i < frame.mandatory_dv@.len() ==> all_distinct(
            distinct,
            bound[(#[trigger] frame.mandatory_dv@[i]).0],
            bound[frame.mandatory_dv@[i].1],
        )
}

/// The stack after an assertion was applied to its topmost expressions, and what stands
/// against it.  Distinctness is looked at last, when the conclusion is on the stack
/// already.
pub open spec fn apply(frame: Frame, stack: Seq<Slot>, distinct: Seq<Bitset>) -> (
    Seq<Slot>,
    Option<Fault>,
) {
    let count = frame.hypotheses@.len();
    if stack.len() < count {
        (stack, Some(Fault::ProofUnderflow))
    } else {
        let slots = stack.skip(stack.len() - count);
        let bound = bindings(frame, slots, count);
        match first_fault(frame, slots, count) {
            Some(fault) => (stack, Some(fault)),
            None => (
                stack.take(stack.len() - count).push(conclusion(frame, bound)),
                if distinctness_holds(frame, bound, distinct) {
                    None
                } else {
                    Some(Fault::ProofDvViolation)
                },
            ),
        }
    }
}

// ---------------------------------------------------------------------------------
// Steps
// ---------------------------------------------------------------------------------

/// A run that ends without a fault.
pub open spec fn good(state: ProofState) -> Run {
    Run { state, fault: None }
}

/// A run that ends in a fault.
pub open spec fn bad(state: ProofState, fault: Fault) -> Run {
    Run { state, fault: Some(fault) }
}

/// Takes step number `index` in the proof of `own`.
pub open spec fn execute(own: Frame, state: ProofState, index: int) -> Run {
    if index >= state.prepared.len() {
        bad(state, Fault::StepOutOfRange)
    } else {
        match state.prepared[index] {
            Step::Hyp(slot) => good(ProofState { stack: state.stack.push(slot), ..state }),
            Step::Assert(frame) => {
                let (stack, fault) = apply(frame, state.stack, own.optional_dv@);
                Run { state: ProofState { stack, ..state }, fault }
            },
        }
    }
}

/// Makes the topmost expression available as a step.
pub open spec fn save(state: ProofState) -> ProofState {
    ProofState { prepared: state.prepared.push(Step::Hyp(state.stack.last())), ..state }
}

/// A hypothesis of the frame whose statement is proved, as an expression.
pub open spec fn hypothesis_slot(own: Frame, names: Seq<Seq<u8>>, hyp: Hyp) -> Slot {
    match hyp.variable_index {
        Some(var) => Slot {
            vars: Set::empty().insert(var),
            code: hyp.expr.typecode,
            expr: variable_names(own, names)[var],
        },
        None => Slot {
            vars: tail_vars(hyp.expr.tail@),
            code: hyp.expr.typecode,
            expr: substitute(own, hyp.expr, variable_names(own, names)),
        },
    }
}

/// The number of a variable: the one that it has, or else the next one.
pub open spec fn number_var(bits: Map<Atom, usize>, var: Atom) -> Map<Atom, usize> {
    if bits.contains_key(var) {
        bits
    } else {
        bits.insert(var, bits.dom().len() as usize)
    }
}

/// The numbers of the variables once all of `vars` have one.
pub open spec fn number_vars(bits: Map<Atom, usize>, vars: Seq<Atom>) -> Map<Atom, usize>
    decreases vars.len(),
{
    if vars.len() == 0 {
        bits
    } else {
        number_var(number_vars(bits, vars.drop_last()), vars.last())
    }
}

/// The numbers that variables have.
pub open spec fn numbers_of(bits: Map<Atom, usize>, vars: Seq<Atom>) -> Set<usize> {
    Set::new(|bit: usize| exists|i: int| 0 <= i < vars.len() && bits[#[trigger] vars[i]] == bit)
}

/// The variables of a frame, numbered by their place in its list.
pub open spec fn own_numbers(vars: Seq<Atom>) -> Map<Atom, usize>
    decreases vars.len(),
{
    if vars.len() == 0 {
        Map::empty()
    } else {
        own_numbers(vars.drop_last()).insert(vars.last(), (vars.len() - 1) as usize)
    }
}

/// Whether a hypothesis is a `$e` statement of the segment with the given label.
pub open spec fn is_named(context: Context, hyp: Hyp, label: Seq<u8>) -> bool {
    let statements = context.segment.statements@;
    &&& hyp.variable_index is None
    &&& hyp.address.segment_id == context.id
    &&& 0 <= hyp.address.index < statements.len()
    &&& statements[hyp.address.index as int].label@ == label
}

/// The first hypothesis from number `from` on that has the given label.
pub open spec fn named_hypothesis(
    context: Context,
    own: Frame,
    label: Seq<u8>,
    from: int,
) -> Option<Hyp>
    decreases own.hypotheses@.len() - from,
{
    if from >= own.hypotheses@.len() {
        None
    } else if is_named(context, own.hypotheses@[from], label) {
        Some(own.hypotheses@[from])
    } else {
        named_hypothesis(context, own, label, from + 1)
    }
}

/// Whether a place is past the end of a scope.
pub open spec fn is_after(place: StatementAddress, scope: GlobalRange) -> bool {
    scope.end != NO_STATEMENT && (place.segment_id != scope.start.segment_id || place.index
        >= scope.end)
}

/// A hypothesis that is not one of the frame's own, as an expression.
pub open spec fn stub_slot(frame: Frame, bits: Map<Atom, usize>) -> Slot {
    Slot {
        vars: numbers_of(bits, frame.var_list@),
        code: frame.target.typecode,
        expr: frame.stub_expr@,
    }
}

/// Makes the statement with a label available as a step in the proof of `own`.
pub open spec fn prepare(context: Context, own: Frame, state: ProofState, label: Seq<u8>) -> Run {
    let state = ProofState { reads: state.reads.insert(label), ..state };
    if !context.frames.contains_key(label) {
        match named_hypothesis(context, own, label, 0) {
            Some(hyp) => good(
                ProofState {
                    prepared: state.prepared.push(
                        Step::Hyp(hypothesis_slot(own, context.names, hyp)),
                    ),
                    ..state
                },
            ),
            None => bad(state, Fault::StepMissing(label)),
        }
    } else {
        let frame = context.frames[label];
        if !is_before(context.positions, frame.valid.start, own.valid.start) {
            bad(state, Fault::StepUsedBeforeDefinition(label))
        } else if is_after(own.valid.start, frame.valid) {
            bad(state, Fault::StepUsedAfterScope(label))
        } else if frame.is_assertion() {
            good(ProofState { prepared: state.prepared.push(Step::Assert(frame)), ..state })
        } else {
            let bits = number_vars(state.bits, frame.var_list@);
            good(
                ProofState {
                    prepared: state.prepared.push(Step::Hyp(stub_slot(frame, bits))),
                    bits,
                    ..state
                },
            )
        }
    }
}

// ---------------------------------------------------------------------------------
// Proofs
// ---------------------------------------------------------------------------------

/// Makes the statements with the given labels available, in order.
pub open spec fn prepare_all(
    context: Context,
    own: Frame,
    state: ProofState,
    labels: Seq<Seq<u8>>,
) -> Run
    decreases labels.len(),
{
    if labels.len() == 0 {
        good(state)
    } else {
        let earlier = prepare_all(context, own, state, labels.drop_last());
        if earlier.fault is Some {
            earlier
        } else {
            prepare(context, own, earlier.state, labels.last())
        }
    }
}

/// Takes the step with a label; `?` stands for a step that is still unknown.
pub open spec fn take_step(context: Context, own: Frame, state: ProofState, label: Seq<u8>) -> Run {
    if label == seq![UNKNOWN] {
        bad(state, Fault::ProofIncomplete)
    } else {
        let prepared = prepare(context, own, state, label);
        if prepared.fault is Some {
            prepared
        } else {
            execute(own, prepared.state, prepared.state.prepared.len() - 1)
        }
    }
}

/// Takes the steps with the given labels, in order.
pub open spec fn take_steps(
    context: Context,
    own: Frame,
    state: ProofState,
    labels: Seq<Seq<u8>>,
) -> Run
    decreases labels.len(),
{
    if labels.len() == 0 {
        good(state)
    } else {
        let earlier = take_steps(context, own, state, labels.drop_last());
        if earlier.fault is Some {
            earlier
        } else {
            take_step(context, own, earlier.state, labels.last())
        }
    }
}

/// What the letters of a compressed proof ask for.
pub enum Instruction {
    /// Take the step with this number.
    Use(int),
    /// Save the topmost expression.
    Save,
    /// Nothing: the letters are at fault.
    Stop(Fault),
}

/// The word that opens the list of labels of a compressed proof.
pub const OPEN: u8 = 0x28;

/// The word that closes the list of labels of a compressed proof.
pub const CLOSE: u8 = 0x29;

/// The word or letter for a step that is still unknown.
pub const UNKNOWN: u8 = 0x3f;

/// The first of the letters that complete a number.
pub const LETTER_A: u8 = 0x41;

/// The last of the letters that complete a number.
pub const LETTER_T: u8 = 0x54;

/// The first of the letters for leading digits.
pub const LETTER_U: u8 = 0x55;

/// The last of the letters for leading digits.
pub const LETTER_Y: u8 = 0x59;

/// The letter that saves a step.
pub const LETTER_Z: u8 = 0x5a;

/// The leading digits of a number have to stay below this.
pub const DIGITS_LIMIT: usize = 214748363;

/// Reads the letters of a compressed proof.  `digits` is what the digits of a number
/// that is not complete yet amount to, and `can_save` tells whether a number has just
/// been completed.
pub open spec fn decode(letters: Seq<u8>, digits: int, can_save: bool) -> Seq<Instruction>
    decreases letters.len(),
{
    if letters.len() == 0 {
        if digits > 0 {
            seq![Instruction::Stop(Fault::ProofMalformedVarint)]
        } else {
            seq![]
        }
    } else {
        let letter = letters[0];
        let rest = letters.drop_first();
        if LETTER_A <= letter <= LETTER_T {
            seq![Instruction::Use(digits * 20 + (letter - LETTER_A))] + decode(rest, 0, true)
        } else if LETTER_U <= letter <= LETTER_Y {
            let digits = digits * 5 + 1 + (letter - LETTER_U);
            if digits >= DIGITS_LIMIT {
                seq![Instruction::Stop(Fault::ProofMalformedVarint)]
            } else {
                decode(rest, digits, false)
            }
        } else if letter == LETTER_Z {
            if can_save {
                seq![Instruction::Save] + decode(rest, digits, false)
            } else {
                seq![Instruction::Stop(Fault::ProofInvalidSave)]
            }
        } else if letter == UNKNOWN {
            if digits > 0 {
                seq![Instruction::Stop(Fault::ProofMalformedVarint)]
            } else {
                seq![Instruction::Stop(Fault::ProofIncomplete)]
            }
        } else {
            decode(rest, digits, can_save)
        }
    }
}

/// Carries out one instruction.
pub open spec fn follow(own: Frame, state: ProofState, instruction: Instruction) -> Run {
    match instruction {
        Instruction::Use(index) => execute(own, state, index),
        Instruction::Save => good(save(state)),
        Instruction::Stop(fault) => bad(state, fault),
    }
}

/// Carries out instructions, in order.
pub open spec fn follow_all(own: Frame, state: ProofState, instructions: Seq<Instruction>) -> Run
    decreases instructions.len(),
{
    if instructions.len() == 0 {
        good(state)
    } else {
        let first = follow(own, state, instructions[0]);
        if first.fault is Some {
            first
        } else {
            follow_all(own, first.state, instructions.drop_first())
        }
    }
}

/// What is wrong with the outcome of a complete proof of `own`.
pub open spec fn final_fault(own: Frame, names: Seq<Seq<u8>>, stack: Seq<Slot>) -> Option<Fault> {
    if stack.len() == 0 {
        Some(Fault::ProofNoSteps)
    } else if stack.len() > 1 {
        Some(Fault::ProofExcessEnd)
    } else if stack[0].code != own.target.typecode {
        Some(Fault::ProofWrongTypeEnd)
    } else if stack[0].expr != substitute(own, own.target, variable_names(own, names)) {
        Some(Fault::ProofWrongExprEnd)
    } else {
        None
    }
}

/// The state in which the check of a proof of `own` begins.
pub open spec fn start(own: Frame) -> ProofState {
    ProofState {
        prepared: Seq::empty(),
        stack: Seq::empty(),
        bits: own_numbers(own.var_list@),
        reads: Set::empty(),
    }
}

/// The state in which the check of a compressed proof begins: the hypotheses can be
/// used without being listed.
pub open spec fn start_compressed(own: Frame, names: Seq<Seq<u8>>) -> ProofState {
    ProofState {
        prepared: own.hypotheses@.map_values(
            |hyp: Hyp| Step::Hyp(hypothesis_slot(own, names, hyp)),
        ),
        ..start(own)
    }
}

/// The place of the first `)` from word `from` on, or the end of the words if there is none.
pub open spec fn roster_end(words: Seq<Seq<u8>>, from: int) -> int
    decreases words.len() - from,
{
    if from >= words.len() || words[from] == seq![CLOSE] {
        from
    } else {
        roster_end(words, from + 1)
    }
}

/// Words, strung together.
pub open spec fn concat(words: Seq<Seq<u8>>) -> Seq<u8>
    decreases words.len(),
{
    if words.len() == 0 {
        Seq::empty()
    } else {
        words[0] + concat(words.drop_first())
    }
}

/// Whether a proof is in the compressed format.
pub open spec fn is_compressed(words: Seq<Seq<u8>>) -> bool {
    words.len() > 0 && words[0] == seq![OPEN]
}

/// Runs the steps of a compressed proof of `own`.
pub open spec fn run_compressed(context: Context, own: Frame, words: Seq<Seq<u8>>) -> Run {
    let end = roster_end(words, 1);
    let roster = prepare_all(
        context,
        own,
        start_compressed(own, context.names),
        words.subrange(1, end),
    );
    if roster.fault is Some {
        roster
    } else if end >= words.len() {
        bad(roster.state, Fault::ProofUnterminatedRoster)
    } else {
        follow_all(own, roster.state, decode(concat(words.skip(end + 1)), 0, false))
    }
}

/// Runs the steps of a proof of `own`.
pub open spec fn run_proof(context: Context, own: Frame, words: Seq<Seq<u8>>) -> Run {
    if is_compressed(words) {
        run_compressed(context, own, words)
    } else {
        take_steps(context, own, start(own), words)
    }
}

/// What is wrong with a proof of `own`.
pub open spec fn proof_fault(context: Context, own: Frame, words: Seq<Seq<u8>>) -> Option<Fault> {
    let run = run_proof(context, own, words);
    if run.fault is Some {
        run.fault
    } else {
        final_fault(own, context.names, run.state.stack)
    }
}

// ---------------------------------------------------------------------------------
// Statements and segments
// ---------------------------------------------------------------------------------

/// Whether a statement has a proof that can be checked: it is a `$p` statement, and its
/// label has a frame.
pub open spec fn has_proof(context: Context, statement: Statement) -> bool {
    statement.stype == StatementType::Provable && context.frames.contains_key(statement.label@)
}

/// What is wrong with the proof of a statement.
pub open spec fn statement_fault(context: Context, statement: Statement) -> Option<Fault> {
    if has_proof(context, statement) {
        proof_fault(context, context.frames[statement.label@], statement.proof_words())
    } else {
        None
    }
}

/// The labels that the check of a statement looks up.
pub open spec fn statement_reads(context: Context, statement: Statement) -> Set<Seq<u8>> {
    if statement.stype != StatementType::Provable {
        Set::empty()
    } else if !context.frames.contains_key(statement.label@) {
        Set::empty().insert(statement.label@)
    } else {
        run_proof(
            context,
            context.frames[statement.label@],
            statement.proof_words(),
        ).state.reads.insert(statement.label@)
    }
}

/// The faults in the first `n` statements of the segment, with their addresses.
pub open spec fn segment_faults(context: Context, n: nat) -> Seq<(StatementAddress, Fault)>
    decreases n,
{
    if n == 0 {
        Seq::empty()
    } else {
        let earlier = segment_faults(context, (n - 1) as nat);
        match statement_fault(context, context.segment.statements@[n - 1]) {
            Some(fault) => earlier.push(
                (StatementAddress { segment_id: context.id, index: (n - 1) as i32 }, fault),
            ),
            None => earlier,
        }
    }
}

/// The labels that the check of the first `n` statements of the segment looks up.
pub open spec fn segment_reads(context: Context, n: nat) -> Set<Seq<u8>>
    decreases n,
{
    if n == 0 {
        Set::empty()
    } else {
        segment_reads(context, (n - 1) as nat).union(
            statement_reads(context, context.segment.statements@[n - 1]),
        )
    }
}

// ---------------------------------------------------------------------------------
// Databases
// ---------------------------------------------------------------------------------

/// A database with its names and frames.
pub struct Database {
    pub segments: SegmentSet,
    pub names: Seq<Seq<u8>>,
    pub scopes: ScopeResult,
}

impl Database {
    /// The database that consists of the given parts.
    pub open spec fn of(segments: &SegmentSet, nset: &Nameset, scopes: &ScopeResult) -> Database {
        Database { segments: *segments, names: nset@, scopes: *scopes }
    }
}

/// What a segment of a database is checked against.
pub open spec fn context_of(database: Database, segment: SegmentRef) -> Context {
    Context {
        frames: database.scopes.frames(),
        names: database.names,
        positions: database.segments.order.positions@,
        id: segment.id,
        segment: *segment.segment,
    }
}

/// Whether all segments of a database can be checked.
pub open spec fn database_fits(database: Database) -> bool {
    &&& database.segments.ids_distinct()
    &&& forall|i: int|
        0 <= i < database.segments.segments@.len() ==> context_fits(
            context_of(database, #[trigger] database.segments.segments@[i]),
        )
}

/// The outcome of the check of a segment.
pub struct SegmentReport {
    /// The segment that was checked.
    pub source: Segment,
    /// The labels that were looked up, each with the generation of its frame.
    pub usage: Set<(Seq<u8>, Option<u64>)>,
    /// The faults, with the addresses of the statements.
    pub faults: Seq<(StatementAddress, Fault)>,
}

/// The outcome that the check of a segment should have.
pub open spec fn report_of(database: Database, segment: SegmentRef) -> SegmentReport {
    let context = context_of(database, segment);
    let count = segment.segment.statements@.len();
    SegmentReport {
        source: *segment.segment,
        usage: status_of(segment_reads(context, count), database.scopes),
        faults: segment_faults(context, count),
    }
}

/// Whether the segment with the given id is number `i`.
pub open spec fn is_segment(database: Database, id: SegmentId, i: int) -> bool {
    0 <= i < database.segments.segments@.len() && database.segments.segments@[i].id == id
}

/// The outcome that the check of a database should have, by segment.
pub open spec fn reports_of(database: Database) -> Map<SegmentId, SegmentReport> {
    Map::new(
        |id: SegmentId| exists|i: int| is_segment(database, id, i),
        |id: SegmentId|
            report_of(
                database,
                database.segments.segments@[choose|i: int| is_segment(database, id, i)],
            ),
    )
}

} // verus!
