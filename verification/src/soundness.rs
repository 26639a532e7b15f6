//! Proofs prove: what the checker accepts can be derived by the rules of the language.
//!
//! Derivations make sense where frames are as [`is_sound_setting`] has it: no variable is
//! listed twice, no variable has two `$f` hypotheses, and only listed variables are declared
//! distinct.  [`crate::fitness::is_database_sound`] tests this for a database, and
//! [`crate::fitness::is_setting_sound`] for one frame.
//!
//! A statement is derived from its hypotheses, and from axioms and theorems that come
//! before it, by a single rule: from instances of the hypotheses of an assertion follows
//! the same instance of what it says, as long as variables that have to be distinct are
//! declared so.

use crate::incremental::own_fits;
use crate::letters::{is_orderly, lemma_decode_orderly};
use crate::model::{
    all_distinct, bindings, concat, conclusion, context_fits, context_of, database_fits,
    declared_distinct, decode, distinctness_holds, execute, first_fault, follow, follow_all,
    frame_fits, frames_fit, has_proof, hypothesis_fault, hypothesis_slot, is_after, is_compressed,
    named_hypothesis, number_var, number_vars, own_numbers, prepare, prepare_all, proof_fault,
    roster_end, run_proof, start, start_compressed, statement_fault, statement_fits, stub_slot,
    substitute, substitute_tail, take_steps, values_of, variable_names, Context, Database,
    Instruction, ProofState, Slot, Step,
};
use crate::nameck::Atom;
use crate::parser::is_before;
use crate::scopeck::{ExprFragment, Frame, Hyp};
use crate::substitute::lemma_substitute_values;
use vstd::prelude::*;
use vstd::set_lib::{lemma_int_range, lemma_len_subset, lemma_map_size, set_int_range};

verus! {

/// An expression that is claimed to hold: its type, its symbols, and its variables.
pub struct Judgement {
    pub code: Atom,
    pub expr: Seq<u8>,
    pub vars: Set<Atom>,
}

// ---------------------------------------------------------------------------------
// The rule
// ---------------------------------------------------------------------------------

/// Whether the statement with a label can be used in a proof of `own`.
pub open spec fn usable(context: Context, own: Frame, label: Seq<u8>) -> bool {
    let frame = context.frames[label];
    &&& context.frames.contains_key(label)
    &&& is_before(context.positions, frame.valid.start, own.valid.start)
    &&& !is_after(own.valid.start, frame.valid)
}

/// The hypothesis that binds a variable.
pub open spec fn binder(frame: Frame, var: usize) -> int {
    choose|i: int|
        0 <= i < frame.hypotheses@.len() && (#[trigger] frame.hypotheses@[i]).variable_index
            == Some(var)
}

/// The expression for each variable, as the instances of the `$f` hypotheses have it.
pub open spec fn assignment(frame: Frame, premises: Seq<Judgement>) -> Map<usize, Judgement> {
    Map::new(
        |var: usize| frame.binds(frame.hypotheses@.len() as int, var),
        |var: usize| premises[binder(frame, var)],
    )
}

/// The symbols of the expression for each variable.
pub open spec fn assigned_values(frame: Frame, premises: Seq<Judgement>) -> Map<usize, Seq<u8>> {
    assignment(frame, premises).map_values(|judgement: Judgement| judgement.expr)
}

/// Whether two variables are declared distinct where `own` is proved.
pub open spec fn distinct_in(own: Frame, left: Atom, right: Atom) -> bool {
    exists|i: int, j: int|
        0 <= i < own.var_list@.len() && 0 <= j < own.var_list@.len() && #[trigger] own.var_list@[i]
            == left && #[trigger] own.var_list@[j] == right && declared_distinct(
            own.optional_dv@,
            i as usize,
            j as usize,
        )
}

/// Whether `premises` are instances of the hypotheses of an assertion, all by the same
/// assignment of expressions to its variables.
pub open spec fn are_instances(frame: Frame, premises: Seq<Judgement>) -> bool {
    &&& premises.len() == frame.hypotheses@.len()
    &&& forall|i: int|
        0 <= i < frame.hypotheses@.len() ==> is_instance(
            frame,
            premises,
            premises[i],
            #[trigger] frame.hypotheses@[i],
        )
}

/// The part of [`are_instances`] on one hypothesis.
pub open spec fn is_instance(
    frame: Frame,
    premises: Seq<Judgement>,
    premise: Judgement,
    hyp: Hyp,
) -> bool {
    &&& premise.code == hyp.expr.typecode
    &&& match hyp.variable_index {
        Some(var) => premise == assignment(frame, premises)[var],
        None => premise.expr == substitute(frame, hyp.expr, assigned_values(frame, premises)),
    }
}

/// Whether all variables of one expression are declared distinct from all variables of
/// another where `own` is proved.
pub open spec fn vars_distinct(own: Frame, left: Judgement, right: Judgement) -> bool {
    forall|a: Atom, b: Atom|
        left.vars.contains(a) && right.vars.contains(b) ==> #[trigger] distinct_in(own, a, b)
}

/// Whether the expressions in place of the variables of an assertion are as distinct as
/// it demands.
pub open spec fn are_distinct(own: Frame, frame: Frame, premises: Seq<Judgement>) -> bool {
    forall|i: int|
        0 <= i < frame.mandatory_dv@.len() ==> vars_distinct(
            own,
            assignment(frame, premises)[(#[trigger] frame.mandatory_dv@[i]).0],
            assignment(frame, premises)[frame.mandatory_dv@[i].1],
        )
}

/// What an assertion says, for the assignment that `premises` determine.
pub open spec fn result(frame: Frame, premises: Seq<Judgement>) -> Judgement {
    Judgement {
        code: frame.target.typecode,
        expr: substitute(frame, frame.target, assigned_values(frame, premises)),
        vars: Set::new(
            |var: Atom|
                exists|i: int|
                    0 <= i < frame.target.tail@.len() && assignment(
                        frame,
                        premises,
                    )[(#[trigger] frame.target.tail@[i]).var].vars.contains(var),
        ),
    }
}

/// Whether a judgement follows from others by the assertion with the given label.
pub open spec fn follows(
    context: Context,
    own: Frame,
    label: Seq<u8>,
    premises: Seq<Judgement>,
    judgement: Judgement,
) -> bool {
    let frame = context.frames[label];
    &&& usable(context, own, label)
    &&& frame.is_assertion()
    &&& are_instances(frame, premises)
    &&& are_distinct(own, frame, premises)
    &&& judgement == result(frame, premises)
}

/// A hypothesis of the statement that is proved, as a judgement.
pub open spec fn hypothesis_judgement(own: Frame, names: Seq<Seq<u8>>, hyp: Hyp) -> Judgement {
    let slot = hypothesis_slot(own, names, hyp);
    Judgement {
        code: slot.code,
        expr: slot.expr,
        vars: Set::new(
            |atom: Atom|
                exists|var: usize| #[trigger]
                    slot.vars.contains(var) && own.var_list@[var as int] == atom,
        ),
    }
}

/// Another hypothesis, as a judgement.
pub open spec fn stub_judgement(frame: Frame) -> Judgement {
    Judgement {
        code: frame.target.typecode,
        expr: frame.stub_expr@,
        vars: frame.var_list@.to_set(),
    }
}

/// Whether a judgement is a hypothesis of `own`.
pub open spec fn is_hypothesis(context: Context, own: Frame, judgement: Judgement) -> bool {
    exists|i: int|
        0 <= i < own.hypotheses@.len() && judgement == hypothesis_judgement(
            own,
            context.names,
            #[trigger] own.hypotheses@[i],
        )
}

/// Whether a judgement is a hypothesis with a label that can be used in a proof of `own`.
pub open spec fn is_stub(
    context: Context,
    own: Frame,
    label: Seq<u8>,
    judgement: Judgement,
) -> bool {
    &&& usable(context, own, label)
    &&& !context.frames[label].is_assertion()
    &&& judgement == stub_judgement(context.frames[label])
}

/// Whether a judgement can be derived in a proof of `own`, by a derivation that is at most
/// `depth` steps deep.
pub open spec fn derivable(context: Context, own: Frame, judgement: Judgement, depth: nat) -> bool
    decreases depth,
{
    depth > 0 && {
        ||| is_hypothesis(context, own, judgement)
        ||| exists|label: Seq<u8>| is_stub(context, own, label, judgement)
        ||| exists|label: Seq<u8>, premises: Seq<Judgement>| #[trigger]
            follows(context, own, label, premises, judgement) && forall|i: int|
                0 <= i < premises.len() ==> derivable(
                    context,
                    own,
                    #[trigger] premises[i],
                    (depth - 1) as nat,
                )
    }
}

/// Whether the statement of `own` can be derived.
pub open spec fn is_theorem(context: Context, own: Frame) -> bool {
    exists|judgement: Judgement, depth: nat|
        {
            &&& #[trigger] derivable(context, own, judgement, depth)
            &&& judgement.code == own.target.typecode
            &&& judgement.expr == substitute(
                own,
                own.target,
                variable_names(own, context.names),
            )
        }
}

/// What the frame of a statement has to be for its derivations to make sense: no variable
/// is listed twice, and only listed variables are declared distinct.
pub open spec fn own_is_sound(own: Frame) -> bool {
    &&& own.var_list@.no_duplicates()
    &&& own.optional_dv@.len() <= own.var_list@.len()
    &&& forall|left: usize, right: usize| #[trigger]
        declared_distinct(own.optional_dv@, left, right) ==> right < own.var_list@.len()
}

/// No variable has two `$f` hypotheses.
pub open spec fn types_are_unique(frame: Frame) -> bool {
    forall|i: int, j: int|
        0 <= i < j < frame.hypotheses@.len() && (#[trigger] frame.hypotheses@[i]).variable_index
            == (#[trigger] frame.hypotheses@[j]).variable_index
            ==> frame.hypotheses@[i].variable_index is None
}

/// No assertion has two `$f` hypotheses for one variable.
pub open spec fn frames_are_sound(frames: Map<Seq<u8>, Frame>) -> bool {
    forall|label: Seq<u8>| #[trigger]
        frames.contains_key(label) && frames[label].is_assertion() ==> types_are_unique(
            frames[label],
        )
}

// ---------------------------------------------------------------------------------
// The numbers of variables
// ---------------------------------------------------------------------------------

/// The variables of `own` have their place in its list for a number, and no other
/// variable has one of these numbers.
pub open spec fn numbers_fit(own: Frame, bits: Map<Atom, usize>) -> bool {
    &&& bits.dom().finite()
    &&& own.var_list@.len() <= bits.dom().len()
    &&& forall|i: int|
        0 <= i < own.var_list@.len() ==> bits.contains_key(#[trigger] own.var_list@[i])
            && bits[own.var_list@[i]] == i
    &&& forall|atom: Atom| #[trigger]
        bits.contains_key(atom) && bits[atom] < own.var_list@.len()
            ==> own.var_list@[bits[atom] as int] == atom
}

/// Variables that have a number keep it.
pub open spec fn numbers_kept(before: Map<Atom, usize>, after: Map<Atom, usize>) -> bool {
    forall|atom: Atom| #[trigger]
        before.contains_key(atom) ==> after.contains_key(atom) && after[atom] == before[atom]
}

/// There are no more atoms than numbers for them.
pub proof fn lemma_atoms_fit(atoms: Set<Atom>)
    requires
        atoms.finite(),
    ensures
        atoms.len() <= 0x1_0000_0000,
{
    let range = set_int_range(0, 0x1_0000_0000);
    let to_int = |atom: Atom| atom as int;
    let image = atoms.map(to_int);
    lemma_int_range(0, 0x1_0000_0000);
    lemma_map_size(atoms, image, to_int);
    assert(image.subset_of(range));
    lemma_len_subset(image, range);
}

proof fn lemma_number_var(own: Frame, bits: Map<Atom, usize>, var: Atom)
    requires
        numbers_fit(own, bits),
    ensures
        numbers_fit(own, number_var(bits, var)),
        numbers_kept(bits, number_var(bits, var)),
        number_var(bits, var).contains_key(var),
{
    if !bits.contains_key(var) {
        lemma_atoms_fit(bits.dom().insert(var));
        let next = bits.dom().len() as usize;
        assert(next == bits.dom().len());
        assert(number_var(bits, var).dom() =~= bits.dom().insert(var));
    }
}

/// Giving numbers to more variables changes none that was given before.
pub proof fn lemma_number_vars(own: Frame, bits: Map<Atom, usize>, vars: Seq<Atom>)
    requires
        numbers_fit(own, bits),
    ensures
        numbers_fit(own, number_vars(bits, vars)),
        numbers_kept(bits, number_vars(bits, vars)),
        forall|i: int|
            0 <= i < vars.len() ==> number_vars(bits, vars).contains_key(#[trigger] vars[i]),
    decreases vars.len(),
{
    if vars.len() > 0 {
        let shorter = vars.drop_last();
        lemma_number_vars(own, bits, shorter);
        lemma_number_var(own, number_vars(bits, shorter), vars.last());
        assert forall|i: int| 0 <= i < vars.len() implies number_vars(bits, vars).contains_key(
            #[trigger] vars[i],
        ) by {
            if i < vars.len() - 1 {
                assert(shorter[i] == vars[i]);
            }
        }
    }
}

/// Without duplicates, each variable of a list has its place for a number.
pub proof fn lemma_own_numbers(vars: Seq<Atom>)
    requires
        vars.no_duplicates(),
        vars.len() <= usize::MAX,
    ensures
        own_numbers(vars).dom() == vars.to_set(),
        own_numbers(vars).dom().finite(),
        own_numbers(vars).dom().len() == vars.len(),
        forall|i: int| 0 <= i < vars.len() ==> own_numbers(vars)[#[trigger] vars[i]] == i,
    decreases vars.len(),
{
    vars.unique_seq_to_set();
    if vars.len() == 0 {
        assert(own_numbers(vars).dom() =~= vars.to_set());
    } else {
        let shorter = vars.drop_last();
        let last = vars.last();
        assert(shorter.no_duplicates());
        lemma_own_numbers(shorter);
        assert(own_numbers(vars).dom() =~= vars.to_set()) by {
            assert forall|atom: Atom|
                own_numbers(vars).dom().contains(atom) == vars.to_set().contains(atom) by {
                if shorter.contains(atom) {
                    let i = choose|i: int| 0 <= i < shorter.len() && shorter[i] == atom;
                    assert(vars[i] == atom);
                }
                if vars.contains(atom) && atom != last {
                    let i = choose|i: int| 0 <= i < vars.len() && vars[i] == atom;
                    assert(shorter[i] == atom);
                }
                assert(vars[vars.len() - 1] == last);
            }
        }
        assert forall|i: int| 0 <= i < vars.len() implies own_numbers(vars)[#[trigger] vars[i]]
            == i by {
            if i < vars.len() - 1 {
                assert(shorter[i] == vars[i]);
                assert(vars[i] != vars[vars.len() - 1]);
            }
        }
    }
}

/// A proof begins with the variables of its own frame numbered.
pub proof fn lemma_start_numbers(own: Frame)
    requires
        own_is_sound(own),
    ensures
        numbers_fit(own, own_numbers(own.var_list@)),
{
    let vars = own.var_list@;
    assert(vars.len() == own.var_list.len());
    lemma_own_numbers(vars);
    assert forall|atom: Atom| #[trigger]
        own_numbers(vars).contains_key(atom) && own_numbers(vars)[atom] < vars.len() implies
        vars[own_numbers(vars)[atom] as int] == atom by {
        assert(vars.to_set().contains(atom));
        let i = choose|i: int| 0 <= i < vars.len() && vars[i] == atom;
        assert(own_numbers(vars)[vars[i]] == i);
    }
    assert forall|i: int| 0 <= i < vars.len() implies own_numbers(vars).contains_key(
        #[trigger] vars[i],
    ) by {
        assert(vars.to_set().contains(vars[i]));
    }
}

// ---------------------------------------------------------------------------------
// Expressions and judgements
// ---------------------------------------------------------------------------------

/// Whether an expression with numbered variables stands for a judgement.
pub open spec fn denotes(bits: Map<Atom, usize>, slot: Slot, judgement: Judgement) -> bool {
    &&& slot.code == judgement.code
    &&& slot.expr == judgement.expr
    &&& forall|atom: Atom| #[trigger]
        judgement.vars.contains(atom) ==> bits.contains_key(atom) && slot.vars.contains(bits[atom])
    &&& forall|bit: usize| #[trigger]
        slot.vars.contains(bit) ==> exists|atom: Atom| #[trigger]
            judgement.vars.contains(atom) && bits[atom] == bit
}

/// An expression stands for the same judgement when more variables have numbers.
pub proof fn lemma_denotes_kept(
    before: Map<Atom, usize>,
    after: Map<Atom, usize>,
    slot: Slot,
    judgement: Judgement,
)
    requires
        numbers_kept(before, after),
        denotes(before, slot, judgement),
    ensures
        denotes(after, slot, judgement),
{
    assert forall|bit: usize| #[trigger] slot.vars.contains(bit) implies exists|atom: Atom|
        #[trigger] judgement.vars.contains(atom) && after[atom] == bit by {
        let atom = choose|atom: Atom| #[trigger]
            judgement.vars.contains(atom) && before[atom] == bit;
        assert(judgement.vars.contains(atom) && after[atom] == bit);
    }
}

/// Where no variable has two `$f` hypotheses, the instance of a `$f` hypothesis is bound
/// to its variable from then on.
pub proof fn lemma_binding(frame: Frame, slots: Seq<Slot>, i: int, n: nat, var: usize)
    requires
        types_are_unique(frame),
        0 <= i < n <= frame.hypotheses@.len(),
        frame.hypotheses@[i].variable_index == Some(var),
    ensures
        bindings(frame, slots, n).contains_key(var),
        bindings(frame, slots, n)[var] == slots[i],
    decreases n,
{
    if i < n - 1 {
        lemma_binding(frame, slots, i, (n - 1) as nat, var);
        assert(frame.hypotheses@[n - 1].variable_index != Some(var));
    }
}

/// What is bound to a variable stands for what is assigned to it.
proof fn lemma_assignment(
    frame: Frame,
    bits: Map<Atom, usize>,
    slots: Seq<Slot>,
    premises: Seq<Judgement>,
    n: nat,
    var: usize,
)
    requires
        types_are_unique(frame),
        slots.len() == premises.len() == frame.hypotheses@.len(),
        forall|i: int| 0 <= i < slots.len() ==> denotes(bits, #[trigger] slots[i], premises[i]),
        n <= frame.hypotheses@.len(),
        frame.binds(n as int, var),
    ensures
        assignment(frame, premises).contains_key(var),
        denotes(bits, bindings(frame, slots, n)[var], assignment(frame, premises)[var]),
        values_of(bindings(frame, slots, n))[var] == assigned_values(frame, premises)[var],
{
    let i = choose|i: int|
        0 <= i < n && (#[trigger] frame.hypotheses@[i]).variable_index == Some(var);
    lemma_binding(frame, slots, i, n, var);
    assert(frame.hypotheses@[i].variable_index == Some(var));
    assert(frame.binds(frame.hypotheses@.len() as int, var));
    let j = binder(frame, var);
    assert(frame.hypotheses@[j].variable_index == Some(var));
    assert(i == j);
    assert(denotes(bits, slots[i], premises[i]));
}

/// Substitution of what is bound is substitution of what is assigned.
proof fn lemma_same_text(
    frame: Frame,
    bits: Map<Atom, usize>,
    slots: Seq<Slot>,
    premises: Seq<Judgement>,
    n: nat,
    tail: Seq<ExprFragment>,
)
    requires
        types_are_unique(frame),
        slots.len() == premises.len() == frame.hypotheses@.len(),
        forall|i: int| 0 <= i < slots.len() ==> denotes(bits, #[trigger] slots[i], premises[i]),
        n <= frame.hypotheses@.len(),
        forall|i: int| 0 <= i < tail.len() ==> frame.binds(n as int, (#[trigger] tail[i]).var),
    ensures
        substitute_tail(frame, tail, values_of(bindings(frame, slots, n))) == substitute_tail(
            frame,
            tail,
            assigned_values(frame, premises),
        ),
{
    let left = values_of(bindings(frame, slots, n));
    let right = assigned_values(frame, premises);
    assert forall|i: int| 0 <= i < tail.len() implies left[(#[trigger] tail[i]).var]
        == right[tail[i].var] by {
        lemma_assignment(frame, bits, slots, premises, n, tail[i].var);
    }
    lemma_substitute_values(frame, tail, left, right);
}

/// An expression passes for an instance of a hypothesis just if it is one.
proof fn lemma_hypothesis(
    frame: Frame,
    bits: Map<Atom, usize>,
    slots: Seq<Slot>,
    premises: Seq<Judgement>,
    i: int,
)
    requires
        frame.can_apply(),
        types_are_unique(frame),
        slots.len() == premises.len() == frame.hypotheses@.len(),
        forall|k: int| 0 <= k < slots.len() ==> denotes(bits, #[trigger] slots[k], premises[k]),
        0 <= i < frame.hypotheses@.len(),
    ensures
        hypothesis_fault(frame, slots, i) is None <==> is_instance(
            frame,
            premises,
            premises[i],
            frame.hypotheses@[i],
        ),
{
    let hyp = frame.hypotheses@[i];
    assert(denotes(bits, slots[i], premises[i]));
    assert(frame.hypothesis_can_apply(i, hyp));
    match hyp.variable_index {
        Some(var) => {
            let j = binder(frame, var);
            assert(frame.binds(frame.hypotheses@.len() as int, var));
            assert(frame.hypotheses@[j].variable_index == Some(var));
            assert(i == j);
        },
        None => {
            lemma_same_text(frame, bits, slots, premises, i as nat, hyp.expr.tail@);
        },
    }
}

/// There is no first fault just if there is none.
pub proof fn lemma_no_fault(frame: Frame, slots: Seq<Slot>, n: nat)
    ensures
        first_fault(frame, slots, n) is None <==> forall|i: int|
            0 <= i < n ==> #[trigger] hypothesis_fault(frame, slots, i) is None,
    decreases n,
{
    if n > 0 {
        lemma_no_fault(frame, slots, (n - 1) as nat);
        if first_fault(frame, slots, n) is None {
            assert forall|i: int| 0 <= i < n implies #[trigger] hypothesis_fault(frame, slots, i)
                is None by {}
        } else if first_fault(frame, slots, (n - 1) as nat) is None {
            assert(hypothesis_fault(frame, slots, n - 1) is Some);
        }
    }
}

/// Variables are declared distinct just if their numbers are.
proof fn lemma_distinct(own: Frame, bits: Map<Atom, usize>, left: Atom, right: Atom)
    requires
        own_is_sound(own),
        numbers_fit(own, bits),
        bits.contains_key(left),
        bits.contains_key(right),
    ensures
        declared_distinct(own.optional_dv@, bits[left], bits[right]) == distinct_in(
            own,
            left,
            right,
        ),
{
    let vars = own.var_list@;
    if declared_distinct(own.optional_dv@, bits[left], bits[right]) {
        assert(vars[bits[left] as int] == left);
        assert(vars[bits[right] as int] == right);
        assert(distinct_in(own, left, right));
    }
    if distinct_in(own, left, right) {
        let (i, j) = choose|i: int, j: int|
            0 <= i < vars.len() && 0 <= j < vars.len() && #[trigger] vars[i] == left
                && #[trigger] vars[j] == right && declared_distinct(
                own.optional_dv@,
                i as usize,
                j as usize,
            );
        assert(bits[vars[i]] == i);
        assert(bits[vars[j]] == j);
    }
}

proof fn lemma_all_distinct(
    own: Frame,
    bits: Map<Atom, usize>,
    left: Slot,
    right: Slot,
    a: Judgement,
    b: Judgement,
)
    requires
        own_is_sound(own),
        numbers_fit(own, bits),
        denotes(bits, left, a),
        denotes(bits, right, b),
    ensures
        all_distinct(own.optional_dv@, left, right) == vars_distinct(own, a, b),
{
    if all_distinct(own.optional_dv@, left, right) {
        assert forall|x: Atom, y: Atom|
            a.vars.contains(x) && b.vars.contains(y) implies #[trigger] distinct_in(own, x, y) by {
            assert(declared_distinct(own.optional_dv@, bits[x], bits[y]));
            lemma_distinct(own, bits, x, y);
        }
    }
    if vars_distinct(own, a, b) {
        assert forall|p: usize, q: usize|
            left.vars.contains(p) && right.vars.contains(q) implies #[trigger] declared_distinct(
            own.optional_dv@,
            p,
            q,
        ) by {
            let x = choose|x: Atom| #[trigger] a.vars.contains(x) && bits[x] == p;
            let y = choose|y: Atom| #[trigger] b.vars.contains(y) && bits[y] == q;
            assert(distinct_in(own, x, y));
            lemma_distinct(own, bits, x, y);
        }
    }
}

/// The checker applies an assertion just if the rule does, and to the same effect.
pub proof fn lemma_apply(
    own: Frame,
    frame: Frame,
    bits: Map<Atom, usize>,
    slots: Seq<Slot>,
    premises: Seq<Judgement>,
)
    requires
        own_is_sound(own),
        numbers_fit(own, bits),
        frame.can_apply(),
        types_are_unique(frame),
        slots.len() == premises.len() == frame.hypotheses@.len(),
        forall|i: int| 0 <= i < slots.len() ==> denotes(bits, #[trigger] slots[i], premises[i]),
    ensures
        first_fault(frame, slots, slots.len()) is None <==> are_instances(frame, premises),
        distinctness_holds(frame, bindings(frame, slots, slots.len()), own.optional_dv@)
            == are_distinct(own, frame, premises),
        denotes(
            bits,
            conclusion(frame, bindings(frame, slots, slots.len())),
            result(frame, premises),
        ),
{
    let count = slots.len();
    let bound = bindings(frame, slots, count);
    let assigned = assignment(frame, premises);
    lemma_no_fault(frame, slots, count);
    assert forall|i: int| 0 <= i < count implies (#[trigger] hypothesis_fault(frame, slots, i)
        is None <==> is_instance(frame, premises, premises[i], frame.hypotheses@[i])) by {
        lemma_hypothesis(frame, bits, slots, premises, i);
    }
    if are_instances(frame, premises) {
        assert forall|i: int| 0 <= i < count implies #[trigger] hypothesis_fault(frame, slots, i)
            is None by {
            assert(is_instance(frame, premises, premises[i], frame.hypotheses@[i]));
        }
    }
    if first_fault(frame, slots, count) is None {
        assert forall|i: int| 0 <= i < count implies is_instance(
            frame,
            premises,
            premises[i],
            #[trigger] frame.hypotheses@[i],
        ) by {
            assert(hypothesis_fault(frame, slots, i) is None);
        }
    }
    let pairs = frame.mandatory_dv@;
    assert forall|i: int| 0 <= i < pairs.len() implies all_distinct(
        own.optional_dv@,
        bound[(#[trigger] pairs[i]).0],
        bound[pairs[i].1],
    ) == vars_distinct(own, assigned[pairs[i].0], assigned[pairs[i].1]) by {
        lemma_assignment(frame, bits, slots, premises, count, pairs[i].0);
        lemma_assignment(frame, bits, slots, premises, count, pairs[i].1);
        lemma_all_distinct(
            own,
            bits,
            bound[pairs[i].0],
            bound[pairs[i].1],
            assigned[pairs[i].0],
            assigned[pairs[i].1],
        );
    }
    lemma_conclusion(frame, bits, slots, premises);
}

proof fn lemma_conclusion(
    frame: Frame,
    bits: Map<Atom, usize>,
    slots: Seq<Slot>,
    premises: Seq<Judgement>,
)
    requires
        frame.can_apply(),
        types_are_unique(frame),
        slots.len() == premises.len() == frame.hypotheses@.len(),
        forall|i: int| 0 <= i < slots.len() ==> denotes(bits, #[trigger] slots[i], premises[i]),
    ensures
        denotes(
            bits,
            conclusion(frame, bindings(frame, slots, slots.len())),
            result(frame, premises),
        ),
{
    let count = slots.len();
    let bound = bindings(frame, slots, count);
    let assigned = assignment(frame, premises);
    let tail = frame.target.tail@;
    let slot = conclusion(frame, bound);
    let judgement = result(frame, premises);
    lemma_same_text(frame, bits, slots, premises, count, tail);
    assert forall|i: int| 0 <= i < tail.len() implies denotes(
        bits,
        bound[(#[trigger] tail[i]).var],
        assigned[tail[i].var],
    ) by {
        lemma_assignment(frame, bits, slots, premises, count, tail[i].var);
    }
    assert forall|atom: Atom| #[trigger] judgement.vars.contains(atom) implies bits.contains_key(
        atom,
    ) && slot.vars.contains(bits[atom]) by {
        let i = choose|i: int|
            0 <= i < tail.len() && assigned[(#[trigger] tail[i]).var].vars.contains(atom);
        assert(bound[tail[i].var].vars.contains(bits[atom]));
    }
    assert forall|bit: usize| #[trigger] slot.vars.contains(bit) implies exists|atom: Atom|
        #[trigger] judgement.vars.contains(atom) && bits[atom] == bit by {
        let i = choose|i: int|
            0 <= i < tail.len() && bound[(#[trigger] tail[i]).var].vars.contains(bit);
        let atom = choose|atom: Atom| #[trigger]
            assigned[tail[i].var].vars.contains(atom) && bits[atom] == bit;
        assert(judgement.vars.contains(atom));
    }
}

// ---------------------------------------------------------------------------------
// Soundness
// ---------------------------------------------------------------------------------

/// Whether an expression stands for something that was derived.
pub open spec fn slot_is_sound(
    context: Context,
    own: Frame,
    bits: Map<Atom, usize>,
    slot: Slot,
    depth: nat,
) -> bool {
    exists|judgement: Judgement| #[trigger]
        denotes(bits, slot, judgement) && derivable(context, own, judgement, depth)
}

/// Whether a step is something that was derived, or an assertion that can be used.
pub open spec fn step_is_sound(
    context: Context,
    own: Frame,
    bits: Map<Atom, usize>,
    step: Step,
    depth: nat,
) -> bool {
    match step {
        Step::Hyp(slot) => slot_is_sound(context, own, bits, slot, depth),
        Step::Assert(frame) => exists|label: Seq<u8>| #[trigger]
            usable(context, own, label) && context.frames[label] == frame && frame.is_assertion(),
    }
}

/// Whether all expressions stand for something that was derived.
pub open spec fn state_is_sound(
    context: Context,
    own: Frame,
    state: ProofState,
    depth: nat,
) -> bool {
    &&& numbers_fit(own, state.bits)
    &&& forall|i: int|
        0 <= i < state.stack.len() ==> slot_is_sound(
            context,
            own,
            state.bits,
            #[trigger] state.stack[i],
            depth,
        )
    &&& forall|i: int|
        0 <= i < state.prepared.len() ==> step_is_sound(
            context,
            own,
            state.bits,
            #[trigger] state.prepared[i],
            depth,
        )
}

/// A derivation is also one of any greater depth.
pub proof fn law_deeper(
    context: Context,
    own: Frame,
    judgement: Judgement,
    depth: nat,
    deeper: nat,
)
    requires
        derivable(context, own, judgement, depth),
        depth <= deeper,
    ensures
        derivable(context, own, judgement, deeper),
    decreases depth,
{
    if !is_hypothesis(context, own, judgement) && !(exists|label: Seq<u8>|
        is_stub(context, own, label, judgement)) {
        let (label, premises) = choose|label: Seq<u8>, premises: Seq<Judgement>| #[trigger]
            follows(context, own, label, premises, judgement) && forall|i: int|
                0 <= i < premises.len() ==> derivable(
                    context,
                    own,
                    #[trigger] premises[i],
                    (depth - 1) as nat,
                );
        assert forall|i: int| 0 <= i < premises.len() implies derivable(
            context,
            own,
            #[trigger] premises[i],
            (deeper - 1) as nat,
        ) by {
            law_deeper(context, own, premises[i], (depth - 1) as nat, (deeper - 1) as nat);
        }
        assert(follows(context, own, label, premises, judgement));
    }
}

proof fn lemma_slot_deeper(
    context: Context,
    own: Frame,
    before: Map<Atom, usize>,
    after: Map<Atom, usize>,
    slot: Slot,
    depth: nat,
    deeper: nat,
)
    requires
        numbers_kept(before, after),
        slot_is_sound(context, own, before, slot, depth),
        depth <= deeper,
    ensures
        slot_is_sound(context, own, after, slot, deeper),
{
    let judgement = choose|judgement: Judgement| #[trigger]
        denotes(before, slot, judgement) && derivable(context, own, judgement, depth);
    lemma_denotes_kept(before, after, slot, judgement);
    law_deeper(context, own, judgement, depth, deeper);
}

proof fn lemma_state_deeper(
    context: Context,
    own: Frame,
    before: ProofState,
    after: ProofState,
    depth: nat,
    deeper: nat,
)
    requires
        state_is_sound(context, own, before, depth),
        depth <= deeper,
        after.stack == before.stack,
        after.prepared == before.prepared,
        numbers_kept(before.bits, after.bits),
        numbers_fit(own, after.bits),
    ensures
        state_is_sound(context, own, after, deeper),
{
    assert forall|i: int| 0 <= i < after.stack.len() implies slot_is_sound(
        context,
        own,
        after.bits,
        #[trigger] after.stack[i],
        deeper,
    ) by {
        lemma_slot_deeper(context, own, before.bits, after.bits, before.stack[i], depth, deeper);
    }
    assert forall|i: int| 0 <= i < after.prepared.len() implies step_is_sound(
        context,
        own,
        after.bits,
        #[trigger] after.prepared[i],
        deeper,
    ) by {
        assert(step_is_sound(context, own, before.bits, before.prepared[i], depth));
        if let Step::Hyp(slot) = before.prepared[i] {
            lemma_slot_deeper(context, own, before.bits, after.bits, slot, depth, deeper);
        }
    }
}

/// A hypothesis of the statement that is proved stands for its judgement.
pub proof fn lemma_hypothesis_denotes(
    own: Frame,
    names: Seq<Seq<u8>>,
    bits: Map<Atom, usize>,
    hyp: Hyp,
)
    requires
        numbers_fit(own, bits),
        own.hypothesis_can_prove(hyp),
    ensures
        denotes(
            bits,
            hypothesis_slot(own, names, hyp),
            hypothesis_judgement(own, names, hyp),
        ),
{
    let slot = hypothesis_slot(own, names, hyp);
    let judgement = hypothesis_judgement(own, names, hyp);
    assert forall|var: usize| #[trigger] slot.vars.contains(var) implies var
        < own.var_list@.len() by {
        if hyp.variable_index is None {
            let i = choose|i: int|
                0 <= i < hyp.expr.tail@.len() && (#[trigger] hyp.expr.tail@[i]).var == var;
            assert(hyp.expr.tail@[i].var < own.var_list@.len());
        }
    }
    assert forall|atom: Atom| #[trigger] judgement.vars.contains(atom) implies bits.contains_key(
        atom,
    ) && slot.vars.contains(bits[atom]) by {
        let var = choose|var: usize| #[trigger]
            slot.vars.contains(var) && own.var_list@[var as int] == atom;
        assert(bits[own.var_list@[var as int]] == var);
    }
    assert forall|bit: usize| #[trigger] slot.vars.contains(bit) implies exists|atom: Atom|
        #[trigger] judgement.vars.contains(atom) && bits[atom] == bit by {
        let atom = own.var_list@[bit as int];
        assert(judgement.vars.contains(atom));
        assert(bits[atom] == bit);
    }
}

/// Another hypothesis stands for its judgement.
pub proof fn lemma_stub_denotes(frame: Frame, bits: Map<Atom, usize>)
    requires
        forall|i: int|
            0 <= i < frame.var_list@.len() ==> bits.contains_key(#[trigger] frame.var_list@[i]),
    ensures
        denotes(bits, stub_slot(frame, bits), stub_judgement(frame)),
{
    let vars = frame.var_list@;
    let slot = stub_slot(frame, bits);
    let judgement = stub_judgement(frame);
    assert forall|atom: Atom| #[trigger] judgement.vars.contains(atom) implies bits.contains_key(
        atom,
    ) && slot.vars.contains(bits[atom]) by {
        let i = choose|i: int| 0 <= i < vars.len() && vars[i] == atom;
        assert(bits[vars[i]] == bits[atom]);
    }
    assert forall|bit: usize| #[trigger] slot.vars.contains(bit) implies exists|atom: Atom|
        #[trigger] judgement.vars.contains(atom) && bits[atom] == bit by {
        let i = choose|i: int| 0 <= i < vars.len() && bits[#[trigger] vars[i]] == bit;
        assert(vars.contains(vars[i]));
        assert(judgement.vars.contains(vars[i]));
    }
}

/// A hypothesis that is found by a label is one of the frame's own.
pub proof fn lemma_named_is_own(context: Context, own: Frame, label: Seq<u8>, from: int)
    requires
        0 <= from,
    ensures
        named_hypothesis(context, own, label, from) matches Some(hyp) ==> exists|i: int|
            0 <= i < own.hypotheses@.len() && #[trigger] own.hypotheses@[i] == hyp,
    decreases own.hypotheses@.len() - from,
{
    if from < own.hypotheses@.len() {
        lemma_named_is_own(context, own, label, from + 1);
        assert(own.hypotheses@[from] == own.hypotheses@[from]);
    }
}

/// What soundness asks of the frames: they are fit for the checker, no assertion has two `$f`
/// hypotheses for one variable, and the frame of the statement that is proved lists no
/// variable twice and declares only listed variables distinct.
pub open spec fn is_sound_setting(context: Context, own: Frame) -> bool {
    &&& frames_fit(context.positions.len(), context.frames)
    &&& frames_are_sound(context.frames)
    &&& own_fits(context, own)
    &&& own_is_sound(own)
}

proof fn lemma_push_step(
    context: Context,
    own: Frame,
    before: ProofState,
    after: ProofState,
    step: Step,
    depth: nat,
)
    requires
        state_is_sound(context, own, before, depth),
        depth > 0,
        after.stack == before.stack,
        after.prepared == before.prepared.push(step),
        numbers_kept(before.bits, after.bits),
        numbers_fit(own, after.bits),
        step_is_sound(context, own, after.bits, step, depth),
    ensures
        state_is_sound(context, own, after, depth),
{
    let middle = ProofState { prepared: before.prepared, ..after };
    lemma_state_deeper(context, own, before, middle, depth, depth);
    assert forall|i: int| 0 <= i < after.stack.len() implies slot_is_sound(
        context,
        own,
        after.bits,
        #[trigger] after.stack[i],
        depth,
    ) by {
        assert(middle.stack[i] == after.stack[i]);
    }
    assert forall|i: int| 0 <= i < after.prepared.len() implies step_is_sound(
        context,
        own,
        after.bits,
        #[trigger] after.prepared[i],
        depth,
    ) by {
        if i < before.prepared.len() {
            assert(middle.prepared[i] == after.prepared[i]);
        }
    }
}

proof fn lemma_prepare_sound(
    context: Context,
    own: Frame,
    state: ProofState,
    label: Seq<u8>,
    depth: nat,
)
    requires
        is_sound_setting(context, own),
        state_is_sound(context, own, state, depth),
        depth > 0,
        prepare(context, own, state, label).fault is None,
    ensures
        state_is_sound(context, own, prepare(context, own, state, label).state, depth),
{
    let after = prepare(context, own, state, label).state;
    if !context.frames.contains_key(label) {
        let hyp = named_hypothesis(context, own, label, 0)->0;
        let slot = hypothesis_slot(own, context.names, hyp);
        let judgement = hypothesis_judgement(own, context.names, hyp);
        lemma_named_is_own(context, own, label, 0);
        let i = choose|i: int|
            0 <= i < own.hypotheses@.len() && #[trigger] own.hypotheses@[i] == hyp;
        assert(own.hypothesis_can_prove(own.hypotheses@[i]));
        lemma_hypothesis_denotes(own, context.names, state.bits, hyp);
        assert(is_hypothesis(context, own, judgement));
        assert(derivable(context, own, judgement, depth));
        lemma_push_step(context, own, state, after, Step::Hyp(slot), depth);
    } else {
        let frame = context.frames[label];
        assert(usable(context, own, label));
        if frame.is_assertion() {
            lemma_push_step(context, own, state, after, Step::Assert(frame), depth);
        } else {
            let judgement = stub_judgement(frame);
            lemma_number_vars(own, state.bits, frame.var_list@);
            lemma_stub_denotes(frame, after.bits);
            assert(is_stub(context, own, label, judgement));
            assert(derivable(context, own, judgement, depth));
            lemma_push_step(
                context,
                own,
                state,
                after,
                Step::Hyp(stub_slot(frame, after.bits)),
                depth,
            );
        }
    }
}

proof fn lemma_execute_sound(
    context: Context,
    own: Frame,
    state: ProofState,
    index: int,
    depth: nat,
)
    requires
        is_sound_setting(context, own),
        state_is_sound(context, own, state, depth),
        0 <= index,
        execute(own, state, index).fault is None,
    ensures
        state_is_sound(context, own, execute(own, state, index).state, depth + 1),
{
    let after = execute(own, state, index).state;
    let bits = state.bits;
    lemma_state_deeper(context, own, state, state, depth, depth + 1);
    assert(step_is_sound(context, own, bits, state.prepared[index], depth));
    match state.prepared[index] {
        Step::Hyp(slot) => {
            lemma_slot_deeper(context, own, bits, bits, slot, depth, depth + 1);
            assert forall|i: int| 0 <= i < after.stack.len() implies slot_is_sound(
                context,
                own,
                after.bits,
                #[trigger] after.stack[i],
                depth + 1,
            ) by {
                if i < state.stack.len() {
                    assert(after.stack[i] == state.stack[i]);
                }
            }
        },
        Step::Assert(frame) => {
            let label = choose|label: Seq<u8>| #[trigger]
                usable(context, own, label) && context.frames[label] == frame
                    && frame.is_assertion();
            assert(frame_fits(context.positions.len(), frame));
            let count = frame.hypotheses@.len();
            let base = state.stack.len() - count;
            let slots = state.stack.skip(base);
            let premises = Seq::new(
                count,
                |i: int|
                    choose|judgement: Judgement| #[trigger]
                        denotes(bits, slots[i], judgement) && derivable(
                            context,
                            own,
                            judgement,
                            depth,
                        ),
            );
            assert forall|i: int| 0 <= i < count implies denotes(
                bits,
                #[trigger] slots[i],
                premises[i],
            ) && derivable(context, own, premises[i], depth) by {
                assert(slots[i] == state.stack[base + i]);
                assert(slot_is_sound(context, own, bits, state.stack[base + i], depth));
            }
            lemma_apply(own, frame, bits, slots, premises);
            let judgement = result(frame, premises);
            assert(follows(context, own, label, premises, judgement));
            assert forall|i: int| 0 <= i < premises.len() implies derivable(
                context,
                own,
                #[trigger] premises[i],
                (depth + 1 - 1) as nat,
            ) by {
                assert(denotes(bits, slots[i], premises[i]));
            }
            assert(derivable(context, own, judgement, depth + 1));
            let slot = conclusion(frame, bindings(frame, slots, count));
            assert(after.stack == state.stack.take(base).push(slot));
            assert(denotes(bits, slot, judgement));
            assert forall|i: int| 0 <= i < after.stack.len() implies slot_is_sound(
                context,
                own,
                after.bits,
                #[trigger] after.stack[i],
                depth + 1,
            ) by {
                if i < base {
                    assert(after.stack[i] == state.stack[i]);
                }
            }
        },
    }
}

proof fn lemma_take_steps_sound(
    context: Context,
    own: Frame,
    labels: Seq<Seq<u8>>,
) -> (depth: nat)
    requires
        is_sound_setting(context, own),
        take_steps(context, own, start(own), labels).fault is None,
    ensures
        depth > 0,
        state_is_sound(context, own, take_steps(context, own, start(own), labels).state, depth),
    decreases labels.len(),
{
    if labels.len() == 0 {
        lemma_start_numbers(own);
        1
    } else {
        let earlier = take_steps(context, own, start(own), labels.drop_last());
        let depth = lemma_take_steps_sound(context, own, labels.drop_last());
        let prepared = prepare(context, own, earlier.state, labels.last());
        lemma_prepare_sound(context, own, earlier.state, labels.last(), depth);
        lemma_execute_sound(
            context,
            own,
            prepared.state,
            prepared.state.prepared.len() - 1,
            depth,
        );
        depth + 1
    }
}

proof fn lemma_prepare_all_sound(
    context: Context,
    own: Frame,
    state: ProofState,
    labels: Seq<Seq<u8>>,
    depth: nat,
)
    requires
        is_sound_setting(context, own),
        state_is_sound(context, own, state, depth),
        depth > 0,
        prepare_all(context, own, state, labels).fault is None,
    ensures
        state_is_sound(context, own, prepare_all(context, own, state, labels).state, depth),
    decreases labels.len(),
{
    if labels.len() > 0 {
        let earlier = prepare_all(context, own, state, labels.drop_last());
        lemma_prepare_all_sound(context, own, state, labels.drop_last(), depth);
        lemma_prepare_sound(context, own, earlier.state, labels.last(), depth);
    }
}

proof fn lemma_follow_all_sound(
    context: Context,
    own: Frame,
    state: ProofState,
    instructions: Seq<Instruction>,
    can_save: bool,
    depth: nat,
) -> (deeper: nat)
    requires
        is_sound_setting(context, own),
        state_is_sound(context, own, state, depth),
        depth > 0,
        is_orderly(instructions, can_save),
        can_save ==> state.stack.len() > 0,
        follow_all(own, state, instructions).fault is None,
    ensures
        state_is_sound(context, own, follow_all(own, state, instructions).state, deeper),
    decreases instructions.len(),
{
    if instructions.len() == 0 {
        depth
    } else {
        let first = follow(own, state, instructions[0]);
        let rest = instructions.drop_first();
        match instructions[0] {
            Instruction::Use(index) => {
                lemma_execute_sound(context, own, state, index, depth);
                lemma_follow_all_sound(context, own, first.state, rest, true, depth + 1)
            },
            Instruction::Save => {
                let slot = state.stack.last();
                assert(slot_is_sound(
                    context,
                    own,
                    state.bits,
                    state.stack[state.stack.len() - 1],
                    depth,
                ));
                lemma_push_step(context, own, state, first.state, Step::Hyp(slot), depth);
                lemma_follow_all_sound(context, own, first.state, rest, false, depth)
            },
            Instruction::Stop(fault) => depth,
        }
    }
}

proof fn lemma_run_sound(context: Context, own: Frame, words: Seq<Seq<u8>>) -> (depth: nat)
    requires
        is_sound_setting(context, own),
        run_proof(context, own, words).fault is None,
    ensures
        state_is_sound(context, own, run_proof(context, own, words).state, depth),
{
    if is_compressed(words) {
        let first = start_compressed(own, context.names);
        lemma_start_numbers(own);
        assert forall|i: int| 0 <= i < first.prepared.len() implies step_is_sound(
            context,
            own,
            first.bits,
            #[trigger] first.prepared[i],
            1,
        ) by {
            let hyp = own.hypotheses@[i];
            let judgement = hypothesis_judgement(own, context.names, hyp);
            assert(own.hypothesis_can_prove(hyp));
            lemma_hypothesis_denotes(own, context.names, first.bits, hyp);
            assert(is_hypothesis(context, own, judgement));
            assert(derivable(context, own, judgement, 1));
        }
        let end = roster_end(words, 1);
        let roster = prepare_all(context, own, first, words.subrange(1, end));
        lemma_prepare_all_sound(context, own, first, words.subrange(1, end), 1);
        let letters = concat(words.skip(end + 1));
        lemma_decode_orderly(letters, 0, false);
        lemma_follow_all_sound(context, own, roster.state, decode(letters, 0, false), false, 1)
    } else {
        lemma_take_steps_sound(context, own, words)
    }
}

/// Soundness: a statement whose proof has no fault is a theorem.
pub proof fn law_soundness(context: Context, own: Frame, words: Seq<Seq<u8>>)
    requires
        is_sound_setting(context, own),
        proof_fault(context, own, words) is None,
    ensures
        is_theorem(context, own),
{
    let state = run_proof(context, own, words).state;
    let depth = lemma_run_sound(context, own, words);
    assert(slot_is_sound(context, own, state.bits, state.stack[0], depth));
    let judgement = choose|judgement: Judgement| #[trigger]
        denotes(state.bits, state.stack[0], judgement) && derivable(context, own, judgement, depth);
    assert(derivable(context, own, judgement, depth));
}

/// Whether all proofs of a segment have what soundness asks of frames.
pub open spec fn context_is_sound(context: Context) -> bool {
    &&& context_fits(context)
    &&& frames_are_sound(context.frames)
    &&& forall|i: int|
        0 <= i < context.segment.statements@.len() && has_proof(
            context,
            #[trigger] context.segment.statements@[i],
        ) ==> own_is_sound(context.frames[context.segment.statements@[i].label@])
}

/// Whether all proofs of a database have what soundness asks of frames.
pub open spec fn database_is_sound(database: Database) -> bool {
    &&& database_fits(database)
    &&& forall|i: int|
        0 <= i < database.segments.segments@.len() ==> context_is_sound(
            context_of(database, #[trigger] database.segments.segments@[i]),
        )
}

/// Soundness for segments: where frames are what soundness asks for, a statement of which no
/// fault is found is a theorem.
pub proof fn law_segment_soundness(context: Context, i: int)
    requires
        context_is_sound(context),
        0 <= i < context.segment.statements@.len(),
        has_proof(context, context.segment.statements@[i]),
    ensures
        is_sound_setting(context, context.frames[context.segment.statements@[i].label@]),
        statement_fault(context, context.segment.statements@[i]) is None ==> is_theorem(
            context,
            context.frames[context.segment.statements@[i].label@],
        ),
{
    let statement = context.segment.statements@[i];
    let own = context.frames[statement.label@];
    assert(statement_fits(context, statement));
    assert(frame_fits(context.positions.len(), own));
    if statement_fault(context, statement) is None {
        law_soundness(context, own, statement.proof_words());
    }
}

} // verus!
