//! The variables of an expression are those that occur in it.
//!
//! A step is only allowed where variables are distinct that have to be.  The checker
//! carries the variables of each expression along with its symbols; here they are shown
//! to be just the variables among the symbols.

use crate::model::{
    frames_fit, hypothesis_slot, marked, substitute, substitute_tail, tail_vars, variable_names,
    Context,
};
use crate::nameck::Atom;
use crate::scopeck::{ExprFragment, Frame, Hyp, VerifyExpr};
use crate::soundness::{
    assigned_values, assignment, binder, derivable, follows, hypothesis_judgement, is_hypothesis,
    is_sound_setting, is_stub, result, Judgement,
};
use crate::symbols::{is_symbol, law_spelling_joins, law_spelling_unambiguous, spell};
use vstd::prelude::*;

verus! {

/// Whether an expression consists of the given symbols.
pub open spec fn is_spelled(expr: Seq<u8>, symbols: Seq<Seq<u8>>) -> bool {
    &&& expr == spell(symbols)
    &&& forall|i: int| 0 <= i < symbols.len() ==> is_symbol(#[trigger] symbols[i])
}

/// The names of symbols, and which of the symbols are variables.
pub struct Vocabulary {
    pub names: Seq<Seq<u8>>,
    pub variables: Set<Atom>,
}

impl Vocabulary {
    /// Whether variables have names that can be told apart.
    pub open spec fn is_clear(&self) -> bool {
        &&& forall|atom: Atom| #[trigger]
            self.variables.contains(atom) ==> atom < self.names.len() && is_symbol(
                self.names[atom as int],
            )
        &&& forall|left: Atom, right: Atom|
            #![trigger self.variables.contains(left), self.variables.contains(right)]
            self.variables.contains(left) && self.variables.contains(right)
                && self.names[left as int] == self.names[right as int] ==> left == right
    }

    /// Whether the variables among some symbols are just those of `vars`.
    pub open spec fn occur(&self, vars: Set<Atom>, symbols: Seq<Seq<u8>>) -> bool {
        &&& vars.subset_of(self.variables)
        &&& forall|atom: Atom| #[trigger]
            self.variables.contains(atom) ==> (vars.contains(atom) <==> symbols.contains(
                self.names[atom as int],
            ))
    }

    /// Whether an expression is made of symbols, and `vars` are its variables.
    pub open spec fn speaks_of(&self, expr: Seq<u8>, vars: Set<Atom>) -> bool {
        exists|symbols: Seq<Seq<u8>>| #[trigger]
            is_spelled(expr, symbols) && self.occur(vars, symbols)
    }

    /// Whether the constants of an expression are made of symbols that are no variables.
    pub open spec fn has_constants(&self, frame: Frame, expr: VerifyExpr) -> bool {
        &&& self.speaks_of(frame.constants(expr.rump), Set::empty())
        &&& forall|i: int|
            0 <= i < expr.tail@.len() ==> self.speaks_of(
                frame.constants((#[trigger] expr.tail@[i]).prefix),
                Set::empty(),
            )
    }

    /// Whether a frame that can be used in a proof is made of the symbols that it should
    /// be made of.
    pub open spec fn spells(&self, frame: Frame) -> bool {
        if frame.is_assertion() {
            self.has_constants(frame, frame.target)
        } else {
            self.speaks_of(frame.stub_expr@, frame.var_list@.to_set())
        }
    }

    /// Whether the frame of a statement that is proved is made of the symbols that it
    /// should be made of.
    pub open spec fn spells_own(&self, own: Frame) -> bool {
        &&& forall|i: int|
            0 <= i < own.var_list@.len() ==> self.variables.contains(#[trigger] own.var_list@[i])
        &&& forall|i: int|
            0 <= i < own.hypotheses@.len() && (#[trigger] own.hypotheses@[i]).variable_index is None
                ==> self.has_constants(own, own.hypotheses@[i].expr)
    }

    /// Whether all frames are made of the symbols that they should be made of.
    pub open spec fn spells_all(&self, context: Context, own: Frame) -> bool {
        &&& self.is_clear()
        &&& self.names == context.names
        &&& self.spells_own(own)
        &&& forall|label: Seq<u8>| #[trigger]
            context.frames.contains_key(label) ==> self.spells(context.frames[label])
    }
}

/// Expressions in a row speak of the variables of each.
proof fn lemma_join(
    vocabulary: Vocabulary,
    left: Seq<u8>,
    right: Seq<u8>,
    a: Set<Atom>,
    b: Set<Atom>,
)
    requires
        vocabulary.speaks_of(left, a),
        vocabulary.speaks_of(right, b),
    ensures
        vocabulary.speaks_of(left + right, a.union(b)),
{
    let first = choose|symbols: Seq<Seq<u8>>| #[trigger]
        is_spelled(left, symbols) && vocabulary.occur(a, symbols);
    let second = choose|symbols: Seq<Seq<u8>>| #[trigger]
        is_spelled(right, symbols) && vocabulary.occur(b, symbols);
    let both = first + second;
    law_spelling_joins(first, second);
    assert(is_spelled(left + right, both));
    assert forall|atom: Atom| #[trigger] vocabulary.variables.contains(atom) implies (a.union(
        b,
    ).contains(atom) <==> both.contains(vocabulary.names[atom as int])) by {
        let name = vocabulary.names[atom as int];
        if first.contains(name) {
            let i = choose|i: int| 0 <= i < first.len() && first[i] == name;
            assert(both[i] == name);
        }
        if second.contains(name) {
            let i = choose|i: int| 0 <= i < second.len() && second[i] == name;
            assert(both[first.len() + i] == name);
        }
        if both.contains(name) {
            let i = choose|i: int| 0 <= i < both.len() && both[i] == name;
            if i < first.len() {
                assert(first[i] == name);
            } else {
                assert(second[i - first.len()] == name);
            }
        }
    }
    assert(vocabulary.occur(a.union(b), both));
}

/// A variable that stands for itself speaks of itself.
proof fn lemma_variable(vocabulary: Vocabulary, atom: Atom)
    requires
        vocabulary.is_clear(),
        vocabulary.variables.contains(atom),
    ensures
        vocabulary.speaks_of(marked(vocabulary.names[atom as int]), Set::empty().insert(atom)),
{
    let name = vocabulary.names[atom as int];
    let symbols = seq![name];
    assert(symbols.drop_first().len() == 0);
    assert(spell(symbols.drop_first()) == Seq::<u8>::empty());
    assert(marked(name) =~= spell(symbols));
    assert(is_spelled(marked(name), symbols));
    assert forall|other: Atom| #[trigger] vocabulary.variables.contains(other) implies (
    Set::<Atom>::empty().insert(atom).contains(other) <==> symbols.contains(
        vocabulary.names[other as int],
    )) by {
        if symbols.contains(vocabulary.names[other as int]) {
            assert(vocabulary.names[other as int] == name);
        }
        assert(symbols[0] == name);
    }
    assert(vocabulary.occur(Set::empty().insert(atom), symbols));
}

/// The variables in what is put in place of the variables of an expression.
pub open spec fn replaced_vars(tail: Seq<ExprFragment>, sets: Map<usize, Set<Atom>>) -> Set<Atom> {
    Set::new(
        |atom: Atom|
            exists|i: int| 0 <= i < tail.len() && sets[(#[trigger] tail[i]).var].contains(atom),
    )
}

/// What comes out of a substitution speaks of the variables of what was put in.
proof fn lemma_substitute_tail(
    vocabulary: Vocabulary,
    frame: Frame,
    tail: Seq<ExprFragment>,
    values: Map<usize, Seq<u8>>,
    sets: Map<usize, Set<Atom>>,
)
    requires
        forall|i: int|
            0 <= i < tail.len() ==> {
                &&& vocabulary.speaks_of(
                    frame.constants((#[trigger] tail[i]).prefix),
                    Set::empty(),
                )
                &&& vocabulary.speaks_of(values[tail[i].var], sets[tail[i].var])
            },
    ensures
        vocabulary.speaks_of(substitute_tail(frame, tail, values), replaced_vars(tail, sets)),
    decreases tail.len(),
{
    if tail.len() == 0 {
        let none = Seq::<Seq<u8>>::empty();
        assert(is_spelled(Seq::empty(), none));
        assert(vocabulary.occur(replaced_vars(tail, sets), none));
    } else {
        let front = tail.drop_last();
        let last = tail.last();
        assert(tail[tail.len() - 1] == last);
        assert forall|i: int| 0 <= i < front.len() implies {
            &&& vocabulary.speaks_of(frame.constants((#[trigger] front[i]).prefix), Set::empty())
            &&& vocabulary.speaks_of(values[front[i].var], sets[front[i].var])
        } by {
            assert(front[i] == tail[i]);
        }
        lemma_substitute_tail(vocabulary, frame, front, values, sets);
        let before = replaced_vars(front, sets);
        let text = substitute_tail(frame, front, values);
        let constants = frame.constants(last.prefix);
        lemma_join(vocabulary, text, constants, before, Set::empty());
        lemma_join(
            vocabulary,
            text + constants,
            values[last.var],
            before.union(Set::empty()),
            sets[last.var],
        );
        let all = before.union(Set::empty()).union(sets[last.var]);
        assert(all =~= replaced_vars(tail, sets)) by {
            assert forall|atom: Atom|
                all.contains(atom) == replaced_vars(tail, sets).contains(atom) by {
                if before.contains(atom) {
                    let i = choose|i: int|
                        0 <= i < front.len() && sets[(#[trigger] front[i]).var].contains(atom);
                    assert(sets[tail[i].var].contains(atom));
                }
                if replaced_vars(tail, sets).contains(atom) {
                    let i = choose|i: int|
                        0 <= i < tail.len() && sets[(#[trigger] tail[i]).var].contains(atom);
                    if i < front.len() {
                        assert(sets[front[i].var].contains(atom));
                    }
                }
            }
        }
    }
}

proof fn lemma_substitute(
    vocabulary: Vocabulary,
    frame: Frame,
    expr: VerifyExpr,
    values: Map<usize, Seq<u8>>,
    sets: Map<usize, Set<Atom>>,
)
    requires
        vocabulary.has_constants(frame, expr),
        forall|i: int|
            0 <= i < expr.tail@.len() ==> vocabulary.speaks_of(
                values[(#[trigger] expr.tail@[i]).var],
                sets[expr.tail@[i].var],
            ),
    ensures
        vocabulary.speaks_of(substitute(frame, expr, values), replaced_vars(expr.tail@, sets)),
{
    lemma_substitute_tail(vocabulary, frame, expr.tail@, values, sets);
    let vars = replaced_vars(expr.tail@, sets);
    lemma_join(
        vocabulary,
        substitute_tail(frame, expr.tail@, values),
        frame.constants(expr.rump),
        vars,
        Set::empty(),
    );
    assert(vars.union(Set::empty()) =~= vars);
}

/// A hypothesis of the statement that is proved speaks of its variables.
proof fn lemma_hypothesis_speaks(vocabulary: Vocabulary, own: Frame, hyp: Hyp)
    requires
        vocabulary.is_clear(),
        vocabulary.spells_own(own),
        own.hypothesis_can_prove(hyp),
        hyp.variable_index is None ==> vocabulary.has_constants(own, hyp.expr),
    ensures
        vocabulary.speaks_of(
            hypothesis_judgement(own, vocabulary.names, hyp).expr,
            hypothesis_judgement(own, vocabulary.names, hyp).vars,
        ),
{
    let names = vocabulary.names;
    let slot = hypothesis_slot(own, names, hyp);
    let judgement = hypothesis_judgement(own, names, hyp);
    let values = variable_names(own, names);
    match hyp.variable_index {
        Some(var) => {
            let atom = own.var_list@[var as int];
            assert(slot.vars.contains(var));
            assert(judgement.vars =~= Set::empty().insert(atom));
            lemma_variable(vocabulary, atom);
        },
        None => {
            let tail = hyp.expr.tail@;
            let sets = Map::new(
                |var: usize| var < own.var_list@.len(),
                |var: usize| Set::<Atom>::empty().insert(own.var_list@[var as int]),
            );
            assert forall|i: int| 0 <= i < tail.len() implies vocabulary.speaks_of(
                values[(#[trigger] tail[i]).var],
                sets[tail[i].var],
            ) by {
                lemma_variable(vocabulary, own.var_list@[tail[i].var as int]);
            }
            lemma_substitute(vocabulary, own, hyp.expr, values, sets);
            assert(judgement.vars =~= replaced_vars(tail, sets)) by {
                assert forall|atom: Atom|
                    judgement.vars.contains(atom) == replaced_vars(tail, sets).contains(atom) by {
                    if judgement.vars.contains(atom) {
                        let var = choose|var: usize| #[trigger]
                            slot.vars.contains(var) && own.var_list@[var as int] == atom;
                        let i = choose|i: int|
                            0 <= i < tail.len() && (#[trigger] tail[i]).var == var;
                        assert(sets[tail[i].var].contains(atom));
                    }
                    if replaced_vars(tail, sets).contains(atom) {
                        let i = choose|i: int|
                            0 <= i < tail.len() && sets[(#[trigger] tail[i]).var].contains(atom);
                        assert(tail_vars(tail).contains(tail[i].var));
                        assert(slot.vars.contains(tail[i].var));
                    }
                }
            }
        },
    }
}

/// What an assertion says of given expressions speaks of their variables.
proof fn lemma_result_speaks(vocabulary: Vocabulary, frame: Frame, premises: Seq<Judgement>)
    requires
        vocabulary.has_constants(frame, frame.target),
        frame.can_apply(),
        premises.len() == frame.hypotheses@.len(),
        forall|i: int|
            0 <= i < premises.len() ==> vocabulary.speaks_of(
                (#[trigger] premises[i]).expr,
                premises[i].vars,
            ),
    ensures
        vocabulary.speaks_of(result(frame, premises).expr, result(frame, premises).vars),
{
    let tail = frame.target.tail@;
    let assigned = assignment(frame, premises);
    let values = assigned_values(frame, premises);
    let sets = assigned.map_values(|judgement: Judgement| judgement.vars);
    assert forall|i: int| 0 <= i < tail.len() implies vocabulary.speaks_of(
        values[(#[trigger] tail[i]).var],
        sets[tail[i].var],
    ) && sets[tail[i].var] == assigned[tail[i].var].vars by {
        let var = tail[i].var;
        assert(frame.binds(frame.hypotheses@.len() as int, var));
        let at = binder(frame, var);
        assert(frame.hypotheses@[at].variable_index == Some(var));
        assert(assigned.contains_key(var));
        assert(assigned[var] == premises[at]);
    }
    lemma_substitute(vocabulary, frame, frame.target, values, sets);
    let vars = result(frame, premises).vars;
    assert(vars =~= replaced_vars(tail, sets)) by {
        assert forall|atom: Atom| vars.contains(atom) == replaced_vars(tail, sets).contains(atom) by {
            if vars.contains(atom) {
                let i = choose|i: int|
                    0 <= i < tail.len() && assigned[(#[trigger] tail[i]).var].vars.contains(atom);
                assert(sets[tail[i].var].contains(atom));
            }
            if replaced_vars(tail, sets).contains(atom) {
                let i = choose|i: int|
                    0 <= i < tail.len() && sets[(#[trigger] tail[i]).var].contains(atom);
                assert(assigned[tail[i].var].vars.contains(atom));
            }
        }
    }
}

/// What can be derived is made of symbols, and its variables are those that occur among
/// them.
pub proof fn law_variables_occur(
    vocabulary: Vocabulary,
    context: Context,
    own: Frame,
    judgement: Judgement,
    depth: nat,
)
    requires
        is_sound_setting(context, own),
        vocabulary.spells_all(context, own),
        derivable(context, own, judgement, depth),
    ensures
        vocabulary.speaks_of(judgement.expr, judgement.vars),
    decreases depth,
{
    if is_hypothesis(context, own, judgement) {
        let i = choose|i: int|
            0 <= i < own.hypotheses@.len() && judgement == hypothesis_judgement(
                own,
                context.names,
                #[trigger] own.hypotheses@[i],
            );
        assert(own.hypothesis_can_prove(own.hypotheses@[i]));
        lemma_hypothesis_speaks(vocabulary, own, own.hypotheses@[i]);
    } else if exists|label: Seq<u8>| is_stub(context, own, label, judgement) {
        let label = choose|label: Seq<u8>| is_stub(context, own, label, judgement);
        assert(vocabulary.spells(context.frames[label]));
    } else {
        let (label, premises) = choose|label: Seq<u8>, premises: Seq<Judgement>| #[trigger]
            follows(context, own, label, premises, judgement) && forall|i: int|
                0 <= i < premises.len() ==> derivable(
                    context,
                    own,
                    #[trigger] premises[i],
                    (depth - 1) as nat,
                );
        assert forall|i: int| 0 <= i < premises.len() implies vocabulary.speaks_of(
            (#[trigger] premises[i]).expr,
            premises[i].vars,
        ) by {
            law_variables_occur(vocabulary, context, own, premises[i], (depth - 1) as nat);
        }
        let frame = context.frames[label];
        assert(frames_fit(context.positions.len(), context.frames));
        assert(context.frames.contains_key(label));
        assert(vocabulary.spells(frame));
        lemma_result_speaks(vocabulary, frame, premises);
    }
}

/// An expression does not leave open which variables it speaks of.
pub proof fn law_variables_unambiguous(
    vocabulary: Vocabulary,
    expr: Seq<u8>,
    left: Set<Atom>,
    right: Set<Atom>,
)
    requires
        vocabulary.speaks_of(expr, left),
        vocabulary.speaks_of(expr, right),
    ensures
        left == right,
{
    let a = choose|symbols: Seq<Seq<u8>>| #[trigger]
        is_spelled(expr, symbols) && vocabulary.occur(left, symbols);
    let b = choose|symbols: Seq<Seq<u8>>| #[trigger]
        is_spelled(expr, symbols) && vocabulary.occur(right, symbols);
    law_spelling_unambiguous(a, b);
    assert forall|atom: Atom| left.contains(atom) == right.contains(atom) by {
        if left.contains(atom) || right.contains(atom) {
            assert(vocabulary.variables.contains(atom));
        }
    }
    assert(left =~= right);
}

} // verus!
