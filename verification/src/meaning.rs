//! What an accepted proof means.
//!
//! The rules of the language are written down here in terms of the frames themselves.  A
//! class of judgements is closed under the rules if it has the hypotheses of a statement, and
//! with the premises of a step also what follows from them.  A statement whose proof is
//! accepted is in every such class: there is no way for it to be proved but by the rules.

use crate::diag::Fault;
use crate::forms::{
    has_single_types, has_single_variables, is_assertion_form, is_theorem_form,
    lemma_assertion_form, lemma_theorem_form,
};
use crate::model::{
    context_fits, context_of, database_fits, declared_distinct, frame_fits, hypothesis_slot,
    proof_fault, reports_of, statement_fault, substitute, variable_names, Context, Database,
};
use crate::nameck::Atom;
use crate::parser::{StatementAddress, StatementType, NO_STATEMENT};
use crate::reports::{address_of, law_database_diagnostics};
use crate::scopeck::{Frame, Hyp};
use crate::soundness::{
    assigned_values, assignment, binder, derivable, distinct_in, follows, hypothesis_judgement,
    is_hypothesis, is_instance, is_sound_setting, is_stub, law_soundness, result, stub_judgement,
    types_are_unique, vars_distinct, Judgement,
};
use crate::substitute::lemma_substitute_values;
use crate::verify::lists_faults;
use vstd::prelude::*;

verus! {

// ---------------------------------------------------------------------------------
// The rules
// ---------------------------------------------------------------------------------

/// An axiom or a theorem: a statement that is used with its hypotheses.
pub open spec fn is_rule(frame: Frame) -> bool {
    frame.stype == StatementType::Axiom || frame.stype == StatementType::Provable
}

/// A statement that can be cited where `own` is proved: it stands in an earlier segment, or
/// earlier in the same one, and its scope, if it ends, is in the same segment and ends later.
pub open spec fn is_cited(context: Context, own: Frame, label: Seq<u8>) -> bool {
    let cited = context.frames[label].valid;
    let here = own.valid.start;
    let there = context.positions[cited.start.segment_id as int];
    let position = context.positions[here.segment_id as int];
    &&& context.frames.contains_key(label)
    &&& there < position || (there == position && cited.start.index < here.index)
    &&& cited.end == NO_STATEMENT || (cited.start.segment_id == here.segment_id && here.index
        < cited.end)
}

/// Each variable of a frame by its name, with the top bit of the last byte set.
pub open spec fn spelled(own: Frame, names: Seq<Seq<u8>>) -> Map<usize, Seq<u8>> {
    Map::new(
        |var: usize| var < own.var_list@.len(),
        |var: usize|
            {
                let name = names[own.var_list@[var as int] as int];
                name.drop_last().push(name.last() | 0x80)
            },
    )
}

/// What hypothesis `i` of the statement that is proved says.
pub open spec fn own_judgement(own: Frame, names: Seq<Seq<u8>>, hyp: Hyp) -> Judgement {
    match hyp.variable_index {
        Some(var) => Judgement {
            code: hyp.expr.typecode,
            expr: spelled(own, names)[var],
            vars: Set::empty().insert(own.var_list@[var as int]),
        },
        None => Judgement {
            code: hyp.expr.typecode,
            expr: substitute(own, hyp.expr, spelled(own, names)),
            vars: Set::new(
                |atom: Atom|
                    exists|t: int|
                        0 <= t < hyp.expr.tail@.len() && own.var_list@[(
                        #[trigger] hyp.expr.tail@[t]).var as int] == atom,
            ),
        },
    }
}

/// What another hypothesis says.
pub open spec fn other_judgement(frame: Frame) -> Judgement {
    Judgement {
        code: frame.target.typecode,
        expr: frame.stub_expr@,
        vars: Set::new(|atom: Atom| frame.var_list@.contains(atom)),
    }
}

/// The symbols of what is put in place of each variable.
pub open spec fn texts(values: Map<usize, Judgement>) -> Map<usize, Seq<u8>> {
    Map::new(|var: usize| values.contains_key(var), |var: usize| values[var].expr)
}

/// Two variables are declared distinct where `own` is proved: the set that it keeps for the
/// place of the one has the place of the other.
pub open spec fn is_declared(own: Frame, left: Atom, right: Atom) -> bool {
    exists|x: int, y: int|
        0 <= x < own.var_list@.len() && 0 <= y < own.var_list@.len() && x < own.optional_dv@.len()
            && #[trigger] own.var_list@[x] == left && #[trigger] own.var_list@[y] == right
            && own.optional_dv@[x]@.contains(y as usize)
}

/// Judgements are premises of a rule, when `values` is what stands for each of its variables:
/// the instance of a `$f` hypothesis is the value of its variable, that of a `$e` hypothesis
/// has its symbols, all have the types of the hypotheses, and variables of values that have to
/// be distinct are declared so.
pub open spec fn are_premises(
    own: Frame,
    frame: Frame,
    premises: Seq<Judgement>,
    values: Map<usize, Judgement>,
) -> bool {
    &&& premises.len() == frame.hypotheses@.len()
    &&& forall|i: int|
        0 <= i < premises.len() ==> {
            let hyp = frame.hypotheses@[i];
            &&& (#[trigger] premises[i]).code == hyp.expr.typecode
            &&& hyp.variable_index matches Some(var) ==> values.contains_key(var) && values[var]
                == premises[i]
            &&& hyp.variable_index is None ==> premises[i].expr == substitute(
                frame,
                hyp.expr,
                texts(values),
            )
        }
    &&& forall|p: int, a: Atom, b: Atom|
        #![trigger values[frame.mandatory_dv@[p].0].vars.contains(a), values[frame.mandatory_dv@[p].1].vars.contains(b)]
        0 <= p < frame.mandatory_dv@.len() && values[frame.mandatory_dv@[p].0].vars.contains(a)
            && values[frame.mandatory_dv@[p].1].vars.contains(b) ==> is_declared(own, a, b)
}

/// What follows by a rule.
pub open spec fn outcome(frame: Frame, values: Map<usize, Judgement>) -> Judgement {
    Judgement {
        code: frame.target.typecode,
        expr: substitute(frame, frame.target, texts(values)),
        vars: Set::new(
            |atom: Atom|
                exists|t: int|
                    0 <= t < frame.target.tail@.len() && values[(
                    #[trigger] frame.target.tail@[t]).var].vars.contains(atom),
        ),
    }
}

/// A class of judgements is closed under the rules where `own` is proved.
pub open spec fn is_closed(
    context: Context,
    own: Frame,
    holds: spec_fn(Judgement) -> bool,
) -> bool {
    &&& forall|i: int|
        0 <= i < own.hypotheses@.len() ==> holds(
            own_judgement(own, context.names, #[trigger] own.hypotheses@[i]),
        )
    &&& forall|label: Seq<u8>| #[trigger]
        is_cited(context, own, label) && !is_rule(context.frames[label]) ==> holds(
            other_judgement(context.frames[label]),
        )
    &&& forall|label: Seq<u8>, premises: Seq<Judgement>, values: Map<usize, Judgement>|
        is_cited(context, own, label) && is_rule(context.frames[label])
            && #[trigger] are_premises(own, context.frames[label], premises, values) && (forall|
            i: int,
        |
            0 <= i < premises.len() ==> holds(#[trigger] premises[i])) ==> holds(
            outcome(context.frames[label], values),
        )
}

/// The frames of a context have the form that the rules speak of.
pub open spec fn is_proper(context: Context, own: Frame) -> bool {
    &&& forall|label: Seq<u8>| #[trigger]
        context.frames.contains_key(label) ==> {
            let frame = context.frames[label];
            &&& frame.valid.start.segment_id < context.positions.len()
            &&& is_rule(frame) ==> is_assertion_form(frame) && has_single_types(frame)
        }
    &&& own.valid.start.segment_id < context.positions.len()
    &&& is_theorem_form(own, context.names)
    &&& has_single_variables(own)
}

// ---------------------------------------------------------------------------------
// The rules and the model
// ---------------------------------------------------------------------------------

/// Frames of the right form are what soundness asks for.
pub proof fn lemma_proper(context: Context, own: Frame)
    requires
        is_proper(context, own),
    ensures
        is_sound_setting(context, own),
{
    assert forall|label: Seq<u8>| #[trigger] context.frames.contains_key(label) implies frame_fits(
        context.positions.len(),
        context.frames[label],
    ) && (context.frames[label].is_assertion() ==> types_are_unique(context.frames[label])) by {
        lemma_assertion_form(context.frames[label]);
    }
    lemma_theorem_form(own, context.names);
    assert forall|left: usize, right: usize| #[trigger]
        declared_distinct(own.optional_dv@, left, right) implies right < own.var_list@.len() by {
        assert(own.optional_dv@[left as int]@.contains(right));
    }
}

/// Names are spelled alike.
pub proof fn lemma_spelled(own: Frame, names: Seq<Seq<u8>>)
    ensures
        spelled(own, names) == variable_names(own, names),
{
    assert(spelled(own, names) =~= variable_names(own, names));
}

/// Hypotheses of the statement that is proved say the same.
pub proof fn lemma_own_judgement(own: Frame, names: Seq<Seq<u8>>, hyp: Hyp)
    ensures
        own_judgement(own, names, hyp) == hypothesis_judgement(own, names, hyp),
{
    lemma_spelled(own, names);
    let left = own_judgement(own, names, hyp);
    let right = hypothesis_judgement(own, names, hyp);
    let slot = hypothesis_slot(own, names, hyp);
    assert(left.vars =~= right.vars) by {
        assert forall|atom: Atom| left.vars.contains(atom) == right.vars.contains(atom) by {
            match hyp.variable_index {
                Some(var) => {
                    assert(slot.vars.contains(var));
                },
                None => {
                    if left.vars.contains(atom) {
                        let t = choose|t: int|
                            0 <= t < hyp.expr.tail@.len() && own.var_list@[(
                            #[trigger] hyp.expr.tail@[t]).var as int] == atom;
                        assert(slot.vars.contains(hyp.expr.tail@[t].var));
                    }
                    if right.vars.contains(atom) {
                        let var = choose|var: usize| #[trigger]
                            slot.vars.contains(var) && own.var_list@[var as int] == atom;
                        let t = choose|t: int|
                            0 <= t < hyp.expr.tail@.len() && (#[trigger] hyp.expr.tail@[t]).var
                                == var;
                        assert(own.var_list@[hyp.expr.tail@[t].var as int] == atom);
                    }
                },
            }
        }
    }
}

/// Other hypotheses say the same.
pub proof fn lemma_other_judgement(frame: Frame)
    ensures
        other_judgement(frame) == stub_judgement(frame),
{
    assert(other_judgement(frame).vars =~= stub_judgement(frame).vars);
}

/// Variables are declared distinct alike.
pub proof fn lemma_declared(own: Frame, left: Atom, right: Atom)
    ensures
        is_declared(own, left, right) == distinct_in(own, left, right),
{
    let vars = own.var_list@;
    assert(vars.len() == own.var_list.len());
    if is_declared(own, left, right) {
        let (x, y) = choose|x: int, y: int|
            0 <= x < vars.len() && 0 <= y < vars.len() && x < own.optional_dv@.len()
                && #[trigger] vars[x] == left && #[trigger] vars[y] == right
                && own.optional_dv@[x]@.contains(y as usize);
        assert(declared_distinct(own.optional_dv@, x as usize, y as usize));
        assert(vars[x] == left && vars[y] == right);
    }
    if distinct_in(own, left, right) {
        let (x, y) = choose|x: int, y: int|
            0 <= x < vars.len() && 0 <= y < vars.len() && #[trigger] vars[x] == left
                && #[trigger] vars[y] == right && declared_distinct(
                own.optional_dv@,
                x as usize,
                y as usize,
            );
        assert(vars[x] == left && vars[y] == right);
        assert(own.optional_dv@[x]@.contains(y as usize));
    }
}

/// What follows by the rules of the model is a step by the rules written down here.
pub proof fn lemma_premises(
    context: Context,
    own: Frame,
    label: Seq<u8>,
    premises: Seq<Judgement>,
    judgement: Judgement,
) -> (values: Map<usize, Judgement>)
    requires
        is_proper(context, own),
        follows(context, own, label, premises, judgement),
    ensures
        is_cited(context, own, label),
        is_rule(context.frames[label]),
        are_premises(own, context.frames[label], premises, values),
        outcome(context.frames[label], values) == judgement,
{
    let frame = context.frames[label];
    let values = assignment(frame, premises);
    assert(texts(values) =~= assigned_values(frame, premises));
    assert forall|i: int| 0 <= i < premises.len() implies ({
        let hyp = frame.hypotheses@[i];
        &&& (#[trigger] premises[i]).code == hyp.expr.typecode
        &&& hyp.variable_index matches Some(var) ==> values.contains_key(var) && values[var]
            == premises[i]
        &&& hyp.variable_index is None ==> premises[i].expr == substitute(
            frame,
            hyp.expr,
            texts(values),
        )
    }) by {
        let hyp = frame.hypotheses@[i];
        assert(is_instance(frame, premises, premises[i], frame.hypotheses@[i]));
        if let Some(var) = hyp.variable_index {
            assert(frame.hypotheses@[i].variable_index == Some(var));
            assert(frame.binds(frame.hypotheses@.len() as int, var));
        }
    }
    assert forall|p: int, a: Atom, b: Atom|
        #![trigger values[frame.mandatory_dv@[p].0].vars.contains(a), values[frame.mandatory_dv@[p].1].vars.contains(b)]
        0 <= p < frame.mandatory_dv@.len() && values[frame.mandatory_dv@[p].0].vars.contains(a)
            && values[frame.mandatory_dv@[p].1].vars.contains(b) implies is_declared(own, a, b) by {
        assert(vars_distinct(
            own,
            values[frame.mandatory_dv@[p].0],
            values[frame.mandatory_dv@[p].1],
        ));
        assert(distinct_in(own, a, b));
        lemma_declared(own, a, b);
    }
    assert(outcome(frame, values).vars =~= judgement.vars);
    values
}

/// A step by the rules written down here follows by the rules of the model.
pub proof fn lemma_follows(
    context: Context,
    own: Frame,
    label: Seq<u8>,
    premises: Seq<Judgement>,
    values: Map<usize, Judgement>,
)
    requires
        is_proper(context, own),
        is_cited(context, own, label),
        is_rule(context.frames[label]),
        are_premises(own, context.frames[label], premises, values),
    ensures
        follows(context, own, label, premises, outcome(context.frames[label], values)),
{
    let frame = context.frames[label];
    let assigned = assignment(frame, premises);
    let count = frame.hypotheses@.len() as int;
    assert(is_assertion_form(frame) && has_single_types(frame));
    assert forall|var: usize| #[trigger] frame.binds(count, var) implies assigned[var]
        == values[var] && assigned.contains_key(var) && values.contains_key(var) by {
        let i = binder(frame, var);
        assert(frame.hypotheses@[i].variable_index == Some(var));
        assert(premises[i] == values[var]);
    }
    lemma_assertion_form(frame);
    assert forall|i: int| 0 <= i < frame.hypotheses@.len() implies is_instance(
        frame,
        premises,
        premises[i],
        #[trigger] frame.hypotheses@[i],
    ) by {
        let hyp = frame.hypotheses@[i];
        assert(premises[i].code == hyp.expr.typecode);
        assert(frame.hypothesis_can_apply(i, hyp));
        match hyp.variable_index {
            Some(var) => {
                assert(frame.hypotheses@[i].variable_index == Some(var));
                assert(frame.binds(count, var));
            },
            None => {
                let tail = hyp.expr.tail@;
                assert forall|t: int| 0 <= t < tail.len() implies texts(values)[(
                #[trigger] tail[t]).var] == assigned_values(frame, premises)[tail[t].var] by {
                    assert(frame.binds(i, tail[t].var));
                    let j = choose|j: int|
                        0 <= j < i && (#[trigger] frame.hypotheses@[j]).variable_index == Some(
                            tail[t].var,
                        );
                    assert(frame.hypotheses@[j].variable_index == Some(tail[t].var));
                    assert(frame.binds(count, tail[t].var));
                }
                lemma_substitute_values(
                    frame,
                    tail,
                    texts(values),
                    assigned_values(frame, premises),
                );
            },
        }
    }
    assert forall|p: int| 0 <= p < frame.mandatory_dv@.len() implies vars_distinct(
        own,
        assigned[(#[trigger] frame.mandatory_dv@[p]).0],
        assigned[frame.mandatory_dv@[p].1],
    ) by {
        let (x, y) = frame.mandatory_dv@[p];
        assert(frame.binds(count, x) && frame.binds(count, y));
        assert forall|a: Atom, b: Atom|
            assigned[x].vars.contains(a) && assigned[y].vars.contains(
                b,
            ) implies #[trigger] distinct_in(own, a, b) by {
            assert(values[frame.mandatory_dv@[p].0].vars.contains(a));
            assert(values[frame.mandatory_dv@[p].1].vars.contains(b));
            lemma_declared(own, a, b);
        }
    }
    let tail = frame.target.tail@;
    assert forall|t: int| 0 <= t < tail.len() implies texts(values)[(#[trigger] tail[t]).var]
        == assigned_values(frame, premises)[tail[t].var] && assigned[tail[t].var]
        == values[tail[t].var] by {
        assert(frame.binds(count, tail[t].var));
    }
    lemma_substitute_values(frame, tail, texts(values), assigned_values(frame, premises));
    let left = outcome(frame, values);
    let right = result(frame, premises);
    assert(left.vars =~= right.vars) by {
        assert forall|atom: Atom| left.vars.contains(atom) == right.vars.contains(atom) by {
            if left.vars.contains(atom) {
                let t = choose|t: int|
                    0 <= t < tail.len() && values[(#[trigger] tail[t]).var].vars.contains(atom);
                assert(assigned[tail[t].var].vars.contains(atom));
            }
            if right.vars.contains(atom) {
                let t = choose|t: int|
                    0 <= t < tail.len() && assigned[(#[trigger] tail[t]).var].vars.contains(atom);
                assert(values[tail[t].var].vars.contains(atom));
            }
        }
    }
}

proof fn lemma_derivable_holds(
    context: Context,
    own: Frame,
    holds: spec_fn(Judgement) -> bool,
    judgement: Judgement,
    depth: nat,
)
    requires
        is_proper(context, own),
        is_closed(context, own, holds),
        derivable(context, own, judgement, depth),
    ensures
        holds(judgement),
    decreases depth,
{
    if is_hypothesis(context, own, judgement) {
        let i = choose|i: int|
            0 <= i < own.hypotheses@.len() && judgement == hypothesis_judgement(
                own,
                context.names,
                #[trigger] own.hypotheses@[i],
            );
        lemma_own_judgement(own, context.names, own.hypotheses@[i]);
    } else if exists|label: Seq<u8>| is_stub(context, own, label, judgement) {
        let label = choose|label: Seq<u8>| is_stub(context, own, label, judgement);
        lemma_other_judgement(context.frames[label]);
        assert(is_cited(context, own, label));
    } else {
        let (label, premises) = choose|label: Seq<u8>, premises: Seq<Judgement>| #[trigger]
            follows(context, own, label, premises, judgement) && forall|i: int|
                0 <= i < premises.len() ==> derivable(
                    context,
                    own,
                    #[trigger] premises[i],
                    (depth - 1) as nat,
                );
        assert forall|i: int| 0 <= i < premises.len() implies holds(#[trigger] premises[i]) by {
            lemma_derivable_holds(context, own, holds, premises[i], (depth - 1) as nat);
        }
        let values = lemma_premises(context, own, label, premises, judgement);
        assert(are_premises(own, context.frames[label], premises, values));
    }
}

/// An accepted proof proves its statement by the rules: the statement is in every class of
/// judgements that is closed under them.
pub proof fn law_accepted_by_rules(
    context: Context,
    own: Frame,
    words: Seq<Seq<u8>>,
    holds: spec_fn(Judgement) -> bool,
) -> (vars: Set<Atom>)
    requires
        is_proper(context, own),
        is_closed(context, own, holds),
        proof_fault(context, own, words) is None,
    ensures
        holds(
            (Judgement {
                code: own.target.typecode,
                expr: substitute(own, own.target, spelled(own, context.names)),
                vars,
            }),
        ),
{
    lemma_proper(context, own);
    lemma_spelled(own, context.names);
    law_soundness(context, own, words);
    let (judgement, depth) = choose|judgement: Judgement, depth: nat|
        {
            &&& #[trigger] derivable(context, own, judgement, depth)
            &&& judgement.code == own.target.typecode
            &&& judgement.expr == substitute(
                own,
                own.target,
                variable_names(own, context.names),
            )
        };
    lemma_derivable_holds(context, own, holds, judgement, depth);
    judgement.vars
}

// ---------------------------------------------------------------------------------
// Databases
// ---------------------------------------------------------------------------------

/// What the proofs of a segment are checked against is the database: its frames, its names,
/// the positions of its segments, and the segment itself.
pub proof fn law_context(database: Database, i: int)
    ensures
        ({
            let segment = database.segments.segments@[i];
            let context = context_of(database, segment);
            &&& context.frames == database.scopes.frames()
            &&& context.names == database.names
            &&& context.positions == database.segments.order.positions@
            &&& context.id == segment.id
            &&& context.segment == *segment.segment
        }),
{
}

/// Every `$p` statement whose label has a frame is checked: if no diagnostic is listed at its
/// address, its proof is accepted, and so it is proved by the rules.  Which statements these
/// are is told by the type of the statement and by the table of frames alone.
pub proof fn law_unlisted_by_rules(
    database: Database,
    list: Seq<(StatementAddress, Fault)>,
    i: int,
    k: int,
    holds: spec_fn(Judgement) -> bool,
) -> (vars: Set<Atom>)
    requires
        database_fits(database),
        lists_faults(list, reports_of(database)),
        0 <= i < database.segments.segments@.len(),
        0 <= k < database.segments.segments@[i].segment.statements@.len(),
        ({
            let segment = database.segments.segments@[i];
            let statement = segment.segment.statements@[k];
            let own = database.scopes.frames()[statement.label@];
            let context = Context {
                frames: database.scopes.frames(),
                names: database.names,
                positions: database.segments.order.positions@,
                id: segment.id,
                segment: *segment.segment,
            };
            &&& statement.stype == StatementType::Provable
            &&& database.scopes.frames().contains_key(statement.label@)
            &&& is_proper(context, own)
            &&& is_closed(context, own, holds)
            &&& forall|n: int|
                0 <= n < list.len() ==> !((#[trigger] list[n]).0.segment_id == segment.id
                    && list[n].0.index == k)
        }),
    ensures
        ({
            let statement = database.segments.segments@[i].segment.statements@[k];
            let own = database.scopes.frames()[statement.label@];
            holds(
                (Judgement {
                    code: own.target.typecode,
                    expr: substitute(own, own.target, spelled(own, database.names)),
                    vars,
                }),
            )
        }),
{
    let segment = database.segments.segments@[i];
    let statement = segment.segment.statements@[k];
    let own = database.scopes.frames()[statement.label@];
    let context = context_of(database, segment);
    assert(context_fits(context));
    if let Some(fault) = statement_fault(context, statement) {
        law_database_diagnostics(database, list, i, k, fault);
        let entry = (address_of(context, k), fault);
        assert(list.contains(entry));
        let n = choose|n: int| 0 <= n < list.len() && list[n] == entry;
        assert(list[n].0.index == k);
    }
    law_accepted_by_rules(context, own, statement.proof_words(), holds)
}

/// A statement of a database is listed just if it is a `$p` statement whose label has a frame
/// and whose proof has that fault; and what is listed stands at the address of a statement.
pub proof fn law_listed(
    database: Database,
    list: Seq<(StatementAddress, Fault)>,
    i: int,
    k: int,
    fault: Fault,
)
    requires
        database_fits(database),
        lists_faults(list, reports_of(database)),
        0 <= i < database.segments.segments@.len(),
        0 <= k < database.segments.segments@[i].segment.statements@.len(),
    ensures
        ({
            let segment = database.segments.segments@[i];
            let statement = segment.segment.statements@[k];
            let context = Context {
                frames: database.scopes.frames(),
                names: database.names,
                positions: database.segments.order.positions@,
                id: segment.id,
                segment: *segment.segment,
            };
            let address = StatementAddress { segment_id: segment.id, index: k as i32 };
            list.contains((address, fault)) <==> statement.stype == StatementType::Provable
                && database.scopes.frames().contains_key(statement.label@) && proof_fault(
                context,
                database.scopes.frames()[statement.label@],
                statement.proof_words(),
            ) == Some(fault)
        }),
{
    law_database_diagnostics(database, list, i, k, fault);
}

} // verus!
