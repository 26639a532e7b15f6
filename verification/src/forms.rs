//! The form that frames have to have, in terms of their parts.

use crate::model::{context_fits, context_of, database_fits, frame_fits, statement_fits, Database};
use crate::parser::StatementType;
use crate::scopeck::{Frame, Hyp, VerifyExpr};
use vstd::prelude::*;

verus! {

/// The constants of an expression lie in the constant pool of its frame.
pub open spec fn has_constants(frame: Frame, expr: VerifyExpr) -> bool {
    &&& expr.rump.start <= expr.rump.end <= frame.const_pool@.len()
    &&& forall|i: int|
        0 <= i < expr.tail@.len() ==> (#[trigger] expr.tail@[i]).prefix.start
            <= expr.tail@[i].prefix.end <= frame.const_pool@.len()
}

/// One of the first `n` hypotheses is the `$f` hypothesis of a variable.
pub open spec fn has_type(frame: Frame, n: int, var: usize) -> bool {
    exists|j: int| 0 <= j < n && (#[trigger] frame.hypotheses@[j]).variable_index == Some(var)
}

/// All variables of an expression have their `$f` hypothesis among the first `n`.
pub open spec fn has_types(frame: Frame, n: int, expr: VerifyExpr) -> bool {
    forall|i: int|
        0 <= i < expr.tail@.len() ==> has_type(frame, n, (#[trigger] expr.tail@[i]).var)
}

/// A hypothesis of an assertion has the form it needs.
pub open spec fn is_premise(frame: Frame, i: int, hyp: Hyp) -> bool {
    match hyp.variable_index {
        Some(var) => var < frame.mandatory_count,
        None => has_constants(frame, hyp.expr) && has_types(frame, i, hyp.expr),
    }
}

/// An assertion has the form it needs: what it speaks of lies in its pool, and its variables
/// have `$f` hypotheses that come first.
pub open spec fn is_assertion_form(frame: Frame) -> bool {
    &&& forall|i: int|
        0 <= i < frame.hypotheses@.len() ==> is_premise(frame, i, #[trigger] frame.hypotheses@[i])
    &&& has_constants(frame, frame.target)
    &&& has_types(frame, frame.hypotheses@.len() as int, frame.target)
    &&& forall|i: int|
        0 <= i < frame.mandatory_dv@.len() ==> has_type(
            frame,
            frame.hypotheses@.len() as int,
            (#[trigger] frame.mandatory_dv@[i]).0,
        ) && has_type(frame, frame.hypotheses@.len() as int, frame.mandatory_dv@[i].1)
}

/// The variables of an expression are listed in its frame.
pub open spec fn has_listed(frame: Frame, expr: VerifyExpr) -> bool {
    forall|i: int|
        0 <= i < expr.tail@.len() ==> (#[trigger] expr.tail@[i]).var < frame.var_list@.len()
}

/// The frame of a statement with a proof has the form it needs: what it speaks of lies in its
/// pool, its variables are listed, and they have names.
pub open spec fn is_theorem_form(frame: Frame, names: Seq<Seq<u8>>) -> bool {
    &&& forall|i: int|
        0 <= i < frame.hypotheses@.len() ==> match (
        #[trigger] frame.hypotheses@[i]).variable_index {
            Some(var) => var < frame.var_list@.len(),
            None => has_constants(frame, frame.hypotheses@[i].expr) && has_listed(
                frame,
                frame.hypotheses@[i].expr,
            ),
        }
    &&& has_constants(frame, frame.target)
    &&& has_listed(frame, frame.target)
    &&& forall|i: int|
        0 <= i < frame.var_list@.len() ==> (#[trigger] frame.var_list@[i]) < names.len()
            && names[frame.var_list@[i] as int].len() > 0
}

/// No variable has two `$f` hypotheses.
pub open spec fn has_single_types(frame: Frame) -> bool {
    forall|i: int, j: int|
        0 <= i < j < frame.hypotheses@.len() && (#[trigger] frame.hypotheses@[i]).variable_index
            is Some ==> frame.hypotheses@[i].variable_index != (
        #[trigger] frame.hypotheses@[j]).variable_index
}

/// No variable is listed twice, and only listed variables are declared distinct.
pub open spec fn has_single_variables(frame: Frame) -> bool {
    &&& forall|i: int, j: int|
        0 <= i < j < frame.var_list@.len() ==> #[trigger] frame.var_list@[i]
            != #[trigger] frame.var_list@[j]
    &&& frame.optional_dv@.len() <= frame.var_list@.len()
    &&& forall|i: int, right: usize|
        0 <= i < frame.optional_dv@.len() && #[trigger] frame.optional_dv@[i]@.contains(right)
            ==> right < frame.var_list@.len()
}

/// An assertion has the form it needs just if it can be used as a step.
pub proof fn lemma_assertion_form(frame: Frame)
    ensures
        frame.can_apply() == is_assertion_form(frame),
{
    let count = frame.hypotheses@.len() as int;
    assert forall|n: int, var: usize| #[trigger]
        frame.binds(n, var) == has_type(frame, n, var) by {
        if frame.binds(n, var) {
            let j = choose|j: int|
                0 <= j < n && (#[trigger] frame.hypotheses@[j]).variable_index == Some(var);
            assert(frame.hypotheses@[j].variable_index == Some(var));
        }
        if has_type(frame, n, var) {
            let j = choose|j: int|
                0 <= j < n && (#[trigger] frame.hypotheses@[j]).variable_index == Some(var);
            assert(frame.hypotheses@[j].variable_index == Some(var));
        }
    }
    assert forall|n: int, expr: VerifyExpr| #[trigger]
        frame.binds_all(n, expr) == has_types(frame, n, expr) by {
        if frame.binds_all(n, expr) {
            assert forall|i: int| 0 <= i < expr.tail@.len() implies has_type(
                frame,
                n,
                (#[trigger] expr.tail@[i]).var,
            ) by {
                assert(frame.binds(n, expr.tail@[i].var));
            }
        }
        if has_types(frame, n, expr) {
            assert forall|i: int| 0 <= i < expr.tail@.len() implies frame.binds(
                n,
                (#[trigger] expr.tail@[i]).var,
            ) by {
                assert(has_type(frame, n, expr.tail@[i].var));
            }
        }
    }
    assert forall|expr: VerifyExpr| #[trigger]
        frame.holds_constants(expr) == has_constants(frame, expr) by {
        if frame.holds_constants(expr) {
            assert forall|i: int| 0 <= i < expr.tail@.len() implies (
            #[trigger] expr.tail@[i]).prefix.start <= expr.tail@[i].prefix.end
                <= frame.const_pool@.len() by {
                assert(frame.in_pool(expr.tail@[i].prefix));
            }
        }
        if has_constants(frame, expr) {
            assert forall|i: int| 0 <= i < expr.tail@.len() implies frame.in_pool(
                (#[trigger] expr.tail@[i]).prefix,
            ) by {}
        }
    }
    assert forall|i: int, hyp: Hyp| #[trigger]
        frame.hypothesis_can_apply(i, hyp) == is_premise(frame, i, hyp) by {
        assert(frame.holds_constants(hyp.expr) == has_constants(frame, hyp.expr));
        assert(frame.binds_all(i, hyp.expr) == has_types(frame, i, hyp.expr));
    }
    assert(frame.holds_constants(frame.target) == has_constants(frame, frame.target));
    assert(frame.binds_all(count, frame.target) == has_types(frame, count, frame.target));
    if frame.can_apply() {
        assert forall|i: int| 0 <= i < frame.hypotheses@.len() implies is_premise(
            frame,
            i,
            #[trigger] frame.hypotheses@[i],
        ) by {
            assert(frame.hypothesis_can_apply(i, frame.hypotheses@[i]));
        }
        assert forall|i: int| 0 <= i < frame.mandatory_dv@.len() implies has_type(
            frame,
            count,
            (#[trigger] frame.mandatory_dv@[i]).0,
        ) && has_type(frame, count, frame.mandatory_dv@[i].1) by {
            assert(frame.binds(count, frame.mandatory_dv@[i].0));
            assert(frame.binds(count, frame.mandatory_dv@[i].1));
        }
    }
    if is_assertion_form(frame) {
        assert forall|i: int| 0 <= i < frame.hypotheses@.len() implies frame.hypothesis_can_apply(
            i,
            #[trigger] frame.hypotheses@[i],
        ) by {
            assert(is_premise(frame, i, frame.hypotheses@[i]));
        }
        assert forall|i: int| 0 <= i < frame.mandatory_dv@.len() implies frame.binds(
            count,
            (#[trigger] frame.mandatory_dv@[i]).0,
        ) && frame.binds(count, frame.mandatory_dv@[i].1) by {
            assert(has_type(frame, count, frame.mandatory_dv@[i].0));
            assert(has_type(frame, count, frame.mandatory_dv@[i].1));
        }
    }
}

/// The frame of a statement has the form it needs just if it can be proved.
pub proof fn lemma_theorem_form(frame: Frame, names: Seq<Seq<u8>>)
    ensures
        frame.can_prove(names) == is_theorem_form(frame, names),
{
    assert forall|expr: VerifyExpr| #[trigger]
        frame.holds_constants(expr) == has_constants(frame, expr) by {
        if frame.holds_constants(expr) {
            assert forall|i: int| 0 <= i < expr.tail@.len() implies (
            #[trigger] expr.tail@[i]).prefix.start <= expr.tail@[i].prefix.end
                <= frame.const_pool@.len() by {
                assert(frame.in_pool(expr.tail@[i].prefix));
            }
        }
        if has_constants(frame, expr) {
            assert forall|i: int| 0 <= i < expr.tail@.len() implies frame.in_pool(
                (#[trigger] expr.tail@[i]).prefix,
            ) by {}
        }
    }
    assert(frame.holds_constants(frame.target) == has_constants(frame, frame.target));
    if frame.can_prove(names) {
        assert forall|i: int| 0 <= i < frame.hypotheses@.len() implies match (
        #[trigger] frame.hypotheses@[i]).variable_index {
            Some(var) => var < frame.var_list@.len(),
            None => has_constants(frame, frame.hypotheses@[i].expr) && has_listed(
                frame,
                frame.hypotheses@[i].expr,
            ),
        } by {
            assert(frame.hypothesis_can_prove(frame.hypotheses@[i]));
            assert(frame.holds_constants(frame.hypotheses@[i].expr) == has_constants(
                frame,
                frame.hypotheses@[i].expr,
            ));
        }
    }
    if is_theorem_form(frame, names) {
        assert forall|i: int| 0 <= i < frame.hypotheses@.len() implies frame.hypothesis_can_prove(
            #[trigger] frame.hypotheses@[i],
        ) by {
            assert(frame.holds_constants(frame.hypotheses@[i].expr) == has_constants(
                frame,
                frame.hypotheses@[i].expr,
            ));
        }
    }
}

/// What is fit to be checked: any database whose segments have ids of their own and no more
/// statements than can be numbered, whose frames stand in segments that have a position,
/// whose assertions have the form they need, and likewise the frames of its statements with
/// proofs.  Nothing else is asked for.
pub proof fn law_fit(database: Database)
    requires
        forall|i: int, j: int|
            0 <= i < j < database.segments.segments@.len() ==> (
            #[trigger] database.segments.segments@[i]).id != (
            #[trigger] database.segments.segments@[j]).id,
        forall|i: int|
            0 <= i < database.segments.segments@.len() ==> (
            #[trigger] database.segments.segments@[i]).segment.statements@.len() <= i32::MAX,
        forall|label: Seq<u8>| #[trigger]
            database.scopes.frames().contains_key(label) ==> {
                let frame = database.scopes.frames()[label];
                &&& frame.valid.start.segment_id < database.segments.order.positions@.len()
                &&& frame.stype == StatementType::Axiom || frame.stype == StatementType::Provable
                    ==> is_assertion_form(frame)
            },
        forall|i: int, k: int|
            #![trigger database.segments.segments@[i].segment.statements@[k]]
            0 <= i < database.segments.segments@.len() && 0 <= k
                < database.segments.segments@[i].segment.statements@.len() ==> {
                let statement = database.segments.segments@[i].segment.statements@[k];
                statement.stype == StatementType::Provable
                    && database.scopes.frames().contains_key(statement.label@)
                    ==> is_theorem_form(
                    database.scopes.frames()[statement.label@],
                    database.names,
                )
            },
    ensures
        database_fits(database),
{
    let segments = database.segments.segments@;
    let frames = database.scopes.frames();
    assert forall|label: Seq<u8>| #[trigger] frames.contains_key(label) implies frame_fits(
        database.segments.order.positions@.len(),
        frames[label],
    ) by {
        lemma_assertion_form(frames[label]);
    }
    assert forall|i: int| 0 <= i < segments.len() implies context_fits(
        context_of(database, #[trigger] segments[i]),
    ) by {
        let context = context_of(database, segments[i]);
        assert forall|k: int| 0 <= k < context.segment.statements@.len() implies statement_fits(
            context,
            #[trigger] context.segment.statements@[k],
        ) by {
            let statement = segments[i].segment.statements@[k];
            assert(statement == context.segment.statements@[k]);
            lemma_theorem_form(frames[statement.label@], database.names);
        }
    }
}

/// What is fit to be checked is all of that: ids of their own for the segments, statements
/// that can be numbered, frames in segments that have a position, and the forms that
/// assertions and statements with proofs need.
pub proof fn law_fit_needs(database: Database, i: int, j: int, k: int, label: Seq<u8>)
    requires
        database_fits(database),
        0 <= i < database.segments.segments@.len(),
    ensures
        ({
            let segments = database.segments.segments@;
            let frames = database.scopes.frames();
            let statement = segments[i].segment.statements@[k];
            &&& 0 <= j < segments.len() && j != i ==> segments[j].id != segments[i].id
            &&& segments[i].segment.statements@.len() <= i32::MAX
            &&& frames.contains_key(label) ==> frames[label].valid.start.segment_id
                < database.segments.order.positions@.len()
            &&& frames.contains_key(label) && (frames[label].stype == StatementType::Axiom
                || frames[label].stype == StatementType::Provable) ==> is_assertion_form(
                frames[label],
            )
            &&& 0 <= k < segments[i].segment.statements@.len() && statement.stype
                == StatementType::Provable && frames.contains_key(statement.label@)
                ==> is_theorem_form(frames[statement.label@], database.names)
        }),
{
    let segments = database.segments.segments@;
    let frames = database.scopes.frames();
    let context = context_of(database, segments[i]);
    let statement = segments[i].segment.statements@[k];
    assert(context_fits(context));
    if 0 <= j < segments.len() && j != i {
        if i < j {
            assert(segments[i].id != segments[j].id);
        } else {
            assert(segments[j].id != segments[i].id);
        }
    }
    if frames.contains_key(label) {
        assert(frame_fits(database.segments.order.positions@.len(), frames[label]));
        lemma_assertion_form(frames[label]);
    }
    if 0 <= k < segments[i].segment.statements@.len() {
        assert(statement == context.segment.statements@[k]);
        assert(statement_fits(context, statement));
        lemma_theorem_form(frames[statement.label@], database.names);
    }
}

} // verus!
