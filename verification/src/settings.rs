//! Which databases are such that an accepted proof is sure to be one, in terms of the parts of
//! their frames.

use crate::forms::{
    has_single_types, has_single_variables, is_assertion_form, lemma_assertion_form,
    lemma_theorem_form,
};
use crate::meaning::{is_proper, is_rule, lemma_proper};
use crate::model::{
    context_fits, context_of, database_fits, declared_distinct, frame_fits, has_proof,
    statement_fits, Context, Database,
};
use crate::parser::StatementType;
use crate::scopeck::Frame;
use crate::soundness::{
    context_is_sound, database_is_sound, is_sound_setting, own_is_sound, types_are_unique,
};
use vstd::prelude::*;

verus! {

proof fn lemma_single_types(frame: Frame)
    ensures
        types_are_unique(frame) == has_single_types(frame),
{
    if types_are_unique(frame) {
        assert forall|i: int, j: int|
            0 <= i < j < frame.hypotheses@.len() && (
            #[trigger] frame.hypotheses@[i]).variable_index is Some implies
            frame.hypotheses@[i].variable_index != (
        #[trigger] frame.hypotheses@[j]).variable_index by {}
    }
    if has_single_types(frame) {
        assert forall|i: int, j: int|
            0 <= i < j < frame.hypotheses@.len() && (
            #[trigger] frame.hypotheses@[i]).variable_index == (
            #[trigger] frame.hypotheses@[j]).variable_index implies
            frame.hypotheses@[i].variable_index is None by {}
    }
}

proof fn lemma_single_variables(own: Frame)
    ensures
        own_is_sound(own) == has_single_variables(own),
{
    if own_is_sound(own) {
        assert(own.optional_dv@.len() == own.optional_dv.len());
        assert forall|i: int, right: usize|
            0 <= i < own.optional_dv@.len() && #[trigger] own.optional_dv@[i]@.contains(
                right,
            ) implies right < own.var_list@.len() by {
            assert(declared_distinct(own.optional_dv@, i as usize, right));
        }
    }
    if has_single_variables(own) {
        assert forall|left: usize, right: usize| #[trigger]
            declared_distinct(own.optional_dv@, left, right) implies right
            < own.var_list@.len() by {
            assert(own.optional_dv@[left as int]@.contains(right));
        }
        assert(own.var_list@.no_duplicates()) by {
            assert forall|i: int, j: int|
                0 <= i < own.var_list@.len() && 0 <= j < own.var_list@.len() && i
                    != j implies own.var_list@[i] != own.var_list@[j] by {
                if i < j {
                    assert(own.var_list@[i] != own.var_list@[j]);
                } else {
                    assert(own.var_list@[j] != own.var_list@[i]);
                }
            }
        }
    }
}

/// A setting is sound just if its frames have the form that the rules speak of.
pub proof fn law_sound_setting(context: Context, own: Frame)
    ensures
        is_sound_setting(context, own) <==> is_proper(context, own),
{
    if is_proper(context, own) {
        lemma_proper(context, own);
    }
    if is_sound_setting(context, own) {
        assert forall|label: Seq<u8>| #[trigger] context.frames.contains_key(label) implies {
            let frame = context.frames[label];
            &&& frame.valid.start.segment_id < context.positions.len()
            &&& is_rule(frame) ==> is_assertion_form(frame) && has_single_types(frame)
        } by {
            assert(frame_fits(context.positions.len(), context.frames[label]));
            lemma_assertion_form(context.frames[label]);
            lemma_single_types(context.frames[label]);
        }
        lemma_theorem_form(own, context.names);
        lemma_single_variables(own);
    }
}

/// A database that is fit to be checked is sound just if, unless it has no segments, no
/// assertion has two `$f` hypotheses for one variable, and no statement with a proof lists a
/// variable twice or declares a variable distinct that it does not list.
pub proof fn law_sound_database(database: Database)
    requires
        database_fits(database),
    ensures
        database_is_sound(database) <==> {
            &&& database.segments.segments@.len() > 0 ==> forall|label: Seq<u8>|
                #[trigger]
                database.scopes.frames().contains_key(label) && is_rule(
                    database.scopes.frames()[label],
                ) ==> has_single_types(database.scopes.frames()[label])
            &&& forall|i: int, k: int|
                #![trigger database.segments.segments@[i].segment.statements@[k]]
                0 <= i < database.segments.segments@.len() && 0 <= k
                    < database.segments.segments@[i].segment.statements@.len() ==> {
                    let statement = database.segments.segments@[i].segment.statements@[k];
                    statement.stype == StatementType::Provable
                        && database.scopes.frames().contains_key(statement.label@)
                        ==> has_single_variables(database.scopes.frames()[statement.label@])
                }
        },
{
    let segments = database.segments.segments@;
    let frames = database.scopes.frames();
    assert forall|label: Seq<u8>| #[trigger] frames.contains_key(label) implies types_are_unique(
        frames[label],
    ) == has_single_types(frames[label]) && own_is_sound(frames[label]) == has_single_variables(
        frames[label],
    ) by {
        lemma_single_types(frames[label]);
        lemma_single_variables(frames[label]);
    }
    if database_is_sound(database) {
        if segments.len() > 0 {
            assert(context_is_sound(context_of(database, segments[0])));
        }
        assert forall|i: int, k: int|
            #![trigger segments[i].segment.statements@[k]]
            0 <= i < segments.len() && 0 <= k < segments[i].segment.statements@.len() implies {
            let statement = segments[i].segment.statements@[k];
            statement.stype == StatementType::Provable && frames.contains_key(statement.label@)
                ==> has_single_variables(frames[statement.label@])
        } by {
            let context = context_of(database, segments[i]);
            assert(context_is_sound(context));
            assert(context.segment.statements@[k] == segments[i].segment.statements@[k]);
        }
    } else {
        let i = choose|i: int|
            0 <= i < segments.len() && !context_is_sound(
                context_of(database, #[trigger] segments[i]),
            );
        let context = context_of(database, segments[i]);
        assert(context_fits(context));
        if forall|k: int|
            0 <= k < context.segment.statements@.len() && has_proof(
                context,
                #[trigger] context.segment.statements@[k],
            ) ==> own_is_sound(context.frames[context.segment.statements@[k].label@]) {
        } else {
            let k = choose|k: int|
                0 <= k < context.segment.statements@.len() && has_proof(
                    context,
                    #[trigger] context.segment.statements@[k],
                ) && !own_is_sound(context.frames[context.segment.statements@[k].label@]);
            let statement = segments[i].segment.statements@[k];
            assert(statement == context.segment.statements@[k]);
            assert(!has_single_variables(frames[statement.label@]));
        }
    }
}

/// In a sound database all proofs have frames of the form that the rules speak of.
pub proof fn law_sound_proofs(database: Database, i: int, k: int)
    requires
        database_is_sound(database),
        0 <= i < database.segments.segments@.len(),
        0 <= k < database.segments.segments@[i].segment.statements@.len(),
        database.segments.segments@[i].segment.statements@[k].stype == StatementType::Provable,
        database.scopes.frames().contains_key(
            database.segments.segments@[i].segment.statements@[k].label@,
        ),
    ensures
        ({
            let segment = database.segments.segments@[i];
            let own = database.scopes.frames()[segment.segment.statements@[k].label@];
            is_proper(
                (Context {
                    frames: database.scopes.frames(),
                    names: database.names,
                    positions: database.segments.order.positions@,
                    id: segment.id,
                    segment: *segment.segment,
                }),
                own,
            )
        }),
{
    let segment = database.segments.segments@[i];
    let statement = segment.segment.statements@[k];
    let own = database.scopes.frames()[statement.label@];
    let context = context_of(database, segment);
    assert(context_is_sound(context));
    assert(context.segment.statements@[k] == statement);
    assert(statement_fits(context, context.segment.statements@[k]));
    assert(frame_fits(context.positions.len(), own));
    law_sound_setting(context, own);
}

} // verus!
