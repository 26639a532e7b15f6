//! Tests whether a database is fit to be checked, and whether the verdicts on it are sure to be
//! right.

use crate::model::{
    context_fits, context_of, database_fits, declared_distinct, frame_fits, frames_fit, has_proof,
    statement_fits, Context, Database,
};
use crate::nameck::{Atom, Nameset};
use crate::parser::{Segment, SegmentId, Statement, StatementType};
use crate::scopeck::{Frame, Hyp, ScopeResult, VerifyExpr};
use crate::segment_set::{SegmentRef, SegmentSet};
use crate::soundness::{
    context_is_sound, database_is_sound, frames_are_sound, is_sound_setting, own_is_sound,
    types_are_unique,
};
use std::collections::HashSet;
use std::ops::Range;
use vstd::prelude::*;

verus! {

/// Whether a place lies in the constant pool.
fn in_pool(frame: &Frame, place: &Range<usize>) -> (fits: bool)
    ensures
        fits == frame.in_pool(*place),
{
    place.start <= place.end && place.end <= frame.const_pool.len()
}

/// Whether all constants of an expression lie in the constant pool.
fn holds_constants(frame: &Frame, expr: &VerifyExpr) -> (fits: bool)
    ensures
        fits == frame.holds_constants(*expr),
{
    if !in_pool(frame, &expr.rump) {
        return false;
    }
    let mut i: usize = 0;
    while i < expr.tail.len()
        invariant
            i <= expr.tail@.len(),
            forall|k: int| 0 <= k < i ==> frame.in_pool((#[trigger] expr.tail@[k]).prefix),
        decreases expr.tail@.len() - i,
    {
        if !in_pool(frame, &expr.tail[i].prefix) {
            assert(!frame.in_pool(expr.tail@[i as int].prefix));
            return false;
        }
        i += 1;
    }
    true
}

/// Whether one of the first `n` hypotheses binds a variable.
fn binds(frame: &Frame, n: usize, var: usize) -> (bound: bool)
    requires
        n <= frame.hypotheses@.len(),
    ensures
        bound == frame.binds(n as int, var),
{
    let mut i: usize = 0;
    while i < n
        invariant
            i <= n <= frame.hypotheses@.len(),
            forall|k: int|
                0 <= k < i ==> (#[trigger] frame.hypotheses@[k]).variable_index != Some(var),
        decreases n - i,
    {
        if let Some(other) = frame.hypotheses[i].variable_index {
            if other == var {
                assert(frame.hypotheses@[i as int].variable_index == Some(var));
                return true;
            }
        }
        i += 1;
    }
    false
}

/// Whether the first `n` hypotheses bind all variables of an expression.
fn binds_all(frame: &Frame, n: usize, expr: &VerifyExpr) -> (bound: bool)
    requires
        n <= frame.hypotheses@.len(),
    ensures
        bound == frame.binds_all(n as int, *expr),
{
    let mut i: usize = 0;
    while i < expr.tail.len()
        invariant
            i <= expr.tail@.len(),
            n <= frame.hypotheses@.len(),
            forall|k: int| 0 <= k < i ==> frame.binds(n as int, (#[trigger] expr.tail@[k]).var),
        decreases expr.tail@.len() - i,
    {
        if !binds(frame, n, expr.tail[i].var) {
            assert(!frame.binds(n as int, expr.tail@[i as int].var));
            return false;
        }
        i += 1;
    }
    true
}

/// Whether the frame of an assertion can be used as a step.
fn can_apply(frame: &Frame) -> (fits: bool)
    ensures
        fits == frame.can_apply(),
{
    let count: usize = frame.hypotheses.len();
    let mut i: usize = 0;
    while i < count
        invariant
            i <= count == frame.hypotheses@.len(),
            forall|k: int|
                0 <= k < i ==> frame.hypothesis_can_apply(k, #[trigger] frame.hypotheses@[k]),
        decreases count - i,
    {
        let hyp: &Hyp = &frame.hypotheses[i];
        let fits: bool = match hyp.variable_index {
            Some(var) => var < frame.mandatory_count,
            None => holds_constants(frame, &hyp.expr) && binds_all(frame, i, &hyp.expr),
        };
        if !fits {
            assert(!frame.hypothesis_can_apply(i as int, frame.hypotheses@[i as int]));
            return false;
        }
        i += 1;
    }
    if !holds_constants(frame, &frame.target) || !binds_all(frame, count, &frame.target) {
        return false;
    }
    let mut j: usize = 0;
    while j < frame.mandatory_dv.len()
        invariant
            j <= frame.mandatory_dv@.len(),
            count == frame.hypotheses@.len(),
            forall|k: int|
                0 <= k < j ==> frame.binds(count as int, (#[trigger] frame.mandatory_dv@[k]).0)
                    && frame.binds(count as int, frame.mandatory_dv@[k].1),
        decreases frame.mandatory_dv@.len() - j,
    {
        let pair: &(usize, usize) = &frame.mandatory_dv[j];
        if !binds(frame, count, pair.0) || !binds(frame, count, pair.1) {
            assert(!(frame.binds(count as int, frame.mandatory_dv@[j as int].0) && frame.binds(
                count as int,
                frame.mandatory_dv@[j as int].1,
            )));
            return false;
        }
        j += 1;
    }
    true
}

/// Whether all variables of an expression are listed.
fn lists_all(frame: &Frame, expr: &VerifyExpr) -> (listed: bool)
    ensures
        listed == frame.lists_all(*expr),
{
    let mut i: usize = 0;
    while i < expr.tail.len()
        invariant
            i <= expr.tail@.len(),
            forall|k: int| 0 <= k < i ==> (#[trigger] expr.tail@[k]).var < frame.var_list@.len(),
        decreases expr.tail@.len() - i,
    {
        if expr.tail[i].var >= frame.var_list.len() {
            assert(!(expr.tail@[i as int].var < frame.var_list@.len()));
            return false;
        }
        i += 1;
    }
    true
}

/// Whether a frame is fit for a proof of its own statement.
fn can_prove(frame: &Frame, nset: &Nameset) -> (fits: bool)
    ensures
        fits == frame.can_prove(nset@),
{
    let mut i: usize = 0;
    while i < frame.hypotheses.len()
        invariant
            i <= frame.hypotheses@.len(),
            forall|k: int|
                0 <= k < i ==> frame.hypothesis_can_prove(#[trigger] frame.hypotheses@[k]),
        decreases frame.hypotheses@.len() - i,
    {
        let hyp: &Hyp = &frame.hypotheses[i];
        let fits: bool = match hyp.variable_index {
            Some(var) => var < frame.var_list.len(),
            None => holds_constants(frame, &hyp.expr) && lists_all(frame, &hyp.expr),
        };
        if !fits {
            assert(!frame.hypothesis_can_prove(frame.hypotheses@[i as int]));
            return false;
        }
        i += 1;
    }
    if !holds_constants(frame, &frame.target) || !lists_all(frame, &frame.target) {
        return false;
    }
    let mut j: usize = 0;
    while j < frame.var_list.len()
        invariant
            j <= frame.var_list@.len(),
            forall|k: int|
                0 <= k < j ==> (#[trigger] frame.var_list@[k]) < nset@.len()
                    && nset@[frame.var_list@[k] as int].len() > 0,
        decreases frame.var_list@.len() - j,
    {
        let atom: usize = frame.var_list[j] as usize;
        if atom >= nset.names.len() || nset.names[atom].len() == 0 {
            assert(!(frame.var_list@[j as int] < nset@.len()
                && nset@[frame.var_list@[j as int] as int].len() > 0));
            return false;
        }
        j += 1;
    }
    true
}

/// Whether a frame is fit to be looked up.
fn is_frame_fit(frame: &Frame, positions: usize) -> (fits: bool)
    ensures
        fits == frame_fits(positions as nat, *frame),
{
    let known: bool = (frame.valid.start.segment_id as usize) < positions;
    let assertion: bool = frame.stype == StatementType::Axiom || frame.stype
        == StatementType::Provable;
    known && (!assertion || can_apply(frame))
}

/// Whether all frames are fit to be looked up.
fn are_frames_fit(scope: &ScopeResult, positions: usize) -> (fits: bool)
    ensures
        fits == frames_fit(positions as nat, scope.frames()),
{
    let mut i: usize = 0;
    while i < scope.len()
        invariant
            i <= scope.labels().len(),
            forall|k: int|
                0 <= k < i ==> frame_fits(
                    positions as nat,
                    scope.frames()[#[trigger] scope.labels()[k]],
                ),
        decreases scope.labels().len() - i,
    {
        proof {
            scope.lemma_labels();
        }
        if !is_frame_fit(scope.frame_at(i), positions) {
            assert(scope.frames().contains_key(scope.labels()[i as int]));
            return false;
        }
        i += 1;
    }
    proof {
        scope.lemma_labels();
        assert forall|label: Seq<u8>| #[trigger]
            scope.frames().contains_key(label) implies frame_fits(
            positions as nat,
            scope.frames()[label],
        ) by {
            let k = choose|k: int| 0 <= k < scope.labels().len() && scope.labels()[k] == label;
            assert(frame_fits(positions as nat, scope.frames()[scope.labels()[k]]));
        }
    }
    true
}

/// Whether all proofs of a segment can be checked against their frames.
fn are_statements_fit(
    segment: &Segment,
    nset: &Nameset,
    scope: &ScopeResult,
    Ghost(context): Ghost<Context>,
) -> (fits: bool)
    requires
        context.frames == scope.frames(),
        context.names == nset@,
    ensures
        fits == forall|i: int|
            0 <= i < segment.statements@.len() ==> statement_fits(
                context,
                #[trigger] segment.statements@[i],
            ),
{
    let mut i: usize = 0;
    while i < segment.statements.len()
        invariant
            context.frames == scope.frames(),
            context.names == nset@,
            i <= segment.statements@.len(),
            forall|k: int|
                0 <= k < i ==> statement_fits(context, #[trigger] segment.statements@[k]),
        decreases segment.statements@.len() - i,
    {
        let statement: &Statement = &segment.statements[i];
        if statement.stype == StatementType::Provable {
            if let Some(frame) = scope.frame(statement.label.as_slice()) {
                if !can_prove(frame, nset) {
                    assert(!statement_fits(context, segment.statements@[i as int]));
                    return false;
                }
            }
        }
        i += 1;
    }
    true
}

/// Whether no two segments have the same id.
fn are_ids_distinct(segments: &SegmentSet) -> (distinct: bool)
    ensures
        distinct == segments.ids_distinct(),
{
    broadcast use vstd::std_specs::hash::group_hash_axioms;

    let mut seen: HashSet<SegmentId> = HashSet::new();
    let mut i: usize = 0;
    while i < segments.segments.len()
        invariant
            i <= segments.segments@.len(),
            forall|a: int, b: int|
                0 <= a < b < i ==> segments.segments@[a].id != segments.segments@[b].id,
            forall|a: int| 0 <= a < i ==> seen@.contains((#[trigger] segments.segments@[a]).id),
            forall|id: SegmentId| #[trigger]
                seen@.contains(id) ==> exists|a: int|
                    0 <= a < i && (#[trigger] segments.segments@[a]).id == id,
        decreases segments.segments@.len() - i,
    {
        let ghost before = seen@;
        let id: SegmentId = segments.segments[i].id;
        let is_new: bool = seen.insert(id);
        if !is_new {
            assert(before.contains(segments.segments@[i as int].id));
            return false;
        }
        proof {
            assert(segments.segments@[i as int].id == id);
            assert forall|other: SegmentId| #[trigger] seen@.contains(other) implies exists|a: int|
                0 <= a < i + 1 && (#[trigger] segments.segments@[a]).id == other by {
                if before.contains(other) {
                    let a = choose|a: int|
                        0 <= a < i && (#[trigger] segments.segments@[a]).id == other;
                    assert(segments.segments@[a].id == other);
                }
            }
        }
        i += 1;
    }
    true
}

/// Whether a database is fit to be checked: segments have ids of their own, frames are
/// what their kind of statement needs, and symbols have names.
pub fn is_database_fit(segments: &SegmentSet, nset: &Nameset, scope: &ScopeResult) -> (fits: bool)
    ensures
        fits == database_fits(Database::of(segments, nset, scope)),
{
    let ghost database = Database::of(segments, nset, scope);
    if !are_ids_distinct(segments) {
        return false;
    }
    if segments.segments.len() == 0 {
        return true;
    }
    if !are_frames_fit(scope, segments.order.positions.len()) {
        assert(!context_fits(context_of(database, segments.segments@[0])));
        return false;
    }
    let mut i: usize = 0;
    while i < segments.segments.len()
        invariant
            i <= segments.segments@.len(),
            database == Database::of(segments, nset, scope),
            frames_fit(segments.order.positions@.len(), scope.frames()),
            forall|k: int|
                0 <= k < i ==> context_fits(
                    context_of(database, #[trigger] segments.segments@[k]),
                ),
        decreases segments.segments@.len() - i,
    {
        let sref: &SegmentRef = &segments.segments[i];
        let ghost context = context_of(database, *sref);
        let few: bool = sref.segment.statements.len() <= i32::MAX as usize;
        let fits: bool = few && are_statements_fit(&*sref.segment, nset, scope, Ghost(context));
        if !fits {
            assert(!context_fits(context_of(database, segments.segments@[i as int])));
            return false;
        }
        i += 1;
    }
    true
}

/// Whether no variable has two `$f` hypotheses.
fn are_types_unique(frame: &Frame) -> (unique: bool)
    ensures
        unique == types_are_unique(*frame),
{
    broadcast use vstd::std_specs::hash::group_hash_axioms;

    let mut seen: HashSet<usize> = HashSet::new();
    let mut i: usize = 0;
    while i < frame.hypotheses.len()
        invariant
            i <= frame.hypotheses@.len(),
            forall|a: int, b: int|
                0 <= a < b < i && (#[trigger] frame.hypotheses@[a]).variable_index == (
                #[trigger] frame.hypotheses@[b]).variable_index
                    ==> frame.hypotheses@[a].variable_index is None,
            forall|var: usize| #[trigger] seen@.contains(var) == frame.binds(i as int, var),
        decreases frame.hypotheses@.len() - i,
    {
        let ghost before = seen@;
        let ghost place = i as int;
        if let Some(var) = frame.hypotheses[i].variable_index {
            let is_new: bool = seen.insert(var);
            if !is_new {
                proof {
                    assert(frame.binds(place, var));
                    let a = choose|a: int|
                        0 <= a < place && (#[trigger] frame.hypotheses@[a]).variable_index == Some(
                            var,
                        );
                    assert(frame.hypotheses@[a].variable_index
                        == frame.hypotheses@[place].variable_index);
                }
                return false;
            }
        }
        proof {
            assert forall|a: int| 0 <= a < place && (
            #[trigger] frame.hypotheses@[a]).variable_index
                == frame.hypotheses@[place].variable_index implies
                frame.hypotheses@[a].variable_index is None by {
                if let Some(var) = frame.hypotheses@[a].variable_index {
                    assert(frame.binds(place, var));
                    assert(before.contains(var));
                }
            }
            assert forall|var: usize| #[trigger] seen@.contains(var) == frame.binds(
                place + 1,
                var,
            ) by {
                if frame.binds(place, var) {
                    let a = choose|a: int|
                        0 <= a < place && (#[trigger] frame.hypotheses@[a]).variable_index == Some(
                            var,
                        );
                    assert(frame.hypotheses@[a].variable_index == Some(var));
                    assert(before.contains(var));
                }
                if frame.binds(place + 1, var) {
                    let a = choose|a: int|
                        0 <= a < place + 1 && (#[trigger] frame.hypotheses@[a]).variable_index
                            == Some(var);
                    if a < place {
                        assert(frame.binds(place, var));
                        assert(before.contains(var));
                    }
                }
                if before.contains(var) {
                    assert(frame.binds(place, var));
                }
                if frame.hypotheses@[place].variable_index == Some(var) {
                    assert(frame.binds(place + 1, var));
                }
            }
        }
        i += 1;
    }
    true
}

/// Whether no variable is listed twice.
fn are_variables_distinct(frame: &Frame) -> (distinct: bool)
    ensures
        distinct == frame.var_list@.no_duplicates(),
{
    broadcast use vstd::std_specs::hash::group_hash_axioms;

    let mut seen: HashSet<Atom> = HashSet::new();
    let mut i: usize = 0;
    while i < frame.var_list.len()
        invariant
            i <= frame.var_list@.len(),
            forall|a: int, b: int|
                0 <= a < b < i ==> #[trigger] frame.var_list@[a] != #[trigger] frame.var_list@[b],
            forall|a: int| 0 <= a < i ==> seen@.contains(#[trigger] frame.var_list@[a]),
            forall|atom: Atom| #[trigger]
                seen@.contains(atom) ==> exists|a: int|
                    0 <= a < i && #[trigger] frame.var_list@[a] == atom,
        decreases frame.var_list@.len() - i,
    {
        let ghost before = seen@;
        let atom: Atom = frame.var_list[i];
        let is_new: bool = seen.insert(atom);
        if !is_new {
            assert(before.contains(frame.var_list@[i as int]));
            return false;
        }
        proof {
            assert(frame.var_list@[i as int] == atom);
            assert forall|other: Atom| #[trigger] seen@.contains(other) implies exists|a: int|
                0 <= a < i + 1 && #[trigger] frame.var_list@[a] == other by {
                if before.contains(other) {
                    let a = choose|a: int| 0 <= a < i && #[trigger] frame.var_list@[a] == other;
                    assert(frame.var_list@[a] == other);
                }
            }
        }
        i += 1;
    }
    true
}

/// Whether the frame of a statement is such that its derivations make sense.
fn is_own_sound(own: &Frame) -> (sound: bool)
    ensures
        sound == own_is_sound(*own),
{
    if !are_variables_distinct(own) || own.optional_dv.len() > own.var_list.len() {
        return false;
    }
    let mut i: usize = 0;
    while i < own.optional_dv.len()
        invariant
            i <= own.optional_dv@.len(),
            forall|left: usize, right: usize|
                left < i && #[trigger] declared_distinct(own.optional_dv@, left, right) ==> right
                    < own.var_list@.len(),
        decreases own.optional_dv@.len() - i,
    {
        let members: Vec<usize> = own.optional_dv[i].members();
        let mut j: usize = 0;
        while j < members.len()
            invariant
                j <= members@.len(),
                i < own.optional_dv@.len(),
                members@.to_set() == own.optional_dv@[i as int]@,
                forall|k: int| 0 <= k < j ==> #[trigger] members@[k] < own.var_list@.len(),
            decreases members@.len() - j,
        {
            if members[j] >= own.var_list.len() {
                proof {
                    assert(members@.to_set().contains(members@[j as int]));
                    assert(declared_distinct(own.optional_dv@, i, members@[j as int]));
                }
                return false;
            }
            j += 1;
        }
        proof {
            assert forall|left: usize, right: usize|
                left < i + 1 && #[trigger] declared_distinct(
                    own.optional_dv@,
                    left,
                    right,
                ) implies right < own.var_list@.len() by {
                if left == i {
                    assert(members@.to_set().contains(right));
                    let k = choose|k: int| 0 <= k < members@.len() && members@[k] == right;
                    assert(members@[k] < own.var_list@.len());
                }
            }
        }
        i += 1;
    }
    true
}

/// Whether no assertion has two `$f` hypotheses for one variable.
fn are_frames_sound(scope: &ScopeResult) -> (sound: bool)
    ensures
        sound == frames_are_sound(scope.frames()),
{
    let mut i: usize = 0;
    while i < scope.len()
        invariant
            i <= scope.labels().len(),
            forall|k: int|
                0 <= k < i && scope.frames()[#[trigger] scope.labels()[k]].is_assertion()
                    ==> types_are_unique(scope.frames()[scope.labels()[k]]),
        decreases scope.labels().len() - i,
    {
        let frame: &Frame = scope.frame_at(i);
        let assertion: bool = frame.stype == StatementType::Axiom || frame.stype
            == StatementType::Provable;
        if assertion && !are_types_unique(frame) {
            proof {
                scope.lemma_labels();
                assert(scope.frames().contains_key(scope.labels()[i as int]));
            }
            return false;
        }
        i += 1;
    }
    proof {
        scope.lemma_labels();
        assert forall|label: Seq<u8>| #[trigger]
            scope.frames().contains_key(label)
                && scope.frames()[label].is_assertion() implies types_are_unique(
            scope.frames()[label],
        ) by {
            let k = choose|k: int| 0 <= k < scope.labels().len() && scope.labels()[k] == label;
            assert(scope.frames()[scope.labels()[k]].is_assertion());
        }
    }
    true
}

/// Whether a proof of `own` that is accepted is sure to be a derivation of it: frames are
/// what soundness asks for.
pub fn is_setting_sound(
    segments: &SegmentSet,
    nset: &Nameset,
    scope: &ScopeResult,
    sref: &SegmentRef,
    own: &Frame,
) -> (sound: bool)
    ensures
        sound == is_sound_setting(context_of(Database::of(segments, nset, scope), *sref), *own),
{
    let positions: usize = segments.order.positions.len();
    are_frames_fit(scope, positions) && are_frames_sound(scope) && can_prove(own, nset) && (
    own.valid.start.segment_id as usize) < positions && is_own_sound(own)
}

/// Whether the proofs of a database that are accepted are sure to be derivations: it is fit
/// to be checked, and frames are what soundness asks for.
pub fn is_database_sound(segments: &SegmentSet, nset: &Nameset, scope: &ScopeResult) -> (sound:
    bool)
    ensures
        sound == database_is_sound(Database::of(segments, nset, scope)),
{
    let ghost database = Database::of(segments, nset, scope);
    if !is_database_fit(segments, nset, scope) {
        return false;
    }
    if segments.segments.len() == 0 {
        return true;
    }
    if !are_frames_sound(scope) {
        assert(!context_is_sound(context_of(database, segments.segments@[0])));
        return false;
    }
    let mut i: usize = 0;
    while i < segments.segments.len()
        invariant
            i <= segments.segments@.len(),
            database == Database::of(segments, nset, scope),
            database_fits(database),
            frames_are_sound(scope.frames()),
            forall|k: int|
                0 <= k < i ==> context_is_sound(
                    context_of(database, #[trigger] segments.segments@[k]),
                ),
        decreases segments.segments@.len() - i,
    {
        let sref: &SegmentRef = &segments.segments[i];
        let segment: &Segment = &*sref.segment;
        let ghost context = context_of(database, *sref);
        assert(context_fits(context_of(database, segments.segments@[i as int])));
        let mut j: usize = 0;
        while j < segment.statements.len()
            invariant
                j <= segment.statements@.len(),
                i < segments.segments@.len(),
                *sref == segments.segments@[i as int],
                *segment == context.segment,
                context == context_of(database, *sref),
                database == Database::of(segments, nset, scope),
                context_fits(context),
                forall|k: int|
                    0 <= k < j && has_proof(context, #[trigger] segment.statements@[k])
                        ==> own_is_sound(context.frames[segment.statements@[k].label@]),
            decreases segment.statements@.len() - j,
        {
            let statement: &Statement = &segment.statements[j];
            assert(*statement == segment.statements@[j as int]);
            if statement.stype == StatementType::Provable {
                if let Some(own) = scope.frame(statement.label.as_slice()) {
                    if !is_own_sound(own) {
                        proof {
                            assert(has_proof(context, context.segment.statements@[j as int]));
                            assert(!context_is_sound(context));
                            assert(!context_is_sound(
                                context_of(database, database.segments.segments@[i as int]),
                            ));
                        }
                        return false;
                    }
                }
            }
            j += 1;
        }
        assert(context_is_sound(context));
        i += 1;
    }
    true
}

} // verus!
