//! What the outcome of a check has, and what a list of all diagnostics has.

use crate::diag::Fault;
use crate::model::{
    context_fits, context_of, database_fits, is_segment, proof_fault, report_of, reports_of,
    segment_faults, Context, Database, SegmentReport,
};
use crate::parser::{SegmentId, StatementAddress, StatementType};
use crate::reports::{address_of, law_diagnostics_exact, law_faults_exact, law_faults_in_order};
use crate::verify::{joined_faults, lists_faults, lists_in_order};
use vstd::prelude::*;

verus! {

/// There is an outcome for just the segments of the database, each under the id of its
/// segment, and it is that of a check of the segment as it is.
pub proof fn law_outcomes(database: Database, id: SegmentId)
    requires
        database_fits(database),
    ensures
        reports_of(database).contains_key(id) <==> exists|i: int|
            0 <= i < database.segments.segments@.len() && (
            #[trigger] database.segments.segments@[i]).id == id,
        forall|i: int|
            0 <= i < database.segments.segments@.len() && (
            #[trigger] database.segments.segments@[i]).id == id ==> reports_of(database)[id].source
                == *database.segments.segments@[i].segment,
{
    let segments = database.segments.segments@;
    if reports_of(database).contains_key(id) {
        let i = choose|i: int| is_segment(database, id, i);
        assert(segments[i].id == id);
    }
    assert forall|i: int| 0 <= i < segments.len() && (
    #[trigger] segments[i]).id == id implies reports_of(database).contains_key(id) && reports_of(
        database,
    )[id].source == *segments[i].segment by {
        assert(is_segment(database, id, i));
        let j = choose|j: int| is_segment(database, id, j);
        if i < j {
            assert(segments[i].id != segments[j].id);
        } else if j < i {
            assert(segments[j].id != segments[i].id);
        }
    }
}

/// The outcome for a segment has for each of its faults the address of a statement of the
/// segment: a `$p` statement whose label has a frame, and whose proof has that fault.
pub proof fn law_outcome_faults(database: Database, i: int, n: int)
    requires
        database_fits(database),
        0 <= i < database.segments.segments@.len(),
        0 <= n < report_of(database, database.segments.segments@[i]).faults.len(),
    ensures
        ({
            let segment = database.segments.segments@[i];
            let frames = database.scopes.frames();
            let (address, fault) = report_of(database, segment).faults[n];
            let statement = segment.segment.statements@[address.index as int];
            let context = Context {
                frames,
                names: database.names,
                positions: database.segments.order.positions@,
                id: segment.id,
                segment: *segment.segment,
            };
            &&& address.segment_id == segment.id
            &&& 0 <= address.index < segment.segment.statements@.len()
            &&& statement.stype == StatementType::Provable
            &&& frames.contains_key(statement.label@)
            &&& proof_fault(context, frames[statement.label@], statement.proof_words()) == Some(
                fault,
            )
        }),
{
    let segment = database.segments.segments@[i];
    let context = context_of(database, segment);
    let count = segment.segment.statements@.len();
    let all = segment_faults(context, count);
    assert(context_fits(context));
    law_faults_in_order(context, count);
    let (address, fault) = all[n];
    assert(address == address_of(context, address.index as int));
    assert(all.contains(all[n]));
    law_faults_exact(context, count, address.index as int, fault);
}

/// The faults of one segment are listed in the order of its statements, so that no entry is
/// listed twice.
proof fn lemma_joined_order(
    reports: Map<SegmentId, SegmentReport>,
    ids: Seq<SegmentId>,
    a: int,
    b: int,
)
    requires
        ids.no_duplicates(),
        forall|i: int, n: int|
            0 <= i < ids.len() && 0 <= n < reports[ids[i]].faults.len() ==> (
            #[trigger] reports[ids[i]].faults[n]).0.segment_id == ids[i],
        forall|i: int, n: int, m: int|
            0 <= i < ids.len() && 0 <= n < m < reports[ids[i]].faults.len() ==> (
            #[trigger] reports[ids[i]].faults[n]).0.index < (
            #[trigger] reports[ids[i]].faults[m]).0.index,
        0 <= a < b < joined_faults(reports, ids).len(),
    ensures
        ids.contains(joined_faults(reports, ids)[a].0.segment_id),
        ids.contains(joined_faults(reports, ids)[b].0.segment_id),
        joined_faults(reports, ids)[a].0.segment_id == joined_faults(
            reports,
            ids,
        )[b].0.segment_id ==> joined_faults(reports, ids)[a].0.index < joined_faults(
            reports,
            ids,
        )[b].0.index,
    decreases ids.len(),
{
    let front = ids.drop_last();
    let earlier = joined_faults(reports, front);
    let all = joined_faults(reports, ids);
    let at = ids.len() - 1;
    let last = reports[ids[at]].faults;
    assert(ids.last() == ids[at]);
    assert forall|i: int, n: int|
        0 <= i < front.len() && 0 <= n < reports[front[i]].faults.len() implies (
    #[trigger] reports[front[i]].faults[n]).0.segment_id == front[i] by {
        assert(reports[ids[i]].faults[n].0.segment_id == ids[i]);
    }
    assert forall|i: int, n: int, m: int|
        0 <= i < front.len() && 0 <= n < m < reports[front[i]].faults.len() implies (
    #[trigger] reports[front[i]].faults[n]).0.index < (
    #[trigger] reports[front[i]].faults[m]).0.index by {
        assert(reports[ids[i]].faults[n].0.index < reports[ids[i]].faults[m].0.index);
    }
    lemma_joined_ids(reports, ids, a);
    lemma_joined_ids(reports, ids, b);
    if b < earlier.len() {
        lemma_joined_order(reports, front, a, b);
    } else if a < earlier.len() {
        lemma_joined_ids(reports, front, a);
        let i = choose|i: int| 0 <= i < front.len() && front[i] == earlier[a].0.segment_id;
        assert(ids[i] != ids[at]);
        assert(all[b] == last[b - earlier.len()]);
        assert(reports[ids[at]].faults[b - earlier.len()].0.segment_id == ids[at]);
    } else {
        assert(all[a] == last[a - earlier.len()]);
        assert(all[b] == last[b - earlier.len()]);
        assert(reports[ids[at]].faults[a - earlier.len()].0.index
            < reports[ids[at]].faults[b - earlier.len()].0.index);
    }
}

proof fn lemma_joined_ids(reports: Map<SegmentId, SegmentReport>, ids: Seq<SegmentId>, a: int)
    requires
        forall|i: int, n: int|
            0 <= i < ids.len() && 0 <= n < reports[ids[i]].faults.len() ==> (
            #[trigger] reports[ids[i]].faults[n]).0.segment_id == ids[i],
        0 <= a < joined_faults(reports, ids).len(),
    ensures
        ids.contains(joined_faults(reports, ids)[a].0.segment_id),
    decreases ids.len(),
{
    let front = ids.drop_last();
    let earlier = joined_faults(reports, front);
    let all = joined_faults(reports, ids);
    let at = ids.len() - 1;
    if a < earlier.len() {
        assert forall|i: int, n: int|
            0 <= i < front.len() && 0 <= n < reports[front[i]].faults.len() implies (
        #[trigger] reports[front[i]].faults[n]).0.segment_id == front[i] by {
            assert(reports[ids[i]].faults[n].0.segment_id == ids[i]);
        }
        lemma_joined_ids(reports, front, a);
        let i = choose|i: int| 0 <= i < front.len() && front[i] == earlier[a].0.segment_id;
        assert(ids[i] == all[a].0.segment_id);
    } else {
        assert(all[a] == reports[ids[at]].faults[a - earlier.len()]);
        assert(ids[at] == all[a].0.segment_id);
    }
}

proof fn lemma_reported(database: Database, id: SegmentId)
    requires
        database_fits(database),
        reports_of(database).contains_key(id),
    ensures
        ({
            let faults = reports_of(database)[id].faults;
            &&& forall|n: int| 0 <= n < faults.len() ==> (#[trigger] faults[n]).0.segment_id == id
            &&& forall|n: int, m: int|
                0 <= n < m < faults.len() ==> (#[trigger] faults[n]).0.index < (
                #[trigger] faults[m]).0.index
        }),
{
    let i = choose|i: int| is_segment(database, id, i);
    let context = context_of(database, database.segments.segments@[i]);
    assert(context_fits(context));
    law_faults_in_order(context, context.segment.statements@.len());
}

/// In the list of all diagnostics those of one segment come in the order of its statements, so
/// that no statement is listed twice.
pub proof fn law_list_in_order(
    database: Database,
    list: Seq<(StatementAddress, Fault)>,
    a: int,
    b: int,
)
    requires
        database_fits(database),
        lists_faults(list, reports_of(database)),
        0 <= a < b < list.len(),
    ensures
        list[a].0.segment_id == list[b].0.segment_id ==> list[a].0.index < list[b].0.index,
        list[a].0 != list[b].0,
{
    let reports = reports_of(database);
    let ids = choose|ids: Seq<SegmentId>| #[trigger] lists_in_order(list, reports, ids);
    assert forall|i: int| 0 <= i < ids.len() implies reports.contains_key(#[trigger] ids[i]) by {
        assert(ids.to_set().contains(ids[i]));
    }
    assert forall|i: int, n: int|
        0 <= i < ids.len() && 0 <= n < reports[ids[i]].faults.len() implies (
    #[trigger] reports[ids[i]].faults[n]).0.segment_id == ids[i] by {
        lemma_reported(database, ids[i]);
    }
    assert forall|i: int, n: int, m: int|
        0 <= i < ids.len() && 0 <= n < m < reports[ids[i]].faults.len() implies (
    #[trigger] reports[ids[i]].faults[n]).0.index < (
    #[trigger] reports[ids[i]].faults[m]).0.index by {
        lemma_reported(database, ids[i]);
    }
    lemma_joined_order(reports, ids, a, b);
}

/// Every entry in the list of all diagnostics is that of a `$p` statement of a segment whose
/// label has a frame, and tells the fault of its proof.
pub proof fn law_list_entry(
    database: Database,
    list: Seq<(StatementAddress, Fault)>,
    n: int,
) -> (i: int)
    requires
        database_fits(database),
        lists_faults(list, reports_of(database)),
        0 <= n < list.len(),
    ensures
        0 <= i < database.segments.segments@.len(),
        ({
            let segment = database.segments.segments@[i];
            let frames = database.scopes.frames();
            let (address, fault) = list[n];
            let statement = segment.segment.statements@[address.index as int];
            let context = Context {
                frames,
                names: database.names,
                positions: database.segments.order.positions@,
                id: segment.id,
                segment: *segment.segment,
            };
            &&& address.segment_id == segment.id
            &&& 0 <= address.index < segment.segment.statements@.len()
            &&& statement.stype == StatementType::Provable
            &&& frames.contains_key(statement.label@)
            &&& proof_fault(context, frames[statement.label@], statement.proof_words()) == Some(
                fault,
            )
        }),
{
    let reports = reports_of(database);
    law_diagnostics_exact(list, reports, list[n]);
    assert(list.contains(list[n]));
    let id = choose|id: SegmentId| #[trigger]
        reports.contains_key(id) && reports[id].faults.contains(list[n]);
    let i = choose|i: int| is_segment(database, id, i);
    let segment = database.segments.segments@[i];
    assert(reports[id] == report_of(database, segment));
    let at = choose|at: int|
        0 <= at < reports[id].faults.len() && reports[id].faults[at] == list[n];
    law_outcome_faults(database, i, at);
    i
}

} // verus!
