//! What diagnostics tell about the statements of a segment, and of a database.

use crate::diag::Fault;
use crate::incremental::{law_repeated, refreshed};
use crate::model::{
    context_fits, context_of, database_fits, has_proof, is_segment, report_of, reports_of,
    segment_faults, statement_fault, Context, Database, SegmentReport,
};
use crate::parser::{SegmentId, StatementAddress};
use crate::soundness::{is_sound_setting, is_theorem, law_soundness};
use crate::verify::{joined_faults, lists_faults, lists_in_order};
use vstd::prelude::*;
use vstd::seq_lib::lemma_multiset_commutative;

verus! {

/// The address of a statement of the segment.
pub open spec fn address_of(context: Context, i: int) -> StatementAddress {
    StatementAddress { segment_id: context.id, index: i as i32 }
}

/// The diagnostics of a segment are in the order of its statements, with at most one for
/// each of them.
pub proof fn law_faults_in_order(context: Context, n: nat)
    requires
        n <= i32::MAX,
    ensures
        forall|k: int|
            0 <= k < segment_faults(context, n).len() ==> {
                &&& (#[trigger] segment_faults(context, n)[k]).0.segment_id == context.id
                &&& 0 <= segment_faults(context, n)[k].0.index < n
            },
        forall|j: int, k: int|
            0 <= j < k < segment_faults(context, n).len() ==> (#[trigger] segment_faults(
                context,
                n,
            )[j]).0.index < (#[trigger] segment_faults(context, n)[k]).0.index,
    decreases n,
{
    if n > 0 {
        let earlier = segment_faults(context, (n - 1) as nat);
        let all = segment_faults(context, n);
        law_faults_in_order(context, (n - 1) as nat);
        assert forall|k: int| 0 <= k < all.len() implies {
            &&& (#[trigger] all[k]).0.segment_id == context.id
            &&& 0 <= all[k].0.index < n
        } by {
            if k < earlier.len() {
                assert(all[k] == earlier[k]);
            }
        }
        assert forall|j: int, k: int| 0 <= j < k < all.len() implies (#[trigger] all[j]).0.index < (
        #[trigger] all[k]).0.index by {
            assert(all[j] == earlier[j]);
            if k < earlier.len() {
                assert(all[k] == earlier[k]);
            }
        }
    }
}

/// A statement has a diagnostic just if its proof has that fault.
pub proof fn law_faults_exact(context: Context, n: nat, i: int, fault: Fault)
    requires
        0 <= i < n <= i32::MAX,
    ensures
        segment_faults(context, n).contains((address_of(context, i), fault)) <==> statement_fault(
            context,
            context.segment.statements@[i],
        ) == Some(fault),
    decreases n,
{
    let earlier = segment_faults(context, (n - 1) as nat);
    let all = segment_faults(context, n);
    let entry = (address_of(context, i), fault);
    law_faults_in_order(context, (n - 1) as nat);
    if i < n - 1 {
        law_faults_exact(context, (n - 1) as nat, i, fault);
        if earlier.contains(entry) {
            let k = choose|k: int| 0 <= k < earlier.len() && earlier[k] == entry;
            assert(all[k] == entry);
        }
        if all.contains(entry) {
            let k = choose|k: int| 0 <= k < all.len() && all[k] == entry;
            assert(k < earlier.len());
            assert(earlier[k] == entry);
        }
    } else {
        if all.contains(entry) {
            let k = choose|k: int| 0 <= k < all.len() && all[k] == entry;
            if k < earlier.len() {
                assert(earlier[k] == entry);
            }
        }
        if statement_fault(context, context.segment.statements@[i]) == Some(fault) {
            assert(all[all.len() - 1] == entry);
        }
    }
}

/// A statement with a proof and without a diagnostic is a theorem.
pub proof fn law_unreported_is_theorem(context: Context, n: nat, i: int)
    requires
        0 <= i < n <= i32::MAX,
        has_proof(context, context.segment.statements@[i]),
        is_sound_setting(
            context,
            context.frames[context.segment.statements@[i].label@],
        ),
        forall|k: int|
            0 <= k < segment_faults(context, n).len() ==> (#[trigger] segment_faults(
                context,
                n,
            )[k]).0 != address_of(context, i),
    ensures
        is_theorem(context, context.frames[context.segment.statements@[i].label@]),
{
    let statement = context.segment.statements@[i];
    if let Some(fault) = statement_fault(context, statement) {
        law_faults_exact(context, n, i, fault);
        let all = segment_faults(context, n);
        let k = choose|k: int|
            0 <= k < all.len() && all[k] == (address_of(context, i), fault);
        assert(all[k].0 == address_of(context, i));
    }
    law_soundness(context, context.frames[statement.label@], statement.proof_words());
}

proof fn lemma_joined(
    reports: Map<SegmentId, SegmentReport>,
    ids: Seq<SegmentId>,
    entry: (StatementAddress, Fault),
)
    ensures
        joined_faults(reports, ids).contains(entry) <==> exists|i: int|
            0 <= i < ids.len() && reports[#[trigger] ids[i]].faults.contains(entry),
    decreases ids.len(),
{
    if ids.len() > 0 {
        let front = ids.drop_last();
        let earlier = joined_faults(reports, front);
        let last = reports[ids.last()].faults;
        let all = joined_faults(reports, ids);
        lemma_joined(reports, front, entry);
        if all.contains(entry) {
            let k = choose|k: int| 0 <= k < all.len() && all[k] == entry;
            if k < earlier.len() {
                assert(earlier[k] == entry);
                let i = choose|i: int|
                    0 <= i < front.len() && reports[#[trigger] front[i]].faults.contains(entry);
                assert(reports[ids[i]].faults.contains(entry));
            } else {
                assert(last[k - earlier.len()] == entry);
                assert(reports[ids[ids.len() - 1]].faults.contains(entry));
            }
        }
        if exists|i: int| 0 <= i < ids.len() && reports[#[trigger] ids[i]].faults.contains(entry) {
            let i = choose|i: int|
                0 <= i < ids.len() && reports[#[trigger] ids[i]].faults.contains(entry);
            if i < front.len() {
                assert(reports[front[i]].faults.contains(entry));
                let k = choose|k: int| 0 <= k < earlier.len() && earlier[k] == entry;
                assert(all[k] == entry);
            } else {
                let k = choose|k: int| 0 <= k < last.len() && last[k] == entry;
                assert(all[earlier.len() + k] == entry);
            }
        }
    }
}

/// The list of all diagnostics has just those of the segments.
pub proof fn law_diagnostics_exact(
    list: Seq<(StatementAddress, Fault)>,
    reports: Map<SegmentId, SegmentReport>,
    entry: (StatementAddress, Fault),
)
    requires
        lists_faults(list, reports),
    ensures
        list.contains(entry) <==> exists|id: SegmentId| #[trigger]
            reports.contains_key(id) && reports[id].faults.contains(entry),
{
    let ids = choose|ids: Seq<SegmentId>| #[trigger] lists_in_order(list, reports, ids);
    lemma_joined(reports, ids, entry);
    if list.contains(entry) {
        let i = choose|i: int|
            0 <= i < ids.len() && reports[#[trigger] ids[i]].faults.contains(entry);
        assert(ids.to_set().contains(ids[i]));
        assert(reports.contains_key(ids[i]));
    }
    if exists|id: SegmentId| #[trigger]
        reports.contains_key(id) && reports[id].faults.contains(entry) {
        let id = choose|id: SegmentId| #[trigger]
            reports.contains_key(id) && reports[id].faults.contains(entry);
        assert(ids.to_set().contains(id));
        let i = choose|i: int| 0 <= i < ids.len() && ids[i] == id;
        assert(reports[ids[i]].faults.contains(entry));
    }
}

/// The list of all diagnostics of a database has just the faults of its proofs.
pub proof fn law_database_diagnostics(
    database: Database,
    list: Seq<(StatementAddress, Fault)>,
    i: int,
    k: int,
    fault: Fault,
)
    requires
        database_fits(database),
        lists_faults(list, reports_of(database)),
        0 <= i < database.segments.segments@.len(),
        0 <= k < database.segments.segments@[i].segment.statements@.len(),
    ensures
        ({
            let context = context_of(database, database.segments.segments@[i]);
            list.contains((address_of(context, k), fault)) <==> statement_fault(
                context,
                context.segment.statements@[k],
            ) == Some(fault)
        }),
{
    let segment = database.segments.segments@[i];
    let context = context_of(database, segment);
    let reports = reports_of(database);
    let count = segment.segment.statements@.len();
    let entry = (address_of(context, k), fault);
    assert(context_fits(context));
    assert(is_segment(database, segment.id, i));
    assert(reports.contains_key(segment.id));
    assert(reports[segment.id] == report_of(database, segment));
    law_diagnostics_exact(list, reports, entry);
    law_faults_exact(context, count, k, fault);
    if list.contains(entry) {
        let id = choose|id: SegmentId| #[trigger]
            reports.contains_key(id) && reports[id].faults.contains(entry);
        let j = choose|j: int| is_segment(database, id, j);
        let other = context_of(database, database.segments.segments@[j]);
        assert(context_fits(other));
        law_faults_in_order(other, other.segment.statements@.len());
        let at = choose|at: int|
            0 <= at < reports[id].faults.len() && reports[id].faults[at] == entry;
        assert(reports[id].faults[at].0.segment_id == id);
    }
}

/// In a database, a statement with a proof and without a diagnostic is a theorem.
pub proof fn law_database_theorem(
    database: Database,
    list: Seq<(StatementAddress, Fault)>,
    i: int,
    k: int,
)
    requires
        database_fits(database),
        lists_faults(list, reports_of(database)),
        0 <= i < database.segments.segments@.len(),
        0 <= k < database.segments.segments@[i].segment.statements@.len(),
        ({
            let context = context_of(database, database.segments.segments@[i]);
            let statement = context.segment.statements@[k];
            &&& has_proof(context, statement)
            &&& is_sound_setting(context, context.frames[statement.label@])
            &&& forall|fault: Fault| !#[trigger] list.contains((address_of(context, k), fault))
        }),
    ensures
        ({
            let context = context_of(database, database.segments.segments@[i]);
            is_theorem(context, context.frames[context.segment.statements@[k].label@])
        }),
{
    let context = context_of(database, database.segments.segments@[i]);
    let statement = context.segment.statements@[k];
    if let Some(fault) = statement_fault(context, statement) {
        law_database_diagnostics(database, list, i, k, fault);
        assert(!list.contains((address_of(context, k), fault)));
    }
    law_soundness(context, context.frames[statement.label@], statement.proof_words());
}

/// One of several segments can be taken last.
proof fn lemma_joined_without(
    reports: Map<SegmentId, SegmentReport>,
    ids: Seq<SegmentId>,
    j: int,
)
    requires
        0 <= j < ids.len(),
    ensures
        joined_faults(reports, ids).to_multiset() == joined_faults(
            reports,
            ids.remove(j),
        ).to_multiset().add(reports[ids[j]].faults.to_multiset()),
    decreases ids.len(),
{
    let front = ids.drop_last();
    let last = reports[ids.last()].faults;
    lemma_multiset_commutative(joined_faults(reports, front), last);
    if j == ids.len() - 1 {
        assert(ids.remove(j) =~= front);
    } else {
        lemma_joined_without(reports, front, j);
        let others = ids.remove(j);
        assert(others.drop_last() =~= front.remove(j));
        assert(others.last() == ids.last());
        lemma_multiset_commutative(joined_faults(reports, front.remove(j)), last);
        assert(joined_faults(reports, ids).to_multiset() =~= joined_faults(
            reports,
            others,
        ).to_multiset().add(reports[ids[j]].faults.to_multiset()));
    }
}

proof fn lemma_joined_reordered(
    reports: Map<SegmentId, SegmentReport>,
    left: Seq<SegmentId>,
    right: Seq<SegmentId>,
)
    requires
        left.no_duplicates(),
        right.no_duplicates(),
        left.to_set() == right.to_set(),
    ensures
        joined_faults(reports, left).to_multiset() == joined_faults(reports, right).to_multiset(),
    decreases left.len(),
{
    left.unique_seq_to_set();
    right.unique_seq_to_set();
    if left.len() > 0 {
        let id = left.last();
        let front = left.drop_last();
        assert(left[left.len() - 1] == id);
        assert(left.to_set().contains(id));
        assert(right.to_set().contains(id));
        let j = choose|j: int| 0 <= j < right.len() && right[j] == id;
        let others = right.remove(j);
        assert forall|other: SegmentId| front.to_set().contains(other) == others.to_set().contains(
            other,
        ) by {
            if front.contains(other) {
                let k = choose|k: int| 0 <= k < front.len() && front[k] == other;
                assert(left[k] == other && other != id);
                assert(left.to_set().contains(other));
                assert(right.to_set().contains(other));
                let m = choose|m: int| 0 <= m < right.len() && right[m] == other;
                assert(others[if m < j { m } else { m - 1 }] == other);
            }
            if others.contains(other) {
                let k = choose|k: int| 0 <= k < others.len() && others[k] == other;
                let m = if k < j { k } else { k + 1 };
                assert(right[m] == other && m != j);
                assert(right.to_set().contains(other));
                assert(left.to_set().contains(other));
                let at = choose|at: int| 0 <= at < left.len() && left[at] == other;
                assert(other != id);
                assert(front[at] == other);
            }
        }
        assert(front.to_set() =~= others.to_set());
        assert(others.no_duplicates());
        lemma_joined_reordered(reports, front, others);
        lemma_joined_without(reports, right, j);
        lemma_multiset_commutative(joined_faults(reports, front), reports[id].faults);
    } else {
        assert(right.len() == 0);
    }
}

/// Lists of all diagnostics of the same outcomes have the same entries, each as often, in
/// whatever order of the segments.
pub proof fn law_diagnostics_reordered(
    left: Seq<(StatementAddress, Fault)>,
    right: Seq<(StatementAddress, Fault)>,
    reports: Map<SegmentId, SegmentReport>,
)
    requires
        lists_faults(left, reports),
        lists_faults(right, reports),
    ensures
        left.to_multiset() == right.to_multiset(),
{
    let a = choose|ids: Seq<SegmentId>| #[trigger] lists_in_order(left, reports, ids);
    let b = choose|ids: Seq<SegmentId>| #[trigger] lists_in_order(right, reports, ids);
    lemma_joined_reordered(reports, a, b);
}

/// A check that is repeated lists the same diagnostics.
pub proof fn law_repeated_diagnostics(
    database: Database,
    first: Map<SegmentId, SegmentReport>,
    second: Map<SegmentId, SegmentReport>,
    left: Seq<(StatementAddress, Fault)>,
    right: Seq<(StatementAddress, Fault)>,
)
    requires
        database_fits(database),
        first == reports_of(database),
        refreshed(first, second, database),
        lists_faults(left, first),
        lists_faults(right, second),
    ensures
        left.to_multiset() == right.to_multiset(),
{
    law_repeated(database, first, second);
    law_diagnostics_reordered(left, right, first);
}

} // verus!
