//! The segments of a database.

use crate::parser::{Segment, SegmentId, SegmentOrder};
use std::sync::Arc;
use vstd::prelude::*;

verus! {

/// A segment and its id.
#[derive(Debug)]
pub struct SegmentRef {
    pub id: SegmentId,
    pub segment: Arc<Segment>,
}

/// A database, divided into segments.
#[derive(Debug)]
pub struct SegmentSet {
    pub order: SegmentOrder,
    pub segments: Vec<SegmentRef>,
}

impl SegmentSet {
    /// No two segments have the same id.
    pub open spec fn ids_distinct(&self) -> bool {
        forall|i: int, j: int|
            0 <= i < j < self.segments@.len() ==> self.segments@[i].id != self.segments@[j].id
    }
}

} // verus!
