//! Parsed databases: segments, statements and where they stand.

use vstd::prelude::*;

verus! {

/// Identifies a segment for as long as it is part of the database.
pub type SegmentId = u32;

/// The number of a statement in its segment.
pub type StatementIndex = i32;

/// Stands for "no statement" where an index is expected.
pub const NO_STATEMENT: StatementIndex = -1;

/// Where a statement stands.
#[derive(Clone, Copy, Debug, PartialEq, Eq, Structural)]
pub struct StatementAddress {
    pub segment_id: SegmentId,
    pub index: StatementIndex,
}

/// The part of the database in which a label can be used: from the statement at
/// `start`, up to but without statement `end` of the same segment.  Where `end` is
/// `NO_STATEMENT` it has no end.
#[derive(Clone, Copy, Debug, PartialEq, Eq, Structural)]
pub struct GlobalRange {
    pub start: StatementAddress,
    pub end: StatementIndex,
}

/// The kinds of statement.
#[derive(Clone, Copy, Debug, PartialEq, Eq, Structural)]
pub enum StatementType {
    /// `$a`
    Axiom,
    /// `$( .. $)`
    Comment,
    /// `$c`
    Constant,
    /// `$d`
    Disjoint,
    /// `$e`
    Essential,
    /// The end of a segment.
    Eof,
    /// `$f`
    Floating,
    /// `$}`
    CloseGroup,
    /// `$p`
    Provable,
    /// `${`
    OpenGroup,
    /// A statement that could not be read.
    Invalid,
    /// `$v`
    Variable,
}

/// A statement, as far as proofs are concerned.
#[derive(Debug)]
pub struct Statement {
    pub stype: StatementType,
    /// Empty where the statement has no label.
    pub label: Vec<u8>,
    /// The words between `$=` and `$.` of a `$p` statement.
    pub proof: Vec<Vec<u8>>,
}

impl Statement {
    /// The words of the proof.
    pub open spec fn proof_words(&self) -> Seq<Seq<u8>> {
        self.proof@.map_values(|word: Vec<u8>| word@)
    }
}

/// A part of the database that was parsed in one go.
#[derive(Debug)]
pub struct Segment {
    pub statements: Vec<Statement>,
}

/// The order in which the segments of a database follow each other.
#[derive(Debug)]
pub struct SegmentOrder {
    /// The position of each segment, indexed by its id.
    pub positions: Vec<usize>,
}

/// Whether the statement at `left` comes strictly before the one at `right`.
pub open spec fn is_before(
    positions: Seq<usize>,
    left: StatementAddress,
    right: StatementAddress,
) -> bool {
    let a = positions[left.segment_id as int];
    let b = positions[right.segment_id as int];
    a < b || (a == b && left.index < right.index)
}

impl SegmentOrder {
    /// Whether the order says where segment `id` stands.
    pub open spec fn knows(&self, id: SegmentId) -> bool {
        id < self.positions@.len()
    }

    /// Whether the statement at `left` comes strictly before the one at `right`.
    pub fn precedes(&self, left: StatementAddress, right: StatementAddress) -> (before: bool)
        requires
            self.knows(left.segment_id),
            self.knows(right.segment_id),
        ensures
            before == is_before(self.positions@, left, right),
    {
        let a: usize = self.positions[left.segment_id as usize];
        let b: usize = self.positions[right.segment_id as usize];
        a < b || (a == b && left.index < right.index)
    }
}

} // verus!
