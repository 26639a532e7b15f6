//! Frames: what a labelled statement says, with all it takes from its scope, and the
//! table that finds them by label.

use crate::bit_set::Bitset;
use crate::nameck::Atom;
use crate::parser::{GlobalRange, StatementAddress, StatementType, NO_STATEMENT};
use crate::util::{
    copy_token, is_less, lemma_lex_irreflexive, lemma_lex_total, lemma_lex_transitive, lex_less,
    same_bytes,
};
use std::ops::Range;
use vstd::prelude::*;

verus! {

/// A run of constant symbols, and the variable that follows it.
#[derive(Debug)]
pub struct ExprFragment {
    /// The constants, in the constant pool of the frame.
    pub prefix: Range<usize>,
    /// The variable, as an index into the variable list of the frame.
    pub var: usize,
}

/// An expression in the terms of a frame: its type, the fragments that end in a
/// variable, and the constants that follow the last of them.
#[derive(Debug)]
pub struct VerifyExpr {
    pub typecode: Atom,
    pub rump: Range<usize>,
    pub tail: Vec<ExprFragment>,
}

/// A hypothesis of a frame.
#[derive(Debug)]
pub struct Hyp {
    pub address: StatementAddress,
    /// The variable of a `$f` hypothesis, as an index into the variable list of the
    /// frame; nothing for a `$e` hypothesis.
    pub variable_index: Option<usize>,
    /// The expression.  Of a `$f` hypothesis only its type counts.
    pub expr: VerifyExpr,
}

impl Hyp {
    /// Whether this is a `$f` hypothesis.
    pub fn is_float(&self) -> (float: bool)
        ensures
            float == self.variable_index is Some,
    {
        self.variable_index.is_some()
    }
}

/// A labelled statement together with what it takes from its scope.
#[derive(Debug)]
pub struct Frame {
    pub stype: StatementType,
    /// Where the label can be used.
    pub valid: GlobalRange,
    /// The hypotheses, in the order in which the database has them.
    pub hypotheses: Vec<Hyp>,
    /// What the statement says.
    pub target: VerifyExpr,
    /// The symbols of a hypothesis when it is used as a step of a proof.
    pub stub_expr: Vec<u8>,
    /// The constant symbols of all expressions.
    pub const_pool: Vec<u8>,
    /// The variables; the first `mandatory_count` of them are the mandatory ones.
    pub var_list: Vec<Atom>,
    pub mandatory_count: usize,
    /// The pairs of mandatory variables that have to be kept distinct.
    pub mandatory_dv: Vec<(usize, usize)>,
    /// For each variable, the variables that are declared distinct from it.
    pub optional_dv: Vec<Bitset>,
}

impl Frame {
    /// The constants at a place in the pool.
    pub open spec fn constants(&self, place: Range<usize>) -> Seq<u8> {
        self.const_pool@.subrange(place.start as int, place.end as int)
    }

    /// Whether a place lies in the pool.
    pub open spec fn in_pool(&self, place: Range<usize>) -> bool {
        place.start <= place.end <= self.const_pool@.len()
    }

    /// Whether all constants of an expression lie in the pool.
    pub open spec fn holds_constants(&self, expr: VerifyExpr) -> bool {
        &&& self.in_pool(expr.rump)
        &&& forall|i: int|
            0 <= i < expr.tail@.len() ==> self.in_pool((#[trigger] expr.tail@[i]).prefix)
    }

    /// Whether one of the first `n` hypotheses is a `$f` hypothesis on variable `var`.
    pub open spec fn binds(&self, n: int, var: usize) -> bool {
        exists|i: int|
            0 <= i < n && (#[trigger] self.hypotheses@[i]).variable_index == Some(var)
    }

    /// Whether each variable of an expression is bound by one of the first `n`
    /// hypotheses.
    pub open spec fn binds_all(&self, n: int, expr: VerifyExpr) -> bool {
        forall|i: int|
            0 <= i < expr.tail@.len() ==> self.binds(n, (#[trigger] expr.tail@[i]).var)
    }

    /// Whether the statement can be used as a step that needs its hypotheses.
    pub open spec fn is_assertion(&self) -> bool {
        self.stype == StatementType::Axiom || self.stype == StatementType::Provable
    }

    /// What makes the frame of an assertion fit for use as a step: variables are
    /// mandatory ones, no `$e` hypothesis speaks of a variable before its `$f`
    /// hypothesis, and nothing speaks of a variable that has none.
    pub open spec fn can_apply(&self) -> bool {
        &&& forall|i: int|
            0 <= i < self.hypotheses@.len() ==> self.hypothesis_can_apply(i, #[trigger] self.hypotheses@[i])
        &&& self.holds_constants(self.target)
        &&& self.binds_all(self.hypotheses@.len() as int, self.target)
        &&& forall|i: int|
            0 <= i < self.mandatory_dv@.len() ==> {
                let (left, right) = #[trigger] self.mandatory_dv@[i];
                &&& self.binds(self.hypotheses@.len() as int, left)
                &&& self.binds(self.hypotheses@.len() as int, right)
            }
    }

    /// The part of [`Frame::can_apply`] on one hypothesis.
    pub open spec fn hypothesis_can_apply(&self, i: int, hyp: Hyp) -> bool {
        match hyp.variable_index {
            Some(var) => var < self.mandatory_count,
            None => self.holds_constants(hyp.expr) && self.binds_all(i, hyp.expr),
        }
    }

    /// Whether each variable of an expression is in the variable list.
    pub open spec fn lists_all(&self, expr: VerifyExpr) -> bool {
        forall|i: int|
            0 <= i < expr.tail@.len() ==> (#[trigger] expr.tail@[i]).var < self.var_list@.len()
    }

    /// What makes a frame fit for a proof of its own statement: all variables are
    /// listed, and have a name.
    pub open spec fn can_prove(&self, names: Seq<Seq<u8>>) -> bool {
        &&& forall|i: int|
            0 <= i < self.hypotheses@.len() ==> self.hypothesis_can_prove(#[trigger] self.hypotheses@[i])
        &&& self.holds_constants(self.target)
        &&& self.lists_all(self.target)
        &&& self.has_names(names)
    }

    /// Whether all variables have a name.
    pub open spec fn has_names(&self, names: Seq<Seq<u8>>) -> bool {
        forall|i: int|
            0 <= i < self.var_list@.len() ==> (#[trigger] self.var_list@[i]) < names.len()
                && names[self.var_list@[i] as int].len() > 0
    }

    /// The part of [`Frame::can_prove`] on one hypothesis.
    pub open spec fn hypothesis_can_prove(&self, hyp: Hyp) -> bool {
        match hyp.variable_index {
            Some(var) => var < self.var_list@.len(),
            None => self.holds_constants(hyp.expr) && self.lists_all(hyp.expr),
        }
    }
}

impl Default for Frame {
    /// A frame that says nothing.
    fn default() -> (frame: Frame)
        ensures
            frame.stype == StatementType::Invalid,
            frame.valid.start.segment_id == 0,
            frame.valid.start.index == frame.valid.end == NO_STATEMENT,
            frame.hypotheses@.len() == 0,
            frame.target.typecode == 0,
            frame.target.rump == (0..0usize),
            frame.target.tail@.len() == 0,
            frame.stub_expr@.len() == 0,
            frame.const_pool@.len() == 0,
            frame.var_list@.len() == 0,
            frame.mandatory_count == 0,
            frame.mandatory_dv@.len() == 0,
            frame.optional_dv@.len() == 0,
    {
        let nowhere = StatementAddress { segment_id: 0, index: NO_STATEMENT };
        Frame {
            stype: StatementType::Invalid,
            valid: GlobalRange { start: nowhere, end: NO_STATEMENT },
            hypotheses: Vec::new(),
            target: VerifyExpr { typecode: 0, rump: 0..0, tail: Vec::new() },
            stub_expr: Vec::new(),
            const_pool: Vec::new(),
            var_list: Vec::new(),
            mandatory_count: 0,
            mandatory_dv: Vec::new(),
            optional_dv: Vec::new(),
        }
    }
}

/// The frame of a label, and the number of the run that made it.
#[derive(Debug)]
struct ScopeEntry {
    label: Vec<u8>,
    generation: u64,
    frame: Frame,
}

/// Whether entries are in the order of their labels, each label once.
spec fn is_sorted(entries: Seq<ScopeEntry>) -> bool {
    forall|i: int, j: int|
        0 <= i < j < entries.len() ==> lex_less(
            #[trigger] entries[i].label@,
            #[trigger] entries[j].label@,
        )
}

/// The frames of a database, by label.
///
/// Each frame has a generation.  A frame that is replaced by another one under the same
/// label has to get a generation that the label did not have before, so that a reader
/// can tell by the number that nothing has changed.
#[derive(Debug)]
pub struct ScopeResult {
    entries: Vec<ScopeEntry>,
}

impl ScopeResult {
    closed spec fn holds(&self, label: Seq<u8>) -> bool {
        exists|i: int| 0 <= i < self.entries@.len() && #[trigger] self.entries@[i].label@ == label
    }

    closed spec fn index_of(&self, label: Seq<u8>) -> int {
        choose|i: int| 0 <= i < self.entries@.len() && #[trigger] self.entries@[i].label@ == label
    }

    /// The frame of each label.
    pub closed spec fn frames(&self) -> Map<Seq<u8>, Frame> {
        Map::new(
            |label: Seq<u8>| self.holds(label),
            |label: Seq<u8>| self.entries@[self.index_of(label)].frame,
        )
    }

    /// The generation of each label's frame.
    pub closed spec fn generations(&self) -> Map<Seq<u8>, u64> {
        Map::new(
            |label: Seq<u8>| self.holds(label),
            |label: Seq<u8>| self.entries@[self.index_of(label)].generation,
        )
    }

    /// The generation of a label's frame, or nothing where the label has none.
    pub open spec fn status(&self, label: Seq<u8>) -> Option<u64> {
        if self.generations().contains_key(label) {
            Some(self.generations()[label])
        } else {
            None
        }
    }

    /// The table is sorted by label.
    #[verifier::type_invariant]
    spec fn wf(&self) -> bool {
        is_sorted(self.entries@)
    }

    /// In a sorted table no label occurs twice.
    proof fn lemma_entry(&self, i: int)
        requires
            self.wf(),
            0 <= i < self.entries@.len(),
        ensures
            self.holds(self.entries@[i].label@),
            self.index_of(self.entries@[i].label@) == i,
            self.frames().contains_key(self.entries@[i].label@),
            self.frames()[self.entries@[i].label@] == self.entries@[i].frame,
            self.generations().contains_key(self.entries@[i].label@),
            self.generations()[self.entries@[i].label@] == self.entries@[i].generation,
    {
        let label = self.entries@[i].label@;
        assert(self.holds(label));
        let j = self.index_of(label);
        assert(0 <= j < self.entries@.len() && self.entries@[j].label@ == label);
        lemma_lex_irreflexive(label);
        if i < j {
            assert(lex_less(self.entries@[i].label@, self.entries@[j].label@));
        } else if j < i {
            assert(lex_less(self.entries@[j].label@, self.entries@[i].label@));
        }
    }

    /// The labels that have a generation are those that have a frame.
    pub proof fn lemma_same_labels(&self)
        ensures
            forall|label: Seq<u8>| #[trigger]
                self.frames().contains_key(label) == self.generations().contains_key(label),
    {
    }

    /// A table without frames.
    pub fn new() -> (result: ScopeResult)
        ensures
            result.frames() == Map::<Seq<u8>, Frame>::empty(),
            result.generations() == Map::<Seq<u8>, u64>::empty(),
    {
        let result = ScopeResult { entries: Vec::new() };
        assert(result.frames() =~= Map::<Seq<u8>, Frame>::empty());
        assert(result.generations() =~= Map::<Seq<u8>, u64>::empty());
        result
    }

    /// The number of entries with smaller labels, and whether the next entry has the
    /// label itself.
    fn find(&self, label: &[u8]) -> (place: (usize, bool))
        ensures
            place.0 <= self.entries@.len(),
            forall|i: int|
                0 <= i < place.0 ==> lex_less(#[trigger] self.entries@[i].label@, label@),
            place.1 ==> place.0 < self.entries@.len() && self.entries@[place.0 as int].label@
                == label@,
            !place.1 ==> forall|i: int|
                place.0 <= i < self.entries@.len() ==> lex_less(
                    label@,
                    #[trigger] self.entries@[i].label@,
                ),
    {
        proof {
            use_type_invariant(self);
        }
        let mut low: usize = 0;
        let mut high: usize = self.entries.len();
        while low < high
            invariant
                self.wf(),
                low <= high <= self.entries@.len(),
                forall|i: int|
                    0 <= i < low ==> lex_less(#[trigger] self.entries@[i].label@, label@),
                forall|i: int|
                    high <= i < self.entries@.len() ==> !lex_less(
                        #[trigger] self.entries@[i].label@,
                        label@,
                    ),
            decreases high - low,
        {
            let middle: usize = low + (high - low) / 2;
            if is_less(self.entries[middle].label.as_slice(), label) {
                proof {
                    assert forall|i: int| 0 <= i <= middle implies lex_less(
                        #[trigger] self.entries@[i].label@,
                        label@,
                    ) by {
                        if i < middle {
                            lemma_lex_transitive(
                                self.entries@[i].label@,
                                self.entries@[middle as int].label@,
                                label@,
                            );
                        }
                    }
                }
                low = middle + 1;
            } else {
                proof {
                    assert forall|i: int|
                        middle <= i < self.entries@.len() implies !lex_less(
                        #[trigger] self.entries@[i].label@,
                        label@,
                    ) by {
                        if middle < i && lex_less(self.entries@[i].label@, label@) {
                            lemma_lex_transitive(
                                self.entries@[middle as int].label@,
                                self.entries@[i].label@,
                                label@,
                            );
                        }
                    }
                }
                high = middle;
            }
        }
        let found: bool = low < self.entries.len() && same_bytes(
            self.entries[low].label.as_slice(),
            label,
        );
        proof {
            if !found {
                assert forall|i: int| low <= i < self.entries@.len() implies lex_less(
                    label@,
                    #[trigger] self.entries@[i].label@,
                ) by {
                    lemma_lex_total(label@, self.entries@[low as int].label@);
                    if low < i {
                        lemma_lex_transitive(
                            label@,
                            self.entries@[low as int].label@,
                            self.entries@[i].label@,
                        );
                    }
                }
            }
        }
        (low, found)
    }

    proof fn lemma_absent(&self, place: int, label: Seq<u8>)
        requires
            0 <= place <= self.entries@.len(),
            forall|i: int| 0 <= i < place ==> lex_less(#[trigger] self.entries@[i].label@, label),
            forall|i: int|
                place <= i < self.entries@.len() ==> lex_less(
                    label,
                    #[trigger] self.entries@[i].label@,
                ),
        ensures
            !self.frames().contains_key(label),
            !self.generations().contains_key(label),
    {
        lemma_lex_irreflexive(label);
        assert(!self.holds(label));
    }

    /// The labels, in the order of the table.
    pub closed spec fn labels(&self) -> Seq<Seq<u8>> {
        self.entries@.map_values(|entry: ScopeEntry| entry.label@)
    }

    /// The labels are those that have a frame.
    pub proof fn lemma_labels(&self)
        ensures
            forall|label: Seq<u8>| #[trigger]
                self.frames().contains_key(label) <==> self.labels().contains(label),
            forall|i: int|
                0 <= i < self.labels().len() ==> self.frames().contains_key(
                    #[trigger] self.labels()[i],
                ),
    {
        assert forall|label: Seq<u8>| #[trigger]
            self.frames().contains_key(label) <==> self.labels().contains(label) by {
            if self.holds(label) {
                let i = self.index_of(label);
                assert(self.labels()[i] == label);
            }
            if self.labels().contains(label) {
                let i = choose|i: int| 0 <= i < self.labels().len() && self.labels()[i] == label;
                assert(self.entries@[i].label@ == label);
            }
        }
        assert forall|i: int| 0 <= i < self.labels().len() implies self.frames().contains_key(
            #[trigger] self.labels()[i],
        ) by {
            assert(self.labels().contains(self.labels()[i]));
        }
    }

    /// The number of labels.
    pub fn len(&self) -> (len: usize)
        ensures
            len == self.labels().len(),
    {
        self.entries.len()
    }

    /// The frame of the label at a place of the table.
    pub fn frame_at(&self, i: usize) -> (frame: &Frame)
        requires
            i < self.labels().len(),
        ensures
            *frame == self.frames()[self.labels()[i as int]],
    {
        proof {
            use_type_invariant(self);
            self.lemma_entry(i as int);
        }
        &self.entries[i].frame
    }

    /// The frame of a label.
    pub fn frame(&self, label: &[u8]) -> (frame: Option<&Frame>)
        ensures
            match frame {
                Some(frame) => self.frames().contains_key(label@) && *frame
                    == self.frames()[label@],
                None => !self.frames().contains_key(label@),
            },
    {
        let (place, found) = self.find(label);
        if found {
            proof {
                use_type_invariant(self);
                self.lemma_entry(place as int);
            }
            Some(&self.entries[place].frame)
        } else {
            proof {
                self.lemma_absent(place as int, label@);
            }
            None
        }
    }

    /// Gives a label a frame, in place of the one it had if any.
    pub fn insert(&mut self, label: Vec<u8>, generation: u64, frame: Frame)
        ensures
            final(self).frames() == old(self).frames().insert(label@, frame),
            final(self).generations() == old(self).generations().insert(label@, generation),
    {
        proof {
            use_type_invariant(&*self);
        }
        let ghost key = label@;
        let (place, found) = self.find(label.as_slice());
        let entry = ScopeEntry { label, generation, frame };
        let mut entries: Vec<ScopeEntry> = Vec::new();
        std::mem::swap(&mut entries, &mut self.entries);
        let ghost before = entries@;
        if found {
            entries[place] = entry;
        } else {
            entries.insert(place, entry);
        }
        let ghost after = entries@;
        proof {
            assert forall|i: int, j: int| 0 <= i < j < after.len() implies lex_less(
                #[trigger] after[i].label@,
                #[trigger] after[j].label@,
            ) by {
                let bi = if found || i < place { i } else { i - 1 };
                let bj = if found || j < place { j } else { j - 1 };
                if i != place && j != place {
                    assert(after[i] == before[bi] && after[j] == before[bj]);
                } else if i == place && !found {
                    assert(after[j] == before[bj]);
                } else if j == place && !found {
                    assert(after[i] == before[bi]);
                } else {
                    assert(lex_less(before[i].label@, before[j].label@));
                }
            }
        }
        self.entries = entries;
        proof {
            assert(after[place as int] == entry);
            self.lemma_entry(place as int);
            assert forall|other: Seq<u8>| other != key implies {
                &&& #[trigger] self.holds(other) == old(self).holds(other)
                &&& self.holds(other) ==> self.entries@[self.index_of(other)] == old(
                    self,
                ).entries@[old(self).index_of(other)]
            } by {
                if self.holds(other) {
                    let i = self.index_of(other);
                    let bi = if found || i < place { i } else { i - 1 };
                    assert(after[i] == before[bi]);
                    old(self).lemma_entry(bi);
                } else if old(self).holds(other) {
                    let i = old(self).index_of(other);
                    let ai = if found || i < place { i } else { i + 1 };
                    assert(after[ai] == before[i]);
                }
            }
            assert(self.frames() =~= old(self).frames().insert(key, frame));
            assert(self.generations() =~= old(self).generations().insert(key, generation));
        }
    }
}

/// Looks up frames, and keeps a record of what was looked up.
#[derive(Debug)]
pub struct ScopeReader<'a> {
    result: &'a ScopeResult,
    /// The entries that were found.
    found: Bitset,
    /// The labels that were looked up and not found.
    not_found: Vec<Vec<u8>>,
}

impl<'a> ScopeReader<'a> {
    /// The table that is read.
    pub closed spec fn source(&self) -> ScopeResult {
        *self.result
    }

    /// The labels that were looked up so far.
    pub closed spec fn lookups(&self) -> Set<Seq<u8>> {
        Set::new(|label: Seq<u8>| self.was_found(label) || self.was_missed(label))
    }

    closed spec fn was_found(&self, label: Seq<u8>) -> bool {
        exists|i: int|
            0 <= i < self.result.entries@.len() && self.found@.contains(i as usize)
                && #[trigger] self.result.entries@[i].label@ == label
    }

    closed spec fn was_missed(&self, label: Seq<u8>) -> bool {
        exists|i: int|
            0 <= i < self.not_found@.len() && #[trigger] self.not_found@[i]@ == label
    }

    /// What the record needs to be right.
    pub closed spec fn wf(&self) -> bool {
        &&& self.result.wf()
        &&& self.result.entries@.len() <= usize::MAX
        &&& forall|i: usize|
            #[trigger] self.found@.contains(i) ==> i < self.result.entries@.len()
        &&& forall|i: int|
            0 <= i < self.not_found@.len() ==> !self.result.generations().contains_key(
                #[trigger] self.not_found@[i]@,
            )
    }

    /// A reader that has looked up nothing yet.
    pub fn new(result: &'a ScopeResult) -> (reader: ScopeReader<'a>)
        ensures
            reader.wf(),
            reader.source() == *result,
            reader.lookups() == Set::<Seq<u8>>::empty(),
    {
        proof {
            use_type_invariant(result);
        }
        let reader = ScopeReader { result, found: Bitset::new(), not_found: Vec::new() };
        assert(result.entries.len() <= usize::MAX);
        assert(reader.lookups() =~= Set::<Seq<u8>>::empty());
        reader
    }

    /// The frame of a label.
    pub fn get(&mut self, label: &[u8]) -> (frame: Option<&'a Frame>)
        requires
            old(self).wf(),
        ensures
            final(self).wf(),
            final(self).source() == old(self).source(),
            final(self).lookups() == old(self).lookups().insert(label@),
            match frame {
                Some(frame) => old(self).source().frames().contains_key(label@)
                    && *frame == old(self).source().frames()[label@],
                None => !old(self).source().frames().contains_key(label@),
            },
    {
        let (place, found) = self.result.find(label);
        if found {
            self.found.set_bit(place);
            proof {
                self.result.lemma_entry(place as int);
                assert forall|other: Seq<u8>|
                    self.lookups().contains(other) == old(self).lookups().insert(label@).contains(
                        other,
                    ) by {
                    if self.was_found(other) {
                        let i = choose|i: int|
                            0 <= i < self.result.entries@.len() && self.found@.contains(i as usize)
                                && #[trigger] self.result.entries@[i].label@ == other;
                        if i != place {
                            assert(old(self).was_found(other));
                        }
                    }
                    if old(self).was_found(other) {
                        let i = choose|i: int|
                            0 <= i < self.result.entries@.len() && old(self).found@.contains(
                                i as usize,
                            ) && #[trigger] self.result.entries@[i].label@ == other;
                        assert(self.found@.contains(i as usize));
                    }
                    assert(self.was_missed(other) == old(self).was_missed(other));
                    assert(self.result.entries@[place as int].label@ == label@);
                    assert(self.was_found(label@));
                }
                assert(self.lookups() =~= old(self).lookups().insert(label@));
            }
            Some(&self.result.entries[place].frame)
        } else {
            self.not_found.push(copy_token(label));
            proof {
                self.result.lemma_absent(place as int, label@);
                let last = self.not_found@.len() - 1;
                assert(self.not_found@[last]@ == label@);
                assert forall|other: Seq<u8>|
                    self.lookups().contains(other) == old(self).lookups().insert(label@).contains(
                        other,
                    ) by {
                    assert(self.was_found(other) == old(self).was_found(other));
                    if self.was_missed(other) {
                        let i = choose|i: int|
                            0 <= i < self.not_found@.len() && #[trigger] self.not_found@[i]@
                                == other;
                        if i < last {
                            assert(old(self).not_found@[i]@ == other);
                        }
                    }
                    if old(self).was_missed(other) {
                        let i = choose|i: int|
                            0 <= i < old(self).not_found@.len() && #[trigger] old(
                                self,
                            ).not_found@[i]@ == other;
                        assert(self.not_found@[i]@ == other);
                    }
                }
                assert(self.lookups() =~= old(self).lookups().insert(label@));
            }
            None
        }
    }

    /// The record: each label that was looked up, with the generation of its frame.
    pub fn into_usage(self) -> (usage: ScopeUsage)
        requires
            self.wf(),
        ensures
            usage@ == status_of(self.lookups(), self.source()),
    {
        let mut lookups: Vec<(Vec<u8>, Option<u64>)> = Vec::new();
        let found: Vec<usize> = self.found.members();
        proof {
            assert forall|i: int| 0 <= i < found@.len() implies found@[i]
                < self.result.entries@.len() by {
                assert(found@.to_set().contains(found@[i]));
            }
        }
        let mut i: usize = 0;
        while i < found.len()
            invariant
                self.wf(),
                i <= found@.len(),
                found@.to_set() == self.found@,
                lookups@.len() == i,
                forall|k: int| 0 <= k < found@.len() ==> found@[k] < self.result.entries@.len(),
                forall|k: int|
                    0 <= k < i ==> {
                        let entry = self.result.entries@[found@[k] as int];
                        &&& (#[trigger] lookups@[k]).0@ == entry.label@
                        &&& lookups@[k].1 == Some(entry.generation)
                    },
            decreases found@.len() - i,
        {
            let entry: &ScopeEntry = &self.result.entries[found[i]];
            lookups.push((copy_token(entry.label.as_slice()), Some(entry.generation)));
            i += 1;
        }
        let mut j: usize = 0;
        while j < self.not_found.len()
            invariant
                self.wf(),
                j <= self.not_found@.len(),
                lookups@.len() == found@.len() + j,
                forall|k: int|
                    0 <= k < found@.len() ==> {
                        let entry = self.result.entries@[found@[k] as int];
                        &&& (#[trigger] lookups@[k]).0@ == entry.label@
                        &&& lookups@[k].1 == Some(entry.generation)
                    },
                forall|k: int|
                    found@.len() <= k < lookups@.len() ==> {
                        &&& (#[trigger] lookups@[k]).0@ == self.not_found@[k - found@.len()]@
                        &&& lookups@[k].1 is None
                    },
            decreases self.not_found@.len() - j,
        {
            lookups.push((copy_token(self.not_found[j].as_slice()), None));
            j += 1;
        }
        let usage = ScopeUsage { lookups };
        proof {
            assert forall|pair: (Seq<u8>, Option<u64>)|
                usage@.contains(pair) == status_of(self.lookups(), self.source()).contains(
                    pair,
                ) by {
                if usage@.contains(pair) {
                    let k = usage.place_of(pair);
                    if k < found@.len() {
                        let at = found@[k] as int;
                        self.result.lemma_entry(at);
                        assert(found@.to_set().contains(found@[k]));
                        assert(self.found@.contains(at as usize));
                        assert(self.result.entries@[at].label@ == pair.0);
                        assert(self.was_found(pair.0));
                    } else {
                        assert(self.not_found@[k - found@.len()]@ == pair.0);
                        assert(self.was_missed(pair.0));
                    }
                }
                if status_of(self.lookups(), self.source()).contains(pair) {
                    if self.was_found(pair.0) {
                        let at = choose|i: int|
                            0 <= i < self.result.entries@.len() && self.found@.contains(i as usize)
                                && #[trigger] self.result.entries@[i].label@ == pair.0;
                        self.result.lemma_entry(at);
                        assert(found@.to_set().contains(at as usize));
                        let k = choose|k: int| 0 <= k < found@.len() && found@[k] == at as usize;
                        assert(usage.lookups@[k].0@ == pair.0);
                    } else {
                        let at = choose|i: int|
                            0 <= i < self.not_found@.len() && #[trigger] self.not_found@[i]@
                                == pair.0;
                        let k = found@.len() + at;
                        assert(usage.lookups@[k].0@ == pair.0);
                    }
                }
            }
            assert(usage@ =~= status_of(self.lookups(), self.source()));
        }
        usage
    }
}

/// Each label, with the generation that its frame has in a table.
pub open spec fn status_of(labels: Set<Seq<u8>>, table: ScopeResult) -> Set<
    (Seq<u8>, Option<u64>),
> {
    Set::new(
        |pair: (Seq<u8>, Option<u64>)| labels.contains(pair.0) && pair.1 == table.status(pair.0),
    )
}

/// Whether every label still has the generation that was noted for it.
pub open spec fn still_holds(noted: Set<(Seq<u8>, Option<u64>)>, table: ScopeResult) -> bool {
    forall|pair: (Seq<u8>, Option<u64>)| #[trigger]
        noted.contains(pair) ==> table.status(pair.0) == pair.1
}

/// A record of labels that were looked up, each with the generation of its frame, or
/// with nothing where the label had no frame.
#[derive(Debug)]
pub struct ScopeUsage {
    lookups: Vec<(Vec<u8>, Option<u64>)>,
}

impl View for ScopeUsage {
    type V = Set<(Seq<u8>, Option<u64>)>;

    closed spec fn view(&self) -> Set<(Seq<u8>, Option<u64>)> {
        Set::new(
            |pair: (Seq<u8>, Option<u64>)|
                exists|i: int|
                    0 <= i < self.lookups@.len() && #[trigger] self.lookups@[i].0@ == pair.0
                        && self.lookups@[i].1 == pair.1,
        )
    }
}

impl ScopeUsage {
    closed spec fn place_of(&self, pair: (Seq<u8>, Option<u64>)) -> int {
        choose|i: int|
            0 <= i < self.lookups@.len() && #[trigger] self.lookups@[i].0@ == pair.0
                && self.lookups@[i].1 == pair.1
    }

    /// Whether the same lookups would bring the same frames from `result`.
    pub fn valid(&self, result: &ScopeResult) -> (valid: bool)
        ensures
            valid == still_holds(self@, *result),
    {
        proof {
            use_type_invariant(result);
        }
        let mut i: usize = 0;
        while i < self.lookups.len()
            invariant
                result.wf(),
                i <= self.lookups@.len(),
                forall|k: int|
                    0 <= k < i ==> result.status((#[trigger] self.lookups@[k]).0@)
                        == self.lookups@[k].1,
            decreases self.lookups@.len() - i,
        {
            let (place, found) = result.find(self.lookups[i].0.as_slice());
            let ghost pair = (self.lookups@[i as int].0@, self.lookups@[i as int].1);
            proof {
                assert(self.lookups@[i as int].0@ == pair.0);
                assert(self@.contains(pair));
                if found {
                    result.lemma_entry(place as int);
                } else {
                    result.lemma_absent(place as int, pair.0);
                }
            }
            let unchanged: bool = match self.lookups[i].1 {
                Some(generation) => found && result.entries[place].generation == generation,
                None => !found,
            };
            if !unchanged {
                return false;
            }
            i += 1;
        }
        proof {
            assert forall|pair: (Seq<u8>, Option<u64>)| #[trigger]
                self@.contains(pair) implies result.status(pair.0) == pair.1 by {
                let k = self.place_of(pair);
                assert(self.lookups@[k].0@ == pair.0);
            }
        }
        true
    }
}

} // verus!
