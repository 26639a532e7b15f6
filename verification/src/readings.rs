//! How what is given and what is returned is read: letters of compressed proofs, names,
//! words and diagnostics.

use crate::bit_set::Bitset;
use crate::diag::{fault_of, Diagnostic, Fault};
use crate::model::{decode, Database, Instruction};
use crate::nameck::Nameset;
use crate::parser::{Statement, StatementAddress};
use crate::scopeck::ScopeResult;
use crate::segment_set::SegmentSet;
use crate::substitute::buffer_values;
use crate::util::lex_less;
use crate::verify::faults_of;
use std::ops::Range;
use vstd::prelude::*;

verus! {

/// The letters `A` to `T` stand for the numbers 0 to 19, on top of twenty times what the
/// digits before amount to, and complete a number; the next number begins anew.
pub proof fn law_last_letter(rest: Seq<u8>, digits: int, can_save: bool, place: int)
    requires
        0 <= place < 20,
    ensures
        decode(seq![(0x41 + place) as u8] + rest, digits, can_save) == seq![
            Instruction::Use(20 * digits + place),
        ] + decode(rest, 0, true),
{
    let letters = seq![(0x41 + place) as u8] + rest;
    assert(letters.drop_first() =~= rest);
}

/// The letters `U` to `Y` are digits from 1 to 5 in base five, and nothing can be saved in
/// the middle of a number; too many of them are a fault.
pub proof fn law_leading_letter(rest: Seq<u8>, digits: int, can_save: bool, digit: int)
    requires
        1 <= digit <= 5,
    ensures
        decode(seq![(0x54 + digit) as u8] + rest, digits, can_save) == if 5 * digits + digit
            < 214748363 {
            decode(rest, 5 * digits + digit, false)
        } else {
            seq![Instruction::Stop(Fault::ProofMalformedVarint)]
        },
{
    let letters = seq![(0x54 + digit) as u8] + rest;
    assert(letters.drop_first() =~= rest);
}

/// `Z` saves a step, once and right after a number; `?` ends the proof; all other bytes are
/// skipped; and the end must not come in the middle of a number.
pub proof fn law_other_letters(rest: Seq<u8>, digits: int, can_save: bool, byte: u8)
    ensures
        decode(seq![0x5au8] + rest, digits, can_save) == if can_save {
            seq![Instruction::Save] + decode(rest, digits, false)
        } else {
            seq![Instruction::Stop(Fault::ProofInvalidSave)]
        },
        decode(seq![0x3fu8] + rest, digits, can_save) == if digits > 0 {
            seq![Instruction::Stop(Fault::ProofMalformedVarint)]
        } else {
            seq![Instruction::Stop(Fault::ProofIncomplete)]
        },
        !(0x41 <= byte <= 0x5a) && byte != 0x3f ==> decode(
            seq![byte] + rest,
            digits,
            can_save,
        ) == decode(rest, digits, can_save),
        decode(Seq::empty(), digits, can_save) == if digits > 0 {
            seq![Instruction::Stop(Fault::ProofMalformedVarint)]
        } else {
            Seq::empty()
        },
{
    assert((seq![0x5au8] + rest).drop_first() =~= rest);
    assert((seq![0x3fu8] + rest).drop_first() =~= rest);
    assert((seq![byte] + rest).drop_first() =~= rest);
}

/// The words of a proof are read as they are, one by one.
pub proof fn law_words_read(statement: Statement)
    ensures
        statement.proof_words().len() == statement.proof@.len(),
        forall|i: int|
            0 <= i < statement.proof@.len() ==> #[trigger] statement.proof_words()[i]
                == statement.proof@[i]@,
{
}

/// Names are read as they are, one by one.
pub proof fn law_names_read(nset: Nameset)
    ensures
        nset@.len() == nset.names@.len(),
        forall|i: int| 0 <= i < nset.names@.len() ==> #[trigger] nset@[i] == nset.names@[i]@,
{
}

/// A diagnostic tells the fault: two diagnostics that tell the same fault are of the same
/// kind, and tell the same label where they tell one.
pub proof fn law_diagnostics_tell(left: Diagnostic, right: Diagnostic)
    requires
        left@ == right@,
    ensures
        left is ProofExcessEnd == right is ProofExcessEnd,
        left is ProofDvViolation == right is ProofDvViolation,
        left is ProofIncomplete == right is ProofIncomplete,
        left is ProofInvalidSave == right is ProofInvalidSave,
        left is ProofMalformedVarint == right is ProofMalformedVarint,
        left is ProofNoSteps == right is ProofNoSteps,
        left is ProofUnderflow == right is ProofUnderflow,
        left is ProofUnterminatedRoster == right is ProofUnterminatedRoster,
        left is ProofWrongExprEnd == right is ProofWrongExprEnd,
        left is ProofWrongTypeEnd == right is ProofWrongTypeEnd,
        left is StepEssenWrong == right is StepEssenWrong,
        left is StepEssenWrongType == right is StepEssenWrongType,
        left is StepFloatWrongType == right is StepFloatWrongType,
        left is StepOutOfRange == right is StepOutOfRange,
        left matches Diagnostic::StepMissing(label) ==> (
        right matches Diagnostic::StepMissing(other) && label@ == other@),
        left matches Diagnostic::StepUsedAfterScope(label) ==> (
        right matches Diagnostic::StepUsedAfterScope(other) && label@ == other@),
        left matches Diagnostic::StepUsedBeforeDefinition(label) ==> (
        right matches Diagnostic::StepUsedBeforeDefinition(other) && label@ == other@),
{
}

/// Each kind of diagnostic tells the fault of that kind, with its whole label.
pub proof fn law_diagnostic_kinds(diagnostic: Diagnostic)
    ensures
        diagnostic is ProofExcessEnd <==> diagnostic@ is ProofExcessEnd,
        diagnostic is ProofDvViolation <==> diagnostic@ is ProofDvViolation,
        diagnostic is ProofIncomplete <==> diagnostic@ is ProofIncomplete,
        diagnostic is ProofInvalidSave <==> diagnostic@ is ProofInvalidSave,
        diagnostic is ProofMalformedVarint <==> diagnostic@ is ProofMalformedVarint,
        diagnostic is ProofNoSteps <==> diagnostic@ is ProofNoSteps,
        diagnostic is ProofUnderflow <==> diagnostic@ is ProofUnderflow,
        diagnostic is ProofUnterminatedRoster <==> diagnostic@ is ProofUnterminatedRoster,
        diagnostic is ProofWrongExprEnd <==> diagnostic@ is ProofWrongExprEnd,
        diagnostic is ProofWrongTypeEnd <==> diagnostic@ is ProofWrongTypeEnd,
        diagnostic is StepEssenWrong <==> diagnostic@ is StepEssenWrong,
        diagnostic is StepEssenWrongType <==> diagnostic@ is StepEssenWrongType,
        diagnostic is StepFloatWrongType <==> diagnostic@ is StepFloatWrongType,
        diagnostic is StepOutOfRange <==> diagnostic@ is StepOutOfRange,
        diagnostic matches Diagnostic::StepMissing(label) ==> diagnostic@ == Fault::StepMissing(
            label@,
        ),
        diagnostic matches Diagnostic::StepUsedAfterScope(label) ==> diagnostic@
            == Fault::StepUsedAfterScope(label@),
        diagnostic matches Diagnostic::StepUsedBeforeDefinition(label) ==> diagnostic@
            == Fault::StepUsedBeforeDefinition(label@),
        fault_of(Some(diagnostic)) == Some(diagnostic@),
        fault_of(None) is None,
{
}

/// A list of diagnostics is read entry by entry: the address, and the fault.
pub proof fn law_lists_read(list: Seq<(StatementAddress, Diagnostic)>)
    ensures
        faults_of(list).len() == list.len(),
        forall|i: int|
            0 <= i < list.len() ==> (#[trigger] faults_of(list)[i]).0 == list[i].0 && faults_of(
                list,
            )[i].1 == list[i].1@,
{
}

/// The dictionary order goes by the first place where two words differ: there the smaller
/// byte comes first, and a word comes before all that it begins.
pub proof fn law_dictionary(left: Seq<u8>, right: Seq<u8>, k: int)
    requires
        0 <= k <= left.len(),
        k <= right.len(),
        forall|i: int| 0 <= i < k ==> left[i] == right[i],
        k < left.len() && k < right.len() ==> left[k] != right[k],
    ensures
        lex_less(left, right) <==> k < right.len() && (k == left.len() || left[k] < right[k]),
    decreases k,
{
    if k > 0 {
        let (a, b) = (left.drop_first(), right.drop_first());
        assert(left[0] == right[0]);
        assert forall|i: int| 0 <= i < k - 1 implies a[i] == b[i] by {
            assert(left[i + 1] == right[i + 1]);
        }
        law_dictionary(a, b, k - 1);
    }
}

/// The symbols for a variable are the bytes at its place in the buffer, one by one.
pub proof fn law_places_read(vars: Seq<(Range<usize>, Bitset)>, buffer: Seq<u8>, var: usize, k: int)
    requires
        var < vars.len(),
        vars[var as int].0.start <= vars[var as int].0.end <= buffer.len(),
    ensures
        buffer_values(vars, buffer).contains_key(var),
        buffer_values(vars, buffer)[var].len() == vars[var as int].0.end - vars[var as int].0.start,
        0 <= k < buffer_values(vars, buffer)[var].len() ==> buffer_values(vars, buffer)[var][k]
            == buffer[vars[var as int].0.start + k],
{
}

/// A database consists of the parts that it is made of, as they are.
pub proof fn law_parts_read(segments: SegmentSet, nset: Nameset, scopes: ScopeResult)
    ensures
        ({
            let database = Database::of(&segments, &nset, &scopes);
            &&& database.segments == segments
            &&& database.names == nset@
            &&& database.scopes == scopes
        }),
{
}

} // verus!
