//! What can be wrong with a proof.

use vstd::prelude::*;

verus! {

/// A fault in a proof.  Where it concerns a step by name, it holds the label.
#[derive(Debug, PartialEq, Eq)]
pub enum Diagnostic {
    /// The finished proof leaves more than one expression.
    ProofExcessEnd,
    /// Variables that have to be distinct are not declared so.
    ProofDvViolation,
    /// A step of the proof is still unknown.
    ProofIncomplete,
    /// A letter asks to save a step where there is none to save.
    ProofInvalidSave,
    /// A number in a compressed proof is cut off or too large.
    ProofMalformedVarint,
    /// The proof proves nothing.
    ProofNoSteps,
    /// A step needs more hypotheses than there are expressions.
    ProofUnderflow,
    /// The list of labels in a compressed proof has no end.
    ProofUnterminatedRoster,
    /// The proof ends in another expression than the one to be proved.
    ProofWrongExprEnd,
    /// The proof ends in an expression of another type than the one to be proved.
    ProofWrongTypeEnd,
    /// An expression is not the instance of a `$e` hypothesis that it should be.
    StepEssenWrong,
    /// An expression has another type than the `$e` hypothesis it is used for.
    StepEssenWrongType,
    /// An expression has another type than the `$f` hypothesis it is used for.
    StepFloatWrongType,
    /// No hypothesis or assertion has this label.
    StepMissing(Vec<u8>),
    /// A compressed proof refers to a step that it does not have.
    StepOutOfRange,
    /// The statement with this label is out of scope already.
    StepUsedAfterScope(Vec<u8>),
    /// The statement with this label comes later.
    StepUsedBeforeDefinition(Vec<u8>),
}

/// The mathematical counterpart of [`Diagnostic`].
pub enum Fault {
    ProofExcessEnd,
    ProofDvViolation,
    ProofIncomplete,
    ProofInvalidSave,
    ProofMalformedVarint,
    ProofNoSteps,
    ProofUnderflow,
    ProofUnterminatedRoster,
    ProofWrongExprEnd,
    ProofWrongTypeEnd,
    StepEssenWrong,
    StepEssenWrongType,
    StepFloatWrongType,
    StepMissing(Seq<u8>),
    StepOutOfRange,
    StepUsedAfterScope(Seq<u8>),
    StepUsedBeforeDefinition(Seq<u8>),
}

impl View for Diagnostic {
    type V = Fault;

    open spec fn view(&self) -> Fault {
        match self {
            Diagnostic::ProofExcessEnd => Fault::ProofExcessEnd,
            Diagnostic::ProofDvViolation => Fault::ProofDvViolation,
            Diagnostic::ProofIncomplete => Fault::ProofIncomplete,
            Diagnostic::ProofInvalidSave => Fault::ProofInvalidSave,
            Diagnostic::ProofMalformedVarint => Fault::ProofMalformedVarint,
            Diagnostic::ProofNoSteps => Fault::ProofNoSteps,
            Diagnostic::ProofUnderflow => Fault::ProofUnderflow,
            Diagnostic::ProofUnterminatedRoster => Fault::ProofUnterminatedRoster,
            Diagnostic::ProofWrongExprEnd => Fault::ProofWrongExprEnd,
            Diagnostic::ProofWrongTypeEnd => Fault::ProofWrongTypeEnd,
            Diagnostic::StepEssenWrong => Fault::StepEssenWrong,
            Diagnostic::StepEssenWrongType => Fault::StepEssenWrongType,
            Diagnostic::StepFloatWrongType => Fault::StepFloatWrongType,
            Diagnostic::StepMissing(label) => Fault::StepMissing(label@),
            Diagnostic::StepOutOfRange => Fault::StepOutOfRange,
            Diagnostic::StepUsedAfterScope(label) => Fault::StepUsedAfterScope(label@),
            Diagnostic::StepUsedBeforeDefinition(label) => Fault::StepUsedBeforeDefinition(label@),
        }
    }
}

/// The fault in what a check returned, if it found one.
pub open spec fn fault_of(result: Option<Diagnostic>) -> Option<Fault> {
    match result {
        Some(diagnostic) => Some(diagnostic@),
        None => None,
    }
}

fn copy_label(label: &Vec<u8>) -> (copy: Vec<u8>)
    ensures
        copy@ == label@,
{
    let copy = label.clone();
    assert(copy@ =~= label@);
    copy
}

impl Clone for Diagnostic {
    fn clone(&self) -> (copy: Diagnostic)
        ensures
            copy@ == self@,
    {
        match self {
            Diagnostic::ProofExcessEnd => Diagnostic::ProofExcessEnd,
            Diagnostic::ProofDvViolation => Diagnostic::ProofDvViolation,
            Diagnostic::ProofIncomplete => Diagnostic::ProofIncomplete,
            Diagnostic::ProofInvalidSave => Diagnostic::ProofInvalidSave,
            Diagnostic::ProofMalformedVarint => Diagnostic::ProofMalformedVarint,
            Diagnostic::ProofNoSteps => Diagnostic::ProofNoSteps,
            Diagnostic::ProofUnderflow => Diagnostic::ProofUnderflow,
            Diagnostic::ProofUnterminatedRoster => Diagnostic::ProofUnterminatedRoster,
            Diagnostic::ProofWrongExprEnd => Diagnostic::ProofWrongExprEnd,
            Diagnostic::ProofWrongTypeEnd => Diagnostic::ProofWrongTypeEnd,
            Diagnostic::StepEssenWrong => Diagnostic::StepEssenWrong,
            Diagnostic::StepEssenWrongType => Diagnostic::StepEssenWrongType,
            Diagnostic::StepFloatWrongType => Diagnostic::StepFloatWrongType,
            Diagnostic::StepMissing(label) => Diagnostic::StepMissing(copy_label(label)),
            Diagnostic::StepOutOfRange => Diagnostic::StepOutOfRange,
            Diagnostic::StepUsedAfterScope(label) => Diagnostic::StepUsedAfterScope(
                copy_label(label),
            ),
            Diagnostic::StepUsedBeforeDefinition(label) => Diagnostic::StepUsedBeforeDefinition(
                copy_label(label),
            ),
        }
    }
}

} // verus!
