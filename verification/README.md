# metamath_verify

A checker of Metamath proofs, verified with Verus.

Metamath knows a single rule: from instances of the hypotheses of an axiom or theorem
follows the same instance of what it says, as long as variables that have to be distinct
are declared so. A proof lists the steps of such a derivation, either label by label or in
a compressed format. The checker runs each proof on a stack of expressions and reports the
first fault of each.

## What is proved

* The checker finds just the faults that the model in `src/model.rs` says a proof has, and
  neither overflows nor indexes out of bounds.
* What it accepts can be derived by the rule (`src/soundness.rs`), and what can be derived
  has a proof that it accepts (`src/completeness.rs`). This is for databases in which no
  frame lists a variable twice, no variable of an assertion has two `$f` hypotheses, and
  only listed variables are declared distinct, which `fitness::is_database_sound` tests;
  what can be derived has a proof as long as the hypotheses of the statement have labels.
* The variables that it keeps track of are those that occur in the expressions
  (`src/occurrence.rs`, `src/symbols.rs`).
* Each number in a compressed proof has one spelling and is read back as it was written
  (`src/letters.rs`). Proofs can be put from one format into the other (`src/formats.rs`,
  `src/expansion.rs`), whatever the list of labels is (`src/rosters.rs`).
* No two variables share a number (`src/numbering.rs`).
* Checking only what may have changed has the outcome of a complete check
  (`src/incremental.rs`).
* The diagnostics of a database are those of its statements (`src/reports.rs`).

## Layout

* `src/parser.rs`, `src/segment_set.rs`, `src/nameck.rs`, `src/scopeck.rs`, `src/diag.rs`,
  `src/bit_set.rs`, `src/util.rs`: databases, names, frames and diagnostics.
* `src/model.rs`: what it means to check a proof.
* `src/substitute.rs`, `src/verify.rs`: the checker.
* `src/fitness.rs`: tests whether a database is fit to be checked, which is what the
  checker asks of its input, and whether it is what soundness asks for.
* `app/`: runs the checker on several threads.

A database consists of segments. Each has an id, under which its outcome is kept from one
check to the next; a segment is checked again when it is another one in memory, or when a
frame that its proofs look up has another generation.

The one thing that is taken on trust is `Arc::ptr_eq`: two handles that are the same have
equal contents.
