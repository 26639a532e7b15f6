//! A verified checker of Metamath proofs.
//!
//! [`verify::verify`] checks all proofs of a database, and [`model`] says what it has to
//! find.  That its verdicts are right is shown in [`soundness`] and [`completeness`], for
//! databases in which no variable is listed twice in a frame, no variable of an assertion
//! has two `$f` hypotheses, and only listed variables are declared distinct;
//! [`fitness::is_database_sound`] tests that.  Completeness asks in addition that the
//! hypotheses of a statement have labels.
//!
//! What the model means is said once more in terms of the parts of frames and statements
//! alone: what an accepted proof is in [`meaning`], [`traces`] and [`compressed`]; its parts
//! in [`instances`], [`citation`], [`application`], [`binders`] and [`runs`]; and what is
//! reported, and when it can be kept, in [`listing`] and [`freshness`].

pub mod application;
pub mod binders;
pub mod bit_set;
pub mod citation;
pub mod completeness;
pub mod compressed;
pub mod diag;
pub mod expansion;
pub mod fitness;
pub mod formats;
pub mod forms;
pub mod freshness;
pub mod incremental;
pub mod instances;
pub mod letters;
pub mod listing;
pub mod meaning;
pub mod model;
pub mod nameck;
pub mod numbering;
pub mod occurrence;
pub mod parser;
pub mod readings;
pub mod reports;
pub mod rosters;
pub mod runs;
pub mod scopeck;
pub mod segment_set;
pub mod settings;
pub mod soundness;
pub mod substitute;
pub mod symbols;
pub mod traces;
pub mod util;
pub mod verify;
