//! Progress states a worker reports while it runs the pipeline as one unit
//! of distributed work.
//!
//! The task-queue framework that carries these states is an external
//! collaborator; this is the protocol's plain data.

use vstd::prelude::*;

verus! {

/// The progress a build-index task reports: the vector-generation phase is
/// the one long-running stage.
#[derive(Clone, Copy, PartialEq, Eq, Structural, Debug)]
pub enum BuildIndexProgress {
    /// Generating and persisting the vectors.
    Generate {},
}

} // verus!
