//! The pipeline's control state: an explicit state value advanced by each
//! phase's outcome, in the fixed order ingest, transform, write, verify,
//! with a terminal failure state reachable from any non-terminal state.

use vstd::prelude::*;
use crate::ingestion::IngestionError;
use crate::storage::{ReadError, WriteError};
use crate::transformation::TransformError;

verus! {

/// A startup configuration failure: the connection setting is absent.
#[derive(Clone, Copy, Debug, PartialEq, Eq, Structural)]
pub enum ConfigError {
    MissingDatabaseUrl,
}

/// Any failure a pipeline phase can end with.
#[derive(Debug, PartialEq, Eq)]
pub enum PipelineError {
    Config(ConfigError),
    Ingestion(IngestionError),
    Transform(TransformError),
    Write(WriteError),
    Read(ReadError),
}

/// Which phase a failure happened in.
#[derive(Clone, Copy, Debug, PartialEq, Eq, Structural)]
pub enum PhaseId {
    Startup,
    Ingest,
    Transform,
    Write,
    Verify,
}

/// The pipeline's control state.
#[derive(Debug, PartialEq, Eq)]
pub enum Stage {
    Idle,
    Ingesting,
    Transforming,
    Writing,
    Verifying,
    Done,
    Failed { during: PhaseId, error: PipelineError },
}

/// A state from which the pipeline advances no further.
pub open spec fn is_terminal(s: Stage) -> bool {
    s is Done || s is Failed
}

/// Advances the pipeline after the current phase completed with
/// `outcome`: on success to the next phase in the fixed order, ending at
/// `Done`; on failure to the terminal `Failed` state recording the phase
/// and its error.  There is no resume across phases.
pub fn next_stage(s: Stage, outcome: Result<(), PipelineError>) -> (r: Stage)
    requires
        !is_terminal(s),
    ensures
        outcome is Ok ==> r == (match s {
            Stage::Idle => Stage::Ingesting,
            Stage::Ingesting => Stage::Transforming,
            Stage::Transforming => Stage::Writing,
            Stage::Writing => Stage::Verifying,
            _ => Stage::Done,
        }),
        outcome matches Err(e) ==> r == (Stage::Failed {
            during: match s {
                Stage::Idle => PhaseId::Startup,
                Stage::Ingesting => PhaseId::Ingest,
                Stage::Transforming => PhaseId::Transform,
                Stage::Writing => PhaseId::Write,
                _ => PhaseId::Verify,
            },
            error: e,
        }),
        is_terminal(r) <==> (outcome is Err || s is Verifying),
{
    let during = match s {
        Stage::Idle => PhaseId::Startup,
        Stage::Ingesting => PhaseId::Ingest,
        Stage::Transforming => PhaseId::Transform,
        Stage::Writing => PhaseId::Write,
        _ => PhaseId::Verify,
    };
    match outcome {
        Ok(_) => match s {
            Stage::Idle => Stage::Ingesting,
            Stage::Ingesting => Stage::Transforming,
            Stage::Transforming => Stage::Writing,
            Stage::Writing => Stage::Verifying,
            _ => Stage::Done,
        },
        Err(e) => Stage::Failed { during, error: e },
    }
}

} // verus!
