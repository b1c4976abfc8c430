//! The failures that the metrics pipeline distinguishes.

use vstd::prelude::*;
use vstd::string::*;

verus! {

/// What can go wrong while metrics are recorded or reported.
#[derive(Clone, Copy, Debug, PartialEq, Eq, Structural)]
pub enum PipelineError {
    /// A metric name was requested as a counter although it is a timer, or
    /// the other way round.
    TypeMismatch,
    /// A reporter could not reach its sink.
    SinkUnavailable,
    /// A snapshot could not be encoded for a sink.
    SerializationError,
    /// A metric could not be updated, for instance through a stale handle.
    InstrumentationFault,
}

impl PipelineError {
    /// Only a type mismatch is a configuration error that should abort
    /// startup; every other failure is recovered from.
    pub open spec fn fatal(self) -> bool {
        self is TypeMismatch
    }

    pub fn is_fatal(self) -> (fatal: bool)
        ensures
            fatal == self.fatal(),
    {
        match self {
            PipelineError::TypeMismatch => true,
            _ => false,
        }
    }

    /// The text that names the failure in a log line.
    pub open spec fn message(self) -> Seq<char> {
        match self {
            PipelineError::TypeMismatch => "metric registered with another kind"@,
            PipelineError::SinkUnavailable => "sink unavailable"@,
            PipelineError::SerializationError => "snapshot could not be encoded"@,
            PipelineError::InstrumentationFault => "metric could not be recorded"@,
        }
    }

    pub fn describe(self) -> (text: String)
        ensures
            text@ == self.message(),
    {
        match self {
            PipelineError::TypeMismatch => String::from_str("metric registered with another kind"),
            PipelineError::SinkUnavailable => String::from_str("sink unavailable"),
            PipelineError::SerializationError => String::from_str("snapshot could not be encoded"),
            PipelineError::InstrumentationFault => String::from_str("metric could not be recorded"),
        }
    }
}

/// Why a reporter configuration was rejected.
#[derive(Clone, Copy, Debug, PartialEq, Eq, Structural)]
pub enum ConfigError {
    /// The reporting interval is not a positive number of seconds.
    InvalidInterval,
    /// The sink address is not of the form `host:port`.
    MalformedSinkAddress,
    /// The sink database has no name.
    EmptyDatabase,
}

} // verus!
