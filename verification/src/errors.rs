//! The error kinds that the relay distinguishes.

use vstd::prelude::*;

verus! {

/// Everything that can go wrong in the pipeline, by kind.
///
/// - `MalformedFrame`: a binary frame does not match the wire schema.
/// - `InvalidJson`: a textual payload is not a well-formed batch.
/// - `CapabilityError`: the radio capability failed a peer lookup or a
///   registration; the receive loop logs it and continues.
/// - `DeliveryError`: a dispatch ended in an error status or a transport
///   failure; the record is dropped.
/// - `ConfigurationError`: required configuration is missing at startup.
#[derive(Clone, Copy, PartialEq, Eq, Structural, Debug)]
pub enum TelemetryError {
    MalformedFrame,
    InvalidJson,
    CapabilityError,
    DeliveryError,
    ConfigurationError,
}

impl TelemetryError {
    /// A short label for log output.
    pub fn label(&self) -> (r: &'static str)
        ensures
            r@ == match *self {
                TelemetryError::MalformedFrame => "malformed frame"@,
                TelemetryError::InvalidJson => "invalid json"@,
                TelemetryError::CapabilityError => "capability error"@,
                TelemetryError::DeliveryError => "delivery error"@,
                TelemetryError::ConfigurationError => "configuration error"@,
            },
    {
        match *self {
            TelemetryError::MalformedFrame => "malformed frame",
            TelemetryError::InvalidJson => "invalid json",
            TelemetryError::CapabilityError => "capability error",
            TelemetryError::DeliveryError => "delivery error",
            TelemetryError::ConfigurationError => "configuration error",
        }
    }
}

} // verus!
