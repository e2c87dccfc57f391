//! A verified core for a field-sensor telemetry relay.
//!
//! A radio-attached receiver decodes telemetry batches from a compact
//! binary wire format and decides when a sender must be registered as a
//! peer; a host-side forwarder extracts decoded telemetry lines from a
//! monitor's output, reshapes each batch into the collector's record
//! schema, and prepares the HTTP dispatch for it.  The codecs, the line
//! parser, the schema transform, the dispatch preparation and the peer
//! decision live here; process supervision, the radio driver and the
//! HTTP transport stay outside.

pub mod dispatch;
pub mod errors;
pub mod jsonchars;
pub mod line;
pub mod text;
pub mod transform;
pub mod wire;
pub mod peer;
mod strutil;

use vstd::prelude::*;

verus! {

} // verus!
