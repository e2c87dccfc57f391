//! The stream line parser of the forwarder.
//!
//! The supervised monitor prints many kinds of lines; only those that
//! begin with the literal marker `Decoded:` carry a telemetry batch.
//! The payload is what follows the marker and one separating character.

use vstd::prelude::*;
use vstd::string::StrSliceExecFns;

use crate::errors::TelemetryError;
use crate::strutil::chars_to_string;
use crate::text::{decode_text, spec_parse_text, SensorData};

verus! {

/// The number of characters in the marker `Decoded:`.
pub const MARKER_LEN: usize = 8;

/// A line carries telemetry exactly when it begins with `Decoded:`.
pub open spec fn is_telemetry_line(s: Seq<char>) -> bool {
    s.len() >= 8 && s.subrange(0, 8) == "Decoded:"@
}

/// The payload of a telemetry line: everything after the marker and one
/// separating character.
pub open spec fn payload_of(s: Seq<char>) -> Seq<char> {
    if s.len() >= 9 {
        s.subrange(9, s.len() as int)
    } else {
        Seq::<char>::empty()
    }
}

/// Recognize a telemetry line and hand back its payload; any line that
/// does not begin with the marker is ignored.
pub fn extract_payload(line: &str) -> (r: Option<String>)
    ensures
        match r {
            Some(p) => is_telemetry_line(line@) && p@ == payload_of(line@),
            None => !is_telemetry_line(line@),
        },
{
    proof {
        reveal_strlit("Decoded:");
    }
    let n = line.unicode_len();
    if n < MARKER_LEN {
        return None;
    }
    if !(line.get_char(0) == 'D' && line.get_char(1) == 'e' && line.get_char(2) == 'c'
        && line.get_char(3) == 'o' && line.get_char(4) == 'd' && line.get_char(5) == 'e'
        && line.get_char(6) == 'd' && line.get_char(7) == ':') {
        proof {
            if line@.subrange(0, 8) == "Decoded:"@ {
                assert(line@[0] == line@.subrange(0, 8)[0]);
                assert(line@[1] == line@.subrange(0, 8)[1]);
                assert(line@[2] == line@.subrange(0, 8)[2]);
                assert(line@[3] == line@.subrange(0, 8)[3]);
                assert(line@[4] == line@.subrange(0, 8)[4]);
                assert(line@[5] == line@.subrange(0, 8)[5]);
                assert(line@[6] == line@.subrange(0, 8)[6]);
                assert(line@[7] == line@.subrange(0, 8)[7]);
                assert(false);
            }
        }
        return None;
    }
    proof {
        assert(line@.subrange(0, 8) =~= "Decoded:"@);
    }
    if n < MARKER_LEN + 1 {
        let empty: Vec<char> = Vec::new();
        let p = chars_to_string(&empty);
        proof {
            assert(p@ =~= payload_of(line@));
        }
        Some(p)
    } else {
        let p = line.substring_char(MARKER_LEN + 1, n).to_owned();
        proof {
            assert(p@ =~= payload_of(line@));
        }
        Some(p)
    }
}

/// The per-line decision of the forwarder: a line without the marker is
/// ignored; a marked line's payload is decoded, and a payload that is
/// not a well-formed batch is a non-fatal `InvalidJson` error that the
/// caller logs before moving to the next line.
pub fn parse_line(line: &str) -> (r: Option<Result<SensorData, TelemetryError>>)
    ensures
        match r {
            None => !is_telemetry_line(line@),
            Some(res) => is_telemetry_line(line@) && match res {
                Ok(b) => spec_parse_text(payload_of(line@)) == Some(b@) && b.wf(),
                Err(e) => spec_parse_text(payload_of(line@)) is None && e
                    == TelemetryError::InvalidJson,
            },
        },
{
    match extract_payload(line) {
        None => None,
        Some(p) => Some(decode_text(p.as_str())),
    }
}

} // verus!
