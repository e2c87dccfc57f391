//! Dispatch preparation: the exact HTTP request that delivers one
//! collector record set, and the classification of the collector's
//! answer.  The transport itself stays outside; it is handed a prepared
//! request and hands back a status code.

use vstd::prelude::*;
use vstd::string::{StrSliceExecFns, StringExecFns};

use crate::errors::TelemetryError;
use crate::jsonchars::quoted;
use crate::strutil::{chars_to_string, push_run, str_to_chars};
use crate::text::push_quoted;
use crate::transform::{EntryV, ServerData};

verus! {

pub open spec fn key_data() -> Seq<char> {
    seq!['"', 'd', 'a', 't', 'a', '"']
}

pub open spec fn key_rec_controller() -> Seq<char> {
    seq!['"', 'c', 'o', 'n', 't', 'r', 'o', 'l', 'l', 'e', 'r', '"']
}

pub open spec fn key_sensor() -> Seq<char> {
    seq!['"', 's', 'e', 'n', 's', 'o', 'r', '"']
}

pub open spec fn key_val() -> Seq<char> {
    seq!['"', 'v', 'a', 'l', 'u', 'e', '"']
}

/// One record entry in the collector's wire schema.
pub open spec fn enc_server_entry(e: EntryV) -> Seq<char> {
    seq!['{'] + key_rec_controller() + seq![':'] + quoted(e.controller) + seq![','] + key_sensor()
        + seq![':'] + quoted(e.sensor) + seq![','] + key_val() + seq![':'] + e.value + seq!['}']
}

/// The record entries as a comma-separated run.
pub open spec fn enc_server_entries(es: Seq<EntryV>) -> Seq<char>
    decreases es.len(),
{
    if es.len() == 0 {
        Seq::<char>::empty()
    } else if es.len() == 1 {
        enc_server_entry(es[0])
    } else {
        enc_server_entry(es[0]) + seq![','] + enc_server_entries(es.drop_first())
    }
}

/// The collector's request body for one record set.
pub open spec fn spec_server_json(es: Seq<EntryV>) -> Seq<char> {
    seq!['{'] + key_data() + seq![':'] + seq!['['] + enc_server_entries(es) + seq![']']
        + seq!['}']
}

proof fn lemma_enc_server_entries_snoc(es: Seq<EntryV>, e: EntryV)
    requires
        es.len() >= 1,
    ensures
        enc_server_entries(es.push(e)) == enc_server_entries(es) + seq![','] + enc_server_entry(e),
    decreases es.len(),
{
    if es.len() == 1 {
        assert(es.push(e).drop_first() =~= seq![e]);
        assert(es.push(e)[0] == es[0]);
        assert(enc_server_entries(seq![e]) == enc_server_entry(e));
        assert(enc_server_entries(es.push(e)) =~= enc_server_entries(es) + seq![',']
            + enc_server_entry(e));
    } else {
        assert(es.push(e).drop_first() =~= es.drop_first().push(e));
        assert(es.push(e)[0] == es[0]);
        lemma_enc_server_entries_snoc(es.drop_first(), e);
        assert(enc_server_entries(es.push(e)) =~= enc_server_entries(es) + seq![',']
            + enc_server_entry(e));
    }
}

/// Append one record entry to `out`.
#[verifier::rlimit(100)]
#[verifier::spinoff_prover]
fn push_server_entry(out: &mut Vec<char>, d: &ServerData, i: usize)
    requires
        i < d.data@.len(),
    ensures
        final(out)@ == old(out)@ + enc_server_entry(d@[i as int]),
{
    out.push('{');
    out.push('"');
    out.push('c');
    out.push('o');
    out.push('n');
    out.push('t');
    out.push('r');
    out.push('o');
    out.push('l');
    out.push('l');
    out.push('e');
    out.push('r');
    out.push('"');
    out.push(':');
    let cc = str_to_chars(d.data[i].controller.as_str());
    push_quoted(out, &cc);
    out.push(',');
    out.push('"');
    out.push('s');
    out.push('e');
    out.push('n');
    out.push('s');
    out.push('o');
    out.push('r');
    out.push('"');
    out.push(':');
    let sc = str_to_chars(d.data[i].sensor.as_str());
    push_quoted(out, &sc);
    out.push(',');
    out.push('"');
    out.push('v');
    out.push('a');
    out.push('l');
    out.push('u');
    out.push('e');
    out.push('"');
    out.push(':');
    let vc = str_to_chars(d.data[i].value.as_str());
    push_run(out, &vc, 0, vc.len());
    out.push('}');
    proof {
        assert(vc@.subrange(0, vc@.len() as int) =~= vc@);
        assert(out@ =~= old(out)@ + enc_server_entry(d@[i as int]));
    }
}

/// Build the collector's JSON body for one record set.
pub fn encode_server_data(d: &ServerData) -> (r: String)
    ensures
        r@ == spec_server_json(d@),
{
    let mut out: Vec<char> = Vec::new();
    out.push('{');
    out.push('"');
    out.push('d');
    out.push('a');
    out.push('t');
    out.push('a');
    out.push('"');
    out.push(':');
    out.push('[');
    let ghost head = seq!['{'] + key_data() + seq![':'] + seq!['['];
    proof {
        assert(out@ =~= head);
    }
    let mut i: usize = 0;
    while i < d.data.len()
        invariant
            i <= d.data@.len(),
            out@ == head + enc_server_entries(d@.take(i as int)),
        decreases d.data@.len() - i,
    {
        proof {
            assert(d@[i as int] == d.data@[i as int]@);
            assert(d@.take(i as int).push(d@[i as int]) =~= d@.take(i + 1));
        }
        if i > 0 {
            out.push(',');
            push_server_entry(&mut out, d, i);
            proof {
                lemma_enc_server_entries_snoc(d@.take(i as int), d@[i as int]);
                assert(out@ =~= head + enc_server_entries(d@.take(i + 1)));
            }
        } else {
            push_server_entry(&mut out, d, i);
            proof {
                assert(enc_server_entries(d@.take(1)) == enc_server_entry(d@[0]));
                assert(out@ =~= head + enc_server_entries(d@.take(1)));
            }
        }
        i += 1;
    }
    out.push(']');
    out.push('}');
    proof {
        assert(d@.take(d.data@.len() as int) =~= d@);
        assert(out@ =~= spec_server_json(d@));
    }
    chars_to_string(&out)
}

/// One prepared delivery: where to send, the two headers, and the body.
#[derive(Debug)]
pub struct DispatchRequest {
    pub url: String,
    pub content_type: String,
    pub auth_header: String,
    pub body: String,
}

/// Prepare the one HTTP POST that delivers `data`: the configured
/// endpoint followed by the collector path, a JSON content type, the
/// fixed basic-auth header, and the record set as the body.
pub fn build_dispatch_request(endpoint: &str, credential: &str, data: &ServerData) -> (r:
    DispatchRequest)
    ensures
        r.url@ == endpoint@ + "sensor-data"@,
        r.content_type@ == "application/json"@,
        r.auth_header@ == "Basic "@ + credential@,
        r.body@ == spec_server_json(data@),
{
    let url = String::from_str(endpoint).concat("sensor-data");
    let auth_header = String::from_str("Basic ").concat(credential);
    let content_type = "application/json".to_owned();
    let body = encode_server_data(data);
    DispatchRequest { url, content_type, auth_header, body }
}

/// Classify the collector's HTTP status: a client or server error
/// status is a `DeliveryError` (the record is dropped and the failure
/// logged); anything else is success.
pub fn classify_status(status: u16) -> (r: Result<(), TelemetryError>)
    ensures
        r is Ok <==> !(400 <= status && status < 600),
        r is Err ==> r == Err::<(), TelemetryError>(TelemetryError::DeliveryError),
{
    if 400 <= status && status < 600 {
        Err(TelemetryError::DeliveryError)
    } else {
        Ok(())
    }
}

/// The forwarder's configuration: the collector endpoint and the
/// basic-auth credential, both required.
#[derive(Debug)]
pub struct DispatchConfig {
    pub endpoint: String,
    pub credential: String,
}

/// Validate the configuration read from the environment at startup:
/// both values must be present, and a missing one is fatal.
pub fn check_config(endpoint: Option<String>, credential: Option<String>) -> (r: Result<
    DispatchConfig,
    TelemetryError,
>)
    ensures
        match r {
            Ok(c) => endpoint == Some(c.endpoint) && credential == Some(c.credential),
            Err(e) => (endpoint is None || credential is None) && e
                == TelemetryError::ConfigurationError,
        },
{
    match (endpoint, credential) {
        (Some(e), Some(c)) => Ok(DispatchConfig { endpoint: e, credential: c }),
        _ => Err(TelemetryError::ConfigurationError),
    }
}

} // verus!
