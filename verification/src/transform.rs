//! The schema transformer: one telemetry batch becomes one collector
//! record set, one flat entry per reading, with the raw 32-character
//! identifier regrouped into the collector's hyphenated form.

use vstd::prelude::*;

use crate::jsonchars::is_json_number;
use crate::strutil::{chars_to_string, push_run};
use crate::text::SensorData;

verus! {

/// One flat collector entry: hyphenated identifier, sensor label, and
/// the value token copied verbatim from the reading.
#[derive(Debug)]
pub struct ServerDataEntry {
    pub controller: String,
    pub sensor: String,
    pub value: String,
}

/// The abstract value of a [`ServerDataEntry`].
#[verifier::ext_equal]
pub ghost struct EntryV {
    pub controller: Seq<char>,
    pub sensor: Seq<char>,
    pub value: Seq<char>,
}

impl View for ServerDataEntry {
    type V = EntryV;

    open spec fn view(&self) -> EntryV {
        EntryV { controller: self.controller@, sensor: self.sensor@, value: self.value@ }
    }
}

/// The collector record set: the ordered entries of one batch.
#[derive(Debug)]
pub struct ServerData {
    pub data: Vec<ServerDataEntry>,
}

impl View for ServerData {
    type V = Seq<EntryV>;

    open spec fn view(&self) -> Seq<EntryV> {
        self.data@.map(|i: int, e: ServerDataEntry| e@)
    }
}

impl ServerData {
    /// Every entry's value field is a well-formed JSON number token.
    pub open spec fn wf(&self) -> bool {
        forall|i: int| 0 <= i < self@.len() ==> is_json_number((#[trigger] self@[i]).value)
    }
}

/// The 32-character identifier buffer regrouped as five runs of 8, 4,
/// 4, 4 and 12 characters, joined by hyphens.
pub open spec fn spec_hyphenate(cs: Seq<char>) -> Seq<char>
    recommends
        cs.len() == 32,
{
    cs.subrange(0, 8) + seq!['-'] + cs.subrange(8, 12) + seq!['-'] + cs.subrange(12, 16)
        + seq!['-'] + cs.subrange(16, 20) + seq!['-'] + cs.subrange(20, 32)
}

/// The shape of the regrouped identifier: 36 characters, hyphens at
/// exactly the positions 8, 13, 18 and 23, and every other position
/// holding the corresponding character of the buffer.  Grouping is
/// total and deterministic for every 32-character buffer.
pub proof fn lemma_hyphenate_shape(cs: Seq<char>)
    requires
        cs.len() == 32,
    ensures
        spec_hyphenate(cs).len() == 36,
        spec_hyphenate(cs)[8] == '-',
        spec_hyphenate(cs)[13] == '-',
        spec_hyphenate(cs)[18] == '-',
        spec_hyphenate(cs)[23] == '-',
        forall|i: int| 0 <= i < 8 ==> spec_hyphenate(cs)[i] == cs[i],
        forall|i: int| 9 <= i < 13 ==> spec_hyphenate(cs)[i] == cs[i - 1],
        forall|i: int| 14 <= i < 18 ==> spec_hyphenate(cs)[i] == cs[i - 2],
        forall|i: int| 19 <= i < 23 ==> spec_hyphenate(cs)[i] == cs[i - 3],
        forall|i: int| 24 <= i < 36 ==> spec_hyphenate(cs)[i] == cs[i - 4],
{
}

/// Build the hyphenated identifier string from a 32-character buffer.
pub fn format_controller(cs: &Vec<char>) -> (r: String)
    requires
        cs@.len() == 32,
    ensures
        r@ == spec_hyphenate(cs@),
{
    let mut out: Vec<char> = Vec::new();
    push_run(&mut out, cs, 0, 8);
    out.push('-');
    push_run(&mut out, cs, 8, 12);
    out.push('-');
    push_run(&mut out, cs, 12, 16);
    out.push('-');
    push_run(&mut out, cs, 16, 20);
    out.push('-');
    push_run(&mut out, cs, 20, 32);
    proof {
        assert(out@ =~= spec_hyphenate(cs@));
    }
    chars_to_string(&out)
}

impl ServerData {
    /// Reshape one batch into the collector's record set: entry count
    /// equals reading count, order is preserved, the sensor label and
    /// the value are copied verbatim, and every entry carries the
    /// hyphenated identifier of the batch.
    pub fn from(batch: &SensorData) -> (r: ServerData)
        requires
            batch.controller@.len() == 32,
        ensures
            r@.len() == batch@.sensors.len(),
            forall|i: int|
                0 <= i < batch@.sensors.len() ==> {
                    &&& (#[trigger] r@[i]).controller == spec_hyphenate(batch@.controller)
                    &&& r@[i].sensor == batch@.sensors[i].kind
                    &&& r@[i].value == batch@.sensors[i].value
                },
            batch.wf() ==> r.wf(),
    {
        let controller = format_controller(&batch.controller);
        let mut data: Vec<ServerDataEntry> = Vec::new();
        let mut i: usize = 0;
        while i < batch.sensors.len()
            invariant
                batch.controller@.len() == 32,
                i <= batch.sensors@.len(),
                data@.len() == i,
                controller@ == spec_hyphenate(batch@.controller),
                forall|j: int|
                    0 <= j < i ==> {
                        &&& (#[trigger] data@[j])@.controller == spec_hyphenate(batch@.controller)
                        &&& data@[j]@.sensor == batch@.sensors[j].kind
                        &&& data@[j]@.value == batch@.sensors[j].value
                    },
            decreases batch.sensors@.len() - i,
        {
            let entry = ServerDataEntry {
                controller: controller.clone(),
                sensor: batch.sensors[i].kind.clone(),
                value: batch.sensors[i].value.clone(),
            };
            data.push(entry);
            i += 1;
        }
        let r = ServerData { data };
        proof {
            assert(r@.len() == batch@.sensors.len());
        }
        r
    }
}

} // verus!
