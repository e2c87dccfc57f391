//! The receiver-side batch types and the compact binary wire codec.
//!
//! A frame carries the 32-character identifier as 32 length-prefixed
//! UTF-8 strings of one character each, then the reading count as a
//! little-endian base-128 varint, then each reading as a
//! length-prefixed UTF-8 kind label followed by the measured value's
//! four IEEE-754 bytes, least significant first.  The value never
//! enters any computation on this side, so it is carried as its 32-bit
//! pattern.

use vstd::prelude::*;
use vstd::string::StrSliceExecFns;
use vstd::utf8::{
    decode_utf8, encode_scalar, encode_utf8, encode_utf8_decode_utf8, encode_utf8_valid_utf8,
    valid_utf8,
};

use crate::errors::TelemetryError;
use crate::strutil::{chars_to_string, push_run, utf8_to_string};

verus! {

/// One reading as it crosses the radio: the kind label and the value's
/// IEEE-754 bit pattern.
#[derive(Debug)]
pub struct Data {
    pub kind: String,
    pub value: u32,
}

/// The abstract value of a wire [`Data`].
#[verifier::ext_equal]
pub ghost struct WireDataV {
    pub kind: Seq<char>,
    pub value: u32,
}

impl View for Data {
    type V = WireDataV;

    open spec fn view(&self) -> WireDataV {
        WireDataV { kind: self.kind@, value: self.value }
    }
}

/// One telemetry batch as the receiver holds it.
#[derive(Debug)]
pub struct SensorData {
    pub controller: Vec<char>,
    pub sensors: Vec<Data>,
}

/// The abstract value of a wire [`SensorData`].
#[verifier::ext_equal]
pub ghost struct WireBatchV {
    pub controller: Seq<char>,
    pub sensors: Seq<WireDataV>,
}

impl View for SensorData {
    type V = WireBatchV;

    open spec fn view(&self) -> WireBatchV {
        WireBatchV {
            controller: self.controller@,
            sensors: self.sensors@.map(|i: int, d: Data| d@),
        }
    }
}

impl SensorData {
    /// The identifier buffer holds exactly 32 characters.
    pub open spec fn wf(&self) -> bool {
        self.controller@.len() == 32
    }

    /// A fresh batch for one sender with no readings yet.
    pub fn new(controller: Vec<char>) -> (r: SensorData)
        requires
            controller@.len() == 32,
        ensures
            r@.controller == controller@,
            r@.sensors.len() == 0,
            r.wf(),
    {
        let r = SensorData { controller, sensors: Vec::new() };
        proof {
            assert(r@.sensors =~= Seq::<WireDataV>::empty());
        }
        r
    }

    /// Append one reading; transmission order is kept.
    pub fn add_data(&mut self, data: Data)
        ensures
            final(self)@.controller == old(self)@.controller,
            final(self)@.sensors == old(self)@.sensors.push(data@),
    {
        self.sensors.push(data);
        proof {
            assert(self@.sensors =~= old(self)@.sensors.push(data@));
        }
    }
}

/// Encodings of batch values stay within the wire format's limits: the
/// identifier is 32 characters, and counts and label lengths fit the
/// 64-bit varints of the format.
pub open spec fn wire_wf(b: WireBatchV) -> bool {
    &&& b.controller.len() == 32
    &&& b.sensors.len() < 0x10000000000000000
    &&& forall|i: int|
        0 <= i < b.sensors.len() ==> encode_utf8((#[trigger] b.sensors[i]).kind).len()
            < 0x10000000000000000
}

/// A little-endian base-128 varint.
pub open spec fn spec_varint(n: nat) -> Seq<u8>
    decreases n,
{
    if n < 128 {
        seq![n as u8]
    } else {
        seq![(n % 128 + 128) as u8] + spec_varint(n / 128)
    }
}

/// A length-prefixed UTF-8 string.
pub open spec fn spec_str(s: Seq<char>) -> Seq<u8> {
    spec_varint(encode_utf8(s).len()) + encode_utf8(s)
}

/// One identifier character: a one-character string.
pub open spec fn spec_char_elem(c: char) -> Seq<u8> {
    spec_str(seq![c])
}

/// The 32 identifier characters in order.
pub open spec fn spec_id(cs: Seq<char>) -> Seq<u8>
    decreases cs.len(),
{
    if cs.len() == 0 {
        Seq::<u8>::empty()
    } else {
        spec_char_elem(cs[0]) + spec_id(cs.drop_first())
    }
}

/// A value's four bytes, least significant first.
pub open spec fn spec_u32le(v: u32) -> Seq<u8> {
    seq![
        (v & 0xFF) as u8,
        ((v >> 8) & 0xFF) as u8,
        ((v >> 16) & 0xFF) as u8,
        ((v >> 24) & 0xFF) as u8,
    ]
}

/// One reading: kind label, then value bytes.
pub open spec fn spec_reading(d: WireDataV) -> Seq<u8> {
    spec_str(d.kind) + spec_u32le(d.value)
}

/// The readings in transmission order.
pub open spec fn spec_readings(ds: Seq<WireDataV>) -> Seq<u8>
    decreases ds.len(),
{
    if ds.len() == 0 {
        Seq::<u8>::empty()
    } else {
        spec_reading(ds[0]) + spec_readings(ds.drop_first())
    }
}

/// The whole batch: identifier, reading count, readings.
pub open spec fn spec_encode_binary(b: WireBatchV) -> Seq<u8> {
    spec_id(b.controller) + spec_varint(b.sensors.len()) + spec_readings(b.sensors)
}

/// Parse a varint with `rem` bytes still allowed; the last allowed
/// byte must leave the value inside 64 bits.
pub open spec fn pv(t: Seq<u8>, rem: nat) -> Option<(nat, Seq<u8>)>
    decreases rem,
{
    if rem == 0 {
        None
    } else if t.len() == 0 {
        None
    } else {
        let b = t[0];
        if b < 128 {
            if rem == 1 && b > 1 {
                None
            } else {
                Some((b as nat, t.drop_first()))
            }
        } else {
            match pv(t.drop_first(), (rem - 1) as nat) {
                Some((v, r)) => Some(((b - 128) as nat + 128 * v, r)),
                None => None,
            }
        }
    }
}

/// Parse a 64-bit varint: at most ten bytes.
pub open spec fn p_varint(t: Seq<u8>) -> Option<(nat, Seq<u8>)> {
    pv(t, 10)
}

pub open spec fn pow128(k: nat) -> nat
    decreases k,
{
    if k == 0 {
        1
    } else {
        128 * pow128((k - 1) as nat)
    }
}

/// A parsed varint value fits in the bits its bytes can carry; with
/// ten bytes allowed, that is 64 bits.
pub proof fn lemma_pv_bound(t: Seq<u8>, rem: nat)
    requires
        pv(t, rem) is Some,
    ensures
        pv(t, rem).unwrap().0 <= 2 * pow128((rem - 1) as nat) - 1,
    decreases rem,
{
    let b = t[0];
    if b < 128 {
        if rem > 1 {
            lemma_pow128_ge_one((rem - 1) as nat);
            assert(pv(t, rem).unwrap().0 == b as nat);
            assert(b < 128);
            assert(2 * pow128((rem - 1) as nat) - 1 >= 2 * 128 - 1) by {
                lemma_pow128_ge(128, (rem - 1) as nat);
            }
        }
    } else {
        lemma_pv_bound(t.drop_first(), (rem - 1) as nat);
        let v = pv(t.drop_first(), (rem - 1) as nat).unwrap().0;
        assert(v <= 2 * pow128((rem - 2) as nat) - 1);
        assert(pow128((rem - 1) as nat) == 128 * pow128((rem - 2) as nat));
        assert((b - 128) as nat + 128 * v <= 127 + 128 * (2 * pow128((rem - 2) as nat) - 1));
    }
}

proof fn lemma_pow128_ge_one(k: nat)
    ensures
        pow128(k) >= 1,
    decreases k,
{
    if k > 0 {
        lemma_pow128_ge_one((k - 1) as nat);
    }
}

proof fn lemma_pow128_ge(m: nat, k: nat)
    requires
        k >= 1,
        m <= 128,
    ensures
        pow128(k) >= m,
    decreases k,
{
    lemma_pow128_ge_one((k - 1) as nat);
}

/// The numeric value of ten varint bytes fits in 64 bits.
pub proof fn lemma_pow128_nine()
    ensures
        pow128(9) == 0x8000000000000000,
{
    assert(pow128(0) == 1);
    assert(pow128(1) == 128);
    assert(pow128(2) == 0x4000);
    assert(pow128(3) == 0x200000);
    assert(pow128(4) == 0x10000000);
    assert(pow128(5) == 0x800000000);
    assert(pow128(6) == 0x40000000000);
    assert(pow128(7) == 0x2000000000000);
    assert(pow128(8) == 0x100000000000000);
    assert(pow128(9) == 0x8000000000000000);
}

/// Parsing inverts the varint encoding for every value within `rem`
/// bytes.
pub proof fn lemma_pv_of_varint(n: nat, rest: Seq<u8>, rem: nat)
    requires
        rem >= 1,
        n <= 2 * pow128((rem - 1) as nat) - 1,
    ensures
        pv(spec_varint(n) + rest, rem) == Some((n, rest)),
    decreases rem,
{
    let t = spec_varint(n) + rest;
    if n < 128 {
        assert(spec_varint(n) =~= seq![n as u8]);
        assert(t[0] == n as u8);
        assert(t.drop_first() =~= rest);
        if rem == 1 {
            assert(pow128(0) == 1);
            assert(n <= 1);
        }
    } else {
        assert(t[0] == (n % 128 + 128) as u8);
        assert(t.drop_first() =~= spec_varint(n / 128) + rest);
        if rem == 1 {
            assert(pow128(0) == 1);
            assert(false);
        }
        let p = pow128((rem - 2) as nat);
        assert(pow128((rem - 1) as nat) == 128 * p);
        assert(n <= 256 * p - 1);
        assert(n / 128 <= 2 * p - 1);
        lemma_pv_of_varint(n / 128, rest, (rem - 1) as nat);
        assert((t[0] - 128) as nat == n % 128);
        assert(n % 128 + 128 * (n / 128) == n);
    }
}

/// Parse a length-prefixed UTF-8 string.
pub open spec fn p_bstr(t: Seq<u8>) -> Option<(Seq<char>, Seq<u8>)> {
    match p_varint(t) {
        Some((n, r)) => if n <= r.len() && valid_utf8(r.take(n as int)) {
            Some((decode_utf8(r.take(n as int)), r.skip(n as int)))
        } else {
            None
        },
        None => None,
    }
}

/// Parse one identifier character: a string of at most four bytes
/// holding at least one character; the first character counts.
pub open spec fn p_char_elem(t: Seq<u8>) -> Option<(char, Seq<u8>)> {
    match p_varint(t) {
        Some((n, r)) => if n <= 4 && n <= r.len() && valid_utf8(r.take(n as int)) && decode_utf8(
            r.take(n as int),
        ).len() >= 1 {
            Some((decode_utf8(r.take(n as int))[0], r.skip(n as int)))
        } else {
            None
        },
        None => None,
    }
}

/// Parse `k` identifier characters.
pub open spec fn p_id(t: Seq<u8>, k: nat) -> Option<(Seq<char>, Seq<u8>)>
    decreases k,
{
    if k == 0 {
        Some((Seq::<char>::empty(), t))
    } else {
        match p_char_elem(t) {
            Some((c, r)) => match p_id(r, (k - 1) as nat) {
                Some((cs, r2)) => Some((seq![c] + cs, r2)),
                None => None,
            },
            None => None,
        }
    }
}

/// Parse a value's four little-endian bytes.
pub open spec fn p_u32le(t: Seq<u8>) -> Option<(u32, Seq<u8>)> {
    if t.len() >= 4 {
        Some(
            (
                (t[0] as u32 + t[1] as u32 * 0x100 + t[2] as u32 * 0x10000 + t[3] as u32
                    * 0x1000000) as u32,
                t.skip(4),
            ),
        )
    } else {
        None
    }
}

/// Parse one reading.
pub open spec fn p_reading(t: Seq<u8>) -> Option<(WireDataV, Seq<u8>)> {
    match p_bstr(t) {
        Some((kind, r)) => match p_u32le(r) {
            Some((v, r2)) => Some((WireDataV { kind, value: v }, r2)),
            None => None,
        },
        None => None,
    }
}

/// Parse `k` readings.
pub open spec fn p_readings(t: Seq<u8>, k: nat) -> Option<(Seq<WireDataV>, Seq<u8>)>
    decreases k,
{
    if k == 0 {
        Some((Seq::<WireDataV>::empty(), t))
    } else {
        match p_reading(t) {
            Some((d, r)) => match p_readings(r, (k - 1) as nat) {
                Some((ds, r2)) => Some((seq![d] + ds, r2)),
                None => None,
            },
            None => None,
        }
    }
}

/// The whole-frame parser: identifier, count, readings; bytes after
/// the last reading are ignored, as the radio decoder ignores them.
pub open spec fn spec_decode_binary(t: Seq<u8>) -> Option<WireBatchV> {
    match p_id(t, 32) {
        Some((cs, r)) => match p_varint(r) {
            Some((n, r2)) => match p_readings(r2, n) {
                Some((ds, r3)) => Some(WireBatchV { controller: cs, sensors: ds }),
                None => None,
            },
            None => None,
        },
        None => None,
    }
}

pub proof fn lemma_p_bstr(s: Seq<char>, rest: Seq<u8>)
    requires
        encode_utf8(s).len() < 0x10000000000000000,
    ensures
        p_bstr(spec_str(s) + rest) == Some((s, rest)),
{
    let bytes = encode_utf8(s);
    let t = spec_str(s) + rest;
    assert(t =~= spec_varint(bytes.len()) + (bytes + rest));
    lemma_pow128_nine();
    lemma_pv_of_varint(bytes.len(), bytes + rest, 10);
    assert((bytes + rest).take(bytes.len() as int) =~= bytes);
    assert((bytes + rest).skip(bytes.len() as int) =~= rest);
    encode_utf8_valid_utf8(s);
    encode_utf8_decode_utf8(s);
}

pub proof fn lemma_encode_scalar_len(c: char)
    ensures
        1 <= encode_scalar(c as u32).len() <= 4,
        encode_utf8(seq![c]) == encode_scalar(c as u32),
{
    vstd::utf8::char_is_scalar(c);
    assert(seq![c].drop_first() =~= Seq::<char>::empty());
    assert(encode_utf8(seq![c]) =~= encode_scalar(c as u32) + encode_utf8(Seq::<char>::empty()));
    assert(encode_utf8(seq![c]) =~= encode_scalar(c as u32));
}

pub proof fn lemma_p_char_elem(c: char, rest: Seq<u8>)
    ensures
        p_char_elem(spec_char_elem(c) + rest) == Some((c, rest)),
{
    lemma_encode_scalar_len(c);
    let bytes = encode_utf8(seq![c]);
    let t = spec_char_elem(c) + rest;
    assert(t =~= spec_varint(bytes.len()) + (bytes + rest));
    lemma_pow128_nine();
    lemma_pv_of_varint(bytes.len(), bytes + rest, 10);
    assert((bytes + rest).take(bytes.len() as int) =~= bytes);
    assert((bytes + rest).skip(bytes.len() as int) =~= rest);
    encode_utf8_valid_utf8(seq![c]);
    encode_utf8_decode_utf8(seq![c]);
    assert(decode_utf8(bytes)[0] == c);
}

pub proof fn lemma_p_id(cs: Seq<char>, rest: Seq<u8>)
    ensures
        p_id(spec_id(cs) + rest, cs.len()) == Some((cs, rest)),
    decreases cs.len(),
{
    let t = spec_id(cs) + rest;
    if cs.len() == 0 {
        assert(t =~= rest);
        assert(Seq::<char>::empty() =~= cs);
    } else {
        let tail = cs.drop_first();
        assert(t =~= spec_char_elem(cs[0]) + (spec_id(tail) + rest));
        lemma_p_char_elem(cs[0], spec_id(tail) + rest);
        lemma_p_id(tail, rest);
        assert(seq![cs[0]] + tail =~= cs);
    }
}

pub proof fn lemma_p_u32le(v: u32, rest: Seq<u8>)
    ensures
        p_u32le(spec_u32le(v) + rest) == Some((v, rest)),
{
    let t = spec_u32le(v) + rest;
    assert(t.len() >= 4);
    assert(t[0] == (v & 0xFF) as u8);
    assert(t[1] == ((v >> 8) & 0xFF) as u8);
    assert(t[2] == ((v >> 16) & 0xFF) as u8);
    assert(t[3] == ((v >> 24) & 0xFF) as u8);
    assert((v & 0xFF) < 256 && ((v >> 8) & 0xFF) < 256 && ((v >> 16) & 0xFF) < 256 && ((v >> 24)
        & 0xFF) < 256) by (bit_vector);
    assert((v & 0xFF) + ((v >> 8) & 0xFF) * 0x100 + ((v >> 16) & 0xFF) * 0x10000 + ((v >> 24)
        & 0xFF) * 0x1000000 == v) by (bit_vector);
    assert(t.skip(4) =~= rest);
}

pub proof fn lemma_p_reading(d: WireDataV, rest: Seq<u8>)
    requires
        encode_utf8(d.kind).len() < 0x10000000000000000,
    ensures
        p_reading(spec_reading(d) + rest) == Some((d, rest)),
{
    let t = spec_reading(d) + rest;
    assert(t =~= spec_str(d.kind) + (spec_u32le(d.value) + rest));
    lemma_p_bstr(d.kind, spec_u32le(d.value) + rest);
    lemma_p_u32le(d.value, rest);
    assert(WireDataV { kind: d.kind, value: d.value } =~= d);
}

pub proof fn lemma_p_readings(ds: Seq<WireDataV>, rest: Seq<u8>)
    requires
        forall|i: int|
            0 <= i < ds.len() ==> encode_utf8((#[trigger] ds[i]).kind).len()
                < 0x10000000000000000,
    ensures
        p_readings(spec_readings(ds) + rest, ds.len()) == Some((ds, rest)),
    decreases ds.len(),
{
    let t = spec_readings(ds) + rest;
    if ds.len() == 0 {
        assert(t =~= rest);
        assert(Seq::<WireDataV>::empty() =~= ds);
    } else {
        let tail = ds.drop_first();
        assert(t =~= spec_reading(ds[0]) + (spec_readings(tail) + rest));
        lemma_p_reading(ds[0], spec_readings(tail) + rest);
        lemma_p_readings(tail, rest);
        assert(seq![ds[0]] + tail =~= ds);
    }
}

/// The binary round trip: decoding the encoding of any well-formed
/// batch yields exactly that batch.
pub proof fn lemma_binary_round_trip(b: WireBatchV)
    requires
        wire_wf(b),
    ensures
        spec_decode_binary(spec_encode_binary(b)) == Some(b),
{
    let t = spec_encode_binary(b);
    let r1 = spec_varint(b.sensors.len()) + spec_readings(b.sensors);
    assert(t =~= spec_id(b.controller) + r1);
    lemma_p_id(b.controller, r1);
    lemma_pow128_nine();
    lemma_pv_of_varint(b.sensors.len(), spec_readings(b.sensors), 10);
    assert(spec_readings(b.sensors) =~= spec_readings(b.sensors) + Seq::<u8>::empty());
    lemma_p_readings(b.sensors, Seq::<u8>::empty());
    assert(WireBatchV { controller: b.controller, sensors: b.sensors } =~= b);
}

proof fn lemma_spec_id_snoc(s: Seq<char>, c: char)
    ensures
        spec_id(s.push(c)) == spec_id(s) + spec_char_elem(c),
    decreases s.len(),
{
    if s.len() == 0 {
        assert(s.push(c)[0] == c);
        assert(s.push(c).drop_first() =~= s);
        assert(spec_id(s.push(c)) == spec_char_elem(c) + spec_id(s));
        assert(spec_id(s) =~= Seq::<u8>::empty());
        assert(spec_char_elem(c) + spec_id(s) =~= spec_id(s) + spec_char_elem(c));
    } else {
        assert(s.push(c)[0] == s[0]);
        assert(s.push(c).drop_first() =~= s.drop_first().push(c));
        lemma_spec_id_snoc(s.drop_first(), c);
        assert(spec_id(s.push(c)) =~= spec_id(s) + spec_char_elem(c));
    }
}

proof fn lemma_spec_readings_snoc(ds: Seq<WireDataV>, d: WireDataV)
    ensures
        spec_readings(ds.push(d)) == spec_readings(ds) + spec_reading(d),
    decreases ds.len(),
{
    if ds.len() == 0 {
        assert(ds.push(d)[0] == d);
        assert(ds.push(d).drop_first() =~= ds);
        assert(spec_readings(ds.push(d)) == spec_reading(d) + spec_readings(ds));
        assert(spec_readings(ds) =~= Seq::<u8>::empty());
        assert(spec_reading(d) + spec_readings(ds) =~= spec_readings(ds) + spec_reading(d));
    } else {
        assert(ds.push(d)[0] == ds[0]);
        assert(ds.push(d).drop_first() =~= ds.drop_first().push(d));
        lemma_spec_readings_snoc(ds.drop_first(), d);
        assert(spec_readings(ds.push(d)) =~= spec_readings(ds) + spec_reading(d));
    }
}

/// Append the varint encoding of `n` to `out`.
#[verifier::loop_isolation(false)]
fn write_varint(out: &mut Vec<u8>, n0: usize)
    ensures
        final(out)@ == old(out)@ + spec_varint(n0 as nat),
{
    let mut n: usize = n0;
    while n >= 128
        invariant
            out@ + spec_varint(n as nat) == old(out)@ + spec_varint(n0 as nat),
        decreases n,
    {
        let b: u8 = (n % 128 + 128) as u8;
        let ghost before = out@;
        out.push(b);
        proof {
            assert(spec_varint(n as nat) == seq![b] + spec_varint((n / 128) as nat));
            assert(out@ + spec_varint((n / 128) as nat) =~= before + spec_varint(n as nat));
        }
        n = n / 128;
    }
    let ghost before = out@;
    out.push(n as u8);
    proof {
        assert(spec_varint(n as nat) =~= seq![n as u8]);
        assert(out@ =~= before + spec_varint(n as nat));
        assert(out@ =~= old(out)@ + spec_varint(n0 as nat));
    }
}

/// Append the length-prefixed UTF-8 bytes of `s` to `out`.  The byte
/// length of a string in memory always fits the format's 64-bit
/// varints.
fn write_str(out: &mut Vec<u8>, s: &String)
    ensures
        final(out)@ == old(out)@ + spec_str(s@),
        encode_utf8(s@).len() < 0x10000000000000000,
{
    let bytes = s.as_str().as_bytes_vec();
    write_varint(out, bytes.len());
    push_run(out, &bytes, 0, bytes.len());
    proof {
        assert(bytes@.subrange(0, bytes@.len() as int) =~= bytes@);
        assert(out@ =~= old(out)@ + spec_str(s@));
    }
}

/// Encode a batch in the binary wire format: the reference encoding
/// that the sender produces and [`decode_binary`] accepts.
#[verifier::loop_isolation(false)]
pub fn encode_binary(b: &SensorData) -> (r: Vec<u8>)
    requires
        b.wf(),
    ensures
        r@ == spec_encode_binary(b@),
        spec_decode_binary(r@) == Some(b@),
{
    let mut out: Vec<u8> = Vec::new();
    let mut i: usize = 0;
    while i < b.controller.len()
        invariant
            i <= b.controller@.len(),
            out@ == spec_id(b@.controller.take(i as int)),
        decreases b.controller@.len() - i,
    {
        let mut one: Vec<char> = Vec::new();
        one.push(b.controller[i]);
        let s = chars_to_string(&one);
        proof {
            assert(s@ =~= seq![b.controller@[i as int]]);
        }
        write_str(&mut out, &s);
        proof {
            lemma_spec_id_snoc(b@.controller.take(i as int), b.controller@[i as int]);
            assert(b@.controller.take(i as int).push(b.controller@[i as int]) =~= b@.controller
                .take(i + 1));
        }
        i += 1;
    }
    proof {
        assert(b@.controller.take(b.controller@.len() as int) =~= b@.controller);
    }
    write_varint(&mut out, b.sensors.len());
    let ghost head = spec_id(b@.controller) + spec_varint(b@.sensors.len());
    let mut j: usize = 0;
    while j < b.sensors.len()
        invariant
            j <= b.sensors@.len(),
            out@ == head + spec_readings(b@.sensors.take(j as int)),
            forall|i2: int|
                0 <= i2 < j ==> encode_utf8((#[trigger] b@.sensors[i2]).kind).len()
                    < 0x10000000000000000,
        decreases b.sensors@.len() - j,
    {
        proof {
            assert(head + spec_readings(b@.sensors.take(0)) =~= head);
            assert(b@.sensors[j as int] == b.sensors@[j as int]@);
        }
        write_str(&mut out, &b.sensors[j].kind);
        let v = b.sensors[j].value;
        proof {
            assert((v & 0xFF) < 256 && ((v >> 8) & 0xFF) < 256 && ((v >> 16) & 0xFF) < 256 && ((v
                >> 24) & 0xFF) < 256) by (bit_vector);
        }
        out.push((v & 0xFF) as u8);
        out.push(((v >> 8) & 0xFF) as u8);
        out.push(((v >> 16) & 0xFF) as u8);
        out.push(((v >> 24) & 0xFF) as u8);
        proof {
            lemma_spec_readings_snoc(b@.sensors.take(j as int), b@.sensors[j as int]);
            assert(b@.sensors.take(j as int).push(b@.sensors[j as int]) =~= b@.sensors.take(j + 1));
            assert(out@ =~= head + spec_readings(b@.sensors.take(j + 1)));
        }
        j += 1;
    }
    proof {
        assert(b@.sensors.take(b.sensors@.len() as int) =~= b@.sensors);
        assert(out@ =~= spec_encode_binary(b@));
        assert(wire_wf(b@));
        lemma_binary_round_trip(b@);
    }
    out
}

proof fn lemma_pow128_mono(a: nat, b: nat)
    requires
        a <= b,
    ensures
        pow128(a) <= pow128(b),
    decreases b,
{
    if a < b {
        lemma_pow128_mono(a, (b - 1) as nat);
        lemma_pow128_ge_one((b - 1) as nat);
    }
}

/// Read a varint at `pos` with `rem` bytes still allowed.
#[verifier::loop_isolation(false)]
fn read_varint_rec(t: &Vec<u8>, pos: usize, rem: u32) -> (r: Option<(u64, usize)>)
    requires
        pos <= t@.len(),
        1 <= rem <= 10,
    ensures
        match r {
            Some((v, p)) => pos < p <= t@.len() && pv(t@.skip(pos as int), rem as nat) == Some(
                (v as nat, t@.skip(p as int)),
            ),
            None => pv(t@.skip(pos as int), rem as nat) is None,
        },
    decreases rem,
{
    if pos >= t.len() {
        proof {
            assert(t@.skip(pos as int) =~= Seq::<u8>::empty());
        }
        return None;
    }
    proof {
        assert(t@.skip(pos as int)[0] == t@[pos as int]);
        assert(t@.skip(pos as int).drop_first() =~= t@.skip(pos + 1));
    }
    let b = t[pos];
    if b < 128 {
        if rem == 1 && b > 1 {
            None
        } else {
            Some((b as u64, pos + 1))
        }
    } else {
        if rem == 1 {
            return None;
        }
        match read_varint_rec(t, pos + 1, rem - 1) {
            None => None,
            Some((v, p)) => {
                proof {
                    lemma_pv_bound(t@.skip(pos + 1), (rem - 1) as nat);
                    lemma_pow128_mono((rem - 2) as nat, 8);
                    lemma_pow128_nine();
                    assert(pow128(9) == 128 * pow128(8));
                    assert(v as nat <= 2 * pow128((rem - 2) as nat) - 1);
                    assert(128 * (v as nat) + 127 < 0x10000000000000000);
                }
                Some(((b - 128) as u64 + 128 * v, p))
            },
        }
    }
}

/// Read a 64-bit varint at `pos`.
fn read_varint(t: &Vec<u8>, pos: usize) -> (r: Option<(u64, usize)>)
    requires
        pos <= t@.len(),
    ensures
        match r {
            Some((v, p)) => pos < p <= t@.len() && p_varint(t@.skip(pos as int)) == Some(
                (v as nat, t@.skip(p as int)),
            ),
            None => p_varint(t@.skip(pos as int)) is None,
        },
{
    read_varint_rec(t, pos, 10)
}

/// Read a length-prefixed UTF-8 string at `pos`.
fn read_bstr(t: &Vec<u8>, pos: usize) -> (r: Option<(String, usize)>)
    requires
        pos <= t@.len(),
    ensures
        match r {
            Some((s, p)) => pos < p <= t@.len() && p_bstr(t@.skip(pos as int)) == Some(
                (s@, t@.skip(p as int)),
            ),
            None => p_bstr(t@.skip(pos as int)) is None,
        },
{
    match read_varint(t, pos) {
        None => None,
        Some((n, p)) => {
            if n > (t.len() - p) as u64 {
                proof {
                    assert(t@.skip(p as int).len() == t@.len() - p);
                }
                return None;
            }
            let n_us = n as usize;
            let mut bytes: Vec<u8> = Vec::new();
            push_run(&mut bytes, t, p, p + n_us);
            proof {
                assert(bytes@ =~= t@.skip(p as int).take(n as int));
            }
            match utf8_to_string(bytes) {
                None => None,
                Some(s) => {
                    proof {
                        assert(t@.skip(p as int).skip(n as int) =~= t@.skip(p + n_us));
                    }
                    Some((s, p + n_us))
                },
            }
        },
    }
}

/// Read one identifier character at `pos`: a one-character string of
/// at most four bytes; as on the radio, only the first decoded
/// character counts.
fn read_char_elem(t: &Vec<u8>, pos: usize) -> (r: Option<(char, usize)>)
    requires
        pos <= t@.len(),
    ensures
        match r {
            Some((c, p)) => pos < p <= t@.len() && p_char_elem(t@.skip(pos as int)) == Some(
                (c, t@.skip(p as int)),
            ),
            None => p_char_elem(t@.skip(pos as int)) is None,
        },
{
    match read_varint(t, pos) {
        None => None,
        Some((n, p)) => {
            if n > 4 {
                return None;
            }
            if n > (t.len() - p) as u64 {
                proof {
                    assert(t@.skip(p as int).len() == t@.len() - p);
                }
                return None;
            }
            let n_us = n as usize;
            let mut bytes: Vec<u8> = Vec::new();
            push_run(&mut bytes, t, p, p + n_us);
            proof {
                assert(bytes@ =~= t@.skip(p as int).take(n as int));
            }
            match utf8_to_string(bytes) {
                None => None,
                Some(s) => {
                    if s.as_str().unicode_len() == 0 {
                        return None;
                    }
                    let c = s.as_str().get_char(0);
                    proof {
                        assert(t@.skip(p as int).skip(n as int) =~= t@.skip(p + n_us));
                    }
                    Some((c, p + n_us))
                },
            }
        },
    }
}

/// Read a value's four little-endian bytes at `pos`.
fn read_u32le(t: &Vec<u8>, pos: usize) -> (r: Option<(u32, usize)>)
    requires
        pos <= t@.len(),
    ensures
        match r {
            Some((v, p)) => pos < p <= t@.len() && p_u32le(t@.skip(pos as int)) == Some(
                (v, t@.skip(p as int)),
            ),
            None => p_u32le(t@.skip(pos as int)) is None,
        },
{
    if t.len() - pos < 4 {
        proof {
            assert(t@.skip(pos as int).len() < 4);
        }
        return None;
    }
    proof {
        assert(t@.skip(pos as int)[0] == t@[pos as int]);
        assert(t@.skip(pos as int)[1] == t@[pos + 1]);
        assert(t@.skip(pos as int)[2] == t@[pos + 2]);
        assert(t@.skip(pos as int)[3] == t@[pos + 3]);
        assert(t@.skip(pos as int).skip(4) =~= t@.skip(pos + 4));
    }
    let v: u32 = t[pos] as u32 + t[pos + 1] as u32 * 0x100 + t[pos + 2] as u32 * 0x10000 + t[pos
        + 3] as u32 * 0x1000000;
    Some((v, pos + 4))
}

/// Read one reading at `pos`.
fn read_reading(t: &Vec<u8>, pos: usize) -> (r: Option<(Data, usize)>)
    requires
        pos <= t@.len(),
    ensures
        match r {
            Some((d, p)) => pos < p <= t@.len() && p_reading(t@.skip(pos as int)) == Some(
                (d@, t@.skip(p as int)),
            ),
            None => p_reading(t@.skip(pos as int)) is None,
        },
{
    match read_bstr(t, pos) {
        None => None,
        Some((kind, p)) => {
            match read_u32le(t, p) {
                None => None,
                Some((v, p2)) => {
                    let d = Data { kind, value: v };
                    proof {
                        assert(d@ =~= WireDataV { kind: d.kind@, value: v });
                    }
                    Some((d, p2))
                },
            }
        },
    }
}

proof fn lemma_wire_map_push(s: Seq<Data>, d: Data)
    ensures
        s.push(d).map(|i: int, x: Data| x@) == s.map(|i: int, x: Data| x@).push(d@),
{
    assert(s.push(d).map(|i: int, x: Data| x@) =~= s.map(|i: int, x: Data| x@).push(d@));
}

/// Decode a batch from the binary wire format; a frame that does not
/// match the schema is a `MalformedFrame` error.  Bytes after the last
/// reading are ignored.
#[verifier::loop_isolation(false)]
#[verifier::rlimit(100)]
pub fn decode_binary(t: &Vec<u8>) -> (r: Result<SensorData, TelemetryError>)
    ensures
        match r {
            Ok(b) => spec_decode_binary(t@) == Some(b@) && b.wf(),
            Err(e) => spec_decode_binary(t@) is None && e == TelemetryError::MalformedFrame,
        },
{
    proof {
        assert(t@.skip(0) =~= t@);
    }
    let mut controller: Vec<char> = Vec::new();
    let mut cur: usize = 0;
    let mut k: usize = 0;
    while k < 32
        invariant
            cur <= t@.len(),
            k <= 32,
            controller@.len() == k,
            (match p_id(t@.skip(cur as int), (32 - k) as nat) {
                Some((cs, r2)) => p_id(t@, 32) == Some((controller@ + cs, r2)),
                None => p_id(t@, 32) is None,
            }),
        decreases 32 - k,
    {
        match read_char_elem(t, cur) {
            None => {
                proof {
                    assert(p_id(t@.skip(cur as int), (32 - k) as nat) is None);
                }
                return Err(TelemetryError::MalformedFrame);
            },
            Some((c, p)) => {
                let ghost acc0 = controller@;
                let ghost cur0 = cur;
                controller.push(c);
                cur = p;
                k += 1;
                proof {
                    assert(controller@ =~= acc0.push(c));
                    let rec = p_id(t@.skip(cur as int), (32 - k) as nat);
                    if rec is Some {
                        let cs2 = rec.unwrap().0;
                        let r2 = rec.unwrap().1;
                        assert(p_id(t@.skip(cur0 as int), (32 - k + 1) as nat) == Some(
                            (seq![c] + cs2, r2),
                        ));
                        assert(acc0 + (seq![c] + cs2) =~= controller@ + cs2);
                    } else {
                        assert(p_id(t@.skip(cur0 as int), (32 - k + 1) as nat) is None);
                    }
                }
            },
        }
    }
    let (count, p2) = match read_varint(t, cur) {
        None => {
            proof {
                assert(p_id(t@.skip(cur as int), 0) == Some(
                    (Seq::<char>::empty(), t@.skip(cur as int)),
                ));
                assert(controller@ + Seq::<char>::empty() =~= controller@);
            }
            return Err(TelemetryError::MalformedFrame);
        },
        Some(x) => x,
    };
    proof {
        assert(p_id(t@.skip(cur as int), 0) == Some((Seq::<char>::empty(), t@.skip(cur as int))));
        assert(controller@ + Seq::<char>::empty() =~= controller@);
        assert(p_id(t@, 32) == Some((controller@, t@.skip(cur as int))));
    }
    let mut sensors: Vec<Data> = Vec::new();
    let mut cur2: usize = p2;
    let mut j: u64 = 0;
    while j < count
        invariant
            cur2 <= t@.len(),
            j <= count,
            sensors@.len() == j,
            (match p_readings(t@.skip(cur2 as int), (count - j) as nat) {
                Some((ds, r2)) => p_readings(t@.skip(p2 as int), count as nat) == Some(
                    (sensors@.map(|i: int, d: Data| d@) + ds, r2),
                ),
                None => p_readings(t@.skip(p2 as int), count as nat) is None,
            }),
        decreases count - j,
    {
        match read_reading(t, cur2) {
            None => {
                proof {
                    assert(p_readings(t@.skip(cur2 as int), (count - j) as nat) is None);
                }
                return Err(TelemetryError::MalformedFrame);
            },
            Some((d, p)) => {
                let ghost acc0 = sensors@;
                let ghost cur0 = cur2;
                sensors.push(d);
                cur2 = p;
                j += 1;
                proof {
                    assert(sensors@ =~= acc0.push(d));
                    lemma_wire_map_push(acc0, d);
                    let rec = p_readings(t@.skip(cur2 as int), (count - j) as nat);
                    if rec is Some {
                        let ds2 = rec.unwrap().0;
                        let r2 = rec.unwrap().1;
                        assert(p_readings(t@.skip(cur0 as int), (count - j + 1) as nat) == Some(
                            (seq![d@] + ds2, r2),
                        ));
                        assert(acc0.map(|i: int, x: Data| x@) + (seq![d@] + ds2) =~= sensors@.map(
                            |i: int, x: Data| x@,
                        ) + ds2);
                    } else {
                        assert(p_readings(t@.skip(cur0 as int), (count - j + 1) as nat) is None);
                    }
                }
            },
        }
    }
    proof {
        assert(p_readings(t@.skip(cur2 as int), 0) == Some(
            (Seq::<WireDataV>::empty(), t@.skip(cur2 as int)),
        ));
        assert(sensors@.map(|i: int, d: Data| d@) + Seq::<WireDataV>::empty() =~= sensors@.map(
            |i: int, d: Data| d@,
        ));
    }
    let b = SensorData { controller, sensors };
    proof {
        assert(b@ =~= WireBatchV {
            controller: b.controller@,
            sensors: b.sensors@.map(|i: int, d: Data| d@),
        });
    }
    Ok(b)
}

} // verus!
