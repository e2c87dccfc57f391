//! The forwarder-side batch types and their textual (JSON) codec.
//!
//! A reading's `value` is carried as the verbatim JSON number token from
//! the wire: the forwarder relays measurements, it never computes with
//! them, so the token is the faithful representation and the textual
//! round trip is exact.

use vstd::prelude::*;

use crate::errors::TelemetryError;
use crate::jsonchars::{
    digits_len, esc_string, hex4, hex_digit_char, is_digit, is_json_number, is_ws,
    lemma_digits_len_le, lemma_esc_string_push, lemma_p_strchars_esc, lemma_scan_number_append,
    p_strchars, quoted, scan_exp, scan_frac, simple_escape, spec_scan_number,
};
use crate::strutil::{char_from_u32, chars_to_string, push_run, str_to_chars};

verus! {

/// One sensor reading: a short kind label and the measured value as a
/// JSON number token (for example `20.7`).
#[derive(Debug)]
pub struct Data {
    pub kind: String,
    pub value: String,
}

/// The abstract value of a [`Data`].
#[verifier::ext_equal]
pub ghost struct DataV {
    pub kind: Seq<char>,
    pub value: Seq<char>,
}

impl View for Data {
    type V = DataV;

    open spec fn view(&self) -> DataV {
        DataV { kind: self.kind@, value: self.value@ }
    }
}

impl Data {
    /// The value field holds a well-formed JSON number token.
    pub open spec fn wf(&self) -> bool {
        is_json_number(self.value@)
    }
}

/// One telemetry batch: the sender's 32-character identifier buffer and
/// its readings in transmission order.
#[derive(Debug)]
pub struct SensorData {
    pub controller: Vec<char>,
    pub sensors: Vec<Data>,
}

/// The abstract value of a [`SensorData`].
#[verifier::ext_equal]
pub ghost struct BatchV {
    pub controller: Seq<char>,
    pub sensors: Seq<DataV>,
}

impl View for SensorData {
    type V = BatchV;

    open spec fn view(&self) -> BatchV {
        BatchV {
            controller: self.controller@,
            sensors: self.sensors@.map(|i: int, d: Data| d@),
        }
    }
}

impl SensorData {
    /// The identifier buffer is exactly 32 characters and every value
    /// is a well-formed number token.
    pub open spec fn wf(&self) -> bool {
        &&& self.controller@.len() == 32
        &&& forall|i: int| 0 <= i < self.sensors@.len() ==> (#[trigger] self.sensors@[i]).wf()
    }
}

/// Well-formedness of a batch value: identifier of 32 characters,
/// every value field a well-formed JSON number token.
pub open spec fn batch_wf(b: BatchV) -> bool {
    &&& b.controller.len() == 32
    &&& forall|i: int| 0 <= i < b.sensors.len() ==> is_json_number((#[trigger] b.sensors[i]).value)
}

pub open spec fn key_controller() -> Seq<char> {
    seq!['"', 'c', 'o', 'n', 't', 'r', 'o', 'l', 'l', 'e', 'r', '"']
}

pub open spec fn key_sensors() -> Seq<char> {
    seq!['"', 's', 'e', 'n', 's', 'o', 'r', 's', '"']
}

pub open spec fn key_type() -> Seq<char> {
    seq!['"', 't', 'y', 'p', 'e', '"']
}

pub open spec fn key_value() -> Seq<char> {
    seq!['"', 'v', 'a', 'l', 'u', 'e', '"']
}

/// The identifier characters as a comma-separated run of one-character
/// JSON strings.
pub open spec fn enc_id_elems(cs: Seq<char>) -> Seq<char>
    decreases cs.len(),
{
    if cs.len() == 0 {
        Seq::<char>::empty()
    } else if cs.len() == 1 {
        quoted(seq![cs[0]])
    } else {
        quoted(seq![cs[0]]) + seq![','] + enc_id_elems(cs.drop_first())
    }
}

/// One reading as a collector-shaped JSON object.
pub open spec fn enc_entry(d: DataV) -> Seq<char> {
    seq!['{'] + key_type() + seq![':'] + quoted(d.kind) + seq![','] + key_value() + seq![':']
        + d.value + seq!['}']
}

/// The readings as a comma-separated run of entry objects.
pub open spec fn enc_entries(ds: Seq<DataV>) -> Seq<char>
    decreases ds.len(),
{
    if ds.len() == 0 {
        Seq::<char>::empty()
    } else if ds.len() == 1 {
        enc_entry(ds[0])
    } else {
        enc_entry(ds[0]) + seq![','] + enc_entries(ds.drop_first())
    }
}

/// The canonical textual form of a batch.
pub open spec fn spec_encode_text(b: BatchV) -> Seq<char> {
    seq!['{'] + key_controller() + seq![':'] + seq!['['] + enc_id_elems(b.controller) + seq![']']
        + seq![','] + key_sensors() + seq![':'] + seq!['['] + enc_entries(b.sensors) + seq![']']
        + seq!['}']
}

/// Consume an exact literal from the front of the input.
pub open spec fn p_lit(t: Seq<char>, lit: Seq<char>) -> Option<Seq<char>> {
    if t.len() >= lit.len() && t.take(lit.len() as int) == lit {
        Some(t.skip(lit.len() as int))
    } else {
        None
    }
}

/// Consume a JSON string literal from the front of the input.
pub open spec fn p_string(t: Seq<char>) -> Option<(Seq<char>, Seq<char>)> {
    if t.len() > 0 && t[0] == '"' {
        p_strchars(t.drop_first())
    } else {
        None
    }
}

/// Consume one identifier element: a one-character string.
pub open spec fn p_id_elem(t: Seq<char>) -> Option<(char, Seq<char>)> {
    match p_string(t) {
        Some((s, r)) => if s.len() == 1 {
            Some((s[0], r))
        } else {
            None
        },
        None => None,
    }
}

/// Consume `n` comma-separated identifier elements, `n >= 1`.
pub open spec fn p_id_elems(t: Seq<char>, n: nat) -> Option<(Seq<char>, Seq<char>)>
    decreases n,
{
    if n == 0 {
        None
    } else if n == 1 {
        match p_id_elem(t) {
            Some((c, r)) => Some((seq![c], r)),
            None => None,
        }
    } else {
        match p_id_elem(t) {
            Some((c, r)) => match p_lit(r, seq![',']) {
                Some(r2) => match p_id_elems(r2, (n - 1) as nat) {
                    Some((s, r3)) => Some((seq![c] + s, r3)),
                    None => None,
                },
                None => None,
            },
            None => None,
        }
    }
}

/// Consume a number token from the front of the input.
pub open spec fn p_number(t: Seq<char>) -> Option<(Seq<char>, Seq<char>)> {
    match spec_scan_number(t) {
        Some(k) => if 0 <= k <= t.len() && is_json_number(t.take(k)) {
            Some((t.take(k), t.skip(k)))
        } else {
            None
        },
        None => None,
    }
}

/// Consume one reading object.
#[verifier::opaque]
pub open spec fn p_entry(t: Seq<char>) -> Option<(DataV, Seq<char>)> {
    match p_lit(t, seq!['{'] + key_type() + seq![':']) {
        Some(r) => match p_string(r) {
            Some((kind, r2)) => match p_lit(r2, seq![','] + key_value() + seq![':']) {
                Some(r3) => match p_number(r3) {
                    Some((val, r4)) => match p_lit(r4, seq!['}']) {
                        Some(r5) => Some((DataV { kind, value: val }, r5)),
                        None => None,
                    },
                    None => None,
                },
                None => None,
            },
            None => None,
        },
        None => None,
    }
}

/// Consume one or more comma-separated reading objects and the closing
/// bracket.
pub open spec fn p_entries1(t: Seq<char>) -> Option<(Seq<DataV>, Seq<char>)>
    decreases t.len(),
{
    match p_entry(t) {
        Some((d, r)) => if r.len() >= t.len() {
            None
        } else if r.len() > 0 && r[0] == ',' {
            match p_entries1(r.drop_first()) {
                Some((ds, r2)) => Some((seq![d] + ds, r2)),
                None => None,
            }
        } else if r.len() > 0 && r[0] == ']' {
            Some((seq![d], r.drop_first()))
        } else {
            None
        },
        None => None,
    }
}

/// Consume the readings list after its opening bracket, including the
/// closing bracket.
pub open spec fn p_entries(t: Seq<char>) -> Option<(Seq<DataV>, Seq<char>)> {
    if t.len() > 0 && t[0] == ']' {
        Some((Seq::<DataV>::empty(), t.drop_first()))
    } else {
        p_entries1(t)
    }
}

/// Drop insignificant whitespace from the front of the input.
pub open spec fn skip_ws(t: Seq<char>) -> Seq<char>
    decreases t.len(),
{
    if t.len() > 0 && is_ws(t[0]) {
        skip_ws(t.drop_first())
    } else {
        t
    }
}

/// The whole-document parser: optional surrounding whitespace around
/// one batch object in the canonical field order.
pub open spec fn spec_parse_text(t0: Seq<char>) -> Option<BatchV> {
    let t = skip_ws(t0);
    match p_lit(t, seq!['{'] + key_controller() + seq![':'] + seq!['[']) {
        Some(r) => match p_id_elems(r, 32) {
            Some((cs, r2)) => match p_lit(
                r2,
                seq![']'] + seq![','] + key_sensors() + seq![':'] + seq!['['],
            ) {
                Some(r3) => match p_entries(r3) {
                    Some((ds, r4)) => match p_lit(r4, seq!['}']) {
                        Some(r5) => if skip_ws(r5).len() == 0 {
                            Some(BatchV { controller: cs, sensors: ds })
                        } else {
                            None
                        },
                        None => None,
                    },
                    None => None,
                },
                None => None,
            },
            None => None,
        },
        None => None,
    }
}

pub proof fn lemma_p_lit(lit: Seq<char>, rest: Seq<char>)
    ensures
        p_lit(lit + rest, lit) == Some(rest),
{
    let t = lit + rest;
    assert(t.take(lit.len() as int) =~= lit);
    assert(t.skip(lit.len() as int) =~= rest);
}

pub proof fn lemma_p_string_quoted(s: Seq<char>, rest: Seq<char>)
    ensures
        p_string(quoted(s) + rest) == Some((s, rest)),
{
    let t = quoted(s) + rest;
    assert(t[0] == '"');
    assert(t.drop_first() =~= esc_string(s) + seq!['"'] + rest);
    lemma_p_strchars_esc(s, rest);
}

pub proof fn lemma_p_id_elems(cs: Seq<char>, rest: Seq<char>)
    requires
        cs.len() >= 1,
    ensures
        p_id_elems(enc_id_elems(cs) + rest, cs.len() as nat) == Some((cs, rest)),
    decreases cs.len(),
{
    if cs.len() == 1 {
        assert(enc_id_elems(cs) + rest =~= quoted(seq![cs[0]]) + rest);
        lemma_p_string_quoted(seq![cs[0]], rest);
        assert(seq![cs[0]] =~= cs);
    } else {
        let tail = cs.drop_first();
        let t = enc_id_elems(cs) + rest;
        let r = seq![','] + enc_id_elems(tail) + rest;
        assert(t =~= quoted(seq![cs[0]]) + r);
        lemma_p_string_quoted(seq![cs[0]], r);
        assert(r =~= seq![','] + (enc_id_elems(tail) + rest));
        lemma_p_lit(seq![','], enc_id_elems(tail) + rest);
        lemma_p_id_elems(tail, rest);
        assert(seq![cs[0]] + tail =~= cs);
    }
}

pub proof fn lemma_p_number_token(v: Seq<char>, rest: Seq<char>)
    requires
        is_json_number(v),
        rest.len() > 0,
        !is_digit(rest[0]),
        rest[0] != '.',
        rest[0] != 'e',
        rest[0] != 'E',
    ensures
        p_number(v + rest) == Some((v, rest)),
{
    lemma_scan_number_append(v, rest);
    let t = v + rest;
    assert(t.take(v.len() as int) =~= v);
    assert(t.skip(v.len() as int) =~= rest);
}

#[verifier::rlimit(100)]
#[verifier::spinoff_prover]
pub proof fn lemma_p_entry(d: DataV, rest: Seq<char>)
    requires
        is_json_number(d.value),
    ensures
        p_entry(enc_entry(d) + rest) == Some((d, rest)),
{
    reveal(p_entry);
    let t = enc_entry(d) + rest;
    let head = seq!['{'] + key_type() + seq![':'];
    let mid = seq![','] + key_value() + seq![':'];
    let r = quoted(d.kind) + mid + d.value + seq!['}'] + rest;
    assert(t =~= head + r);
    lemma_p_lit(head, r);
    let r2 = mid + d.value + seq!['}'] + rest;
    assert(r =~= quoted(d.kind) + r2);
    lemma_p_string_quoted(d.kind, r2);
    let r3 = d.value + seq!['}'] + rest;
    assert(r2 =~= mid + r3);
    lemma_p_lit(mid, r3);
    let r4 = seq!['}'] + rest;
    assert(r3 =~= d.value + r4);
    lemma_p_number_token(d.value, r4);
    assert(r4 =~= seq!['}'] + rest);
    lemma_p_lit(seq!['}'], rest);
    assert(DataV { kind: d.kind, value: d.value } =~= d);
}

pub proof fn lemma_enc_entry_len(d: DataV)
    ensures
        enc_entry(d).len() > 0,
        enc_entry(d)[0] == '{',
{
}

#[verifier::rlimit(60)]
pub proof fn lemma_p_entries1(ds: Seq<DataV>, rest: Seq<char>)
    requires
        ds.len() >= 1,
        forall|i: int| 0 <= i < ds.len() ==> is_json_number((#[trigger] ds[i]).value),
    ensures
        p_entries1(enc_entries(ds) + seq![']'] + rest) == Some((ds, rest)),
    decreases ds.len(),
{
    let t = enc_entries(ds) + seq![']'] + rest;
    if ds.len() == 1 {
        let r = seq![']'] + rest;
        assert(t =~= enc_entry(ds[0]) + r);
        lemma_p_entry(ds[0], r);
        lemma_enc_entry_len(ds[0]);
        assert(r.len() < t.len());
        assert(r[0] == ']');
        assert(r.drop_first() =~= rest);
        assert(seq![ds[0]] =~= ds);
    } else {
        let tail = ds.drop_first();
        let r = seq![','] + (enc_entries(tail) + seq![']'] + rest);
        assert(t =~= enc_entry(ds[0]) + r);
        lemma_p_entry(ds[0], r);
        lemma_enc_entry_len(ds[0]);
        assert(r.len() < t.len());
        assert(r[0] == ',');
        assert(r.drop_first() =~= enc_entries(tail) + seq![']'] + rest);
        lemma_p_entries1(tail, rest);
        assert(seq![ds[0]] + tail =~= ds);
    }
}

pub proof fn lemma_p_entries(ds: Seq<DataV>, rest: Seq<char>)
    requires
        forall|i: int| 0 <= i < ds.len() ==> is_json_number((#[trigger] ds[i]).value),
    ensures
        p_entries(enc_entries(ds) + seq![']'] + rest) == Some((ds, rest)),
{
    let t = enc_entries(ds) + seq![']'] + rest;
    if ds.len() == 0 {
        assert(t =~= seq![']'] + rest);
        assert(t[0] == ']');
        assert(t.drop_first() =~= rest);
        assert(Seq::<DataV>::empty() =~= ds);
    } else {
        lemma_enc_entry_len(ds[0]);
        assert(t[0] == '{');
        lemma_p_entries1(ds, rest);
    }
}

/// The textual round trip: parsing the canonical encoding of any
/// well-formed batch yields exactly that batch.
pub proof fn lemma_text_round_trip(b: BatchV)
    requires
        batch_wf(b),
    ensures
        spec_parse_text(spec_encode_text(b)) == Some(b),
{
    let t = spec_encode_text(b);
    let head = seq!['{'] + key_controller() + seq![':'] + seq!['['];
    let mid = seq![']'] + seq![','] + key_sensors() + seq![':'] + seq!['['];
    let r = enc_id_elems(b.controller) + mid + enc_entries(b.sensors) + seq![']'] + seq!['}'];
    assert(t =~= head + r);
    assert(t[0] == '{');
    assert(skip_ws(t) == t);
    lemma_p_lit(head, r);
    let r2 = mid + enc_entries(b.sensors) + seq![']'] + seq!['}'];
    assert(r =~= enc_id_elems(b.controller) + r2);
    lemma_p_id_elems(b.controller, r2);
    let r3 = enc_entries(b.sensors) + seq![']'] + seq!['}'];
    assert(r2 =~= mid + r3);
    lemma_p_lit(mid, r3);
    assert(r3 =~= enc_entries(b.sensors) + seq![']'] + seq!['}']);
    lemma_p_entries(b.sensors, seq!['}']);
    lemma_p_lit(seq!['}'], Seq::<char>::empty());
    assert(seq!['}'] =~= seq!['}'] + Seq::<char>::empty());
    assert(skip_ws(Seq::<char>::empty()).len() == 0);
    assert(BatchV { controller: b.controller, sensors: b.sensors } =~= b);
}

/// The lower-case hexadecimal digit character for a value below 16.
fn hex_digit(n: u32) -> (c: char)
    requires
        n < 16,
    ensures
        c == hex_digit_char(n),
{
    if n == 0 { '0' } else if n == 1 { '1' } else if n == 2 { '2' } else if n == 3 { '3' }
    else if n == 4 { '4' } else if n == 5 { '5' } else if n == 6 { '6' } else if n == 7 { '7' }
    else if n == 8 { '8' } else if n == 9 { '9' } else if n == 10 { 'a' } else if n == 11 { 'b' }
    else if n == 12 { 'c' } else if n == 13 { 'd' } else if n == 14 { 'e' } else { 'f' }
}

/// Append the JSON string literal for `s` (quotes and escaping
/// included) to `out`.
pub(crate) fn push_quoted(out: &mut Vec<char>, s: &Vec<char>)
    ensures
        final(out)@ == old(out)@ + quoted(s@),
{
    out.push('"');
    let mut i: usize = 0;
    while i < s.len()
        invariant
            i <= s@.len(),
            out@ == old(out)@ + seq!['"'] + esc_string(s@.take(i as int)),
        decreases s@.len() - i,
    {
        let c = s[i];
        let u = c as u32;
        proof {
            lemma_esc_string_push(s@.take(i as int), c);
            assert(s@.take(i as int).push(c) =~= s@.take(i + 1));
        }
        if c == '"' {
            out.push('\\');
            out.push('"');
        } else if c == '\\' {
            out.push('\\');
            out.push('\\');
        } else if u < 32 {
            out.push('\\');
            out.push('u');
            out.push('0');
            out.push('0');
            out.push(hex_digit(u / 16));
            out.push(hex_digit(u % 16));
        } else {
            out.push(c);
        }
        proof {
            assert(out@ =~= old(out)@ + seq!['"'] + esc_string(s@.take(i + 1)));
        }
        i += 1;
    }
    out.push('"');
    proof {
        assert(s@.take(s@.len() as int) =~= s@);
        assert(out@ =~= old(out)@ + quoted(s@));
    }
}

pub proof fn lemma_enc_id_snoc(s: Seq<char>, c: char)
    requires
        s.len() >= 1,
    ensures
        enc_id_elems(s.push(c)) == enc_id_elems(s) + seq![','] + quoted(seq![c]),
    decreases s.len(),
{
    if s.len() == 1 {
        assert(s.push(c).drop_first() =~= seq![c]);
        assert(s.push(c)[0] == s[0]);
        assert(enc_id_elems(seq![c]) == quoted(seq![c]));
        assert(enc_id_elems(s.push(c)) =~= enc_id_elems(s) + seq![','] + quoted(seq![c]));
    } else {
        assert(s.push(c).drop_first() =~= s.drop_first().push(c));
        assert(s.push(c)[0] == s[0]);
        lemma_enc_id_snoc(s.drop_first(), c);
        assert(enc_id_elems(s.push(c)) =~= enc_id_elems(s) + seq![','] + quoted(seq![c]));
    }
}

pub proof fn lemma_enc_entries_snoc(ds: Seq<DataV>, d: DataV)
    requires
        ds.len() >= 1,
    ensures
        enc_entries(ds.push(d)) == enc_entries(ds) + seq![','] + enc_entry(d),
    decreases ds.len(),
{
    if ds.len() == 1 {
        assert(ds.push(d).drop_first() =~= seq![d]);
        assert(ds.push(d)[0] == ds[0]);
        assert(enc_entries(seq![d]) == enc_entry(d));
        assert(enc_entries(ds.push(d)) =~= enc_entries(ds) + seq![','] + enc_entry(d));
    } else {
        assert(ds.push(d).drop_first() =~= ds.drop_first().push(d));
        assert(ds.push(d)[0] == ds[0]);
        lemma_enc_entries_snoc(ds.drop_first(), d);
        assert(enc_entries(ds.push(d)) =~= enc_entries(ds) + seq![','] + enc_entry(d));
    }
}

/// Append one reading's entry object to `out`.
fn push_entry(out: &mut Vec<char>, d: &Data)
    ensures
        final(out)@ == old(out)@ + enc_entry(d@),
{
    out.push('{');
    out.push('"');
    out.push('t');
    out.push('y');
    out.push('p');
    out.push('e');
    out.push('"');
    out.push(':');
    let kind_chars = str_to_chars(d.kind.as_str());
    push_quoted(out, &kind_chars);
    out.push(',');
    out.push('"');
    out.push('v');
    out.push('a');
    out.push('l');
    out.push('u');
    out.push('e');
    out.push('"');
    out.push(':');
    let val_chars = str_to_chars(d.value.as_str());
    push_run(out, &val_chars, 0, val_chars.len());
    out.push('}');
    proof {
        assert(val_chars@.subrange(0, val_chars@.len() as int) =~= d@.value);
        assert(out@ =~= old(out)@ + enc_entry(d@));
    }
}

/// Match an exact literal at `pos`; on success return the position
/// after it.
#[verifier::loop_isolation(false)]
fn eat_lit(t: &Vec<char>, pos: usize, lit: &Vec<char>) -> (r: Option<usize>)
    requires
        pos <= t@.len(),
    ensures
        match r {
            Some(p) => p_lit(t@.skip(pos as int), lit@) == Some(t@.skip(p as int)) && pos <= p
                <= t@.len(),
            None => p_lit(t@.skip(pos as int), lit@) is None,
        },
{
    if t.len() - pos < lit.len() {
        return None;
    }
    let mut i: usize = 0;
    while i < lit.len()
        invariant
            i <= lit@.len(),
            pos + lit@.len() <= t@.len(),
            forall|j: int| 0 <= j < i ==> t@[pos + j] == lit@[j],
        decreases lit@.len() - i,
    {
        if t[pos + i] != lit[i] {
            proof {
                let u = t@.skip(pos as int);
                if u.len() >= lit@.len() && u.take(lit@.len() as int) == lit@ {
                    assert(u.take(lit@.len() as int)[i as int] == u[i as int]);
                    assert(u[i as int] == t@[pos + i]);
                    assert(false);
                }
            }
            return None;
        }
        i += 1;
    }
    proof {
        let u = t@.skip(pos as int);
        assert(u.take(lit@.len() as int) =~= lit@);
        assert(u.skip(lit@.len() as int) =~= t@.skip(pos + lit@.len()));
    }
    Some(pos + lit.len())
}

/// Parse a `\u` escape at `cur` (which holds the backslash): the
/// decoded character and the position after the escape, combining a
/// surrogate pair into one character.
#[verifier::rlimit(100)]
#[verifier::spinoff_prover]
fn x_escape_u(t: &Vec<char>, cur: usize) -> (r: Option<(char, usize)>)
    requires
        cur + 2 <= t@.len(),
        t@[cur as int] == '\\',
        t@[cur + 1] == 'u',
    ensures
        match r {
            Some((ch, p)) => cur < p <= t@.len() && (p_strchars(t@.skip(cur as int))
                == match p_strchars(t@.skip(p as int)) {
                Some((s, r2)) => Some((seq![ch] + s, r2)),
                None => None::<(Seq<char>, Seq<char>)>,
            }),
            None => p_strchars(t@.skip(cur as int)) is None,
        },
{
    let ghost u = t@.skip(cur as int);
    proof {
        assert(u[0] == '\\');
        assert(u[1] == 'u');
        assert(simple_escape('u') is None);
    }
    if t.len() - (cur + 2) < 4 {
        proof {
            assert(u.skip(2) =~= t@.skip(cur + 2));
            assert(u.skip(2).len() < 4);
        }
        return None;
    }
    proof {
        assert(u.skip(2) =~= t@.skip(cur + 2));
        assert(t@.skip(cur + 2)[0] == t@[cur + 2]);
        assert(t@.skip(cur + 2)[1] == t@[cur + 3]);
        assert(t@.skip(cur + 2)[2] == t@[cur + 4]);
        assert(t@.skip(cur + 2)[3] == t@[cur + 5]);
    }
    let h0 = hex_val_exec(t[cur + 2]);
    let h1 = hex_val_exec(t[cur + 3]);
    let h2 = hex_val_exec(t[cur + 4]);
    let h3 = hex_val_exec(t[cur + 5]);
    if h0.is_none() || h1.is_none() || h2.is_none() || h3.is_none() {
        return None;
    }
    let v: u32 = h0.unwrap() * 4096 + h1.unwrap() * 256 + h2.unwrap() * 16 + h3.unwrap();
    proof {
        assert(hex4(u.skip(2)) == Some(v));
    }
    if 0xD800 <= v && v < 0xDC00 {
        if t.len() - cur < 12 {
            return None;
        }
        proof {
            assert(u[6] == t@[cur + 6]);
            assert(u[7] == t@[cur + 7]);
        }
        if t[cur + 6] != '\\' || t[cur + 7] != 'u' {
            return None;
        }
        proof {
            assert(u.skip(8) =~= t@.skip(cur + 8));
            assert(t@.skip(cur + 8)[0] == t@[cur + 8]);
            assert(t@.skip(cur + 8)[1] == t@[cur + 9]);
            assert(t@.skip(cur + 8)[2] == t@[cur + 10]);
            assert(t@.skip(cur + 8)[3] == t@[cur + 11]);
        }
        let g0 = hex_val_exec(t[cur + 8]);
        let g1 = hex_val_exec(t[cur + 9]);
        let g2 = hex_val_exec(t[cur + 10]);
        let g3 = hex_val_exec(t[cur + 11]);
        if g0.is_none() || g1.is_none() || g2.is_none() || g3.is_none() {
            return None;
        }
        let w: u32 = g0.unwrap() * 4096 + g1.unwrap() * 256 + g2.unwrap() * 16 + g3.unwrap();
        proof {
            assert(hex4(u.skip(8)) == Some(w));
        }
        if !(0xDC00 <= w && w < 0xE000) {
            return None;
        }
        let sc: u32 = 0x10000 + (v - 0xD800) * 0x400 + (w - 0xDC00);
        proof {
            assert(vstd::utf8::is_scalar(sc));
        }
        match char_from_u32(sc) {
            Some(ch) => {
                proof {
                    assert(u.skip(12) =~= t@.skip(cur + 12));
                }
                Some((ch, cur + 12))
            },
            None => {
                proof {
                    assert(false);
                }
                None
            },
        }
    } else if 0xDC00 <= v && v < 0xE000 {
        None
    } else {
        proof {
            assert(vstd::utf8::is_scalar(v));
        }
        match char_from_u32(v) {
            Some(ch) => {
                proof {
                    assert(u.skip(6) =~= t@.skip(cur + 6));
                }
                Some((ch, cur + 6))
            },
            None => {
                proof {
                    assert(false);
                }
                None
            },
        }
    }
}

/// Parse a JSON string literal at `pos`: the unescaped characters and
/// the position after the closing quote.
#[verifier::rlimit(100)]
#[verifier::loop_isolation(false)]
#[verifier::spinoff_prover]
fn x_string(t: &Vec<char>, pos: usize) -> (r: Option<(Vec<char>, usize)>)
    requires
        pos <= t@.len(),
    ensures
        match r {
            Some((s, p)) => p_string(t@.skip(pos as int)) == Some((s@, t@.skip(p as int))) && pos
                < p <= t@.len(),
            None => p_string(t@.skip(pos as int)) is None,
        },
{
    if pos >= t.len() || t[pos] != '"' {
        proof {
            if pos < t@.len() {
                assert(t@.skip(pos as int)[0] == t@[pos as int]);
            }
        }
        return None;
    }
    proof {
        assert(t@.skip(pos as int)[0] == '"');
        assert(t@.skip(pos as int).drop_first() =~= t@.skip(pos + 1));
    }
    let mut acc: Vec<char> = Vec::new();
    let mut cur: usize = pos + 1;
    loop
        invariant
            pos + 1 <= cur <= t@.len(),
            pos < t@.len(),
            t@[pos as int] == '"',
            (match p_strchars(t@.skip(cur as int)) {
                Some((s2, r2)) => p_strchars(t@.skip(pos + 1)) == Some((acc@ + s2, r2)),
                None => p_strchars(t@.skip(pos + 1)) is None,
            }),
        decreases t@.len() - cur,
    {
        if cur >= t.len() {
            proof {
                assert(t@.skip(cur as int) =~= Seq::<char>::empty());
            }
            return None;
        }
        let ghost u = t@.skip(cur as int);
        proof {
            assert(u[0] == t@[cur as int]);
        }
        let c = t[cur];
        if c == '"' {
            proof {
                assert(u.drop_first() =~= t@.skip(cur + 1));
                assert(p_strchars(u) == Some((Seq::<char>::empty(), t@.skip(cur + 1))));
                assert(acc@ + Seq::<char>::empty() =~= acc@);
                assert(t@.skip(pos as int).drop_first() =~= t@.skip(pos + 1));
            }
            return Some((acc, cur + 1));
        } else if c == '\\' {
            if cur + 1 >= t.len() {
                proof {
                    assert(u.len() < 2);
                }
                return None;
            }
            proof {
                assert(u[1] == t@[cur + 1]);
            }
            let e = t[cur + 1];
            if e == '"' || e == '\\' || e == '/' || e == 'b' || e == 'f' || e == 'n' || e == 'r'
                || e == 't' {
                let d: char = if e == '"' { '"' } else if e == '\\' { '\\' } else if e == '/' {
                    '/'
                } else if e == 'b' { '\u{0008}' } else if e == 'f' { '\u{000C}' } else if e == 'n' {
                    '\n'
                } else if e == 'r' { '\r' } else { '\t' };
                proof {
                    assert(simple_escape(e) == Some(d));
                    assert(u.skip(2) =~= t@.skip(cur + 2));
                    assert(acc@ + (seq![d] + p_strchars(t@.skip(cur + 2)).unwrap().0) =~= acc@.push(
                        d,
                    ) + p_strchars(t@.skip(cur + 2)).unwrap().0) by {
                        if p_strchars(t@.skip(cur + 2)) is Some {
                        }
                    }
                    if p_strchars(t@.skip(cur + 2)) is Some {
                        let (s3, r3) = p_strchars(t@.skip(cur + 2)).unwrap();
                        assert(p_strchars(u) == Some((seq![d] + s3, r3)));
                        assert(acc@ + (seq![d] + s3) =~= acc@.push(d) + s3);
                    } else {
                        assert(p_strchars(u) is None);
                    }
                }
                acc.push(d);
                cur = cur + 2;
            } else if e == 'u' {
                match x_escape_u(t, cur) {
                    None => {
                        return None;
                    },
                    Some((ch, p)) => {
                        proof {
                            if p_strchars(t@.skip(p as int)) is Some {
                                let s3 = p_strchars(t@.skip(p as int)).unwrap().0;
                                let r3 = p_strchars(t@.skip(p as int)).unwrap().1;
                                assert(p_strchars(u) == Some((seq![ch] + s3, r3)));
                                assert(acc@ + (seq![ch] + s3) =~= acc@.push(ch) + s3);
                            } else {
                                assert(p_strchars(u) is None);
                            }
                        }
                        acc.push(ch);
                        cur = p;
                    },
                }
            } else {
                proof {
                    assert(simple_escape(e) is None);
                }
                return None;
            }
        } else if (c as u32) < 32 {
            return None;
        } else {
            proof {
                assert(u.drop_first() =~= t@.skip(cur + 1));
                if p_strchars(t@.skip(cur + 1)) is Some {
                    let (s3, r3) = p_strchars(t@.skip(cur + 1)).unwrap();
                    assert(p_strchars(u) == Some((seq![c] + s3, r3)));
                    assert(acc@ + (seq![c] + s3) =~= acc@.push(c) + s3);
                } else {
                    assert(p_strchars(u) is None);
                }
            }
            acc.push(c);
            cur = cur + 1;
        }
    }
}

/// The value of one hexadecimal digit character, if it is one.
fn hex_val_exec(c: char) -> (r: Option<u32>)
    ensures
        r == crate::jsonchars::hex_val(c),
{
    let u = c as u32;
    if 48 <= u && u <= 57 {
        Some(u - 48)
    } else if 97 <= u && u <= 102 {
        Some(u - 87)
    } else if 65 <= u && u <= 70 {
        Some(u - 55)
    } else {
        None
    }
}

/// The position of the first non-digit character at or after `pos`.
#[verifier::loop_isolation(false)]
fn digits_end(t: &Vec<char>, pos: usize) -> (r: usize)
    requires
        pos <= t@.len(),
    ensures
        pos <= r <= t@.len(),
        r == pos + digits_len(t@.skip(pos as int)),
{
    proof {
        lemma_digits_len_le(t@.skip(pos as int));
    }
    let mut i: usize = pos;
    while i < t.len()
        invariant
            pos <= i <= t@.len(),
            digits_len(t@.skip(pos as int)) == (i - pos) + digits_len(t@.skip(i as int)),
        decreases t@.len() - i,
    {
        proof {
            assert(t@.skip(i as int)[0] == t@[i as int]);
        }
        let u = t[i] as u32;
        if !(48 <= u && u <= 57) {
            proof {
                assert(digits_len(t@.skip(i as int)) == 0);
            }
            return i;
        }
        proof {
            assert(is_digit(t@[i as int]));
            assert(t@.skip(i as int).drop_first() =~= t@.skip(i + 1));
            assert(digits_len(t@.skip(i as int)) == 1 + digits_len(t@.skip(i + 1)));
            lemma_digits_len_le(t@.skip(i + 1));
        }
        i += 1;
    }
    proof {
        assert(t@.skip(i as int) =~= Seq::<char>::empty());
    }
    i
}

/// Run the number scanner at `pos`; on success return the position
/// after the token.
#[verifier::loop_isolation(false)]
#[verifier::rlimit(100)]
fn scan_num(t: &Vec<char>, pos: usize) -> (r: Option<usize>)
    requires
        pos <= t@.len(),
    ensures
        match r {
            Some(end) => pos <= end <= t@.len() && spec_scan_number(t@.skip(pos as int)) == Some(
                end - pos,
            ),
            None => spec_scan_number(t@.skip(pos as int)) is None,
        },
{
    let ghost u = t@.skip(pos as int);
    proof {
        if pos < t@.len() {
            assert(u[0] == t@[pos as int]);
        }
    }
    let i1: usize = if pos < t.len() && t[pos] == '-' {
        pos + 1
    } else {
        pos
    };
    if i1 >= t.len() {
        return None;
    }
    proof {
        assert(u[i1 - pos] == t@[i1 as int]);
        assert(u.skip(i1 - pos) =~= t@.skip(i1 as int));
    }
    let c1 = t[i1];
    let after_int: usize;
    if c1 == '0' {
        after_int = i1 + 1;
    } else if 48 <= c1 as u32 && c1 as u32 <= 57 {
        after_int = digits_end(t, i1);
    } else {
        return None;
    }
    proof {
        assert(spec_scan_number(u) == scan_frac(u, after_int - pos));
        if after_int < t@.len() {
            assert(u[after_int - pos] == t@[after_int as int]);
        }
    }
    let after_frac: usize;
    if after_int < t.len() && t[after_int] == '.' {
        proof {
            assert(u.skip(after_int - pos + 1) =~= t@.skip(after_int + 1));
        }
        let de = digits_end(t, after_int + 1);
        if de == after_int + 1 {
            return None;
        }
        after_frac = de;
    } else {
        after_frac = after_int;
    }
    proof {
        assert(scan_frac(u, after_int - pos) == scan_exp(u, after_frac - pos));
        if after_frac < t@.len() {
            assert(u[after_frac - pos] == t@[after_frac as int]);
        }
    }
    if after_frac < t.len() && (t[after_frac] == 'e' || t[after_frac] == 'E') {
        proof {
            if after_frac + 1 < t@.len() {
                assert(u[after_frac + 1 - pos] == t@[after_frac + 1]);
            }
        }
        let j: usize = if after_frac + 1 < t.len() && (t[after_frac + 1] == '+' || t[after_frac
            + 1] == '-') {
            after_frac + 2
        } else {
            after_frac + 1
        };
        proof {
            assert(u.skip(j - pos) =~= t@.skip(j as int));
        }
        let de2 = digits_end(t, j);
        if de2 == j {
            return None;
        }
        Some(de2)
    } else {
        Some(after_frac)
    }
}

/// Parse a number token at `pos`: the token characters and the
/// position after it.
fn x_number(t: &Vec<char>, pos: usize) -> (r: Option<(Vec<char>, usize)>)
    requires
        pos <= t@.len(),
    ensures
        match r {
            Some((v, p)) => pos <= p <= t@.len() && p_number(t@.skip(pos as int)) == Some(
                (v@, t@.skip(p as int)),
            ) && is_json_number(v@),
            None => p_number(t@.skip(pos as int)) is None,
        },
{
    match scan_num(t, pos) {
        None => None,
        Some(end) => {
            let mut tok: Vec<char> = Vec::new();
            push_run(&mut tok, t, pos, end);
            proof {
                assert(tok@ =~= t@.skip(pos as int).take((end - pos) as int));
                assert(tok@.skip(0) =~= tok@);
            }
            match scan_num(&tok, 0) {
                Some(e2) => {
                    if e2 == tok.len() {
                        proof {
                            assert(t@.skip(pos as int).skip((end - pos) as int) =~= t@.skip(
                                end as int,
                            ));
                        }
                        Some((tok, end))
                    } else {
                        None
                    }
                },
                None => None,
            }
        },
    }
}

/// Parse the 32 comma-separated identifier elements at `pos`.
#[verifier::loop_isolation(false)]
#[verifier::rlimit(60)]
fn x_id_elems(t: &Vec<char>, pos: usize) -> (r: Option<(Vec<char>, usize)>)
    requires
        pos <= t@.len(),
    ensures
        match r {
            Some((cs, p)) => pos <= p <= t@.len() && cs@.len() == 32 && p_id_elems(
                t@.skip(pos as int),
                32,
            ) == Some((cs@, t@.skip(p as int))),
            None => p_id_elems(t@.skip(pos as int), 32) is None,
        },
{
    let mut acc: Vec<char> = Vec::new();
    let mut cur: usize = pos;
    let mut k: usize = 0;
    while k < 31
        invariant
            pos <= cur <= t@.len(),
            k <= 31,
            acc@.len() == k,
            (match p_id_elems(t@.skip(cur as int), (32 - k) as nat) {
                Some((s2, r2)) => p_id_elems(t@.skip(pos as int), 32) == Some((acc@ + s2, r2)),
                None => p_id_elems(t@.skip(pos as int), 32) is None,
            }),
        decreases 31 - k,
    {
        let ghost n = (32 - k) as nat;
        match x_string(t, cur) {
            None => {
                proof {
                    assert(p_id_elems(t@.skip(cur as int), n) is None);
                }
                return None;
            },
            Some((s1, p1)) => {
                if s1.len() != 1 {
                    proof {
                        assert(p_id_elem(t@.skip(cur as int)) is None);
                        assert(p_id_elems(t@.skip(cur as int), n) is None);
                    }
                    return None;
                }
                let c = s1[0];
                proof {
                    assert(p_id_elem(t@.skip(cur as int)) == Some((c, t@.skip(p1 as int))));
                }
                if p1 >= t.len() || t[p1] != ',' {
                    proof {
                        let r1 = t@.skip(p1 as int);
                        if r1.len() >= 1 && r1.take(1) == seq![','] {
                            assert(r1.take(1)[0] == r1[0]);
                            assert(r1[0] == t@[p1 as int]);
                            assert(false);
                        }
                        assert(p_lit(r1, seq![',']) is None);
                        assert(p_id_elems(t@.skip(cur as int), n) is None);
                    }
                    return None;
                }
                proof {
                    let r1 = t@.skip(p1 as int);
                    assert(r1[0] == ',');
                    assert(r1.take(1) =~= seq![',']);
                    assert(r1.skip(1) =~= t@.skip(p1 + 1));
                    assert(p_lit(r1, seq![',']) == Some(t@.skip(p1 + 1)));
                }
                let ghost acc0 = acc@;
                let ghost cur0 = cur;
                acc.push(c);
                cur = p1 + 1;
                k += 1;
                proof {
                    assert(acc@ =~= acc0.push(c));
                    if p_id_elems(t@.skip(cur as int), (32 - k) as nat) is Some {
                        let s2 = p_id_elems(t@.skip(cur as int), (32 - k) as nat).unwrap().0;
                        let r2 = p_id_elems(t@.skip(cur as int), (32 - k) as nat).unwrap().1;
                        assert(p_id_elems(t@.skip(cur0 as int), (32 - k + 1) as nat) == Some(
                            (seq![c] + s2, r2),
                        ));
                        assert(acc0 + (seq![c] + s2) =~= acc@ + s2);
                    } else {
                        assert(p_id_elems(t@.skip(cur0 as int), (32 - k + 1) as nat) is None);
                    }
                }
            },
        }
    }
    // the last element has no trailing comma
    match x_string(t, cur) {
        None => {
            proof {
                assert(p_id_elems(t@.skip(cur as int), 1) is None);
            }
            None
        },
        Some((s1, p1)) => {
            if s1.len() != 1 {
                proof {
                    assert(p_id_elem(t@.skip(cur as int)) is None);
                    assert(p_id_elems(t@.skip(cur as int), 1) is None);
                }
                return None;
            }
            let c = s1[0];
            proof {
                assert(p_id_elem(t@.skip(cur as int)) == Some((c, t@.skip(p1 as int))));
                assert(p_id_elems(t@.skip(cur as int), 1) == Some((seq![c], t@.skip(p1 as int))));
            }
            let ghost acc0 = acc@;
            acc.push(c);
            proof {
                assert(acc@ =~= acc0.push(c));
                assert(acc0 + seq![c] =~= acc@);
                assert(acc@.len() == 32);
            }
            Some((acc, p1))
        },
    }
}

/// Parse one reading object at `pos`.
#[verifier::rlimit(100)]
fn x_entry(t: &Vec<char>, pos: usize) -> (r: Option<(Data, usize)>)
    requires
        pos <= t@.len(),
    ensures
        match r {
            Some((d, p)) => pos < p <= t@.len() && p_entry(t@.skip(pos as int)) == Some(
                (d@, t@.skip(p as int)),
            ) && d.wf(),
            None => p_entry(t@.skip(pos as int)) is None,
        },
{
    proof {
        reveal(p_entry);
    }
    let mut head: Vec<char> = Vec::new();
    head.push('{');
    head.push('"');
    head.push('t');
    head.push('y');
    head.push('p');
    head.push('e');
    head.push('"');
    head.push(':');
    proof {
        assert(head@ =~= seq!['{'] + key_type() + seq![':']);
    }
    let p1 = match eat_lit(t, pos, &head) {
        Some(p) => p,
        None => {
            return None;
        },
    };
    let (kind_chars, p2) = match x_string(t, p1) {
        Some(x) => x,
        None => {
            return None;
        },
    };
    let mut mid: Vec<char> = Vec::new();
    mid.push(',');
    mid.push('"');
    mid.push('v');
    mid.push('a');
    mid.push('l');
    mid.push('u');
    mid.push('e');
    mid.push('"');
    mid.push(':');
    proof {
        assert(mid@ =~= seq![','] + key_value() + seq![':']);
    }
    let p3 = match eat_lit(t, p2, &mid) {
        Some(p) => p,
        None => {
            return None;
        },
    };
    let (val_chars, p4) = match x_number(t, p3) {
        Some(x) => x,
        None => {
            return None;
        },
    };
    let mut close: Vec<char> = Vec::new();
    close.push('}');
    proof {
        assert(close@ =~= seq!['}']);
    }
    let p5 = match eat_lit(t, p4, &close) {
        Some(p) => p,
        None => {
            return None;
        },
    };
    let d = Data { kind: chars_to_string(&kind_chars), value: chars_to_string(&val_chars) };
    proof {
        reveal(p_entry);
        assert(d@ =~= DataV { kind: kind_chars@, value: val_chars@ });
    }
    Some((d, p5))
}

proof fn lemma_entries1_unfold_comma(a: Seq<char>, d: DataV, rest: Seq<char>)
    requires
        p_entry(a) == Some((d, rest)),
        rest.len() < a.len(),
        rest.len() > 0,
        rest[0] == ',',
    ensures
        p_entries1(a) == match p_entries1(rest.drop_first()) {
            Some((ds, r)) => Some((seq![d] + ds, r)),
            None => None::<(Seq<DataV>, Seq<char>)>,
        },
{
}

proof fn lemma_entries1_unfold_close(a: Seq<char>, d: DataV, rest: Seq<char>)
    requires
        p_entry(a) == Some((d, rest)),
        rest.len() < a.len(),
        rest.len() > 0,
        rest[0] == ']',
    ensures
        p_entries1(a) == Some((seq![d], rest.drop_first())),
{
}

proof fn lemma_entries1_unfold_none(a: Seq<char>)
    requires
        p_entry(a) is None,
    ensures
        p_entries1(a) is None,
{
}

proof fn lemma_entries1_unfold_bad(a: Seq<char>, d: DataV, rest: Seq<char>)
    requires
        p_entry(a) == Some((d, rest)),
        rest.len() < a.len(),
        rest.len() == 0 || (rest[0] != ',' && rest[0] != ']'),
    ensures
        p_entries1(a) is None,
{
}

proof fn lemma_data_map_push(s: Seq<Data>, d: Data)
    ensures
        s.push(d).map(|i: int, x: Data| x@) == s.map(|i: int, x: Data| x@).push(d@),
{
    assert(s.push(d).map(|i: int, x: Data| x@) =~= s.map(|i: int, x: Data| x@).push(d@));
}

/// Parse the readings list at `pos`, after its opening bracket, up to
/// and including the closing bracket.
#[verifier::loop_isolation(false)]
#[verifier::rlimit(100)]
#[verifier::spinoff_prover]
fn x_entries(t: &Vec<char>, pos: usize) -> (r: Option<(Vec<Data>, usize)>)
    requires
        pos <= t@.len(),
    ensures
        match r {
            Some((ds, p)) => pos < p <= t@.len() && p_entries(t@.skip(pos as int)) == Some(
                (ds@.map(|i: int, d: Data| d@), t@.skip(p as int)),
            ) && (forall|i: int| 0 <= i < ds@.len() ==> (#[trigger] ds@[i]).wf()),
            None => p_entries(t@.skip(pos as int)) is None,
        },
{
    if pos >= t.len() {
        proof {
            assert(t@.skip(pos as int) =~= Seq::<char>::empty());
        }
        return None;
    }
    proof {
        assert(t@.skip(pos as int)[0] == t@[pos as int]);
    }
    if t[pos] == ']' {
        let ds: Vec<Data> = Vec::new();
        proof {
            assert(t@.skip(pos as int).drop_first() =~= t@.skip(pos + 1));
            assert(ds@.map(|i: int, d: Data| d@) =~= Seq::<DataV>::empty());
        }
        return Some((ds, pos + 1));
    }
    proof {
        assert(p_entries(t@.skip(pos as int)) == p_entries1(t@.skip(pos as int)));
    }
    let mut acc: Vec<Data> = Vec::new();
    let mut cur: usize = pos;
    loop
        invariant
            pos <= cur <= t@.len(),
            forall|i: int| 0 <= i < acc@.len() ==> (#[trigger] acc@[i]).wf(),
            (match p_entries1(t@.skip(cur as int)) {
                Some((ds2, r2)) => p_entries1(t@.skip(pos as int)) == Some(
                    (acc@.map(|i: int, d: Data| d@) + ds2, r2),
                ),
                None => p_entries1(t@.skip(pos as int)) is None,
            }),
        decreases t@.len() - cur,
    {
        match x_entry(t, cur) {
            None => {
                proof {
                    lemma_entries1_unfold_none(t@.skip(cur as int));
                }
                return None;
            },
            Some((d, p)) => {
                proof {
                    assert(t@.skip(p as int).len() < t@.skip(cur as int).len());
                }
                if p >= t.len() {
                    proof {
                        assert(t@.skip(p as int).len() == 0);
                        lemma_entries1_unfold_bad(t@.skip(cur as int), d@, t@.skip(p as int));
                    }
                    return None;
                }
                proof {
                    assert(t@.skip(p as int)[0] == t@[p as int]);
                    assert(t@.skip(p as int).drop_first() =~= t@.skip(p + 1));
                }
                let nxt = t[p];
                if nxt == ',' {
                    let ghost acc0 = acc@;
                    let ghost cur0 = cur;
                    proof {
                        lemma_entries1_unfold_comma(t@.skip(cur as int), d@, t@.skip(p as int));
                    }
                    acc.push(d);
                    cur = p + 1;
                    proof {
                        assert(acc@ == acc0.push(d));
                        lemma_data_map_push(acc0, d);
                        let rec = p_entries1(t@.skip(cur as int));
                        if rec is Some {
                            let ds2 = rec.unwrap().0;
                            let r2 = rec.unwrap().1;
                            assert(p_entries1(t@.skip(cur0 as int)) == Some((seq![d@] + ds2, r2)));
                            assert(acc0.map(|i: int, d2: Data| d2@) + (seq![d@] + ds2) =~= acc@.map(
                                |i: int, d2: Data| d2@,
                            ) + ds2);
                        } else {
                            assert(p_entries1(t@.skip(cur0 as int)) is None);
                        }
                    }
                } else if nxt == ']' {
                    let ghost acc0 = acc@;
                    proof {
                        lemma_entries1_unfold_close(t@.skip(cur as int), d@, t@.skip(p as int));
                    }
                    acc.push(d);
                    proof {
                        assert(acc@ == acc0.push(d));
                        lemma_data_map_push(acc0, d);
                        assert(acc0.map(|i: int, d2: Data| d2@) + seq![d@] =~= acc@.map(
                            |i: int, d2: Data| d2@,
                        ));
                    }
                    return Some((acc, p + 1));
                } else {
                    proof {
                        lemma_entries1_unfold_bad(t@.skip(cur as int), d@, t@.skip(p as int));
                    }
                    return None;
                }
            },
        }
    }
}

/// The position after any run of whitespace starting at `pos`.
#[verifier::loop_isolation(false)]
fn ws_end(t: &Vec<char>, pos: usize) -> (r: usize)
    requires
        pos <= t@.len(),
    ensures
        pos <= r <= t@.len(),
        skip_ws(t@.skip(pos as int)) == t@.skip(r as int),
{
    let mut i: usize = pos;
    while i < t.len()
        invariant
            pos <= i <= t@.len(),
            skip_ws(t@.skip(pos as int)) == skip_ws(t@.skip(i as int)),
        decreases t@.len() - i,
    {
        proof {
            assert(t@.skip(i as int)[0] == t@[i as int]);
        }
        let c = t[i];
        if !(c == ' ' || c == '\t' || c == '\n' || c == '\r') {
            proof {
                assert(skip_ws(t@.skip(i as int)) == t@.skip(i as int));
            }
            return i;
        }
        proof {
            assert(t@.skip(i as int).drop_first() =~= t@.skip(i + 1));
        }
        i += 1;
    }
    proof {
        assert(t@.skip(i as int) =~= Seq::<char>::empty());
    }
    i
}

/// Decode a batch from its textual form.  The parser accepts the
/// compact canonical layout that [`encode_text`] and the firmware's
/// logger produce, with optional surrounding whitespace; anything else
/// is an `InvalidJson` error.
#[verifier::rlimit(100)]
pub fn decode_text(s: &str) -> (r: Result<SensorData, TelemetryError>)
    ensures
        match r {
            Ok(b) => spec_parse_text(s@) == Some(b@) && b.wf(),
            Err(e) => spec_parse_text(s@) is None && e == TelemetryError::InvalidJson,
        },
{
    let t = str_to_chars(s);
    let start = ws_end(&t, 0);
    proof {
        assert(t@.skip(0) =~= t@);
    }
    let mut head: Vec<char> = Vec::new();
    head.push('{');
    head.push('"');
    head.push('c');
    head.push('o');
    head.push('n');
    head.push('t');
    head.push('r');
    head.push('o');
    head.push('l');
    head.push('l');
    head.push('e');
    head.push('r');
    head.push('"');
    head.push(':');
    head.push('[');
    proof {
        assert(head@ =~= seq!['{'] + key_controller() + seq![':'] + seq!['[']);
    }
    let p1 = match eat_lit(&t, start, &head) {
        Some(p) => p,
        None => {
            return Err(TelemetryError::InvalidJson);
        },
    };
    let (controller, p2) = match x_id_elems(&t, p1) {
        Some(x) => x,
        None => {
            return Err(TelemetryError::InvalidJson);
        },
    };
    let mut mid: Vec<char> = Vec::new();
    mid.push(']');
    mid.push(',');
    mid.push('"');
    mid.push('s');
    mid.push('e');
    mid.push('n');
    mid.push('s');
    mid.push('o');
    mid.push('r');
    mid.push('s');
    mid.push('"');
    mid.push(':');
    mid.push('[');
    proof {
        assert(mid@ =~= seq![']'] + seq![','] + key_sensors() + seq![':'] + seq!['[']);
    }
    let p3 = match eat_lit(&t, p2, &mid) {
        Some(p) => p,
        None => {
            return Err(TelemetryError::InvalidJson);
        },
    };
    let (sensors, p4) = match x_entries(&t, p3) {
        Some(x) => x,
        None => {
            return Err(TelemetryError::InvalidJson);
        },
    };
    let mut close: Vec<char> = Vec::new();
    close.push('}');
    proof {
        assert(close@ =~= seq!['}']);
    }
    let p5 = match eat_lit(&t, p4, &close) {
        Some(p) => p,
        None => {
            return Err(TelemetryError::InvalidJson);
        },
    };
    let fin = ws_end(&t, p5);
    if fin != t.len() {
        proof {
            assert(skip_ws(t@.skip(p5 as int)).len() > 0);
        }
        return Err(TelemetryError::InvalidJson);
    }
    proof {
        assert(t@.skip(fin as int) =~= Seq::<char>::empty());
        assert(skip_ws(t@.skip(p5 as int)).len() == 0);
    }
    let b = SensorData { controller, sensors };
    proof {
        assert(b@ =~= BatchV {
            controller: controller@,
            sensors: sensors@.map(|i: int, d: Data| d@),
        });
        assert(b.wf());
    }
    Ok(b)
}

/// Encode a batch in its canonical textual form.  This is total for
/// every well-formed batch, and the output parses back to exactly the
/// batch it came from.
pub fn encode_text(b: &SensorData) -> (r: String)
    requires
        b.wf(),
    ensures
        r@ == spec_encode_text(b@),
        spec_parse_text(r@) == Some(b@),
{
    let ghost head = seq!['{'] + key_controller() + seq![':'] + seq!['['];
    let mut out: Vec<char> = Vec::new();
    out.push('{');
    out.push('"');
    out.push('c');
    out.push('o');
    out.push('n');
    out.push('t');
    out.push('r');
    out.push('o');
    out.push('l');
    out.push('l');
    out.push('e');
    out.push('r');
    out.push('"');
    out.push(':');
    out.push('[');
    proof {
        assert(out@ =~= head);
    }
    let mut i: usize = 0;
    while i < b.controller.len()
        invariant
            b.wf(),
            i <= b.controller@.len(),
            out@ == head + enc_id_elems(b@.controller.take(i as int)),
        decreases b.controller@.len() - i,
    {
        proof {
            assert(b@.controller.take(i as int).push(b.controller@[i as int]) =~= b@.controller
                .take(i + 1));
        }
        if i > 0 {
            out.push(',');
            let mut one: Vec<char> = Vec::new();
            one.push(b.controller[i]);
            push_quoted(&mut out, &one);
            proof {
                lemma_enc_id_snoc(b@.controller.take(i as int), b.controller@[i as int]);
                assert(one@ =~= seq![b.controller@[i as int]]);
                assert(out@ =~= head + enc_id_elems(b@.controller.take(i + 1)));
            }
        } else {
            let mut one: Vec<char> = Vec::new();
            one.push(b.controller[i]);
            push_quoted(&mut out, &one);
            proof {
                assert(one@ =~= seq![b.controller@[0]]);
                assert(enc_id_elems(b@.controller.take(1)) == quoted(seq![b.controller@[0]]));
                assert(out@ =~= head + enc_id_elems(b@.controller.take(1)));
            }
        }
        i += 1;
    }
    proof {
        assert(b@.controller.take(b.controller@.len() as int) =~= b@.controller);
    }
    let ghost mid = seq![']'] + seq![','] + key_sensors() + seq![':'] + seq!['['];
    out.push(']');
    out.push(',');
    out.push('"');
    out.push('s');
    out.push('e');
    out.push('n');
    out.push('s');
    out.push('o');
    out.push('r');
    out.push('s');
    out.push('"');
    out.push(':');
    out.push('[');
    proof {
        assert(out@ =~= head + enc_id_elems(b@.controller) + mid);
    }
    let mut j: usize = 0;
    while j < b.sensors.len()
        invariant
            b.wf(),
            j <= b.sensors@.len(),
            out@ == head + enc_id_elems(b@.controller) + mid + enc_entries(b@.sensors.take(
                j as int,
            )),
        decreases b.sensors@.len() - j,
    {
        proof {
            assert(b@.sensors[j as int] == b.sensors@[j as int]@);
            assert(b@.sensors.take(j as int).push(b@.sensors[j as int]) =~= b@.sensors.take(j + 1));
        }
        if j > 0 {
            out.push(',');
            push_entry(&mut out, &b.sensors[j]);
            proof {
                lemma_enc_entries_snoc(b@.sensors.take(j as int), b@.sensors[j as int]);
                assert(out@ =~= head + enc_id_elems(b@.controller) + mid + enc_entries(b@.sensors
                    .take(j + 1)));
            }
        } else {
            push_entry(&mut out, &b.sensors[j]);
            proof {
                assert(enc_entries(b@.sensors.take(1)) == enc_entry(b@.sensors[0]));
                assert(out@ =~= head + enc_id_elems(b@.controller) + mid + enc_entries(b@.sensors
                    .take(1)));
            }
        }
        j += 1;
    }
    out.push(']');
    out.push('}');
    proof {
        assert(b@.sensors.take(b.sensors@.len() as int) =~= b@.sensors);
        assert(out@ =~= spec_encode_text(b@));
        assert(batch_wf(b@));
        lemma_text_round_trip(b@);
    }
    chars_to_string(&out)
}

} // verus!
