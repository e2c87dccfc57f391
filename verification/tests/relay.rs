use telemetry_relay::dispatch::{build_dispatch_request, check_config, classify_status, encode_server_data};
use telemetry_relay::errors::TelemetryError;
use telemetry_relay::line::{extract_payload, parse_line};
use telemetry_relay::peer::{PeerRegistry, registration_needed, BROADCAST_ADDRESS};
use telemetry_relay::text;
use telemetry_relay::transform::{format_controller, ServerData, ServerDataEntry};
use telemetry_relay::wire;

fn wire_batch(controller: char, readings: &[(&str, f32)]) -> wire::SensorData {
    let mut b = wire::SensorData::new(vec![controller; 32]);
    for (kind, value) in readings {
        b.add_data(wire::Data { kind: kind.to_string(), value: value.to_bits() });
    }
    b
}

fn text_batch(controller: char, readings: &[(&str, &str)]) -> text::SensorData {
    text::SensorData {
        controller: vec![controller; 32],
        sensors: readings
            .iter()
            .map(|(kind, value)| text::Data { kind: kind.to_string(), value: value.to_string() })
            .collect(),
    }
}

#[test]
fn binary_round_trip_one_reading() {
    let b = wire_batch('t', &[("temperature", 20.7)]);
    let bytes = wire::encode_binary(&b);
    let d = wire::decode_binary(&bytes).unwrap();
    assert_eq!(d.controller, vec!['t'; 32]);
    assert_eq!(d.sensors.len(), 1);
    assert_eq!(d.sensors[0].kind, "temperature");
    assert_eq!(f32::from_bits(d.sensors[0].value), 20.7);
}

#[test]
fn binary_round_trip_empty_and_many() {
    let b = wire_batch('a', &[]);
    let bytes = wire::encode_binary(&b);
    let d = wire::decode_binary(&bytes).unwrap();
    assert_eq!(d.sensors.len(), 0);

    // more than 127 readings forces a two-byte varint count
    let readings: Vec<(String, f32)> =
        (0..200).map(|i| (format!("s{}", i), i as f32 * 0.5)).collect();
    let mut big = wire::SensorData::new(vec!['f'; 32]);
    for (kind, value) in &readings {
        big.add_data(wire::Data { kind: kind.clone(), value: value.to_bits() });
    }
    let bytes = wire::encode_binary(&big);
    let d = wire::decode_binary(&bytes).unwrap();
    assert_eq!(d.sensors.len(), 200);
    for (i, (kind, value)) in readings.iter().enumerate() {
        assert_eq!(&d.sensors[i].kind, kind);
        assert_eq!(f32::from_bits(d.sensors[i].value), *value);
    }
}

#[test]
fn binary_encoding_matches_the_senders_schema() {
    // the sender serializes `{ controller: [char; 32], sensors: Vec<{ type, value }> }`
    // with postcard; tuples serialize exactly like those structs
    let reference: Vec<u8> =
        postcard::to_allocvec(&(['t'; 32], vec![("temperature".to_string(), 20.7f32)])).unwrap();
    let b = wire_batch('t', &[("temperature", 20.7)]);
    assert_eq!(wire::encode_binary(&b), reference);
    let d = wire::decode_binary(&reference).unwrap();
    assert_eq!(d.sensors[0].kind, "temperature");
    assert_eq!(f32::from_bits(d.sensors[0].value), 20.7);
}

#[test]
fn binary_decode_rejects_malformed_frames() {
    assert_eq!(wire::decode_binary(&vec![]).unwrap_err(), TelemetryError::MalformedFrame);
    let b = wire_batch('t', &[("temperature", 20.7)]);
    let mut bytes = wire::encode_binary(&b);
    bytes.truncate(bytes.len() - 1);
    assert_eq!(wire::decode_binary(&bytes).unwrap_err(), TelemetryError::MalformedFrame);
    // a kind label with invalid UTF-8
    let mut bad = wire::encode_binary(&wire_batch('t', &[("zz", 1.0)]));
    let n = bad.len();
    bad[n - 5] = 0xFF; // inside the two-byte label, before the four value bytes
    assert_eq!(wire::decode_binary(&bad).unwrap_err(), TelemetryError::MalformedFrame);
}

#[test]
fn text_round_trip() {
    let b = text_batch('7', &[("temperature", "20.7"), ("humidity", "55"), ("neg", "-1.5e-3")]);
    let s = text::encode_text(&b);
    let d = text::decode_text(&s).unwrap();
    assert_eq!(d.controller, b.controller);
    assert_eq!(d.sensors.len(), 3);
    for i in 0..3 {
        assert_eq!(d.sensors[i].kind, b.sensors[i].kind);
        assert_eq!(d.sensors[i].value, b.sensors[i].value);
    }
}

#[test]
fn text_round_trip_with_escapes() {
    let b = text_batch('"', &[("we\"ird\\la\nbel", "0")]);
    let s = text::encode_text(&b);
    let d = text::decode_text(&s).unwrap();
    assert_eq!(d.controller, b.controller);
    assert_eq!(d.sensors[0].kind, b.sensors[0].kind);
}

#[test]
fn text_encoding_is_json_the_firmware_logger_would_emit() {
    let b = text_batch('t', &[("temperature", "20.7")]);
    let s = text::encode_text(&b);
    let v: serde_json::Value = serde_json::from_str(&s).unwrap();
    assert_eq!(v["controller"][0], "t");
    assert_eq!(v["controller"].as_array().unwrap().len(), 32);
    assert_eq!(v["sensors"][0]["type"], "temperature");
    assert_eq!(v["sensors"][0]["value"], 20.7);
}

#[test]
fn text_decode_handles_unicode_escapes() {
    let mut ctrl = String::new();
    for _ in 0..32 {
        ctrl.push_str("\"c\",");
    }
    ctrl.pop();
    let line = format!(
        "{{\"controller\":[{}],\"sensors\":[{{\"type\":\"a\\u00e9\\ud83d\\ude00b\",\"value\":1}}]}}",
        ctrl
    );
    let d = text::decode_text(&line).unwrap();
    assert_eq!(d.sensors[0].kind, "a\u{e9}\u{1F600}b");
}

#[test]
fn text_decode_rejects_bad_payloads() {
    for bad in [
        "",
        "{",
        "[]",
        "{\"controller\":[],\"sensors\":[]}",
        "{\"sensors\":[]}",
        "{\"controller\":[\"t\"],\"sensors\":[]}",
        "not json at all",
    ] {
        assert_eq!(text::decode_text(bad).unwrap_err(), TelemetryError::InvalidJson);
    }
    // a value of the wrong type
    let mut ctrl = String::new();
    for _ in 0..32 {
        ctrl.push_str("\"t\",");
    }
    ctrl.pop();
    let bad = format!(
        "{{\"controller\":[{}],\"sensors\":[{{\"type\":\"x\",\"value\":null}}]}}",
        ctrl
    );
    assert_eq!(text::decode_text(&bad).unwrap_err(), TelemetryError::InvalidJson);
}

#[test]
fn line_parser_ignores_unmarked_lines() {
    assert!(extract_payload("Starting gateway...").is_none());
    assert!(parse_line("Starting gateway...").is_none());
    assert!(parse_line("").is_none());
    assert!(parse_line("decoded: {}").is_none());
}

#[test]
fn line_parser_extracts_one_batch() {
    let mut ctrl = String::new();
    for _ in 0..32 {
        ctrl.push_str("\"t\",");
    }
    ctrl.pop();
    let line = format!(
        "Decoded: {{\"controller\":[{}],\"sensors\":[{{\"type\":\"temperature\",\"value\":20.7}}]}}",
        ctrl
    );
    let batch = parse_line(&line).unwrap().unwrap();
    assert_eq!(batch.controller, vec!['t'; 32]);
    assert_eq!(batch.sensors.len(), 1);
    assert_eq!(batch.sensors[0].kind, "temperature");
    assert_eq!(batch.sensors[0].value, "20.7");
    assert_eq!("20.7".parse::<f32>().unwrap(), 20.7);
}

#[test]
fn line_parser_reports_bad_payload_without_panicking() {
    let r = parse_line("Decoded: {broken").unwrap();
    assert_eq!(r.unwrap_err(), TelemetryError::InvalidJson);
}

#[test]
fn identifier_grouping_is_8_4_4_4_12() {
    let buf: Vec<char> = "74747474747474747474747474747474".chars().collect();
    let s = format_controller(&buf);
    assert_eq!(s, "74747474-7474-7474-7474-747474747474");
    assert_eq!(s.len(), 36);
    // regrouping does not validate hex-ness
    let odd: Vec<char> = "zzzzzzzzzzzzzzzzzzzzzzzzzzzzzzzz".chars().collect();
    assert_eq!(format_controller(&odd), "zzzzzzzz-zzzz-zzzz-zzzz-zzzzzzzzzzzz");
}

#[test]
fn transform_preserves_count_and_order() {
    let b = text_batch('7', &[("temperature", "20.7"), ("humidity", "55")]);
    let r = ServerData::from(&b);
    assert_eq!(r.data.len(), 2);
    assert_eq!(r.data[0].sensor, "temperature");
    assert_eq!(r.data[0].value, "20.7");
    assert_eq!(r.data[1].sensor, "humidity");
    assert_eq!(r.data[1].value, "55");
    assert_eq!(r.data[0].controller, "77777777-7777-7777-7777-777777777777");
    assert_eq!(r.data[1].controller, r.data[0].controller);

    let empty = text_batch('7', &[]);
    assert_eq!(ServerData::from(&empty).data.len(), 0);
}

#[test]
fn dispatcher_builds_the_exact_collector_request() {
    let record = ServerData {
        data: vec![ServerDataEntry {
            controller: "74747474-7474-7474-7474-747474747474".to_string(),
            sensor: "test".to_string(),
            value: "1.0".to_string(),
        }],
    };
    let req = build_dispatch_request("http://localhost/v1/", "SECRET-REDACTED", &record);
    assert_eq!(req.url, "http://localhost/v1/sensor-data");
    assert_eq!(req.content_type, "application/json");
    assert_eq!(req.auth_header, "Basic SECRET-REDACTED");
    assert_eq!(
        req.body,
        "{\"data\":[{\"controller\":\"74747474-7474-7474-7474-747474747474\",\"sensor\":\"test\",\"value\":1.0}]}"
    );
    let v: serde_json::Value = serde_json::from_str(&req.body).unwrap();
    assert_eq!(v["data"][0]["value"], 1.0);
}

#[test]
fn test_publish_data() {
    // the request prepared for one batch from controller ['t'; 32] with
    // one reading (test, 1.0); the send itself is the transport's job
    let batch = text_batch('t', &[("test", "1.0")]);
    let record = ServerData::from(&batch);
    let req = build_dispatch_request("http://localhost/v1/", "SECRET-REDACTED", &record);
    assert_eq!(
        req.body,
        "{\"data\":[{\"controller\":\"tttttttt-tttt-tttt-tttt-tttttttttttt\",\"sensor\":\"test\",\"value\":1.0}]}"
    );
    assert_eq!(encode_server_data(&record), req.body);
}

#[test]
fn delivery_status_classification() {
    assert!(classify_status(200).is_ok());
    assert!(classify_status(204).is_ok());
    assert!(classify_status(302).is_ok());
    assert_eq!(classify_status(404).unwrap_err(), TelemetryError::DeliveryError);
    assert_eq!(classify_status(500).unwrap_err(), TelemetryError::DeliveryError);
    assert_eq!(classify_status(599).unwrap_err(), TelemetryError::DeliveryError);
    assert!(classify_status(600).is_ok());
}

#[test]
fn configuration_must_be_complete() {
    assert_eq!(
        check_config(None, Some("auth".to_string())).unwrap_err(),
        TelemetryError::ConfigurationError
    );
    assert_eq!(
        check_config(Some("http://x/".to_string()), None).unwrap_err(),
        TelemetryError::ConfigurationError
    );
    let c = check_config(Some("http://x/".to_string()), Some("auth".to_string())).unwrap();
    assert_eq!(c.endpoint, "http://x/");
    assert_eq!(c.credential, "auth");
}

#[test]
fn peer_registered_exactly_once() {
    let mut reg = PeerRegistry::new();
    let sender: u64 = 0x0011_2233_4455;
    assert!(reg.ensure_registered(sender, BROADCAST_ADDRESS));
    assert!(!reg.ensure_registered(sender, BROADCAST_ADDRESS));
    assert!(reg.peer_exists(sender));
    // a frame sent to a unicast address never registers
    let other: u64 = 0x0066_7788_99AA;
    assert!(!reg.ensure_registered(other, 0x0000_0000_0001));
    assert!(!reg.peer_exists(other));
    assert!(!registration_needed(0x0000_0000_0001, false));
    assert!(registration_needed(BROADCAST_ADDRESS, false));
    assert!(!registration_needed(BROADCAST_ADDRESS, true));
}

#[test]
fn error_labels() {
    assert_eq!(TelemetryError::MalformedFrame.label(), "malformed frame");
    assert_eq!(TelemetryError::InvalidJson.label(), "invalid json");
    assert_eq!(TelemetryError::CapabilityError.label(), "capability error");
    assert_eq!(TelemetryError::DeliveryError.label(), "delivery error");
    assert_eq!(TelemetryError::ConfigurationError.label(), "configuration error");
}
