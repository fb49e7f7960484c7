use minechat_protocol::cbor::{
    definite_lengths, deserialize_envelope, serialize_envelope, CborError,
};
use minechat_protocol::payloads::{
    CapabilitiesPayload, LinkPayload, ModerationPayload, PingPayload, SystemDisconnectPayload,
};

#[test]
fn envelope_round_trips_for_any_packet_type() {
    let payload = PingPayload { timestamp_ms: 99 }.to_cbor();
    for t in [0, 1, 9, 23, 24, 255, 256, 70000, -1, -24, -25, i32::MAX, i32::MIN] {
        let bytes = serialize_envelope(t, &payload).unwrap();
        let (back, start, end) = deserialize_envelope(&bytes).unwrap();
        assert_eq!(back, t);
        assert_eq!(&bytes[start..end], &payload[..]);
        assert_eq!(end, bytes.len());
    }
}

#[test]
fn envelope_bytes_are_exact() {
    let bytes = serialize_envelope(5, &[0xa0]).unwrap();
    assert_eq!(bytes, vec![0xa2, 0x00, 0x05, 0x01, 0xa0]);
    let bytes = serialize_envelope(-2, &[0xf6]).unwrap();
    assert_eq!(bytes, vec![0xa2, 0x00, 0x21, 0x01, 0xf6]);
}

#[test]
fn envelope_errors() {
    let msg = |b: &[u8]| match deserialize_envelope(b) {
        Err(e) => e.to_string(),
        Ok(x) => panic!("expected an error, got {:?}", x),
    };
    assert_eq!(msg(&[0xa1, 0x00]), "CBOR error: malformed CBOR data item");
    assert_eq!(msg(&[0x80]), "expected map envelope");
    assert_eq!(msg(&[0xa1, 0x00, 0x01]), "envelope must have exactly two entries");
    assert_eq!(msg(&[0xa2, 0x00, 0x61, 0x78, 0x01, 0x00]), "packet_type is not an integer");
    assert!(matches!(deserialize_envelope(&[0x80]), Err(CborError::Custom(_))));
}

#[test]
fn text_and_integer_keys_mix() {
    // { "1": {}, 0: 3 }: the packet type comes from the integer key, the
    // payload from the text key
    let bytes = [0xa2, 0x61, 0x31, 0xa0, 0x00, 0x03];
    let (t, start, end) = deserialize_envelope(&bytes).unwrap();
    assert_eq!(t, 3);
    assert_eq!((start, end), (3, 4));
}

#[test]
fn link_payload_round_trips() {
    let p = LinkPayload { linking_code: "ABC".to_string(), client_uuid: "u".to_string() };
    let bytes = p.to_cbor();
    // { 0: "ABC", 1: "u" }
    assert_eq!(bytes, vec![0xa2, 0x00, 0x63, b'A', b'B', b'C', 0x01, 0x61, b'u']);
    let back = LinkPayload::from_cbor(&bytes, 0).unwrap();
    assert_eq!(back.linking_code, "ABC");
    assert_eq!(back.client_uuid, "u");
}

#[test]
fn missing_and_duplicate_fields() {
    // { 0: "ABC" }
    let r = LinkPayload::from_cbor(&[0xa1, 0x00, 0x63, b'A', b'B', b'C'], 0);
    assert_eq!(r.unwrap_err(), "missing field `client_uuid`");
    // { 0: 1, 0: 2 }
    let r = PingPayload::from_cbor(&[0xa2, 0x00, 0x01, 0x00, 0x02], 0);
    assert_eq!(r.unwrap_err(), "duplicate field `timestamp_ms`");
}

#[test]
fn optional_fields() {
    let p = ModerationPayload { action: 1, scope: 0, reason: None, duration_seconds: Some(60) };
    let back = ModerationPayload::from_cbor(&p.to_cbor(), 0).unwrap();
    assert_eq!(back.reason, None);
    assert_eq!(back.duration_seconds, Some(60));

    let c = CapabilitiesPayload {
        supported_formats: vec!["components".to_string()],
        preferred_format: None,
    };
    let back = CapabilitiesPayload::from_cbor(&c.to_cbor(), 0).unwrap();
    assert_eq!(back.supported_formats, vec!["components".to_string()]);
    assert_eq!(back.preferred_format, None);
}

#[test]
fn disconnect_payload_round_trips() {
    let p = SystemDisconnectPayload { reason_code: 2, message: "oops".to_string() };
    let back = SystemDisconnectPayload::from_cbor(&p.to_cbor(), 0).unwrap();
    assert_eq!(back.reason_code, 2);
    assert_eq!(back.message, "oops");
}

#[test]
fn indefinite_lengths_are_made_definite() {
    // {_ 0: 4, 1: {} }
    let bytes = [0xbf, 0x00, 0x04, 0x01, 0xa0, 0xff];
    assert_eq!(definite_lengths(&bytes), Some(vec![0xa2, 0x00, 0x04, 0x01, 0xa0]));
    // (_ "ab", "c") and [_ 1, 2]
    assert_eq!(
        definite_lengths(&[0x7f, 0x62, b'a', b'b', 0x61, b'c', 0xff]),
        Some(vec![0x63, b'a', b'b', b'c'])
    );
    assert_eq!(definite_lengths(&[0x9f, 0x01, 0x02, 0xff]), Some(vec![0x82, 0x01, 0x02]));
    // definite input comes back as it is
    assert_eq!(definite_lengths(&[0x82, 0x01, 0x02]), Some(vec![0x82, 0x01, 0x02]));
    // a missing break, a chunk of the other string type, an odd map
    assert_eq!(definite_lengths(&[0x9f, 0x01]), None);
    assert_eq!(definite_lengths(&[0x7f, 0x41, 0x00, 0xff]), None);
    assert_eq!(definite_lengths(&[0xbf, 0x00, 0xff]), None);
}

#[test]
fn envelope_reader_takes_definite_lengths() {
    // {_ 0: 4, 1: {} } written with an indefinite-length map
    let bytes = [0xbf, 0x00, 0x04, 0x01, 0xa0, 0xff];
    match deserialize_envelope(&bytes) {
        Err(e) => assert_eq!(e.to_string(), "CBOR error: malformed CBOR data item"),
        Ok(x) => panic!("expected an error, got {:?}", x),
    }
}
