//! Requests, framing, replies and error mapping.

use jade_client::cbor::{carry_over, decode, encode, CborValue};
use jade_client::error::JadeError;
use jade_client::protocol::{
    encode_request, try_take_frame, RequestIds, MAX_FRAME_BYTES, UNATTRIBUTED_ID,
};
use jade_client::reply::{
    classify, decode_reply, reply_from_value, result_bool, result_bytes, result_text, JadeReply,
    ReplyMatch,
};
use jade_client::rpc_code;

/// Encode a CBOR map from `(key, value)` pairs.
fn cbor_map(entries: Vec<(&str, ciborium::Value)>) -> Vec<u8> {
    let value = ciborium::Value::Map(
        entries
            .into_iter()
            .map(|(key, value)| (ciborium::Value::Text(key.to_string()), value))
            .collect(),
    );
    let mut encoded = Vec::new();
    ciborium::into_writer(&value, &mut encoded).unwrap();
    encoded
}

fn text(value: &str) -> ciborium::Value {
    ciborium::Value::Text(value.to_string())
}

fn number(value: i64) -> ciborium::Value {
    ciborium::Value::Integer(value.into())
}

fn reply_frame(id: &str, result: ciborium::Value) -> Vec<u8> {
    cbor_map(vec![("id", text(id)), ("result", result)])
}

fn error_frame(id: &str, code: i64, message: &str) -> Vec<u8> {
    cbor_map(vec![
        ("id", text(id)),
        (
            "error",
            ciborium::Value::Map(vec![
                (text("code"), number(code)),
                (text("message"), text(message)),
            ]),
        ),
    ])
}

fn own_text(value: &str) -> CborValue {
    CborValue::Text(value.to_string())
}

/// Locate the CBOR header byte immediately following the text key `psbt`.
fn byte_after_psbt_key(encoded: &[u8]) -> u8 {
    // "psbt" as a CBOR text string of length 4 is 0x64 followed by the ASCII.
    let key = [0x64, b'p', b's', b'b', b't'];
    let position = encoded
        .windows(key.len())
        .position(|window| window == key)
        .expect("psbt key not found in encoding");
    encoded[position + key.len()]
}

// ----------------------------------------------------------------------------
// Requests
// ----------------------------------------------------------------------------

#[test]
fn binary_params_encode_as_cbor_byte_strings() {
    let params = CborValue::Pairs(vec![(
        own_text("psbt"),
        CborValue::Bytes(vec![0x70, 0x73, 0x62, 0x74, 0xff]),
    )]);
    let encoded = encode_request("1", "sign_psbt", Some(params)).unwrap();

    // Major type 2 (byte string) occupies 0x40..=0x5f.
    let header = byte_after_psbt_key(&encoded);
    assert!(
        (0x40..=0x5f).contains(&header),
        "expected a byte string header, got {header:#04x}"
    );
}

#[test]
fn binary_params_without_serde_bytes_would_encode_as_an_array() {
    let numbers = [0x70, 0x73, 0x62, 0x74, 0xff]
        .iter()
        .map(|n| CborValue::Integer(*n))
        .collect();
    let params = CborValue::Pairs(vec![(own_text("psbt"), CborValue::Array(numbers))]);
    let encoded = encode_request("1", "sign_psbt", Some(params)).unwrap();

    // Major type 4 (array) occupies 0x80..=0x9f.
    let header = byte_after_psbt_key(&encoded);
    assert!(
        (0x80..=0x9f).contains(&header),
        "expected an array header, got {header:#04x}"
    );
}

#[test]
fn absent_params_are_omitted_rather_than_encoded_as_null() {
    // The device takes a CBOR null for a missing value and then fails, so the
    // key must not be present at all.
    let encoded = encode_request("7", "ping", None).unwrap();
    assert!(
        !encoded
            .windows(6)
            .any(|w| w == [0x66, b'p', b'a', b'r', b'a', b'm']),
        "params key should be absent"
    );
    let reply: JadeReply = decode_reply(&encoded).unwrap();
    assert_eq!(reply.id.as_deref(), Some("7"));
}

#[test]
fn a_request_has_exactly_these_bytes() {
    let encoded = encode_request("1", "ping", None).unwrap();
    assert_eq!(
        encoded,
        [
            &[0xa2u8, 0x62][..],
            b"id",
            &[0x61],
            b"1",
            &[0x66],
            b"method",
            &[0x64],
            b"ping"
        ]
        .concat()
    );
}

#[test]
fn a_request_with_params_reads_back() {
    let params = CborValue::Pairs(vec![
        (own_text("count"), CborValue::Integer(300)),
        (own_text("below"), CborValue::Integer(-70000)),
        (own_text("on"), CborValue::Bool(true)),
        (own_text("off"), CborValue::Bool(false)),
        (own_text("none"), CborValue::Null),
        (own_text("raw"), CborValue::Bytes(vec![7; 30])),
        (
            own_text("list"),
            CborValue::Array(vec![CborValue::Integer(1), own_text("two")]),
        ),
    ]);
    let copy = decode(&encode(&params).unwrap()).unwrap();
    assert_eq!(copy, params);

    let encoded = encode_request("12", "m", Some(params)).unwrap();
    let reply = decode_reply(&encoded).unwrap();
    assert_eq!(reply.id.as_deref(), Some("12"));
    assert_eq!(reply.result, None);

    let mut buf = encoded.clone();
    assert_eq!(try_take_frame(&mut buf).unwrap().unwrap(), encoded);
    assert!(buf.is_empty());
}

#[test]
fn params_that_cannot_be_encoded_are_refused() {
    let error = encode_request("1", "m", Some(CborValue::Opaque)).unwrap_err();
    assert_eq!(
        error,
        JadeError::ProtocolError {
            error_details: "parameters cannot be encoded".to_string()
        }
    );
    let wide = CborValue::Array(vec![CborValue::Integer(1 << 64)]);
    assert!(encode_request("1", "m", Some(wide)).is_err());
    let widest = CborValue::Integer((1 << 64) - 1);
    assert!(encode_request("1", "m", Some(widest)).is_ok());
    let lowest = CborValue::Integer(-(1 << 64));
    assert_eq!(
        encode(&lowest).unwrap(),
        vec![0x3b, 0xff, 0xff, 0xff, 0xff, 0xff, 0xff, 0xff, 0xff]
    );
    assert_eq!(decode(&encode(&lowest).unwrap()), Some(lowest));
}

#[test]
fn headers_take_the_shortest_form() {
    assert_eq!(encode(&CborValue::Integer(23)).unwrap(), vec![0x17]);
    assert_eq!(encode(&CborValue::Integer(24)).unwrap(), vec![0x18, 24]);
    assert_eq!(encode(&CborValue::Integer(256)).unwrap(), vec![0x19, 1, 0]);
    assert_eq!(
        encode(&CborValue::Integer(65536)).unwrap(),
        vec![0x1a, 0, 1, 0, 0]
    );
    assert_eq!(
        encode(&CborValue::Integer(1 << 32)).unwrap(),
        vec![0x1b, 0, 0, 0, 1, 0, 0, 0, 0]
    );
    assert_eq!(encode(&CborValue::Integer(-1)).unwrap(), vec![0x20]);
    assert_eq!(encode(&CborValue::Null).unwrap(), vec![0xf6]);
    assert_eq!(encode(&CborValue::Bool(true)).unwrap(), vec![0xf5]);
    assert_eq!(encode(&CborValue::Bool(false)).unwrap(), vec![0xf4]);
    assert_eq!(encode(&own_text("é")).unwrap(), vec![0x62, 0xc3, 0xa9]);
}

#[test]
fn tagged_items_are_carried_whole() {
    let foreign = ciborium::Value::Tag(99, Box::new(ciborium::Value::Array(vec![text("x")])));
    let mut encoded = Vec::new();
    ciborium::into_writer(&foreign, &mut encoded).unwrap();
    let tagged = CborValue::Tagged(99, Box::new(CborValue::Array(vec![own_text("x")])));
    assert_eq!(decode(&encoded), Some(tagged));
    assert_eq!(carry_over(&foreign), decode(&encoded).unwrap());
    assert_eq!(encode(&carry_over(&foreign)), Some(encoded));
    assert_eq!(
        encode(&CborValue::Tagged(1 << 32, Box::new(CborValue::Null))).unwrap(),
        vec![0xdb, 0, 0, 0, 1, 0, 0, 0, 0, 0xf6]
    );

    // As a parameter and as a result.
    let request = encode_request("1", "m", Some(carry_over(&foreign))).unwrap();
    let mut buf = request.clone();
    assert_eq!(try_take_frame(&mut buf).unwrap(), Some(request));
    let reply = decode_reply(&reply_frame("1", foreign.clone())).unwrap();
    assert_eq!(reply.result, Some(carry_over(&foreign)));
    let value = reply.into_result("1.0.0").unwrap();
    assert!(result_text(&value).is_err());
}

#[test]
fn a_large_integer_is_a_tagged_byte_string() {
    let wide = ciborium::Value::from(1u128 << 100);
    let mut bytes = vec![0x10];
    bytes.resize(13, 0);
    assert_eq!(
        carry_over(&wide),
        CborValue::Tagged(2, Box::new(CborValue::Bytes(bytes)))
    );
    // One that fits an ordinary integer is read as that.
    assert_eq!(
        decode(&[0xc2, 0x41, 0x07]),
        Some(CborValue::Integer(7))
    );
}

#[test]
fn floats_are_carried_as_opaque() {
    let mut encoded = Vec::new();
    ciborium::into_writer(&ciborium::Value::Float(1.5), &mut encoded).unwrap();
    assert_eq!(decode(&encoded), Some(CborValue::Opaque));
    assert_eq!(encode(&CborValue::Opaque), None);
    assert_eq!(
        encode(&CborValue::Tagged(1, Box::new(CborValue::Opaque))),
        None
    );
    assert_eq!(decode(&[0x62, 0xff, 0xff]), None);
}

// ----------------------------------------------------------------------------
// Framing
// ----------------------------------------------------------------------------

#[test]
fn a_frame_split_across_reads_reassembles() {
    let frame = reply_frame("1", text("xpub"));
    let mut buf = Vec::new();

    for chunk in frame.chunks(3) {
        // Every partial state must report "need more bytes", never a frame.
        if buf.len() + chunk.len() < frame.len() {
            buf.extend_from_slice(chunk);
            assert!(try_take_frame(&mut buf).unwrap().is_none());
        } else {
            buf.extend_from_slice(chunk);
        }
    }

    let taken = try_take_frame(&mut buf).unwrap().expect("frame");
    assert_eq!(taken, frame);
    assert!(buf.is_empty());
}

#[test]
fn two_frames_in_one_read_are_decoded_separately() {
    let first = reply_frame("1", text("one"));
    let second = reply_frame("2", text("two"));
    let mut buf = [first.clone(), second.clone()].concat();

    assert_eq!(try_take_frame(&mut buf).unwrap().unwrap(), first);
    assert_eq!(try_take_frame(&mut buf).unwrap().unwrap(), second);
    assert!(try_take_frame(&mut buf).unwrap().is_none());
}

#[test]
fn an_empty_buffer_needs_more_bytes() {
    let mut buf = Vec::new();
    assert!(try_take_frame(&mut buf).unwrap().is_none());
}

#[test]
fn a_corrupt_length_header_is_capped_rather_than_buffered_forever() {
    // 0x5b announces a byte string whose length is the next eight bytes, here
    // nearly 2^64. It stays incomplete whatever follows, so without a cap the
    // read buffer would grow without bound.
    let mut buf = vec![0x5b, 0xff, 0xff, 0xff, 0xff, 0xff, 0xff, 0xff, 0xff];
    assert!(try_take_frame(&mut buf).unwrap().is_none());

    buf.extend(std::iter::repeat(0u8).take(MAX_FRAME_BYTES + 1));
    let error = try_take_frame(&mut buf).unwrap_err();
    assert!(matches!(error, JadeError::ProtocolError { .. }));
    assert!(
        buf.is_empty(),
        "buffer must be cleared on a framing failure"
    );
}

#[test]
fn malformed_cbor_errors_rather_than_returning_a_truncated_frame() {
    // 0x1f is a reserved additional-information value for major type 0.
    let mut buf = vec![0x1f, 0x00, 0x00];
    let error = try_take_frame(&mut buf).unwrap_err();
    assert!(matches!(error, JadeError::ProtocolError { .. }));
    assert!(buf.is_empty());
}

#[test]
fn indefinite_lengths_end_at_their_break() {
    // An array of no announced length holding 1 and 2, then a stray byte.
    let mut buf = vec![0x9f, 0x01, 0x02, 0xff, 0x07];
    assert_eq!(
        try_take_frame(&mut buf).unwrap().unwrap(),
        vec![0x9f, 0x01, 0x02, 0xff]
    );
    assert_eq!(buf, vec![0x07]);

    // The same without its break waits.
    let mut buf = vec![0x9f, 0x01, 0x02];
    assert_eq!(try_take_frame(&mut buf).unwrap(), None);

    // A byte string in chunks, and a chunk of another kind in it.
    let mut buf = vec![0x5f, 0x41, 0xaa, 0x40, 0xff];
    assert_eq!(try_take_frame(&mut buf).unwrap().unwrap().len(), 5);
    let mut buf = vec![0x5f, 0x61, 0x61, 0xff];
    assert!(try_take_frame(&mut buf).is_err());

    // A break outside any of these.
    let mut buf = vec![0xff];
    assert!(try_take_frame(&mut buf).is_err());
}

#[test]
fn what_waits_up_to_the_limit_is_kept() {
    let mut buf = vec![0x5a, 0x00, 0x10, 0x00, 0x00];
    buf.resize(MAX_FRAME_BYTES, 0);
    assert_eq!(try_take_frame(&mut buf).unwrap(), None);
    assert_eq!(buf.len(), MAX_FRAME_BYTES);
    buf.extend_from_slice(&[0; 5]);
    let frame = try_take_frame(&mut buf).unwrap().unwrap();
    assert_eq!(frame.len(), MAX_FRAME_BYTES + 5);
}

// ----------------------------------------------------------------------------
// Reply correlation
// ----------------------------------------------------------------------------

#[test]
fn a_log_frame_carrying_no_id_is_ignored() {
    // The device emits these unsolicited on the same stream.
    let frame = cbor_map(vec![(
        "log",
        ciborium::Value::Bytes(b"I (123) main: boot".to_vec()),
    )]);
    let reply = decode_reply(&frame).unwrap();
    assert!(reply.id.is_none());
    assert!(matches!(classify(reply, "1"), ReplyMatch::Ignore));
}

#[test]
fn a_stale_reply_is_ignored_rather_than_failing_the_next_request() {
    let reply = decode_reply(&reply_frame("1", text("old"))).unwrap();
    assert!(matches!(classify(reply, "2"), ReplyMatch::Ignore));
}

#[test]
fn a_matching_reply_is_delivered() {
    let reply = decode_reply(&reply_frame("2", text("xpub"))).unwrap();
    match classify(reply, "2") {
        ReplyMatch::Matched(reply) => {
            assert_eq!(result_text(&reply.result.unwrap()).unwrap(), "xpub");
        }
        other => panic!("expected a match, got {other:?}"),
    }
}

#[test]
fn an_unattributed_error_resolves_the_outstanding_request() {
    // The device replies with id "00" when it rejects a message before it can
    // recover the request id.
    let frame = error_frame(
        UNATTRIBUTED_ID,
        rpc_code::INVALID_REQUEST,
        "Invalid RPC Request message",
    );
    let reply = decode_reply(&frame).unwrap();
    match classify(reply, "7") {
        ReplyMatch::Unattributed(error) => {
            assert_eq!(error.code, rpc_code::INVALID_REQUEST);
        }
        other => panic!("expected an unattributed error, got {other:?}"),
    }
}

#[test]
fn an_unattributed_frame_without_an_error_member_is_ignored() {
    let reply = decode_reply(&reply_frame(UNATTRIBUTED_ID, text("x"))).unwrap();
    assert!(matches!(classify(reply, "7"), ReplyMatch::Ignore));
}

#[test]
fn frames_that_are_no_replies_are_protocol_errors() {
    let twice = cbor_map(vec![("id", text("1")), ("id", text("1"))]);
    let unnamed = cbor_map(vec![("id", number(1))]);
    let count = cbor_map(vec![("id", text("1")), ("seqnum", number(-1))]);
    let bare = cbor_map(vec![("id", text("1")), ("error", text("no"))]);
    let mut keyed = Vec::new();
    ciborium::into_writer(&ciborium::Value::Map(vec![(number(1), number(1))]), &mut keyed).unwrap();
    for frame in [twice, unnamed, count, bare, keyed, vec![0x01], vec![0x62]] {
        assert_eq!(
            decode_reply(&frame).unwrap_err(),
            JadeError::ProtocolError {
                error_details: "frame is not a reply".to_string()
            }
        );
    }
    assert!(reply_from_value(CborValue::Null).is_err());
}

#[test]
fn null_members_count_as_missing() {
    let value = CborValue::Pairs(vec![
        (own_text("id"), CborValue::Null),
        (own_text("result"), CborValue::Null),
        (own_text("error"), CborValue::Null),
        (own_text("seqnum"), CborValue::Null),
        (own_text("extra"), CborValue::Opaque),
    ]);
    let reply = reply_from_value(value).unwrap();
    assert_eq!(
        reply,
        JadeReply {
            id: None,
            result: None,
            error: None,
            seqnum: None,
            seqlen: None
        }
    );
}

// ----------------------------------------------------------------------------
// Error mapping
// ----------------------------------------------------------------------------

#[test]
fn rpc_error_codes_map_to_typed_errors() {
    let cases = [
        (rpc_code::USER_CANCELLED, JadeError::UserCancelled),
        (rpc_code::HW_LOCKED, JadeError::DeviceLocked),
    ];
    for (code, expected) in cases {
        let reply = decode_reply(&error_frame("1", code, "denied")).unwrap();
        assert_eq!(reply.into_result("1.0.0").unwrap_err(), expected);
    }

    let reply = decode_reply(&error_frame("1", rpc_code::NETWORK_MISMATCH, "wrong net")).unwrap();
    assert!(matches!(
        reply.into_result("1.0.0").unwrap_err(),
        JadeError::NetworkMismatch { .. }
    ));

    // An old device answering UNKNOWN_METHOD is reporting its age, not a host
    // bug, so it must not surface as a generic protocol error.
    let reply = decode_reply(&error_frame("1", rpc_code::UNKNOWN_METHOD, "nope")).unwrap();
    assert!(matches!(
        reply.into_result("1.0.30").unwrap_err(),
        JadeError::UnsupportedFirmware { .. }
    ));

    let reply = decode_reply(&error_frame("1", rpc_code::INVALID_REQUEST, "bad")).unwrap();
    assert!(matches!(
        reply.into_result("1.0.0").unwrap_err(),
        JadeError::ProtocolError { .. }
    ));

    let reply = decode_reply(&error_frame("1", -32099, "novel")).unwrap();
    assert!(matches!(
        reply.into_result("1.0.0").unwrap_err(),
        JadeError::DeviceError { .. }
    ));
}

#[test]
fn mapped_errors_keep_their_texts() {
    assert_eq!(
        JadeError::from_rpc(rpc_code::UNKNOWN_METHOD, "nope".to_string(), "1.0.30"),
        JadeError::UnsupportedFirmware {
            required: "1.0.30".to_string()
        }
    );
    assert_eq!(
        JadeError::from_rpc(rpc_code::NETWORK_MISMATCH, "net".to_string(), "1.0.30"),
        JadeError::NetworkMismatch {
            error_details: "net".to_string()
        }
    );
    assert_eq!(
        JadeError::from_rpc(rpc_code::BAD_PARAMETERS, "bad".to_string(), "1.0.30"),
        JadeError::DeviceError {
            code: -32602,
            message: "bad".to_string()
        }
    );
    assert_eq!(
        JadeError::from_rpc(rpc_code::INTERNAL_ERROR, "in".to_string(), "1.0.30"),
        JadeError::DeviceError {
            code: -32603,
            message: "in".to_string()
        }
    );
    assert_eq!(
        JadeError::from_rpc(rpc_code::PROTOCOL_ERROR, "p".to_string(), "1.0.30"),
        JadeError::ProtocolError {
            error_details: "p".to_string()
        }
    );
}

#[test]
fn a_reply_with_neither_result_nor_error_is_a_protocol_error() {
    let reply = decode_reply(&cbor_map(vec![("id", text("1"))])).unwrap();
    assert!(matches!(
        reply.into_result("1.0.0").unwrap_err(),
        JadeError::ProtocolError { .. }
    ));
}

// ----------------------------------------------------------------------------
// Result readers
// ----------------------------------------------------------------------------

#[test]
fn byte_string_results_are_read_as_bytes() {
    let frame = reply_frame("1", ciborium::Value::Bytes(vec![0x70, 0x73, 0x62, 0x74]));
    let reply = decode_reply(&frame).unwrap();
    let value = reply.into_result("1.0.0").unwrap();
    assert_eq!(result_bytes(&value).unwrap(), vec![0x70, 0x73, 0x62, 0x74]);
}

#[test]
fn boolean_and_text_results_are_read() {
    let reply = decode_reply(&reply_frame("1", ciborium::Value::Bool(true))).unwrap();
    assert!(result_bool(&reply.into_result("1.0.0").unwrap()).unwrap());

    let reply = decode_reply(&reply_frame("1", text("tpub..."))).unwrap();
    assert_eq!(
        result_text(&reply.into_result("1.0.0").unwrap()).unwrap(),
        "tpub..."
    );
}

#[test]
fn a_wrongly_typed_result_is_a_protocol_error() {
    let reply = decode_reply(&reply_frame("1", number(5))).unwrap();
    let value = reply.into_result("1.0.0").unwrap();
    assert!(matches!(
        result_text(&value).unwrap_err(),
        JadeError::ProtocolError { .. }
    ));
    assert!(result_bytes(&value).is_err());
    assert!(result_bool(&value).is_err());
}

#[test]
fn sequenced_replies_expose_seqnum_and_seqlen() {
    let frame = cbor_map(vec![
        ("id", text("1")),
        ("result", ciborium::Value::Bytes(vec![1, 2, 3])),
        ("seqnum", number(1)),
        ("seqlen", number(3)),
    ]);
    let reply = decode_reply(&frame).unwrap();
    assert_eq!(reply.seqnum, Some(1));
    assert_eq!(reply.seqlen, Some(3));
}

// ----------------------------------------------------------------------------
// Request ids
// ----------------------------------------------------------------------------

#[test]
fn request_ids_are_sequential_per_connection_and_fit_the_device_limit() {
    let mut ids = RequestIds::new();
    assert_eq!(ids.next_id(), "1");
    assert_eq!(ids.next_id(), "2");
    assert_eq!(ids.next_id(), "3");

    // Two connections do not share a counter, so ids stay deterministic in a
    // test process that runs many of them concurrently.
    let mut other = RequestIds::new();
    assert_eq!(other.next_id(), "1");
}

#[test]
fn request_ids_never_exceed_the_sixteen_character_limit() {
    let mut ids = RequestIds::new();
    for _ in 0..1000 {
        let id = ids.next_id();
        assert!(!id.is_empty());
        assert!(id.len() < 16, "id {id} is too long for Jade");
    }
}

#[test]
fn request_ids_do_not_repeat() {
    let mut ids = RequestIds::new();
    let mut seen = std::collections::HashSet::new();
    for _ in 0..1000 {
        let id = ids.next_id();
        assert_ne!(id, UNATTRIBUTED_ID);
        assert!(seen.insert(id));
    }
}
