//! Unlocking through the pinserver.

use jade_client::cbor::{encode, CborValue};
use jade_client::error::JadeError;
use jade_client::json::{cbor_to_json, json_to_cbor, parse_json, print_json, JsonValue};
use jade_client::pinserver::{
    append_body_chunk, auth_params, names_onion, pick_url, pin_params, read_auth, read_pin, Auth,
    PinRequest, UnlockStep, Unlocking, MAX_BODY_BYTES,
};
use jade_client::reply::JadeReply;
use jade_client::transport::CancelHandle;
use jade_client::types::JadeNetwork;

const MS: u128 = 1_000_000;

fn text(value: &str) -> CborValue {
    CborValue::Text(value.to_string())
}

fn number(value: i128) -> CborValue {
    CborValue::Integer(value)
}

/// A pinserver that never touches the network.
struct FakePinServer {
    response: Option<Result<Vec<u8>, JadeError>>,
    stalled: bool,
    /// How long the last request was allowed to take.
    allowed: u128,
    calls: Vec<(String, String, Option<String>)>,
}

impl FakePinServer {
    fn returning(body: &str) -> Self {
        FakePinServer {
            response: Some(Ok(body.as_bytes().to_vec())),
            stalled: false,
            allowed: 0,
            calls: Vec::new(),
        }
    }

    fn failing() -> Self {
        FakePinServer {
            response: Some(Err(JadeError::PinServerError {
                error_details: "network down".to_string(),
            })),
            stalled: false,
            allowed: 0,
            calls: Vec::new(),
        }
    }
}

/// A device that answers each message with the next result.
struct Script {
    results: Vec<CborValue>,
    sent: Vec<(String, Option<CborValue>)>,
}

impl Script {
    fn new(results: Vec<CborValue>) -> Self {
        Script {
            results,
            sent: Vec::new(),
        }
    }

    fn exchange(
        &mut self,
        method: &str,
        params: Option<CborValue>,
    ) -> Result<JadeReply, JadeError> {
        self.sent.push((method.to_string(), params));
        Ok(JadeReply {
            id: Some("1".to_string()),
            result: Some(self.results.remove(0)),
            error: None,
            seqnum: None,
            seqlen: None,
        })
    }
}

fn run_unlock(
    device: &mut Script,
    network: JadeNetwork,
    http: &mut FakePinServer,
    epoch: u64,
    timeout: u128,
) -> Result<(), JadeError> {
    timed_unlock(device, network, http, epoch, timeout).0
}

/// Unlocks with a device that takes a millisecond for each reply, and tells how
/// long that took.
fn timed_unlock(
    device: &mut Script,
    network: JadeNetwork,
    http: &mut FakePinServer,
    epoch: u64,
    timeout: u128,
) -> (Result<(), JadeError>, u128) {
    let started = 1000;
    let mut now = started;
    let cancel = CancelHandle::new();
    let unlocking = Unlocking::begin(timeout, now);
    let reply = device.exchange("auth_user", Some(auth_params(network, epoch)));
    now += MS;
    let mut step = unlocking.after_auth(reply, "1.0.0", now, &cancel);
    loop {
        match step {
            UnlockStep::Fetch {
                url,
                method,
                body,
                within,
            } => {
                http.calls.push((url, method, body));
                http.allowed = within;
                let answer = if http.stalled {
                    now += within;
                    None
                } else {
                    now += 1;
                    http.response.take()
                };
                step = unlocking.after_fetch(answer, now, &cancel);
            }
            UnlockStep::Pin { params, .. } => {
                let reply = device.exchange("pin", params);
                return (unlocking.after_pin(reply, "1.0.0"), now - started);
            }
            UnlockStep::Done(outcome) => return (outcome, now - started),
        }
    }
}

/// An auth_user result asking the host to call the pinserver.
fn http_request(urls: Vec<&str>, on_reply: &str) -> CborValue {
    let params = CborValue::Pairs(vec![
        (
            text("urls"),
            CborValue::Array(urls.into_iter().map(text).collect()),
        ),
        (text("method"), text("POST")),
        (text("accept"), text("json")),
        (
            text("data"),
            CborValue::Pairs(vec![(text("data"), text("cGF5bG9hZA=="))]),
        ),
    ]);
    let request = CborValue::Pairs(vec![
        (text("params"), params),
        (text("on-reply"), text(on_reply)),
    ]);
    CborValue::Pairs(vec![(text("http_request"), request)])
}

const MINUTE: u128 = 60_000 * MS;

#[test]
fn an_already_unlocked_device_needs_no_pinserver_call() {
    let mut device = Script::new(vec![CborValue::Bool(true)]);
    let mut http = FakePinServer::returning("{}");

    run_unlock(
        &mut device,
        JadeNetwork::Testnet,
        &mut http,
        1_700_000_000,
        MINUTE,
    )
    .unwrap();

    assert_eq!(device.sent.len(), 1);
    assert_eq!(device.sent[0].0, "auth_user");
    assert!(http.calls.is_empty());
    assert_eq!(
        device.sent[0].1,
        Some(CborValue::Pairs(vec![
            (text("network"), text("testnet")),
            (text("epoch"), number(1_700_000_000)),
        ]))
    );
}

#[test]
fn a_locked_device_completes_the_pinserver_round_trip() {
    let mut device = Script::new(vec![
        http_request(vec!["https://jadepin.blockstream.com/get_pin"], "pin"),
        CborValue::Bool(true),
    ]);
    let mut http = FakePinServer::returning(r#"{"data":"YWJj"}"#);

    run_unlock(
        &mut device,
        JadeNetwork::Mainnet,
        &mut http,
        1_700_000_000,
        MINUTE,
    )
    .unwrap();

    // The device saw auth_user then pin.
    assert_eq!(device.sent.len(), 2);
    assert_eq!(device.sent[1].0, "pin");
    assert_eq!(
        device.sent[1].1,
        Some(CborValue::Pairs(vec![(text("data"), text("YWJj"))]))
    );

    // The payload was rendered as a JSON document, not forwarded as CBOR.
    assert_eq!(http.calls.len(), 1);
    assert_eq!(http.calls[0].1, "POST");
    assert_eq!(
        http.calls[0].2.as_deref(),
        Some(r#"{"data":"cGF5bG9hZA=="}"#)
    );
}

#[test]
fn a_wrong_pin_is_reported_as_such() {
    let mut device = Script::new(vec![
        http_request(vec!["https://jadepin.blockstream.com/get_pin"], "pin"),
        CborValue::Bool(false),
    ]);
    let mut http = FakePinServer::returning(r#"{"data":"YWJj"}"#);

    let error = run_unlock(&mut device, JadeNetwork::Mainnet, &mut http, 0, MINUTE).unwrap_err();
    assert_eq!(error, JadeError::InvalidPin);
}

#[test]
fn an_http_failure_still_sends_pin_so_the_device_stays_in_step() {
    let mut device = Script::new(vec![
        http_request(vec!["https://jadepin.blockstream.com/get_pin"], "pin"),
        CborValue::Bool(false),
    ]);
    let mut http = FakePinServer::failing();

    let error = run_unlock(&mut device, JadeNetwork::Mainnet, &mut http, 0, MINUTE).unwrap_err();
    assert_eq!(error, JadeError::InvalidPin);

    assert_eq!(device.sent.len(), 2);
    assert_eq!(device.sent[1].0, "pin");

    // And it carried no params at all, which is what signals the failure.
    assert!(
        device.sent[1].1.is_none(),
        "pin must be sent with no params"
    );
}

#[test]
fn a_stalled_pinserver_honours_the_unlock_deadline() {
    let mut device = Script::new(vec![http_request(
        vec!["https://jadepin.blockstream.com/get_pin"],
        "pin",
    )]);
    let mut http = FakePinServer::failing();
    http.stalled = true;

    let (outcome, elapsed) =
        timed_unlock(&mut device, JadeNetwork::Mainnet, &mut http, 0, 100 * MS);

    assert_eq!(outcome.unwrap_err(), JadeError::Timeout);
    assert!(elapsed < 1000 * MS);
    // The pinserver was given what the device had left of the time.
    assert_eq!(http.allowed, 99 * MS);
    assert_eq!(elapsed, 100 * MS);
}

#[test]
fn a_chunk_that_exceeds_the_body_limit_is_rejected_before_append() {
    let mut body = vec![0; 64 * 1024];

    let error = append_body_chunk(&mut body, &[1]).unwrap_err();

    assert!(matches!(error, JadeError::PinServerError { .. }));
    assert_eq!(body.len(), 64 * 1024);
}

#[test]
fn chunks_within_the_body_limit_are_appended() {
    let mut body = vec![7; MAX_BODY_BYTES - 2];
    append_body_chunk(&mut body, &[1, 2]).unwrap();
    assert_eq!(body.len(), MAX_BODY_BYTES);
    assert_eq!(body[MAX_BODY_BYTES - 2..], [1, 2]);
    append_body_chunk(&mut body, &[]).unwrap();
    assert!(append_body_chunk(&mut body, &[3]).is_err());
}

#[test]
fn a_device_naming_a_method_other_than_pin_is_rejected() {
    // Dispatching on what the device supplies would let it make the host
    // invoke any method with params of its choosing.
    let mut device = Script::new(vec![http_request(
        vec!["https://jadepin.blockstream.com/get_pin"],
        "sign_psbt",
    )]);
    let mut http = FakePinServer::returning("{}");

    let error = run_unlock(&mut device, JadeNetwork::Mainnet, &mut http, 0, MINUTE).unwrap_err();
    assert!(matches!(error, JadeError::ProtocolError { .. }));
    assert!(http.calls.is_empty());
}

#[test]
fn an_onion_url_is_skipped_in_favour_of_the_clearnet_one() {
    for urls in [
        vec![
            "https://jadepin.blockstream.com/get_pin",
            "http://abcdefghij.onion/get_pin",
        ],
        vec![
            "http://abcdefghij.onion/get_pin",
            "https://jadepin.blockstream.com/get_pin",
        ],
    ] {
        let mut device = Script::new(vec![http_request(urls, "pin"), CborValue::Bool(true)]);
        let mut http = FakePinServer::returning(r#"{"data":"YWJj"}"#);

        run_unlock(&mut device, JadeNetwork::Mainnet, &mut http, 0, MINUTE).unwrap();

        assert_eq!(http.calls[0].0, "https://jadepin.blockstream.com/get_pin");
    }
}

#[test]
fn without_a_reachable_url_pin_is_sent_at_once() {
    let mut device = Script::new(vec![
        http_request(vec!["http://abcdefghij.onion/get_pin"], "pin"),
        CborValue::Bool(false),
    ]);
    let mut http = FakePinServer::returning("{}");
    let error = run_unlock(&mut device, JadeNetwork::Mainnet, &mut http, 0, MINUTE).unwrap_err();
    assert_eq!(error, JadeError::InvalidPin);
    assert!(http.calls.is_empty());
    assert_eq!(device.sent[1], ("pin".to_string(), None));
}

#[test]
fn hosts_tell_hidden_services() {
    for url in [
        "http://abc.onion/get_pin",
        "http://abc.onion",
        "http://user:pw@abc.onion:80/x",
        "http://abc.onion?x=1",
        "http://abc.onion#x",
        "abc.onion",
    ] {
        assert!(names_onion(url), "{url}");
    }
    for url in [
        "https://example.com/x.onion",
        "https://example.com?x=.onion",
        "https://example.com#.onion",
        "https://a.onion.example.com/",
        "https://a.onion@example.com/",
        "",
    ] {
        assert!(!names_onion(url), "{url}");
    }
    let urls = vec!["http://a.onion".to_string(), "http://b".to_string()];
    assert_eq!(pick_url(&urls).as_deref(), Some("http://b"));
    assert_eq!(pick_url(&urls[..1].to_vec()), None);
}

#[test]
fn a_fetch_is_given_no_more_than_what_is_left() {
    let cancel = CancelHandle::new();
    let unlocking = Unlocking::begin(100, 50);
    let asking = |now: u128| {
        let reply = JadeReply {
            id: None,
            result: Some(http_request(vec!["https://x"], "pin")),
            error: None,
            seqnum: None,
            seqlen: None,
        };
        unlocking.after_auth(Ok(reply), "1.0.0", now, &cancel)
    };
    for now in [50, 51, 149] {
        match asking(now) {
            UnlockStep::Fetch { within, .. } => assert_eq!(within, 150 - now),
            other => panic!("expected a fetch, got {other:?}"),
        }
    }
    assert_eq!(asking(150), UnlockStep::Done(Err(JadeError::Timeout)));
}

#[test]
fn a_cancelled_attempt_ends_as_cancelled() {
    let mut cancel = CancelHandle::new();
    cancel.cancel();
    let unlocking = Unlocking::begin(100, 0);
    let reply = |result: CborValue| JadeReply {
        id: None,
        result: Some(result),
        error: None,
        seqnum: None,
        seqlen: None,
    };
    let over = || UnlockStep::Done(Err(JadeError::UserCancelled));
    for now in [1, 200] {
        let asking = reply(http_request(vec!["https://x"], "pin"));
        assert_eq!(unlocking.after_auth(Ok(asking), "1.0.0", now, &cancel), over());
        assert_eq!(unlocking.after_fetch(None, now, &cancel), over());
        assert_eq!(
            unlocking.after_fetch(Some(Ok(b"{}".to_vec())), now, &cancel),
            over()
        );
        assert_eq!(
            unlocking.after_fetch(Some(Err(JadeError::Timeout)), now, &cancel),
            over()
        );
    }
    assert_eq!(
        unlocking.after_auth(Ok(reply(CborValue::Bool(true))), "1.0.0", 1, &cancel),
        UnlockStep::Done(Ok(()))
    );
}

#[test]
fn a_name_that_stands_twice_in_an_answer_is_passed_on_once() {
    let cancel = CancelHandle::new();
    let unlocking = Unlocking::begin(100, 0);
    assert_eq!(
        unlocking.after_fetch(Some(Ok(b"{\"a\":1,\"b\":2,\"a\":3}".to_vec())), 1, &cancel),
        UnlockStep::Pin {
            params: Some(CborValue::Pairs(vec![
                (text("a"), number(3)),
                (text("b"), number(2)),
            ])),
            within: 99
        }
    );
}

#[test]
fn answers_that_are_no_documents_count_as_failures() {
    let cancel = CancelHandle::new();
    let unlocking = Unlocking::begin(100, 0);
    for body in ["", "{", "nonsense", r#"{"a":1.5}"#] {
        assert_eq!(
            unlocking.after_fetch(Some(Ok(body.as_bytes().to_vec())), 30, &cancel),
            UnlockStep::Pin {
                params: None,
                within: 70
            }
        );
    }
    assert_eq!(
        unlocking.after_fetch(
            Some(Ok(b"{\"b\":[1,null,true],\"a\":-2}".to_vec())),
            99,
            &cancel
        ),
        UnlockStep::Pin {
            params: Some(CborValue::Pairs(vec![
                (text("a"), number(-2)),
                (
                    text("b"),
                    CborValue::Array(vec![number(1), CborValue::Null, CborValue::Bool(true)])
                ),
            ])),
            within: 1
        }
    );
    assert_eq!(
        unlocking.after_fetch(Some(Ok(b"{}".to_vec())), 100, &cancel),
        UnlockStep::Done(Err(JadeError::Timeout))
    );
    assert_eq!(
        unlocking.after_fetch(None, 50, &cancel),
        UnlockStep::Done(Err(JadeError::Timeout))
    );
}

#[test]
fn failures_of_the_device_end_the_attempt() {
    let cancel = CancelHandle::new();
    let unlocking = Unlocking::begin(100, 0);
    assert_eq!(
        unlocking.after_auth(Err(JadeError::DeviceDisconnected), "1.0.0", 1, &cancel),
        UnlockStep::Done(Err(JadeError::DeviceDisconnected))
    );
    assert_eq!(
        unlocking.after_pin(Err(JadeError::Timeout), "1.0.0"),
        Err(JadeError::Timeout)
    );
    assert_eq!(
        read_auth(&CborValue::Bool(false)),
        Err(JadeError::InvalidPin)
    );
    for bad in [
        CborValue::Null,
        CborValue::Pairs(vec![]),
        CborValue::Pairs(vec![(text("http_request"), CborValue::Null)]),
        CborValue::Pairs(vec![(text("http_request"), CborValue::Pairs(vec![]))]),
    ] {
        assert!(matches!(
            read_auth(&bad),
            Err(JadeError::ProtocolError { .. })
        ));
    }
    assert_eq!(read_pin(&CborValue::Bool(true)), Ok(()));
    assert!(matches!(
        read_pin(&CborValue::Null),
        Err(JadeError::ProtocolError { .. })
    ));
}

#[test]
fn a_request_to_the_pinserver_is_read() {
    assert_eq!(
        read_auth(&http_request(vec!["https://x/y"], "pin")).unwrap(),
        Auth::Ask(PinRequest {
            url: Some("https://x/y".to_string()),
            method: "POST".to_string(),
            document: Some(JsonValue::Object(vec![(
                "data".to_string(),
                JsonValue::Text("cGF5bG9hZA==".to_string())
            )])),
        })
    );
}

// ----------------------------------------------------------------------------
// Value conversion
// ----------------------------------------------------------------------------

#[test]
fn cbor_and_json_round_trip_for_the_shapes_the_pinserver_uses() {
    let cbor = CborValue::Pairs(vec![
        (text("data"), text("cGF5bG9hZA==")),
        (text("count"), number(3)),
        (text("ok"), CborValue::Bool(true)),
    ]);
    let json = cbor_to_json(&cbor).unwrap();
    let JsonValue::Object(members) = &json else {
        panic!("expected a map");
    };
    let named = |name: &str| &members.iter().find(|(key, _)| key == name).unwrap().1;
    assert_eq!(*named("data"), JsonValue::Text("cGF5bG9hZA==".to_string()));
    assert_eq!(*named("count"), JsonValue::Integer(3));
    assert_eq!(*named("ok"), JsonValue::Bool(true));

    let back = json_to_cbor(&json).unwrap();
    assert_eq!(back, cbor);

    // The text form is the same document.
    let printed = print_json(&json).unwrap();
    let value: serde_json::Value = serde_json::from_str(&printed).unwrap();
    assert_eq!(value["data"], "cGF5bG9hZA==");
    assert_eq!(value["count"], 3);
    assert_eq!(value["ok"], true);
}

#[test]
fn a_byte_string_is_not_silently_rendered_as_json() {
    // The pinserver protocol carries binary as base64 text, so a raw byte
    // string means the device sent something unexpected.
    let cbor = CborValue::Pairs(vec![(text("data"), CborValue::Bytes(vec![1, 2]))]);
    assert!(cbor_to_json(&cbor).is_err());
}

#[test]
fn items_without_a_json_form_are_refused() {
    for bad in [
        CborValue::Opaque,
        number(1 << 64),
        number(-(1 << 63) - 1),
        CborValue::Pairs(vec![(number(1), number(1))]),
        CborValue::Array(vec![CborValue::Bytes(vec![])]),
    ] {
        assert_eq!(
            cbor_to_json(&bad),
            Err(JadeError::ProtocolError {
                error_details: "item has no JSON form".to_string()
            })
        );
    }
    assert!(cbor_to_json(&number((1 << 64) - 1)).is_ok());
    assert!(cbor_to_json(&number(-(1 << 63))).is_ok());
    assert_eq!(
        json_to_cbor(&JsonValue::Array(vec![JsonValue::Opaque])),
        Err(JadeError::ProtocolError {
            error_details: "document has no CBOR form".to_string()
        })
    );
    assert_eq!(pin_params(&Some(JsonValue::Opaque)), None);
    assert_eq!(pin_params(&Some(JsonValue::Null)), Some(CborValue::Null));
    assert_eq!(pin_params(&None), None);
}

#[test]
fn documents_are_parsed_and_printed() {
    let parsed = parse_json(b" {\"b\": [1, -2, true, null, \"x\"], \"a\": {\"c\": 1.5}} ").unwrap();
    assert_eq!(
        parsed,
        JsonValue::Object(vec![
            (
                "a".to_string(),
                JsonValue::Object(vec![("c".to_string(), JsonValue::Opaque)])
            ),
            (
                "b".to_string(),
                JsonValue::Array(vec![
                    JsonValue::Integer(1),
                    JsonValue::Integer(-2),
                    JsonValue::Bool(true),
                    JsonValue::Null,
                    JsonValue::Text("x".to_string()),
                ])
            ),
        ])
    );
    assert_eq!(parse_json(b"{"), None);
    assert_eq!(print_json(&parsed), None);

    let repeated = JsonValue::Object(vec![
        ("k".to_string(), JsonValue::Integer(1)),
        ("j".to_string(), JsonValue::Integer((1 << 64) - 1)),
        ("k".to_string(), JsonValue::Array(vec![JsonValue::Null])),
    ]);
    assert_eq!(
        print_json(&repeated).as_deref(),
        Some("{\"j\":18446744073709551615,\"k\":[null]}")
    );
    assert_eq!(print_json(&JsonValue::Integer(1 << 64)), None);
    assert_eq!(
        encode(&json_to_cbor(&JsonValue::Integer(-1)).unwrap()).unwrap(),
        vec![0x20]
    );
}
