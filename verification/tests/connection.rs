//! The request and reply loop, against a scripted device and a clock that the
//! tests move.

use jade_client::cbor::CborValue;
use jade_client::error::JadeError;
use jade_client::protocol::MAX_FRAME_BYTES;
use jade_client::reassembly::{remaining_until, reply_too_large, Fragments, Step};
use jade_client::reply::{result_text, JadeReply, RpcError};
use jade_client::transport::{
    abort_or, judge, CancelHandle, Event, JadeConnection, Progress, Verdict, IDLE_POLL_INTERVAL,
    MAX_CHUNK_BYTES, MAX_REASSEMBLED_BYTES, MAX_REPLY_FRAGMENTS, READ_CHUNK_TIMEOUT,
};
use jade_client::types::MIN_JADE_FIRMWARE;
use std::collections::VecDeque;

const MS: u128 = 1_000_000;
const SECOND: u128 = 1000 * MS;

fn text(value: &str) -> ciborium::Value {
    ciborium::Value::Text(value.to_string())
}

fn number(value: i64) -> ciborium::Value {
    ciborium::Value::Integer(value.into())
}

fn cbor_map(entries: Vec<(&str, ciborium::Value)>) -> Vec<u8> {
    let value = ciborium::Value::Map(
        entries
            .into_iter()
            .map(|(key, value)| (text(key), value))
            .collect(),
    );
    let mut encoded = Vec::new();
    ciborium::into_writer(&value, &mut encoded).unwrap();
    encoded
}

/// The fields of a request the device needs in order to answer it.
struct SeenRequest {
    id: String,
    method: String,
    params: Option<ciborium::Value>,
}

fn seen(bytes: &[u8]) -> SeenRequest {
    let value: ciborium::Value = ciborium::from_reader(bytes).unwrap();
    let entries = value.into_map().unwrap();
    let field = |name: &str| {
        entries
            .iter()
            .find(|(key, _)| key.as_text() == Some(name))
            .map(|(_, value)| value.clone())
    };
    SeenRequest {
        id: field("id").unwrap().into_text().unwrap(),
        method: field("method").unwrap().into_text().unwrap(),
        params: field("params"),
    }
}

type Responder = Box<dyn Fn(&SeenRequest) -> Vec<u8>>;

/// A scripted device.
///
/// Each write consumes one responder, which builds the reply bytes from the
/// request that triggered it. Replies are queued and handed out by reads in
/// whatever chunk sizes the test asked for.
struct Device {
    responders: VecDeque<Responder>,
    pending: VecDeque<Vec<u8>>,
    writes: Vec<Vec<u8>>,
    read_chunk: usize,
    read_delay: u128,
    fail_next_read: bool,
    abort_during_read: bool,
    stall_writes: bool,
    reads: usize,
    now: u128,
}

impl Device {
    fn new(responders: Vec<Responder>) -> Self {
        Device {
            responders: responders.into(),
            pending: VecDeque::new(),
            writes: Vec::new(),
            read_chunk: usize::MAX,
            read_delay: 0,
            fail_next_read: false,
            abort_during_read: false,
            stall_writes: false,
            reads: 0,
            now: 5000,
        }
    }

    fn write(&mut self, data: Vec<u8>, within: u128) -> Event {
        if self.stall_writes {
            self.now += within;
            return Event::WriteTimedOut;
        }
        let request = seen(&data);
        self.writes.push(data);
        if let Some(responder) = self.responders.pop_front() {
            let reply = responder(&request);
            if !reply.is_empty() {
                self.pending.push_back(reply);
            }
        }
        Event::Written
    }

    fn read(&mut self, within: u128, cancel: &mut CancelHandle) -> Event {
        self.reads += 1;
        if self.abort_during_read {
            cancel.cancel();
            return Event::ReadFailed(JadeError::DeviceDisconnected);
        }
        if self.fail_next_read {
            self.fail_next_read = false;
            return Event::ReadFailed(JadeError::DeviceDisconnected);
        }
        if self.read_delay > 0 {
            self.now += self.read_delay.min(within);
            if self.read_delay > within {
                return Event::Received(Vec::new());
            }
        }
        let Some(mut next) = self.pending.pop_front() else {
            return Event::Received(Vec::new());
        };
        if self.read_chunk < next.len() {
            let rest = next.split_off(self.read_chunk);
            self.pending.push_front(rest);
        }
        Event::Received(next)
    }
}

fn exchange(
    connection: &mut JadeConnection,
    device: &mut Device,
    cancel: &mut CancelHandle,
    method: &str,
    timeout: u128,
) -> Result<JadeReply, JadeError> {
    let (mut flight, request) = connection.begin(method, None, timeout, device.now, cancel)?;
    let mut event = device.write(request, timeout);
    loop {
        match connection.advance(&mut flight, event, device.now, cancel) {
            Progress::Read(within) => {
                assert!(within > 0 && within <= READ_CHUNK_TIMEOUT);
                event = device.read(within, cancel);
            }
            Progress::Sleep(lasting) => {
                assert!(lasting > 0 && lasting <= IDLE_POLL_INTERVAL);
                device.now += lasting;
                event = Event::Slept;
            }
            Progress::Done(outcome) => return outcome,
        }
    }
}

fn exchange_reassembled(
    connection: &mut JadeConnection,
    device: &mut Device,
    cancel: &mut CancelHandle,
    method: &str,
    timeout: u128,
) -> Result<Vec<u8>, JadeError> {
    let (mut transfer, request) =
        connection.begin_reassembled(method, None, timeout, device.now, cancel)?;
    let mut event = device.write(request, timeout);
    loop {
        match connection.advance_reassembled(&mut transfer, event, device.now, cancel) {
            Step::Write { request, within } => event = device.write(request, within),
            Step::Read(within) => event = device.read(within, cancel),
            Step::Sleep(lasting) => {
                device.now += lasting;
                event = Event::Slept;
            }
            Step::Done(outcome) => return outcome,
        }
    }
}

fn ok_reply(result: ciborium::Value) -> Responder {
    Box::new(move |request: &SeenRequest| {
        cbor_map(vec![("id", text(&request.id)), ("result", result.clone())])
    })
}

fn fragment(bytes: Vec<u8>, seqnum: i64, seqlen: i64) -> Responder {
    Box::new(move |request: &SeenRequest| {
        cbor_map(vec![
            ("id", text(&request.id)),
            ("result", ciborium::Value::Bytes(bytes.clone())),
            ("seqnum", number(seqnum)),
            ("seqlen", number(seqlen)),
        ])
    })
}

fn silent() -> Responder {
    Box::new(|_: &SeenRequest| Vec::new())
}

fn usable(connection: &JadeConnection) -> bool {
    connection.check_usable(&CancelHandle::new()).is_ok()
}

// ----------------------------------------------------------------------------
// One request
// ----------------------------------------------------------------------------

#[test]
fn a_request_gets_its_reply() {
    let mut device = Device::new(vec![ok_reply(text("tpubDC"))]);
    let mut connection = JadeConnection::new();
    let mut cancel = CancelHandle::new();

    let reply =
        exchange(&mut connection, &mut device, &mut cancel, "get_xpub", 5 * SECOND).unwrap();
    assert_eq!(
        result_text(&reply.into_result("1.0.0").unwrap()).unwrap(),
        "tpubDC"
    );
    assert_eq!(seen(&device.writes[0]).method, "get_xpub");
    assert!(usable(&connection));
}

#[test]
fn a_reply_arriving_one_byte_at_a_time_still_decodes() {
    let mut device = Device::new(vec![ok_reply(text("tpubDC"))]);
    device.read_chunk = 1;
    let mut connection = JadeConnection::new();
    let mut cancel = CancelHandle::new();

    let reply =
        exchange(&mut connection, &mut device, &mut cancel, "get_xpub", 5 * SECOND).unwrap();
    assert_eq!(
        result_text(&reply.into_result("1.0.0").unwrap()).unwrap(),
        "tpubDC"
    );
}

#[test]
fn an_unsolicited_log_frame_is_skipped() {
    // The device interleaves log frames with replies on the same stream.
    let responder: Responder = Box::new(|request: &SeenRequest| {
        let log = cbor_map(vec![(
            "log",
            ciborium::Value::Bytes(b"I (1) main: hello".to_vec()),
        )]);
        let reply = cbor_map(vec![("id", text(&request.id)), ("result", text("ok"))]);
        [log, reply].concat()
    });
    let mut device = Device::new(vec![responder]);
    let mut connection = JadeConnection::new();
    let mut cancel = CancelHandle::new();

    let reply = exchange(&mut connection, &mut device, &mut cancel, "ping", 5 * SECOND).unwrap();
    assert!(reply.result.is_some());
}

#[test]
fn an_unattributed_error_resolves_the_request_instead_of_timing_out() {
    // Jade answers with id "00" when it rejects a message before recovering
    // its id. Discarding that would strand the caller until the deadline.
    let responder: Responder = Box::new(|_: &SeenRequest| {
        cbor_map(vec![
            ("id", text("00")),
            (
                "error",
                ciborium::Value::Map(vec![
                    (text("code"), number(-32600)),
                    (text("message"), text("Invalid RPC Request message")),
                ]),
            ),
        ])
    });
    let mut device = Device::new(vec![responder]);
    let mut connection = JadeConnection::new();
    let mut cancel = CancelHandle::new();

    let error =
        exchange(&mut connection, &mut device, &mut cancel, "sign_psbt", 5 * SECOND).unwrap_err();
    assert!(matches!(error, JadeError::ProtocolError { .. }));
    assert!(usable(&connection));
}

#[test]
fn a_transport_error_poisons_the_connection() {
    // A failure mid frame leaves no way to find the next boundary, so the
    // connection must refuse further work rather than desynchronise.
    let mut device = Device::new(vec![ok_reply(text("never read"))]);
    device.fail_next_read = true;
    let mut connection = JadeConnection::new();
    let mut cancel = CancelHandle::new();

    let error =
        exchange(&mut connection, &mut device, &mut cancel, "ping", 5 * SECOND).unwrap_err();
    assert_eq!(error, JadeError::DeviceDisconnected);

    let next = exchange(&mut connection, &mut device, &mut cancel, "ping", 5 * SECOND).unwrap_err();
    assert_eq!(next, JadeError::DeviceDisconnected);
    assert_eq!(device.writes.len(), 1);
}

#[test]
fn cancelling_returns_promptly_rather_than_waiting_out_the_deadline() {
    // A ten minute deadline must not mean a ten minute wait.
    let mut device = Device::new(vec![silent()]);
    let mut connection = JadeConnection::new();
    let mut cancel = CancelHandle::new();
    cancel.cancel();

    let started = device.now;
    let error =
        exchange(&mut connection, &mut device, &mut cancel, "sign_psbt", 600 * SECOND).unwrap_err();

    assert_eq!(error, JadeError::UserCancelled);
    assert!(device.now - started < 5 * SECOND);
}

#[test]
fn a_cancel_noticed_as_a_transport_error_is_still_a_cancellation() {
    let mut device = Device::new(vec![silent()]);
    device.abort_during_read = true;
    let mut connection = JadeConnection::new();
    let mut cancel = CancelHandle::new();

    let error =
        exchange(&mut connection, &mut device, &mut cancel, "sign_psbt", 600 * SECOND).unwrap_err();

    assert_eq!(error, JadeError::UserCancelled);
    assert!(cancel.is_cancelled());
}

#[test]
fn a_silent_device_times_out_without_spinning() {
    let mut device = Device::new(vec![silent()]);
    let mut connection = JadeConnection::new();
    let mut cancel = CancelHandle::new();

    let started = device.now;
    let error =
        exchange(&mut connection, &mut device, &mut cancel, "ping", 200 * MS).unwrap_err();
    assert_eq!(error, JadeError::Timeout);
    assert_eq!(device.now - started, 200 * MS);
    assert_eq!(device.reads, 8);
}

#[test]
fn a_stale_reply_does_not_satisfy_the_next_request() {
    let responder: Responder = Box::new(|_: &SeenRequest| {
        cbor_map(vec![("id", text("999")), ("result", text("stale"))])
    });
    let mut device = Device::new(vec![responder]);
    let mut connection = JadeConnection::new();
    let mut cancel = CancelHandle::new();

    let error =
        exchange(&mut connection, &mut device, &mut cancel, "ping", 200 * MS).unwrap_err();
    assert_eq!(error, JadeError::Timeout);
}

#[test]
fn a_write_that_never_completes_still_honours_the_deadline() {
    let mut device = Device::new(vec![]);
    device.stall_writes = true;
    let mut connection = JadeConnection::new();
    let mut cancel = CancelHandle::new();

    let error =
        exchange(&mut connection, &mut device, &mut cancel, "ping", 100 * MS).unwrap_err();

    assert!(matches!(error, JadeError::Timeout), "got {error:?}");
}

#[test]
fn a_stalled_write_poisons_the_connection() {
    let mut device = Device::new(vec![]);
    device.stall_writes = true;
    let mut connection = JadeConnection::new();
    let mut cancel = CancelHandle::new();
    let _ = exchange(&mut connection, &mut device, &mut cancel, "ping", 50 * MS);

    // The device never received a whole request, so the stream cannot be
    // picked back up where it left off.
    let error = exchange(&mut connection, &mut device, &mut cancel, "ping", 50 * MS).unwrap_err();
    assert!(
        matches!(error, JadeError::DeviceDisconnected),
        "got {error:?}"
    );
}

// ----------------------------------------------------------------------------
// Step by step
// ----------------------------------------------------------------------------

#[test]
fn reads_are_cut_to_the_deadline() {
    let cancel = CancelHandle::new();
    let mut connection = JadeConnection::new();
    let (mut flight, _) = connection
        .begin("ping", None, SECOND, 100, &cancel)
        .unwrap();
    assert_eq!(flight.id(), "1");
    assert_eq!(flight.deadline(), SECOND + 100);
    assert_eq!(
        connection.advance(&mut flight, Event::Written, 100, &cancel),
        Progress::Read(250 * MS)
    );
    assert_eq!(
        connection.advance(&mut flight, Event::Received(vec![]), 200, &cancel),
        Progress::Sleep(25 * MS)
    );
    assert_eq!(
        connection.advance(&mut flight, Event::Slept, SECOND + 60, &cancel),
        Progress::Read(40)
    );
    assert_eq!(
        connection.advance(&mut flight, Event::Received(vec![]), SECOND + 70, &cancel),
        Progress::Sleep(40)
    );
    assert_eq!(
        connection.advance(&mut flight, Event::Slept, SECOND + 100, &cancel),
        Progress::Done(Err(JadeError::Timeout))
    );
    assert!(!usable(&connection));
}

#[test]
fn a_reply_counts_even_when_it_is_late_or_the_request_was_cancelled() {
    let mut cancel = CancelHandle::new();
    let mut connection = JadeConnection::new();
    let (mut flight, _) = connection.begin("ping", None, 10, 0, &cancel).unwrap();
    cancel.cancel();
    let reply = cbor_map(vec![("id", text("1")), ("result", number(7))]);
    match connection.advance(&mut flight, Event::Received(reply), 11, &cancel) {
        Progress::Done(Ok(reply)) => assert_eq!(reply.result, Some(CborValue::Integer(7))),
        other => panic!("expected the reply, got {other:?}"),
    }
    assert!(usable(&connection));
}

#[test]
fn a_cancelled_request_stops_reading() {
    let mut cancel = CancelHandle::new();
    let mut connection = JadeConnection::new();
    let (mut flight, _) = connection.begin("ping", None, SECOND, 0, &cancel).unwrap();
    cancel.cancel();
    assert_eq!(
        connection.advance(&mut flight, Event::Written, 1, &cancel),
        Progress::Done(Err(JadeError::UserCancelled))
    );
    assert!(!usable(&connection));
    let again = connection.begin("ping", None, SECOND, 2, &cancel);
    assert_eq!(again.unwrap_err(), JadeError::DeviceDisconnected);
}

#[test]
fn a_cancelled_write_that_never_completes_is_a_cancellation() {
    let mut cancel = CancelHandle::new();
    let mut connection = JadeConnection::new();
    let (mut flight, _) = connection.begin("ping", None, SECOND, 0, &cancel).unwrap();
    cancel.cancel();
    assert_eq!(
        connection.advance(&mut flight, Event::WriteTimedOut, SECOND, &cancel),
        Progress::Done(Err(JadeError::UserCancelled))
    );
    assert!(!usable(&connection));
}

#[test]
fn a_cancelled_operation_fails_as_cancelled_whatever_the_link_did() {
    let events: Vec<fn() -> Event> = vec![
        || Event::Written,
        || Event::Slept,
        || Event::WriteTimedOut,
        || Event::WriteFailed(JadeError::DeviceDisconnected),
        || Event::ReadFailed(JadeError::Timeout),
        || Event::Received(vec![0x82, 0x01]),
    ];
    for event in events {
        for now in [1, 2 * SECOND] {
            let mut cancel = CancelHandle::new();
            let mut connection = JadeConnection::new();
            let (mut flight, _) = connection.begin("ping", None, SECOND, 0, &cancel).unwrap();
            cancel.cancel();
            assert_eq!(
                connection.advance(&mut flight, event(), now, &cancel),
                Progress::Done(Err(JadeError::UserCancelled))
            );
            assert!(!usable(&connection));
        }
    }
}

#[test]
fn a_cancel_between_fragments_is_a_cancellation() {
    for now in [1, 2 * SECOND] {
        let mut cancel = CancelHandle::new();
        let mut connection = JadeConnection::new();
        let (mut transfer, _) = connection
            .begin_reassembled("sign_psbt", None, SECOND, 0, &cancel)
            .unwrap();
        cancel.cancel();
        let first = cbor_map(vec![
            ("id", text("1")),
            ("result", ciborium::Value::Bytes(vec![1])),
            ("seqnum", number(1)),
            ("seqlen", number(2)),
        ]);
        assert_eq!(
            connection.advance_reassembled(&mut transfer, Event::Received(first), now, &cancel),
            Step::Done(Err(JadeError::UserCancelled))
        );
        assert!(!usable(&connection));
    }
}

#[test]
fn any_handle_cancels_for_all() {
    let shared = std::sync::Arc::new(std::sync::Mutex::new(CancelHandle::new()));
    let handles: Vec<_> = (0..3).map(|_| std::sync::Arc::clone(&shared)).collect();
    for handle in &handles {
        assert!(!handle.lock().unwrap().is_cancelled());
    }
    handles[1].lock().unwrap().cancel();
    for handle in &handles {
        assert!(handle.lock().unwrap().is_cancelled());
        assert!(handle.lock().unwrap().is_cancelled());
    }
}

#[test]
fn a_failed_write_is_the_error_of_the_link() {
    let cancel = CancelHandle::new();
    let mut connection = JadeConnection::new();
    let (mut flight, _) = connection.begin("ping", None, SECOND, 0, &cancel).unwrap();
    let broken = JadeError::DeviceError {
        code: 5,
        message: "gone".to_string(),
    };
    match connection.advance(&mut flight, Event::WriteFailed(broken), 1, &cancel) {
        Progress::Done(Err(JadeError::DeviceError { code, .. })) => assert_eq!(code, 5),
        other => panic!("expected the error, got {other:?}"),
    }
    assert!(!usable(&connection));
}

#[test]
fn a_broken_stream_poisons_the_connection() {
    for garbage in [vec![0x1fu8], vec![0x01]] {
        let cancel = CancelHandle::new();
        let mut connection = JadeConnection::new();
        let (mut flight, _) = connection.begin("ping", None, SECOND, 0, &cancel).unwrap();
        match connection.advance(&mut flight, Event::Received(garbage), 1, &cancel) {
            Progress::Done(Err(JadeError::ProtocolError { .. })) => {}
            other => panic!("expected a protocol error, got {other:?}"),
        }
        assert!(!usable(&connection));
    }
}

#[test]
fn params_that_cannot_be_encoded_use_up_an_id_and_nothing_else() {
    let cancel = CancelHandle::new();
    let mut connection = JadeConnection::new();
    let refused = connection.begin("ping", Some(CborValue::Opaque), SECOND, 0, &cancel);
    assert!(matches!(
        refused.unwrap_err(),
        JadeError::ProtocolError { .. }
    ));
    assert!(usable(&connection));
    let (flight, _) = connection.begin("ping", None, SECOND, 0, &cancel).unwrap();
    assert_eq!(flight.id(), "2");
}

#[test]
fn bytes_left_over_serve_the_next_request() {
    let cancel = CancelHandle::new();
    let mut connection = JadeConnection::new();
    let (mut flight, _) = connection.begin("a", None, SECOND, 0, &cancel).unwrap();
    let first = cbor_map(vec![("id", text("1")), ("result", number(1))]);
    let second = cbor_map(vec![("id", text("2")), ("result", number(2))]);
    let both = Event::Received([first, second].concat());
    assert!(matches!(
        connection.advance(&mut flight, both, 1, &cancel),
        Progress::Done(Ok(_))
    ));
    let (mut flight, _) = connection.begin("b", None, SECOND, 2, &cancel).unwrap();
    match connection.advance(&mut flight, Event::Written, 3, &cancel) {
        Progress::Done(Ok(reply)) => assert_eq!(reply.result, Some(CborValue::Integer(2))),
        other => panic!("expected the reply, got {other:?}"),
    }
}

#[test]
fn an_endless_frame_is_given_up() {
    let cancel = CancelHandle::new();
    let mut connection = JadeConnection::new();
    let (mut flight, _) = connection.begin("a", None, SECOND, 0, &cancel).unwrap();
    let mut bytes = vec![0x5b, 0xff, 0xff, 0xff, 0xff, 0xff, 0xff, 0xff, 0xff];
    bytes.resize(MAX_FRAME_BYTES, 0);
    assert!(matches!(
        connection.advance(&mut flight, Event::Received(bytes), 1, &cancel),
        Progress::Read(_)
    ));
    assert!(matches!(
        connection.advance(&mut flight, Event::Received(vec![0]), 2, &cancel),
        Progress::Done(Err(JadeError::ProtocolError { .. }))
    ));
}

#[test]
fn any_amount_of_log_messages_ahead_of_a_reply_is_passed_over() {
    // Three messages that together exceed the limit of one frame.
    let log = cbor_map(vec![(
        "log",
        ciborium::Value::Bytes(vec![0x41; MAX_FRAME_BYTES / 2]),
    )]);
    let reply = cbor_map(vec![("id", text("1")), ("result", number(7))]);
    let stream = [log.clone(), log.clone(), log, reply].concat();
    assert!(stream.len() > MAX_FRAME_BYTES);
    for size in [stream.len(), 700_000, 65_536] {
        let cancel = CancelHandle::new();
        let mut connection = JadeConnection::new();
        let (mut flight, _) = connection.begin("a", None, SECOND, 0, &cancel).unwrap();
        let mut last = None;
        for chunk in stream.chunks(size) {
            let event = Event::Received(chunk.to_vec());
            last = Some(connection.advance(&mut flight, event, 1, &cancel));
        }
        match last {
            Some(Progress::Done(Ok(reply))) => {
                assert_eq!(reply.result, Some(CborValue::Integer(7)));
            }
            other => panic!("expected the reply, got {other:?}"),
        }
    }
}

#[test]
fn a_distrusted_connection_keeps_what_it_read() {
    let cancel = CancelHandle::new();
    let mut connection = JadeConnection::new();
    let (mut flight, _) = connection.begin("a", None, SECOND, 0, &cancel).unwrap();
    let reply = cbor_map(vec![("id", text("1")), ("result", number(1))]);
    let (start, end) = reply.split_at(4);
    assert!(matches!(
        connection.advance(&mut flight, Event::Received(start.to_vec()), 1, &cancel),
        Progress::Read(_)
    ));
    connection.distrust();
    assert!(!usable(&connection));
    assert!(matches!(
        connection.advance(&mut flight, Event::Received(end.to_vec()), 2, &cancel),
        Progress::Done(Ok(_))
    ));
    assert!(!usable(&connection));
}

#[test]
fn an_operation_tells_its_ids_and_its_fragments() {
    let cancel = CancelHandle::new();
    let mut connection = JadeConnection::new();
    let (mut transfer, _) = connection
        .begin_reassembled("sign_psbt", None, SECOND, 0, &cancel)
        .unwrap();
    assert_eq!((transfer.id(), transfer.flight_id()), ("1".into(), "1".into()));
    assert_eq!(transfer.fragment_count(), None);
    let first = cbor_map(vec![
        ("id", text("1")),
        ("result", ciborium::Value::Bytes(vec![1])),
        ("seqnum", number(1)),
        ("seqlen", number(2)),
    ]);
    assert!(matches!(
        connection.advance_reassembled(&mut transfer, Event::Received(first), 1, &cancel),
        Step::Write { .. }
    ));
    assert_eq!((transfer.id(), transfer.flight_id()), ("1".into(), "2".into()));
    assert_eq!(transfer.fragment_count(), Some(2));
}

#[test]
fn the_abort_state_wins_over_the_link() {
    let mut cancel = CancelHandle::new();
    assert!(!cancel.is_cancelled());
    assert_eq!(format!("{cancel:?}"), "CancelHandle { cancelled: false }");
    assert_eq!(
        abort_or(JadeError::DeviceDisconnected, &cancel),
        JadeError::DeviceDisconnected
    );
    cancel.cancel();
    cancel.cancel();
    assert!(cancel.is_cancelled());
    assert_eq!(format!("{cancel:?}"), "CancelHandle { cancelled: true }");
    assert_eq!(
        abort_or(JadeError::DeviceDisconnected, &cancel),
        JadeError::UserCancelled
    );
    let connection = JadeConnection::new();
    assert_eq!(
        connection.check_usable(&cancel),
        Err(JadeError::UserCancelled)
    );
}

#[test]
fn a_frame_is_judged_by_what_it_reads_as() {
    let reply = |id: Option<&str>, code: Option<i64>| JadeReply {
        id: id.map(str::to_string),
        result: None,
        error: code.map(|code| RpcError {
            code,
            message: "m".to_string(),
        }),
        seqnum: None,
        seqlen: None,
    };
    assert!(matches!(
        judge(Ok(reply(Some("1"), Some(3))), "1"),
        Verdict::Deliver(_)
    ));
    assert!(matches!(
        judge(Ok(reply(Some("00"), Some(3))), "1"),
        Verdict::Refuse(RpcError { code: 3, .. })
    ));
    assert_eq!(judge(Ok(reply(Some("00"), None)), "1"), Verdict::Skip);
    assert_eq!(judge(Ok(reply(None, Some(3))), "1"), Verdict::Skip);
    assert_eq!(
        judge(Err(JadeError::Timeout), "1"),
        Verdict::Break(JadeError::Timeout)
    );
}

#[test]
fn an_old_device_is_told_by_the_firmware_that_is_needed() {
    let cancel = CancelHandle::new();
    let mut connection = JadeConnection::new();
    assert_eq!(connection.min_firmware(), MIN_JADE_FIRMWARE);
    let (mut flight, _) = connection.begin("new", None, SECOND, 0, &cancel).unwrap();
    let refused = cbor_map(vec![
        ("id", text("00")),
        (
            "error",
            ciborium::Value::Map(vec![
                (text("code"), number(-32601)),
                (text("message"), text("unknown")),
            ]),
        ),
    ]);
    assert_eq!(
        connection.advance(&mut flight, Event::Received(refused), 1, &cancel),
        Progress::Done(Err(JadeError::UnsupportedFirmware {
            required: MIN_JADE_FIRMWARE.to_string()
        }))
    );
    assert!(usable(&connection));
}

#[test]
fn a_poisoned_connection_drops_what_it_read() {
    let cancel = CancelHandle::new();
    let mut connection = JadeConnection::new();
    let (mut flight, _) = connection.begin("a", None, SECOND, 0, &cancel).unwrap();
    let reply = cbor_map(vec![("id", text("1")), ("result", number(1))]);
    let (start, end) = reply.split_at(4);
    assert!(matches!(
        connection.advance(&mut flight, Event::Received(start.to_vec()), 1, &cancel),
        Progress::Read(_)
    ));
    connection.poison();
    assert!(!usable(&connection));
    assert!(!matches!(
        connection.advance(&mut flight, Event::Received(end.to_vec()), 2, &cancel),
        Progress::Done(Ok(_))
    ));
    assert_eq!(
        connection.begin("b", None, SECOND, 3, &cancel).unwrap_err(),
        JadeError::DeviceDisconnected
    );
}

#[test]
fn writes_are_capped_for_bluetooth() {
    assert_eq!(MAX_CHUNK_BYTES, 509);
}

// ----------------------------------------------------------------------------
// Fragments
// ----------------------------------------------------------------------------

#[test]
fn a_multi_fragment_reply_is_reassembled_in_order() {
    let mut device = Device::new(vec![
        fragment(vec![1, 2, 3], 1, 3),
        fragment(vec![4, 5, 6], 2, 3),
        fragment(vec![7, 8], 3, 3),
    ]);
    let mut connection = JadeConnection::new();
    let mut cancel = CancelHandle::new();

    let payload =
        exchange_reassembled(&mut connection, &mut device, &mut cancel, "sign_psbt", 5 * SECOND)
            .unwrap();

    assert_eq!(payload, vec![1, 2, 3, 4, 5, 6, 7, 8]);
    assert_eq!(device.writes.len(), 3);

    // The follow-ups are get_extended_data, and each has its own id rather
    // than reusing the original.
    let original = seen(&device.writes[0]);
    let second = seen(&device.writes[1]);
    assert_eq!(second.method, "get_extended_data");
    assert_ne!(second.id, original.id);
    assert_ne!(seen(&device.writes[2]).id, second.id);
    assert!(usable(&connection));

    // They name the original request and count the fragments.
    let params = |origid: &str, seqnum: i64| {
        ciborium::Value::Map(vec![
            (text("origid"), text(origid)),
            (text("orig"), text("sign_psbt")),
            (text("seqnum"), number(seqnum)),
            (text("seqlen"), number(3)),
        ])
    };
    assert_eq!(second.params, Some(params(&original.id, 2)));
    assert_eq!(
        seen(&device.writes[2]).params,
        Some(params(&original.id, 3))
    );
}

#[test]
fn a_single_fragment_reply_needs_no_follow_up() {
    let mut device = Device::new(vec![fragment(vec![9, 9], 1, 1)]);
    let mut connection = JadeConnection::new();
    let mut cancel = CancelHandle::new();

    let payload =
        exchange_reassembled(&mut connection, &mut device, &mut cancel, "sign_psbt", 5 * SECOND)
            .unwrap();
    assert_eq!(payload, vec![9, 9]);
    assert_eq!(device.writes.len(), 1);
}

#[test]
fn a_reply_without_numbers_is_the_only_fragment() {
    let mut device = Device::new(vec![ok_reply(ciborium::Value::Bytes(vec![5]))]);
    let mut connection = JadeConnection::new();
    let mut cancel = CancelHandle::new();
    let payload =
        exchange_reassembled(&mut connection, &mut device, &mut cancel, "sign_psbt", SECOND);
    assert_eq!(payload, Ok(vec![5]));
}

#[test]
fn a_fragment_with_the_wrong_sequence_number_is_rejected() {
    let mut device = Device::new(vec![
        fragment(vec![1], 1, 3),
        // The number should be 2.
        fragment(vec![2], 3, 3),
    ]);
    let mut connection = JadeConnection::new();
    let mut cancel = CancelHandle::new();

    let error =
        exchange_reassembled(&mut connection, &mut device, &mut cancel, "sign_psbt", 5 * SECOND)
            .unwrap_err();
    assert!(matches!(error, JadeError::ProtocolError { .. }));
    assert_eq!(
        error,
        protocol("expected fragment 2, device sent Some(3)")
    );
    assert!(!usable(&connection));
}

#[test]
fn an_excessive_fragment_count_is_rejected() {
    let mut device = Device::new(vec![fragment(
        vec![1],
        1,
        i64::from(MAX_REPLY_FRAGMENTS + 1),
    )]);
    let mut connection = JadeConnection::new();
    let mut cancel = CancelHandle::new();

    let error =
        exchange_reassembled(&mut connection, &mut device, &mut cancel, "sign_psbt", 5 * SECOND)
            .unwrap_err();

    assert!(matches!(error, JadeError::ProtocolError { .. }));
    assert_eq!(device.writes.len(), 1);
    assert_eq!(error, protocol("invalid fragment sequence 1 of 65"));
    assert!(!usable(&connection));
}

#[test]
fn an_oversized_reassembled_reply_is_rejected() {
    let half = || vec![0; MAX_REASSEMBLED_BYTES / 2 + 1];
    let mut device = Device::new(vec![fragment(half(), 1, 2), fragment(half(), 2, 2)]);
    let mut connection = JadeConnection::new();
    let mut cancel = CancelHandle::new();

    let error =
        exchange_reassembled(&mut connection, &mut device, &mut cancel, "sign_psbt", 5 * SECOND)
            .unwrap_err();

    assert!(matches!(error, JadeError::ProtocolError { .. }));
    assert_eq!(error, reply_too_large());
    assert_eq!(
        error,
        protocol("extended reply exceeded the 1048576 byte limit")
    );
    assert!(!usable(&connection));
}

#[test]
fn fragments_share_one_operation_deadline() {
    let mut device = Device::new(vec![fragment(vec![1], 1, 2), fragment(vec![2], 2, 2)]);
    device.read_delay = 60 * MS;
    let mut connection = JadeConnection::new();
    let mut cancel = CancelHandle::new();
    let started = device.now;

    let error =
        exchange_reassembled(&mut connection, &mut device, &mut cancel, "sign_psbt", 100 * MS)
            .unwrap_err();

    assert_eq!(error, JadeError::Timeout);
    assert!(device.now - started < 180 * MS);
}

#[test]
fn fragments_can_fill_the_limit_exactly() {
    let half = || vec![3; MAX_REASSEMBLED_BYTES / 2];
    let mut device = Device::new(vec![fragment(half(), 1, 2), fragment(half(), 2, 2)]);
    let mut connection = JadeConnection::new();
    let mut cancel = CancelHandle::new();
    let payload =
        exchange_reassembled(&mut connection, &mut device, &mut cancel, "sign_psbt", SECOND)
            .unwrap();
    assert_eq!(payload.len(), MAX_REASSEMBLED_BYTES);
}

#[test]
fn fragments_that_do_not_fit_are_rejected() {
    let cases: Vec<(Vec<Responder>, JadeError)> = vec![
        (
            vec![fragment(vec![1], 2, 3)],
            protocol("invalid fragment sequence 2 of 3"),
        ),
        (
            vec![fragment(vec![1], 1, 0)],
            protocol("invalid fragment sequence 1 of 0"),
        ),
        (
            vec![fragment(vec![1], 1, 2), fragment(vec![2], 2, 3)],
            protocol("expected 2 fragments, device reported Some(3)"),
        ),
        (
            vec![
                fragment(vec![1], 1, 2),
                ok_reply(ciborium::Value::Bytes(vec![2])),
            ],
            protocol("expected fragment 2, device sent None"),
        ),
        (
            vec![fragment(vec![1], 1, 2), silent()],
            JadeError::Timeout,
        ),
        (
            vec![fragment(vec![0; MAX_REASSEMBLED_BYTES + 1], 1, 1)],
            reply_too_large(),
        ),
    ];
    for (responders, expected) in cases {
        let mut device = Device::new(responders);
        let mut connection = JadeConnection::new();
        let mut cancel = CancelHandle::new();
        let outcome =
            exchange_reassembled(&mut connection, &mut device, &mut cancel, "sign_psbt", SECOND);
        assert_eq!(outcome, Err(expected));
        assert!(!usable(&connection));
    }
}

#[test]
fn a_failure_before_any_fragment_leaves_the_connection_usable() {
    let refused: Responder = Box::new(|request: &SeenRequest| {
        cbor_map(vec![
            ("id", text(&request.id)),
            (
                "error",
                ciborium::Value::Map(vec![
                    (text("code"), number(-32000)),
                    (text("message"), text("no")),
                ]),
            ),
        ])
    });
    let cases: Vec<(Responder, JadeError)> = vec![
        (refused, JadeError::UserCancelled),
        (ok_reply(number(5)), protocol("result is not a byte string")),
    ];
    for (responder, expected) in cases {
        let mut device = Device::new(vec![responder]);
        let mut connection = JadeConnection::new();
        let mut cancel = CancelHandle::new();
        let outcome =
            exchange_reassembled(&mut connection, &mut device, &mut cancel, "sign_psbt", SECOND);
        assert_eq!(outcome, Err(expected));
        assert!(usable(&connection));
    }
}

#[test]
fn a_failure_after_an_announcement_does_not() {
    let responder: Responder = Box::new(|request: &SeenRequest| {
        cbor_map(vec![
            ("id", text(&request.id)),
            ("result", number(5)),
            ("seqnum", number(1)),
            ("seqlen", number(2)),
        ])
    });
    let mut device = Device::new(vec![responder]);
    let mut connection = JadeConnection::new();
    let mut cancel = CancelHandle::new();
    let outcome =
        exchange_reassembled(&mut connection, &mut device, &mut cancel, "sign_psbt", SECOND);
    assert_eq!(outcome, Err(protocol("result is not a byte string")));
    assert!(!usable(&connection));
}

#[test]
fn an_operation_without_time_is_refused_before_anything_is_written() {
    let cancel = CancelHandle::new();
    let mut connection = JadeConnection::new();
    let refused = connection.begin_reassembled("sign_psbt", None, 0, 9, &cancel);
    assert_eq!(refused.unwrap_err(), JadeError::Timeout);
    assert!(usable(&connection));
}

#[test]
fn the_time_left_is_counted_to_the_deadline() {
    assert_eq!(remaining_until(10, 3), Ok(7));
    assert_eq!(remaining_until(10, 10), Err(JadeError::Timeout));
    assert_eq!(remaining_until(10, 11), Err(JadeError::Timeout));
}

#[test]
fn fragments_are_put_together_one_by_one() {
    let reply = |bytes: Vec<u8>, seqnum: u32| JadeReply {
        id: None,
        result: Some(CborValue::Bytes(bytes)),
        error: None,
        seqnum: Some(seqnum),
        seqlen: Some(3),
    };
    let fragments = Fragments::open(reply(vec![1], 1), "1.0.0").unwrap();
    assert!(!fragments.complete());
    let fragments = fragments.accept(reply(vec![], 2), "1.0.0").unwrap();
    let fragments = fragments.accept(reply(vec![2, 3], 3), "1.0.0").unwrap();
    assert!(fragments.complete());
    assert_eq!(fragments.into_payload(), vec![1, 2, 3]);
}

fn protocol(details: &str) -> JadeError {
    JadeError::ProtocolError {
        error_details: details.to_string(),
    }
}
