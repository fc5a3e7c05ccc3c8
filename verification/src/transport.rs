//! The request and reply loop, as decisions.
//!
//! [`JadeConnection`] owns the read buffer, the request ids and the rules for
//! telling replies apart. It never touches a link: each step takes what the
//! link did and the time at which it did it, and says what to do next. Times
//! are nanoseconds on a clock that does not run backwards.

use crate::cbor::{cbor_bytes, plain, CborTree, CborValue};
use crate::error::{rpc_error, viewed, ErrorView, JadeError};
use crate::frame::{
    first_item, lemma_extent_in_bounds, lemma_extent_local, lemma_extent_stable, Extent, Task,
};
use crate::protocol::{
    encode_request, id_after, is_frame, lemma_frame_comes_out_alone, lemma_ids_are_attributable,
    params_tree, request_bytes, request_tree, take_frame, try_take_frame, RequestIds, MAX_FRAME_BYTES,
    UNATTRIBUTED_ID,
};
use crate::reply::{
    classify, decode_reply, decoded_reply, lemma_messages_are_matched_by_id, match_of, JadeReply,
    MatchView, ReplyMatch, ReplyView, RpcError, RpcErrorView,
};
use crate::text::decimal;
use crate::types::MIN_JADE_FIRMWARE;
use vstd::prelude::*;

verus! {

/// Bluetooth writes are capped here, whatever the link reports.
///
/// A transport should clamp its chunk size into `1..=MAX_CHUNK_BYTES`: a zero
/// would stall its write loop, and the link layer rejects anything larger.
pub const MAX_CHUNK_BYTES: u32 = 509;

/// How long a single read may block: 250 ms.
///
/// Deliberately short. A user who takes two minutes to confirm on the device
/// does not sit inside one uninterruptible call.
pub const READ_CHUNK_TIMEOUT: u128 = 250_000_000;

/// The longest pause after a read that returned nothing: 25 ms.
///
/// A link that returns at once with no data would otherwise be polled without
/// rest.
pub const IDLE_POLL_INTERVAL: u128 = 25_000_000;

/// How many fragments one reply may have.
pub const MAX_REPLY_FRAGMENTS: u32 = 64;

/// How many bytes the fragments of one reply may add up to.
pub const MAX_REASSEMBLED_BYTES: usize = MAX_FRAME_BYTES;

// ----------------------------------------------------------------------------
// Cancellation
// ----------------------------------------------------------------------------
/// The abort state of a connection.
///
/// The device has no cancel message, so the only way to stop a confirmation
/// that is pending is to close the link. A caller sets this state, closes the
/// link, and the operation in flight ends as cancelled, whichever of the two it
/// notices first. It is set once and never cleared. To cancel from another
/// task, share it behind a lock: the calls through all handles then follow one
/// another.
#[derive(Debug)]
pub struct CancelHandle {
    cancelled: bool,
}

/// The abort state after one call, which cancels or only asks.
pub open spec fn after_call(on: bool, cancels: bool) -> bool {
    on || cancels
}

impl CancelHandle {
    /// Whether the operation was cancelled.
    pub closed spec fn on(&self) -> bool {
        self.cancelled
    }

    /// Nothing is cancelled yet.
    pub fn new() -> (r: CancelHandle)
        ensures
            !r.on(),
    {
        CancelHandle { cancelled: false }
    }

    /// Signals the abort. The link has to be closed next.
    pub fn cancel(&mut self)
        ensures
            final(self).on() == after_call(old(self).on(), true),
    {
        self.cancelled = true;
    }

    /// Tells whether the abort was signalled. Asking changes nothing.
    pub fn is_cancelled(&self) -> (r: bool)
        ensures
            r == self.on(),
    {
        self.cancelled
    }
}

/// A call through one of the handles that share an abort state.
pub struct HandleCall {
    /// Which handle.
    pub handle: nat,
    /// Whether the call is a cancellation, or only asks.
    pub cancels: bool,
}

/// The abort state after calls through the handles that share it, one after
/// the other.
pub open spec fn on_after(on: bool, calls: Seq<HandleCall>) -> bool
    decreases calls.len(),
{
    if calls.len() == 0 {
        on
    } else {
        after_call(on_after(on, calls.drop_last()), calls.last().cancels)
    }
}

/// Handles that share an abort state report a cancellation exactly if one of
/// them was cancelled, whichever it was.
pub proof fn lemma_any_handle_cancels_for_all(calls: Seq<HandleCall>)
    ensures
        on_after(false, calls) <==> exists|i: int|
            0 <= i < calls.len() && (#[trigger] calls[i]).cancels,
    decreases calls.len(),
{
    if calls.len() > 0 {
        let before = calls.drop_last();
        lemma_any_handle_cancels_for_all(before);
        if on_after(false, before) {
            let i = choose|i: int| 0 <= i < before.len() && (#[trigger] before[i]).cancels;
            assert(calls[i].cancels);
        }
        if calls.last().cancels {
            assert(calls[calls.len() - 1].cancels);
        }
        if exists|i: int| 0 <= i < calls.len() && (#[trigger] calls[i]).cancels {
            let i = choose|i: int| 0 <= i < calls.len() && (#[trigger] calls[i]).cancels;
            if i < before.len() {
                assert(before[i].cancels);
            }
        }
    }
}

/// A cancellation stays, whatever is called through any handle later.
pub proof fn lemma_cancelling_stays(on: bool, calls: Seq<HandleCall>, later: Seq<HandleCall>)
    ensures
        on_after(on, calls) ==> on_after(on, calls + later),
    decreases later.len(),
{
    if later.len() == 0 {
        assert(calls + later =~= calls);
    } else {
        assert((calls + later).drop_last() =~= calls + later.drop_last());
        lemma_cancelling_stays(on, calls, later.drop_last());
    }
}

/// The error that is reported when the link fails: a deliberate abort is a
/// cancellation, whatever the link did.
pub open spec fn abort_error(error: ErrorView, cancelled: bool) -> ErrorView {
    if cancelled {
        ErrorView::UserCancelled
    } else {
        error
    }
}

/// Reports a deliberate abort as a cancellation, whatever the link did.
///
/// Cancelling sets the abort state and closes the link, and either can be
/// noticed first. The abort state wins, so that a cancel button never shows a
/// disconnection that the user did not experience.
pub fn abort_or(error: JadeError, cancel: &CancelHandle) -> (r: JadeError)
    ensures
        r@ == abort_error(error@, cancel.on()),
{
    if cancel.is_cancelled() {
        JadeError::UserCancelled
    } else {
        error
    }
}

// ----------------------------------------------------------------------------
// One frame
// ----------------------------------------------------------------------------
/// What a frame means for the request in flight.
#[derive(Debug, PartialEq)]
pub enum Verdict {
    /// It is the reply.
    Deliver(JadeReply),
    /// The device refused the message without naming it.
    Refuse(RpcError),
    /// It is for nobody, or for an earlier request.
    Skip,
    /// It is not a reply at all: the stream cannot be trusted any more.
    Break(JadeError),
}

/// The mathematical value of a [`Verdict`].
pub enum VerdictView {
    Deliver(ReplyView),
    Refuse(RpcErrorView),
    Skip,
    Break(ErrorView),
}

impl View for Verdict {
    type V = VerdictView;

    open spec fn view(&self) -> VerdictView {
        match *self {
            Verdict::Deliver(reply) => VerdictView::Deliver(reply@),
            Verdict::Refuse(error) => VerdictView::Refuse(error@),
            Verdict::Skip => VerdictView::Skip,
            Verdict::Break(error) => VerdictView::Break(error@),
        }
    }
}

/// What a frame that reads as this means for the request with this id.
pub open spec fn verdict_on(reply: Result<ReplyView, ErrorView>, id: Seq<char>) -> VerdictView {
    match reply {
        Err(e) => VerdictView::Break(e),
        Ok(reply) => match match_of(reply, id) {
            MatchView::Matched(reply) => VerdictView::Deliver(reply),
            MatchView::Unattributed(error) => VerdictView::Refuse(error),
            MatchView::Ignore => VerdictView::Skip,
        },
    }
}

/// Tells what a frame that was read as this means for the request with this id.
pub fn judge(reply: Result<JadeReply, JadeError>, id: &str) -> (r: Verdict)
    ensures
        r@ == verdict_on(viewed(reply), id@),
{
    match reply {
        Err(e) => Verdict::Break(e),
        Ok(reply) => match classify(reply, id) {
            ReplyMatch::Matched(reply) => Verdict::Deliver(reply),
            ReplyMatch::Unattributed(error) => Verdict::Refuse(error),
            ReplyMatch::Ignore => Verdict::Skip,
        },
    }
}

/// What the frames in a buffer come to for the request with this id, and what
/// is left of the buffer. Frames that are for nobody are passed over.
pub open spec fn drained(buffer: Seq<u8>, id: Seq<char>) -> (VerdictView, Seq<u8>)
    decreases buffer.len(),
{
    match take_frame(buffer) {
        Err(e) => (VerdictView::Break(e), Seq::empty()),
        Ok(None) => (VerdictView::Skip, buffer),
        Ok(Some((frame, rest))) => match verdict_on(decoded_reply(frame), id) {
            VerdictView::Skip => {
                proof {
                    lemma_extent_in_bounds(buffer, Task::Items(1));
                }
                drained(rest, id)
            },
            verdict => (verdict, rest),
        },
    }
}

/// Takes frames out of the buffer until one settles the request with this id,
/// or none is complete.
fn drain(buffer: &mut Vec<u8>, id: &str) -> (r: Verdict)
    ensures
        (r@, final(buffer)@) == drained(old(buffer)@, id@),
{
    loop
        invariant
            drained(buffer@, id@) == drained(old(buffer)@, id@),
        decreases buffer@.len(),
    {
        proof {
            lemma_extent_in_bounds(buffer@, Task::Items(1));
        }
        match try_take_frame(buffer) {
            Err(e) => {
                return Verdict::Break(e);
            },
            Ok(None) => {
                return Verdict::Skip;
            },
            Ok(Some(frame)) => {
                match judge(decode_reply(frame.as_slice()), id) {
                    Verdict::Skip => {},
                    verdict => {
                        return verdict;
                    },
                }
            },
        }
    }
}

// ----------------------------------------------------------------------------
// Connection
// ----------------------------------------------------------------------------
/// A request and reply session over one link.
#[derive(Debug)]
pub struct JadeConnection {
    buffer: Vec<u8>,
    ids: RequestIds,
    /// Set when the stream can no longer be trusted. A framing failure or a
    /// link error leaves no way to find the next frame, so the connection
    /// refuses further work.
    poisoned: bool,
    min_firmware: String,
}

/// The mathematical value of a [`JadeConnection`].
pub struct ConnectionView {
    /// What was read and not taken yet.
    pub buffer: Seq<u8>,
    /// The number of the next request.
    pub upcoming: u32,
    pub poisoned: bool,
    pub min_firmware: Seq<char>,
}

impl View for JadeConnection {
    type V = ConnectionView;

    closed spec fn view(&self) -> ConnectionView {
        ConnectionView {
            buffer: self.buffer@,
            upcoming: self.ids.upcoming(),
            poisoned: self.poisoned,
            min_firmware: self.min_firmware@,
        }
    }
}

/// One request in flight.
#[derive(Debug)]
pub struct Exchange {
    id: String,
    deadline: u128,
    remaining: u128,
}

/// The mathematical value of an [`Exchange`].
pub struct ExchangeView {
    /// The id that the reply must carry.
    pub id: Seq<char>,
    /// When the request is given up.
    pub deadline: u128,
    /// What was left of the time at the last read.
    pub remaining: u128,
}

impl View for Exchange {
    type V = ExchangeView;

    closed spec fn view(&self) -> ExchangeView {
        ExchangeView {
            id: self.id@,
            deadline: self.deadline,
            remaining: self.remaining,
        }
    }
}

impl Exchange {
    /// The id that the reply must carry.
    pub fn id(&self) -> (r: String)
        ensures
            r@ == self@.id,
    {
        self.id.clone()
    }

    /// When the request is given up.
    pub fn deadline(&self) -> (r: u128)
        ensures
            r == self@.deadline,
    {
        self.deadline
    }
}

/// What the link did.
#[derive(Debug)]
pub enum Event {
    /// The whole request was written.
    Written,
    /// Writing failed.
    WriteFailed(JadeError),
    /// Writing took longer than it may.
    WriteTimedOut,
    /// A read returned these bytes; none means that nothing has arrived.
    Received(Vec<u8>),
    /// Reading failed.
    ReadFailed(JadeError),
    /// The pause is over.
    Slept,
}

/// The mathematical value of an [`Event`].
pub enum EventView {
    Written,
    WriteFailed(ErrorView),
    WriteTimedOut,
    Received(Seq<u8>),
    ReadFailed(ErrorView),
    Slept,
}

impl View for Event {
    type V = EventView;

    open spec fn view(&self) -> EventView {
        match *self {
            Event::Written => EventView::Written,
            Event::WriteFailed(error) => EventView::WriteFailed(error@),
            Event::WriteTimedOut => EventView::WriteTimedOut,
            Event::Received(chunk) => EventView::Received(chunk@),
            Event::ReadFailed(error) => EventView::ReadFailed(error@),
            Event::Slept => EventView::Slept,
        }
    }
}

/// What to do next for a request in flight.
#[derive(Debug, PartialEq)]
pub enum Progress {
    /// Read, for at most this long.
    Read(u128),
    /// Pause for this long.
    Sleep(u128),
    /// The request is settled.
    Done(Result<JadeReply, JadeError>),
}

/// The mathematical value of a [`Progress`].
pub enum ProgressView {
    Read(u128),
    Sleep(u128),
    Done(Result<ReplyView, ErrorView>),
}

impl View for Progress {
    type V = ProgressView;

    open spec fn view(&self) -> ProgressView {
        match *self {
            Progress::Read(within) => ProgressView::Read(within),
            Progress::Sleep(lasting) => ProgressView::Sleep(lasting),
            Progress::Done(outcome) => ProgressView::Done(viewed(outcome)),
        }
    }
}

/// A connection that refuses further work.
pub open spec fn given_up(c: ConnectionView) -> ConnectionView {
    ConnectionView { buffer: Seq::empty(), poisoned: true, ..c }
}

/// A connection that refuses further work and keeps what it has read.
pub open spec fn distrusted(c: ConnectionView) -> ConnectionView {
    ConnectionView { poisoned: true, ..c }
}

/// Why a connection accepts no request, if it does not.
pub open spec fn refusal(c: ConnectionView, cancelled: bool) -> Option<ErrorView> {
    if c.poisoned {
        Some(ErrorView::DeviceDisconnected)
    } else if cancelled {
        Some(ErrorView::UserCancelled)
    } else {
        None
    }
}

/// The connection after a request was made at `now`, and the request and its
/// bytes, or why there is none.
///
/// A refused request changes nothing. One that cannot be encoded has used up
/// its id and left everything else as it was.
pub open spec fn begun(
    c: ConnectionView,
    method: Seq<char>,
    params: Option<CborTree>,
    timeout: u128,
    now: u128,
    cancelled: bool,
) -> (ConnectionView, Result<(ExchangeView, Seq<u8>), ErrorView>) {
    match refusal(c, cancelled) {
        Some(e) => (c, Err(e)),
        None => {
            let id = decimal(c.upcoming as nat);
            let after = ConnectionView { upcoming: id_after(c.upcoming), ..c };
            match request_bytes(id, method, params) {
                Ok(bytes) => (
                    after,
                    Ok(
                        (
                            ExchangeView {
                                id,
                                deadline: (now + timeout) as u128,
                                remaining: timeout,
                            },
                            bytes,
                        ),
                    ),
                ),
                Err(e) => (after, Err(e)),
            }
        },
    }
}

/// The smaller of two durations.
pub open spec fn at_most(a: u128, b: u128) -> u128 {
    if a <= b {
        a
    } else {
        b
    }
}

/// What a connection, a request in flight and what to do next are after a step.
pub struct Stepped {
    pub connection: ConnectionView,
    pub exchange: ExchangeView,
    pub progress: ProgressView,
}

/// A step that settles the request with an error and gives the connection up.
pub open spec fn lost(c: ConnectionView, x: ExchangeView, error: ErrorView) -> Stepped {
    Stepped { connection: given_up(c), exchange: x, progress: ProgressView::Done(Err(error)) }
}

/// What happens at `now` to a request in flight, with everything that was read
/// in the buffer.
///
/// Frames that are there already come first, so that a reply that has arrived
/// counts even when the request was cancelled or its time is up.
pub open spec fn polled(c: ConnectionView, x: ExchangeView, now: u128, cancelled: bool) -> Stepped {
    let (verdict, rest) = drained(c.buffer, x.id);
    let after = ConnectionView { buffer: rest, ..c };
    match verdict {
        VerdictView::Deliver(reply) => Stepped {
            connection: after,
            exchange: x,
            progress: ProgressView::Done(Ok(reply)),
        },
        VerdictView::Refuse(e) => Stepped {
            connection: after,
            exchange: x,
            progress: ProgressView::Done(Err(rpc_error(e.code, e.message, c.min_firmware))),
        },
        VerdictView::Break(e) => lost(c, x, e),
        VerdictView::Skip => if cancelled {
            lost(c, x, ErrorView::UserCancelled)
        } else if now >= x.deadline {
            lost(c, x, ErrorView::Timeout)
        } else {
            let remaining = (x.deadline - now) as u128;
            Stepped {
                connection: after,
                exchange: ExchangeView { remaining, ..x },
                progress: ProgressView::Read(at_most(remaining, READ_CHUNK_TIMEOUT)),
            }
        },
    }
}

/// What an event at `now` means for a request in flight.
pub open spec fn advanced(
    c: ConnectionView,
    x: ExchangeView,
    event: EventView,
    now: u128,
    cancelled: bool,
) -> Stepped {
    match event {
        EventView::Written => polled(c, x, now, cancelled),
        EventView::Slept => polled(c, x, now, cancelled),
        EventView::WriteFailed(e) => lost(c, x, abort_error(e, cancelled)),
        EventView::ReadFailed(e) => lost(c, x, abort_error(e, cancelled)),
        EventView::WriteTimedOut => lost(c, x, abort_error(ErrorView::Timeout, cancelled)),
        EventView::Received(chunk) => if chunk.len() == 0 {
            Stepped {
                connection: c,
                exchange: x,
                progress: ProgressView::Sleep(at_most(IDLE_POLL_INTERVAL, x.remaining)),
            }
        } else {
            polled(ConnectionView { buffer: c.buffer + chunk, ..c }, x, now, cancelled)
        },
    }
}

impl JadeConnection {
    /// A connection on which nothing was sent yet.
    pub fn new() -> (r: JadeConnection)
        ensures
            r@ == (ConnectionView {
                buffer: Seq::empty(),
                upcoming: 1,
                poisoned: false,
                min_firmware: MIN_JADE_FIRMWARE@,
            }),
    {
        JadeConnection {
            buffer: Vec::new(),
            ids: RequestIds::new(),
            poisoned: false,
            min_firmware: MIN_JADE_FIRMWARE.to_owned(),
        }
    }

    /// The firmware that an operation unknown to the device is said to need.
    pub fn min_firmware(&self) -> (r: &str)
        ensures
            r@ == self@.min_firmware,
    {
        self.min_firmware.as_str()
    }

    /// Tells whether the connection accepts a request.
    pub fn check_usable(&self, cancel: &CancelHandle) -> (r: Result<(), JadeError>)
        ensures
            viewed(r) == (match refusal(self@, cancel.on()) {
                Some(e) => Err(e),
                None => Ok(()),
            }),
    {
        if self.poisoned {
            return Err(JadeError::DeviceDisconnected);
        }
        if cancel.is_cancelled() {
            return Err(JadeError::UserCancelled);
        }
        Ok(())
    }

    /// Marks the stream unusable and drops anything half read.
    pub fn poison(&mut self)
        ensures
            final(self)@ == given_up(old(self)@),
    {
        self.poisoned = true;
        self.buffer.clear();
    }

    /// Marks the stream unusable and keeps what was read.
    pub fn distrust(&mut self)
        ensures
            final(self)@ == distrusted(old(self)@),
    {
        self.poisoned = true;
    }

    /// Starts a request: the bytes have to be written within `timeout`.
    pub fn begin(
        &mut self,
        method: &str,
        params: Option<CborValue>,
        timeout: u128,
        now: u128,
        cancel: &CancelHandle,
    ) -> (r: Result<(Exchange, Vec<u8>), JadeError>)
        requires
            now + timeout <= u128::MAX,
        ensures
            (final(self)@, viewed(r)) == begun(
                old(self)@,
                method@,
                params_tree(params),
                timeout,
                now,
                cancel.on(),
            ),
    {
        match self.check_usable(cancel) {
            Err(e) => {
                return Err(e);
            },
            Ok(()) => {},
        }
        let id = self.ids.next_id();
        match encode_request(id.as_str(), method, params) {
            Err(e) => Err(e),
            Ok(request) => {
                let exchange = Exchange { id, deadline: now + timeout, remaining: timeout };
                Ok((exchange, request))
            },
        }
    }

    /// Settles the request if the buffer holds its reply, or says how to go on.
    fn poll(&mut self, exchange: &mut Exchange, now: u128, cancel: &CancelHandle) -> (r: Progress)
        ensures
            (Stepped { connection: final(self)@, exchange: final(exchange)@, progress: r@ })
                == polled(old(self)@, old(exchange)@, now, cancel.on()),
    {
        match drain(&mut self.buffer, exchange.id.as_str()) {
            Verdict::Deliver(reply) => Progress::Done(Ok(reply)),
            Verdict::Refuse(e) => Progress::Done(
                Err(JadeError::from_rpc(e.code, e.message, self.min_firmware.as_str())),
            ),
            Verdict::Break(e) => {
                self.poison();
                Progress::Done(Err(e))
            },
            Verdict::Skip => {
                if cancel.is_cancelled() {
                    self.poison();
                    return Progress::Done(Err(JadeError::UserCancelled));
                }
                if now >= exchange.deadline {
                    self.poison();
                    return Progress::Done(Err(JadeError::Timeout));
                }
                let remaining: u128 = exchange.deadline - now;
                exchange.remaining = remaining;
                Progress::Read(
                    if remaining <= READ_CHUNK_TIMEOUT {
                        remaining
                    } else {
                        READ_CHUNK_TIMEOUT
                    },
                )
            },
        }
    }

    /// Takes in what the link did for the request in flight.
    pub fn advance(
        &mut self,
        exchange: &mut Exchange,
        event: Event,
        now: u128,
        cancel: &CancelHandle,
    ) -> (r: Progress)
        ensures
            (Stepped { connection: final(self)@, exchange: final(exchange)@, progress: r@ })
                == advanced(old(self)@, old(exchange)@, event@, now, cancel.on()),
    {
        match event {
            Event::Written => self.poll(exchange, now, cancel),
            Event::Slept => self.poll(exchange, now, cancel),
            Event::WriteFailed(e) => {
                self.poison();
                Progress::Done(Err(abort_or(e, cancel)))
            },
            Event::ReadFailed(e) => {
                self.poison();
                Progress::Done(Err(abort_or(e, cancel)))
            },
            Event::WriteTimedOut => {
                self.poison();
                Progress::Done(Err(abort_or(JadeError::Timeout, cancel)))
            },
            Event::Received(chunk) => {
                if chunk.len() == 0 {
                    Progress::Sleep(
                        if IDLE_POLL_INTERVAL <= exchange.remaining {
                            IDLE_POLL_INTERVAL
                        } else {
                            exchange.remaining
                        },
                    )
                } else {
                    let mut chunk = chunk;
                    self.buffer.append(&mut chunk);
                    self.poll(exchange, now, cancel)
                }
            },
        }
    }
}

// ----------------------------------------------------------------------------
// Laws: the stream
// ----------------------------------------------------------------------------
/// A complete frame at the front of the buffer is judged by itself, whatever
/// was read behind it.
pub proof fn lemma_frames_are_judged_one_by_one(frame: Seq<u8>, rest: Seq<u8>, id: Seq<char>)
    requires
        is_frame(frame),
    ensures
        drained(frame + rest, id) == (match verdict_on(decoded_reply(frame), id) {
            VerdictView::Skip => drained(rest, id),
            verdict => (verdict, rest),
        }),
{
    lemma_frame_comes_out_alone(frame, rest);
}

/// How the bytes are cut into reads makes no difference: what is left waiting
/// after some of them, followed by the others, comes to what all of them come
/// to at once.
pub proof fn lemma_reads_can_be_cut_anywhere(first: Seq<u8>, second: Seq<u8>, id: Seq<char>)
    ensures
        drained(first, id).0 is Skip ==> drained(first + second, id) == drained(
            drained(first, id).1 + second,
            id,
        ),
    decreases first.len(),
{
    lemma_extent_stable(first, second, Task::Items(1));
    lemma_extent_in_bounds(first, Task::Items(1));
    match take_frame(first) {
        Ok(Some((frame, rest))) => {
            assert((first + second).take(frame.len() as int) =~= frame);
            assert((first + second).skip(frame.len() as int) =~= rest + second);
            if verdict_on(decoded_reply(frame), id) is Skip {
                lemma_reads_can_be_cut_anywhere(rest, second, id);
            }
        },
        _ => {},
    }
}

/// Whether no frame ahead of what settles the request exceeds the limit, and
/// bytes that are no frame show it within the limit.
pub open spec fn frames_fit(stream: Seq<u8>, id: Seq<char>) -> bool
    decreases stream.len(),
{
    match first_item(stream) {
        Extent::Complete(n) => if n > MAX_FRAME_BYTES {
            false
        } else if verdict_on(decoded_reply(stream.take(n as int)), id) is Skip {
            proof {
                lemma_extent_in_bounds(stream, Task::Items(1));
            }
            frames_fit(stream.skip(n as int), id)
        } else {
            true
        },
        Extent::Partial => true,
        Extent::Malformed => stream.len() <= MAX_FRAME_BYTES || first_item(
            stream.take(MAX_FRAME_BYTES as int),
        ) is Malformed,
    }
}

/// What settles a request settles it whatever follows.
proof fn lemma_settled_stays_settled(first: Seq<u8>, second: Seq<u8>, id: Seq<char>)
    requires
        frames_fit(first + second, id),
        !(drained(first, id).0 is Skip),
    ensures
        drained(first + second, id).0 == drained(first, id).0,
    decreases first.len(),
{
    let whole = first + second;
    lemma_extent_stable(first, second, Task::Items(1));
    lemma_extent_in_bounds(first, Task::Items(1));
    match first_item(first) {
        Extent::Complete(n) => {
            let frame = first.take(n as int);
            let rest = first.skip(n as int);
            assert(whole.take(n as int) =~= frame);
            assert(whole.skip(n as int) =~= rest + second);
            if verdict_on(decoded_reply(frame), id) is Skip {
                lemma_settled_stays_settled(rest, second, id);
            }
        },
        Extent::Partial => {
            // Too much has arrived without a frame, and there is none to come.
            lemma_extent_local(first, second, Task::Items(1));
            let limit = MAX_FRAME_BYTES as int;
            assert(whole.take(limit) + first.skip(limit) =~= first);
            lemma_extent_stable(whole.take(limit), first.skip(limit), Task::Items(1));
        },
        Extent::Malformed => {},
    }
}

/// What fits still does once the frames that are for nobody are taken off.
proof fn lemma_rest_fits(first: Seq<u8>, second: Seq<u8>, id: Seq<char>)
    requires
        frames_fit(first + second, id),
        drained(first, id).0 is Skip,
    ensures
        frames_fit(drained(first, id).1 + second, id),
    decreases first.len(),
{
    let whole = first + second;
    lemma_extent_stable(first, second, Task::Items(1));
    lemma_extent_in_bounds(first, Task::Items(1));
    if let Extent::Complete(n) = first_item(first) {
        assert(whole.take(n as int) =~= first.take(n as int));
        assert(whole.skip(n as int) =~= first.skip(n as int) + second);
        lemma_rest_fits(first.skip(n as int), second, id);
    }
}

/// What a request comes to when these chunks are read one after the other,
/// until one of them settles it.
pub open spec fn fed(buffer: Seq<u8>, chunks: Seq<Seq<u8>>, id: Seq<char>) -> VerdictView
    decreases chunks.len(),
{
    let (verdict, rest) = drained(buffer, id);
    if verdict is Skip && chunks.len() > 0 {
        fed(rest + chunks[0], chunks.skip(1), id)
    } else {
        verdict
    }
}

/// A request comes to the same in however many reads its bytes arrive, as long
/// as no single frame exceeds the limit. How much arrives in all makes no
/// difference.
pub proof fn lemma_number_of_reads_makes_no_difference(
    buffer: Seq<u8>,
    chunks: Seq<Seq<u8>>,
    id: Seq<char>,
)
    requires
        frames_fit(buffer + chunks.flatten(), id),
    ensures
        fed(buffer, chunks, id) == drained(buffer + chunks.flatten(), id).0,
    decreases chunks.len(),
{
    let (verdict, rest) = drained(buffer, id);
    if chunks.len() == 0 {
        assert(buffer + chunks.flatten() =~= buffer);
    } else if verdict is Skip {
        let others = chunks.skip(1);
        assert(chunks.drop_first() =~= others);
        assert(chunks.flatten() == chunks[0] + others.flatten());
        lemma_rest_fits(buffer, chunks.flatten(), id);
        assert(rest + chunks[0] + others.flatten() =~= rest + chunks.flatten());
        lemma_number_of_reads_makes_no_difference(rest + chunks[0], others, id);
        lemma_reads_can_be_cut_anywhere(buffer, chunks.flatten(), id);
    } else {
        lemma_settled_stays_settled(buffer, chunks.flatten(), id);
    }
}

/// What is left waiting in the buffer stays within the limit.
pub proof fn lemma_waiting_buffer_is_bounded(buffer: Seq<u8>, id: Seq<char>)
    ensures
        drained(buffer, id).0 is Skip ==> drained(buffer, id).1.len() <= MAX_FRAME_BYTES,
    decreases buffer.len(),
{
    lemma_extent_in_bounds(buffer, Task::Items(1));
    match take_frame(buffer) {
        Ok(Some((frame, rest))) => lemma_waiting_buffer_is_bounded(rest, id),
        _ => {},
    }
}

/// A stream that cannot be trusted any more is a protocol error and nothing
/// else.
proof fn lemma_broken_streams_are_protocol_errors(buffer: Seq<u8>, id: Seq<char>)
    ensures
        drained(buffer, id).0 matches VerdictView::Break(e) ==> e is ProtocolError,
    decreases buffer.len(),
{
    lemma_extent_in_bounds(buffer, Task::Items(1));
    match take_frame(buffer) {
        Ok(Some((frame, rest))) => lemma_broken_streams_are_protocol_errors(rest, id),
        _ => {},
    }
}

/// Reading in two pieces is reading in one: the connection ends up the same,
/// and so does what is to be done.
pub proof fn lemma_two_reads_are_one(
    c: ConnectionView,
    x: ExchangeView,
    first: Seq<u8>,
    second: Seq<u8>,
    earlier: u128,
    now: u128,
    cancelled: bool,
)
    requires
        first.len() > 0,
        second.len() > 0,
        advanced(c, x, EventView::Received(first), earlier, false).progress is Read,
    ensures
        ({
            let waiting = advanced(c, x, EventView::Received(first), earlier, false);
            let cut = advanced(
                waiting.connection,
                waiting.exchange,
                EventView::Received(second),
                now,
                cancelled,
            );
            let whole = advanced(c, x, EventView::Received(first + second), now, cancelled);
            cut.connection == whole.connection && cut.progress == whole.progress
        }),
{
    assert(c.buffer + (first + second) =~= (c.buffer + first) + second);
    lemma_reads_can_be_cut_anywhere(c.buffer + first, second, x.id);
}

// ----------------------------------------------------------------------------
// Laws: replies
// ----------------------------------------------------------------------------
/// The reply to the request in flight is delivered as soon as its last byte is
/// there, even when the deadline has passed or the request was cancelled.
pub proof fn lemma_own_reply_is_delivered(
    c: ConnectionView,
    x: ExchangeView,
    frame: Seq<u8>,
    rest: Seq<u8>,
    now: u128,
    cancelled: bool,
)
    requires
        is_frame(frame),
        c.buffer == frame + rest,
        decoded_reply(frame) matches Ok(reply) && reply.id == Some(x.id),
    ensures
        polled(c, x, now, cancelled) == (Stepped {
            connection: ConnectionView { buffer: rest, ..c },
            exchange: x,
            progress: ProgressView::Done(decoded_reply(frame)),
        }),
{
    lemma_frames_are_judged_one_by_one(frame, rest, x.id);
}

/// Messages that the device sends of its own accord, and replies to earlier
/// requests, change nothing for the request in flight.
pub proof fn lemma_stray_frames_are_skipped(
    c: ConnectionView,
    x: ExchangeView,
    frame: Seq<u8>,
    rest: Seq<u8>,
    now: u128,
    cancelled: bool,
)
    requires
        is_frame(frame),
        c.buffer == frame + rest,
        decoded_reply(frame) matches Ok(reply) && reply.id != Some(x.id) && (reply.id != Some(
            UNATTRIBUTED_ID@,
        ) || reply.error is None),
    ensures
        polled(c, x, now, cancelled) == polled(
            ConnectionView { buffer: rest, ..c },
            x,
            now,
            cancelled,
        ),
{
    lemma_frames_are_judged_one_by_one(frame, rest, x.id);
}

/// An error that the device could not attribute ends the request in flight at
/// once, and leaves the connection usable.
pub proof fn lemma_unattributed_errors_end_the_request(
    c: ConnectionView,
    x: ExchangeView,
    frame: Seq<u8>,
    rest: Seq<u8>,
    now: u128,
    cancelled: bool,
)
    requires
        is_frame(frame),
        c.buffer == frame + rest,
        x.id != UNATTRIBUTED_ID@,
        decoded_reply(frame) matches Ok(reply) && reply.id == Some(UNATTRIBUTED_ID@)
            && reply.error is Some,
    ensures
        ({
            let e = decoded_reply(frame)->Ok_0.error->Some_0;
            polled(c, x, now, cancelled) == (Stepped {
                connection: ConnectionView { buffer: rest, ..c },
                exchange: x,
                progress: ProgressView::Done(Err(rpc_error(e.code, e.message, c.min_firmware))),
            })
        }),
{
    lemma_frames_are_judged_one_by_one(frame, rest, x.id);
}

// ----------------------------------------------------------------------------
// Laws: failures
// ----------------------------------------------------------------------------
/// A connection that was given up stays given up, and refuses every request
/// without sending anything.
pub proof fn lemma_giving_up_is_final(
    c: ConnectionView,
    x: ExchangeView,
    event: EventView,
    method: Seq<char>,
    params: Option<CborTree>,
    timeout: u128,
    now: u128,
    cancelled: bool,
)
    requires
        c.poisoned,
    ensures
        advanced(c, x, event, now, cancelled).connection.poisoned,
        begun(c, method, params, timeout, now, cancelled) == (
            c,
            Err::<(ExchangeView, Seq<u8>), ErrorView>(ErrorView::DeviceDisconnected),
        ),
{
}

/// A request that fails in flight gives the connection up, unless the device
/// itself answered it with an error.
pub proof fn lemma_failures_give_up(
    c: ConnectionView,
    x: ExchangeView,
    event: EventView,
    now: u128,
    cancelled: bool,
)
    ensures
        ({
            let after = advanced(c, x, event, now, cancelled);
            let read = match event {
                EventView::Received(chunk) => c.buffer + chunk,
                _ => c.buffer,
            };
            after.progress matches ProgressView::Done(Err(e)) ==> after.connection.poisoned || (
            drained(read, x.id).0 matches VerdictView::Refuse(r) && e == rpc_error(
                r.code,
                r.message,
                c.min_firmware,
            ))
        }),
{
}

/// A failure of the link gives the connection up, with the error of the link
/// or, if the operation was cancelled, as a cancellation.
pub proof fn lemma_link_failures(
    c: ConnectionView,
    x: ExchangeView,
    error: ErrorView,
    now: u128,
    cancelled: bool,
)
    ensures
        ({
            let reported = if cancelled {
                ErrorView::UserCancelled
            } else {
                error
            };
            let over = Stepped {
                connection: given_up(c),
                exchange: x,
                progress: ProgressView::Done(Err(reported)),
            };
            &&& advanced(c, x, EventView::ReadFailed(error), now, cancelled) == over
            &&& advanced(c, x, EventView::WriteFailed(error), now, cancelled) == over
        }),
{
}

/// A cancelled operation never reports a disconnection: not the one that
/// cancelling causes, and not a refusal of the connection either.
pub proof fn lemma_cancelling_is_no_disconnection(
    c: ConnectionView,
    x: ExchangeView,
    event: EventView,
    method: Seq<char>,
    params: Option<CborTree>,
    timeout: u128,
    now: u128,
)
    requires
        !c.poisoned,
    ensures
        advanced(c, x, event, now, true).progress != ProgressView::Done(
            Err(ErrorView::DeviceDisconnected),
        ),
        begun(c, method, params, timeout, now, true) == (
            c,
            Err::<(ExchangeView, Seq<u8>), ErrorView>(ErrorView::UserCancelled),
        ),
{
    lemma_broken_streams_are_protocol_errors(c.buffer, x.id);
    if let EventView::Received(chunk) = event {
        lemma_broken_streams_are_protocol_errors(c.buffer + chunk, x.id);
    }
}

/// A cancelled operation fails as cancelled, whatever the link did: failed,
/// took too long, or brought nothing that settles the request. Only a frame
/// that has arrived in full counts for more.
pub proof fn lemma_cancelled_operations_fail_as_cancelled(
    c: ConnectionView,
    x: ExchangeView,
    event: EventView,
    now: u128,
)
    ensures
        ({
            let after = advanced(c, x, event, now, true);
            let unsettled = match event {
                EventView::WriteFailed(_) => true,
                EventView::ReadFailed(_) => true,
                EventView::WriteTimedOut => true,
                EventView::Written => drained(c.buffer, x.id).0 is Skip,
                EventView::Slept => drained(c.buffer, x.id).0 is Skip,
                EventView::Received(chunk) => drained(c.buffer + chunk, x.id).0 is Skip,
            };
            unsettled && after.progress is Done ==> after == lost(
                c,
                x,
                ErrorView::UserCancelled,
            )
        }),
{
}

/// A cancelled operation ends at the next event; the only delay is one short
/// pause, when a read has just come back empty.
pub proof fn lemma_cancelling_is_prompt(
    c: ConnectionView,
    x: ExchangeView,
    event: EventView,
    now: u128,
)
    ensures
        event != EventView::Received(Seq::<u8>::empty()) ==> advanced(
            c,
            x,
            event,
            now,
            true,
        ).progress is Done,
        event == EventView::Received(Seq::<u8>::empty()) ==> advanced(
            c,
            x,
            event,
            now,
            true,
        ).progress == ProgressView::Sleep(at_most(IDLE_POLL_INTERVAL, x.remaining)),
{
    if let EventView::Received(chunk) = event {
        if chunk.len() == 0 {
            assert(chunk =~= Seq::<u8>::empty());
        }
    }
}

// ----------------------------------------------------------------------------
// Laws: deadlines
// ----------------------------------------------------------------------------
/// A read ends before the deadline and within the time that one read may
/// block, and the bytes left waiting are within the limit.
pub proof fn lemma_reads_keep_the_deadline(
    c: ConnectionView,
    x: ExchangeView,
    event: EventView,
    now: u128,
    cancelled: bool,
)
    ensures
        ({
            let after = advanced(c, x, event, now, cancelled);
            after.progress matches ProgressView::Read(within) ==> {
                &&& 0 < within <= READ_CHUNK_TIMEOUT
                &&& now + within <= x.deadline
                &&& !cancelled
                &&& after.connection.buffer.len() <= MAX_FRAME_BYTES
                &&& after.exchange == (ExchangeView {
                    remaining: (x.deadline - now) as u128,
                    ..x
                })
            }
        }),
{
    lemma_waiting_buffer_is_bounded(c.buffer, x.id);
    if let EventView::Received(chunk) = event {
        lemma_waiting_buffer_is_bounded(c.buffer + chunk, x.id);
    }
}

/// A read that comes back empty is followed by a pause that is neither empty
/// nor longer than what was left of the time, so that a silent device is not
/// polled without rest.
pub proof fn lemma_empty_reads_are_followed_by_a_pause(
    c: ConnectionView,
    x: ExchangeView,
    event: EventView,
    now: u128,
    later: u128,
    cancelled: bool,
)
    requires
        advanced(c, x, event, now, false).progress is Read,
    ensures
        ({
            let reading = advanced(c, x, event, now, false);
            let after = advanced(
                reading.connection,
                reading.exchange,
                EventView::Received(Seq::empty()),
                later,
                cancelled,
            );
            &&& after.connection == reading.connection
            &&& after.exchange == reading.exchange
            &&& after.progress matches ProgressView::Sleep(lasting) && 0 < lasting
                <= IDLE_POLL_INTERVAL && now + lasting <= x.deadline
        }),
{
}

/// Once the deadline has passed, a request without a reply times out at the
/// next event that says what the buffer holds, and the connection is given up.
pub proof fn lemma_silence_times_out(c: ConnectionView, x: ExchangeView, now: u128)
    requires
        drained(c.buffer, x.id).0 is Skip,
        now >= x.deadline,
    ensures
        polled(c, x, now, false) == lost(c, x, ErrorView::Timeout),
{
}

/// A write that outlasts its time gives the connection up. It is a timeout or,
/// if the operation was cancelled meanwhile, a cancellation.
pub proof fn lemma_stalled_writes_time_out(
    c: ConnectionView,
    x: ExchangeView,
    now: u128,
    cancelled: bool,
)
    ensures
        advanced(c, x, EventView::WriteTimedOut, now, cancelled) == lost(
            c,
            x,
            if cancelled {
                ErrorView::UserCancelled
            } else {
                ErrorView::Timeout
            },
        ),
{
}

/// A request is answered under an id of its own: it uses up one id, and no
/// event changes which id comes next.
pub proof fn lemma_each_request_uses_one_id(
    c: ConnectionView,
    x: ExchangeView,
    event: EventView,
    method: Seq<char>,
    params: Option<CborTree>,
    timeout: u128,
    now: u128,
    cancelled: bool,
)
    ensures
        ({
            let (after, started) = begun(c, method, params, timeout, now, cancelled);
            started matches Ok((exchange, _)) ==> exchange.id == decimal(c.upcoming as nat)
                && after.upcoming == id_after(c.upcoming) && exchange.id != UNATTRIBUTED_ID@
        }),
        advanced(c, x, event, now, cancelled).connection.upcoming == c.upcoming,
        advanced(c, x, event, now, cancelled).exchange.id == x.id,
{
    lemma_ids_are_attributable(c.upcoming);
}

// ----------------------------------------------------------------------------
// Laws: what each step does
// ----------------------------------------------------------------------------
/// The limits: 509 bytes to a Bluetooth write, a quarter of a second to a read,
/// a fortieth to a pause, 64 fragments to a reply, and a mebibyte to a frame
/// and to a reply. The id of replies that belong to no request is "00".
pub proof fn lemma_limits()
    ensures
        MAX_CHUNK_BYTES == 509,
        READ_CHUNK_TIMEOUT == 250_000_000,
        IDLE_POLL_INTERVAL == 25_000_000,
        MAX_REPLY_FRAGMENTS == 64,
        MAX_REASSEMBLED_BYTES == 1_048_576,
        MAX_FRAME_BYTES == 1_048_576,
        UNATTRIBUTED_ID@ == "00"@,
        MIN_JADE_FIRMWARE@ == "1.0.30"@,
{
}

/// Giving up a connection makes it refuse further work and drops what was read;
/// distrusting it does only the former. Neither touches anything else.
pub proof fn lemma_giving_up(c: ConnectionView)
    ensures
        given_up(c).poisoned,
        given_up(c).buffer == Seq::<u8>::empty(),
        given_up(c).upcoming == c.upcoming,
        given_up(c).min_firmware == c.min_firmware,
        distrusted(c).poisoned,
        distrusted(c).buffer == c.buffer,
        distrusted(c).upcoming == c.upcoming,
        distrusted(c).min_firmware == c.min_firmware,
{
}

/// A cancelled operation reports a cancellation, any other the error itself.
/// One call through a handle leaves it cancelled if it was or if that call is
/// one.
pub proof fn lemma_aborting(error: ErrorView, on: bool)
    ensures
        abort_error(error, true) == ErrorView::UserCancelled,
        abort_error(error, false) == error,
        after_call(on, true),
        after_call(on, false) == on,
{
}

/// A request is made exactly if the connection is usable and nothing was
/// cancelled. It carries the next id, has all of its time, and is given up once
/// that has passed. Parameters that cannot be encoded cost the id and nothing
/// else, and a refused request costs nothing.
pub proof fn lemma_requests_start_with_all_their_time(
    c: ConnectionView,
    method: Seq<char>,
    params: Option<CborTree>,
    timeout: u128,
    now: u128,
    cancelled: bool,
)
    requires
        now + timeout <= u128::MAX,
    ensures
        ({
            let (after, started) = begun(c, method, params, timeout, now, cancelled);
            let tree = request_tree(decimal(c.upcoming as nat), method, params);
            &&& c.poisoned ==> after == c && started == Err::<(ExchangeView, Seq<u8>), ErrorView>(
                ErrorView::DeviceDisconnected,
            )
            &&& !c.poisoned && cancelled ==> after == c && started == Err::<
                (ExchangeView, Seq<u8>),
                ErrorView,
            >(ErrorView::UserCancelled)
            &&& !c.poisoned && !cancelled ==> {
                &&& after.buffer == c.buffer && !after.poisoned && after.min_firmware
                    == c.min_firmware
                &&& c.upcoming < 0xffff_ffff ==> after.upcoming == c.upcoming + 1
                &&& c.upcoming == 0xffff_ffff ==> after.upcoming == 1
                &&& started is Ok <==> plain(tree)
                &&& started matches Err(e) ==> e == ErrorView::ProtocolError(
                    "parameters cannot be encoded"@,
                )
                &&& started matches Ok((x, bytes)) ==> x.id == decimal(c.upcoming as nat)
                    && x.deadline == now + timeout && x.remaining == timeout && bytes == cbor_bytes(
                    tree,
                )
            }
        }),
{
}

/// What a reading of a frame means for a request goes by the ids alone: a reply
/// with the id of the request is delivered as it is, an error under "00" refuses
/// the request, and any other reply is passed over. What is no reply breaks the
/// stream.
pub proof fn lemma_frames_are_judged_by_id(reply: Result<ReplyView, ErrorView>, id: Seq<char>)
    ensures
        ({
            let verdict = verdict_on(reply, id);
            &&& reply matches Err(e) ==> verdict == VerdictView::Break(e)
            &&& reply matches Ok(r) ==> {
                &&& r.id == Some(id) ==> verdict == VerdictView::Deliver(r)
                &&& r.id != Some(id) && r.id == Some("00"@) ==> (r.error matches Some(e) ==> verdict
                    == VerdictView::Refuse(e))
                &&& r.id != Some(id) && (r.id != Some("00"@) || r.error is None) ==> verdict
                    == VerdictView::Skip
            }
        }),
{
    if let Ok(r) = reply {
        lemma_messages_are_matched_by_id(r, id);
    }
}

/// Whether a frame is for nobody as far as the request with this id goes: a
/// reply with another id that is no error under "00".
pub open spec fn is_stray(frame: Seq<u8>, id: Seq<char>) -> bool {
    &&& is_frame(frame)
    &&& decoded_reply(frame) matches Ok(r) && r.id != Some(id) && (r.id != Some("00"@) || r.error
        is None)
}

/// However many frames for nobody are ahead, the request comes to what stands
/// behind them.
pub proof fn lemma_strays_are_passed_over(frames: Seq<Seq<u8>>, rest: Seq<u8>, id: Seq<char>)
    requires
        forall|i: int| 0 <= i < frames.len() ==> is_stray(#[trigger] frames[i], id),
    ensures
        drained(frames.flatten() + rest, id) == drained(rest, id),
    decreases frames.len(),
{
    if frames.len() == 0 {
        assert(frames.flatten() + rest =~= rest);
    } else {
        let others = frames.drop_first();
        assert forall|i: int| 0 <= i < others.len() implies is_stray(#[trigger] others[i], id) by {
            assert(others[i] == frames[i + 1]);
        }
        lemma_strays_are_passed_over(others, rest, id);
        assert(is_stray(frames[0], id));
        lemma_frames_are_judged_by_id(decoded_reply(frames[0]), id);
        lemma_frames_are_judged_one_by_one(frames[0], others.flatten() + rest, id);
        assert(frames.flatten() + rest =~= frames[0] + (others.flatten() + rest));
    }
}

/// Behind any number of frames for nobody, the frame that answers the request
/// settles it: a reply is delivered as it reads, an error under "00" refuses
/// the request, and a frame that is no reply breaks the stream. What follows
/// stays in the buffer.
pub proof fn lemma_the_first_frame_that_counts_settles(
    frames: Seq<Seq<u8>>,
    frame: Seq<u8>,
    rest: Seq<u8>,
    id: Seq<char>,
)
    requires
        forall|i: int| 0 <= i < frames.len() ==> is_stray(#[trigger] frames[i], id),
        is_frame(frame),
    ensures
        decoded_reply(frame) matches Ok(r) ==> r.id == Some(id) ==> drained(
            frames.flatten() + (frame + rest),
            id,
        ) == (VerdictView::Deliver(r), rest),
        decoded_reply(frame) matches Ok(r) ==> r.id == Some("00"@) && id != "00"@ ==> (
        r.error matches Some(e) ==> drained(frames.flatten() + (frame + rest), id) == (
            VerdictView::Refuse(e),
            rest,
        )),
        decoded_reply(frame) matches Err(e) ==> drained(
            frames.flatten() + (frame + rest),
            id,
        ).0 == VerdictView::Break(e),
{
    lemma_strays_are_passed_over(frames, frame + rest, id);
    lemma_frames_are_judged_by_id(decoded_reply(frame), id);
    lemma_frames_are_judged_one_by_one(frame, rest, id);
}

/// Behind any number of frames for nobody, a frame that is not complete yet
/// waits, up to a mebibyte of it. More than that without an end to it, and bytes
/// that start no item, break the stream.
pub proof fn lemma_incomplete_frames_wait(
    frames: Seq<Seq<u8>>,
    rest: Seq<u8>,
    id: Seq<char>,
)
    requires
        forall|i: int| 0 <= i < frames.len() ==> is_stray(#[trigger] frames[i], id),
        !(first_item(rest) is Complete),
    ensures
        first_item(rest) is Partial && rest.len() <= 1_048_576 ==> drained(
            frames.flatten() + rest,
            id,
        ) == (VerdictView::Skip, rest),
        first_item(rest) is Malformed ==> drained(frames.flatten() + rest, id).0
            == VerdictView::Break(ErrorView::ProtocolError("malformed CBOR in the stream"@)),
        first_item(rest) is Partial && rest.len() > 1_048_576 ==> drained(
            frames.flatten() + rest,
            id,
        ).0 == VerdictView::Break(ErrorView::ProtocolError("frame exceeds the size limit"@)),
{
    lemma_strays_are_passed_over(frames, rest, id);
}

/// Whether a step is the next read of a request in flight for which all of
/// these bytes have been read.
pub open spec fn goes_on(
    c: ConnectionView,
    x: ExchangeView,
    read: Seq<u8>,
    now: u128,
    after: Stepped,
) -> bool {
    &&& after.progress matches ProgressView::Read(within) && within <= 250_000_000 && within
        <= x.deadline - now && (within == 250_000_000 || within == x.deadline - now)
    &&& after.connection.poisoned == c.poisoned
    &&& after.connection.buffer == drained(read, x.id).1
    &&& after.connection.upcoming == c.upcoming
    &&& after.connection.min_firmware == c.min_firmware
    &&& after.exchange.id == x.id
    &&& after.exchange.deadline == x.deadline
    &&& after.exchange.remaining == x.deadline - now
}

/// A request in flight that was not cancelled goes on as long as its deadline
/// has not come and nothing that has arrived settles it: the next step is a
/// read, for all of the time that is left, but no longer than a quarter of a
/// second. The connection stays as usable as it was, and keeps what waits.
pub proof fn lemma_requests_go_on_until_their_deadline(
    c: ConnectionView,
    x: ExchangeView,
    chunk: Seq<u8>,
    now: u128,
)
    requires
        now < x.deadline,
    ensures
        drained(c.buffer, x.id).0 is Skip ==> goes_on(
            c,
            x,
            c.buffer,
            now,
            advanced(c, x, EventView::Written, now, false),
        ),
        drained(c.buffer, x.id).0 is Skip ==> goes_on(
            c,
            x,
            c.buffer,
            now,
            advanced(c, x, EventView::Slept, now, false),
        ),
        chunk.len() > 0 && drained(c.buffer + chunk, x.id).0 is Skip ==> goes_on(
            c,
            x,
            c.buffer + chunk,
            now,
            advanced(c, x, EventView::Received(chunk), now, false),
        ),
{
}

proof fn lemma_device_errors_are_no_timeouts(code: i64, message: Seq<char>, firmware: Seq<char>)
    ensures
        !(rpc_error(code, message, firmware) is Timeout),
        !(rpc_error(code, message, firmware) is DeviceDisconnected),
{
}

/// A request ends as timed out only if its deadline has come, or if the link
/// says so.
pub proof fn lemma_timeouts_take_all_the_time(
    c: ConnectionView,
    x: ExchangeView,
    event: EventView,
    now: u128,
    cancelled: bool,
)
    requires
        advanced(c, x, event, now, cancelled).progress == ProgressView::Done(
            Err(ErrorView::Timeout),
        ),
    ensures
        !cancelled,
        now >= x.deadline || event is WriteTimedOut || event == EventView::ReadFailed(
            ErrorView::Timeout,
        ) || event == EventView::WriteFailed(ErrorView::Timeout),
        advanced(c, x, event, now, cancelled).connection.poisoned,
        advanced(c, x, event, now, cancelled).connection.buffer.len() == 0,
{
    lemma_broken_streams_are_protocol_errors(c.buffer, x.id);
    if let EventView::Received(chunk) = event {
        lemma_broken_streams_are_protocol_errors(c.buffer + chunk, x.id);
        if let VerdictView::Refuse(e) = drained(c.buffer + chunk, x.id).0 {
            lemma_device_errors_are_no_timeouts(e.code, e.message, c.min_firmware);
        }
    }
    if let VerdictView::Refuse(e) = drained(c.buffer, x.id).0 {
        lemma_device_errors_are_no_timeouts(e.code, e.message, c.min_firmware);
    }
}

/// What has arrived in full decides ahead of the clock and of a cancellation. A
/// reply ends the request with it, and an error of the device with that; both
/// leave the connection as usable as it was. A broken stream ends it with its
/// error and gives the connection up. If nothing settles the request, it ends
/// as cancelled if it was, and as timed out once its deadline has come.
pub proof fn lemma_what_has_arrived_decides(
    c: ConnectionView,
    x: ExchangeView,
    chunk: Seq<u8>,
    event: EventView,
    now: u128,
    cancelled: bool,
)
    requires
        match event {
            EventView::Written => chunk.len() == 0,
            EventView::Slept => chunk.len() == 0,
            EventView::Received(read) => read.len() > 0 && read == chunk,
            _ => false,
        },
    ensures
        ({
            let (verdict, rest) = drained(c.buffer + chunk, x.id);
            let after = advanced(c, x, event, now, cancelled);
            let over = after.connection.poisoned && after.connection.buffer.len() == 0;
            &&& after.connection.upcoming == c.upcoming
            &&& after.connection.min_firmware == c.min_firmware
            &&& verdict matches VerdictView::Deliver(reply) ==> after.progress
                == ProgressView::Done(Ok(reply)) && after.connection.buffer == rest
                && after.connection.poisoned == c.poisoned && after.exchange == x
            &&& verdict matches VerdictView::Refuse(e) ==> after.progress == ProgressView::Done(
                Err(rpc_error(e.code, e.message, c.min_firmware)),
            ) && after.connection.buffer == rest && after.connection.poisoned == c.poisoned
                && after.exchange == x
            &&& verdict matches VerdictView::Break(e) ==> after.progress == ProgressView::Done(
                Err(e),
            ) && over && after.exchange == x
            &&& verdict is Skip && cancelled ==> after.progress == ProgressView::Done(
                Err(ErrorView::UserCancelled),
            ) && over
            &&& verdict is Skip && !cancelled && now >= x.deadline ==> after.progress
                == ProgressView::Done(Err(ErrorView::Timeout)) && over
        }),
{
    if chunk.len() == 0 {
        assert(c.buffer + chunk =~= c.buffer);
    }
}

/// A read that brings nothing changes nothing: the request pauses for a
/// fortieth of a second, or for what was left of its time if that is less.
pub proof fn lemma_nothing_read_is_a_pause(
    c: ConnectionView,
    x: ExchangeView,
    now: u128,
    cancelled: bool,
)
    ensures
        ({
            let after = advanced(c, x, EventView::Received(Seq::empty()), now, cancelled);
            &&& after.connection == c
            &&& after.exchange == x
            &&& x.remaining >= 25_000_000 ==> after.progress == ProgressView::Sleep(25_000_000)
            &&& x.remaining < 25_000_000 ==> after.progress == ProgressView::Sleep(x.remaining)
        }),
{
}

/// A failure of the link, and a write that takes too long, end the request and
/// leave a connection that refuses further work and holds no bytes.
pub proof fn lemma_link_failures_end_the_request(
    c: ConnectionView,
    x: ExchangeView,
    error: ErrorView,
    now: u128,
    cancelled: bool,
)
    ensures
        ({
            let read = advanced(c, x, EventView::ReadFailed(error), now, cancelled);
            let written = advanced(c, x, EventView::WriteFailed(error), now, cancelled);
            let late = advanced(c, x, EventView::WriteTimedOut, now, cancelled);
            &&& read == written
            &&& read.connection == late.connection
            &&& read.exchange == x && late.exchange == x
            &&& read.connection.poisoned && read.connection.buffer.len() == 0
            &&& read.connection.upcoming == c.upcoming
            &&& read.connection.min_firmware == c.min_firmware
            &&& cancelled ==> read.progress == ProgressView::Done(Err(ErrorView::UserCancelled))
                && late.progress == read.progress
            &&& !cancelled ==> read.progress == ProgressView::Done(Err(error)) && late.progress
                == ProgressView::Done(Err(ErrorView::Timeout))
        }),
{
}

/// The values of an event, of what to do next and of a verdict are what they
/// hold.
pub proof fn lemma_events_show_what_they_hold(
    chunk: Vec<u8>,
    error: JadeError,
    reply: JadeReply,
    refused: RpcError,
    time: u128,
)
    ensures
        Event::Written@ is Written,
        Event::Slept@ is Slept,
        Event::WriteTimedOut@ is WriteTimedOut,
        Event::Received(chunk)@ == EventView::Received(chunk@),
        Event::WriteFailed(error)@ == EventView::WriteFailed(error@),
        Event::ReadFailed(error)@ == EventView::ReadFailed(error@),
        Progress::Read(time)@ == ProgressView::Read(time),
        Progress::Sleep(time)@ == ProgressView::Sleep(time),
        Progress::Done(Ok(reply))@ == ProgressView::Done(Ok(reply@)),
        Progress::Done(Err(error))@ == ProgressView::Done(Err(error@)),
        Verdict::Deliver(reply)@ == VerdictView::Deliver(reply@),
        Verdict::Refuse(refused)@ == VerdictView::Refuse(refused@),
        Verdict::Skip@ is Skip,
        Verdict::Break(error)@ == VerdictView::Break(error@),
{
}

/// Whatever has arrived for a request, as long as it settles nothing, the
/// request was not cancelled and its deadline has not come, it is told to read
/// for what is left of the time or for a quarter of a second, whichever is
/// less, and the connection stays as usable as it was.
pub proof fn lemma_no_request_ends_early(
    connection: &mut JadeConnection,
    exchange: &mut Exchange,
    event: Event,
    now: u128,
    cancel: &CancelHandle,
    r: Progress,
)
    requires
        call_ensures(JadeConnection::advance, (connection, exchange, event, now, cancel), r),
        !cancel.on(),
        now < old(exchange)@.deadline,
        match event {
            Event::Written => drained(old(connection)@.buffer, old(exchange)@.id).0 is Skip,
            Event::Slept => drained(old(connection)@.buffer, old(exchange)@.id).0 is Skip,
            Event::Received(chunk) => chunk@.len() > 0 && drained(
                old(connection)@.buffer + chunk@,
                old(exchange)@.id,
            ).0 is Skip,
            _ => false,
        },
    ensures
        old(exchange)@.deadline - now <= 250_000_000 ==> r == Progress::Read(
            (old(exchange)@.deadline - now) as u128,
        ),
        old(exchange)@.deadline - now > 250_000_000 ==> r == Progress::Read(250_000_000),
        final(connection)@.poisoned == old(connection)@.poisoned,
        final(exchange)@.deadline == old(exchange)@.deadline,
        final(exchange)@.id == old(exchange)@.id,
{
}

/// A request that is made carries all of its time and the next number for an
/// id, which it uses up.
pub proof fn lemma_requests_carry_their_time(
    connection: &mut JadeConnection,
    method: &str,
    params: Option<CborValue>,
    timeout: u128,
    now: u128,
    cancel: &CancelHandle,
    r: Result<(Exchange, Vec<u8>), JadeError>,
)
    requires
        now + timeout <= u128::MAX,
        call_ensures(JadeConnection::begin, (connection, method, params, timeout, now, cancel), r),
    ensures
        r matches Ok((exchange, request)) ==> {
            &&& !old(connection)@.poisoned && !cancel.on()
            &&& exchange@.id == decimal(old(connection)@.upcoming as nat)
            &&& exchange@.deadline == now + timeout
            &&& request@ == cbor_bytes(request_tree(exchange@.id, method@, params_tree(params)))
            &&& final(connection)@.upcoming != old(connection)@.upcoming
            &&& final(connection)@.buffer == old(connection)@.buffer
            &&& !final(connection)@.poisoned
        },
        old(connection)@.poisoned ==> r is Err && r->Err_0 is DeviceDisconnected,
        !old(connection)@.poisoned && cancel.on() ==> r is Err && r->Err_0 is UserCancelled,
{
}

/// A new connection has read nothing, is usable, and starts counting at one.
pub proof fn lemma_new_connections_are_usable(r: JadeConnection)
    requires
        call_ensures(JadeConnection::new, (), r),
    ensures
        r@.buffer.len() == 0,
        r@.upcoming == 1,
        !r@.poisoned,
        r@.min_firmware == "1.0.30"@,
{
}

/// A handle reports a cancellation from the moment of it, and not before.
pub proof fn lemma_handles_report_cancellations(
    fresh: CancelHandle,
    handle: &mut CancelHandle,
    asked: CancelHandle,
    answer: bool,
    unit: (),
)
    requires
        call_ensures(CancelHandle::new, (), fresh),
        call_ensures(CancelHandle::cancel, (handle,), unit),
        call_ensures(CancelHandle::is_cancelled, (&asked,), answer),
    ensures
        !fresh.on(),
        final(handle).on(),
        answer == asked.on(),
{
}

} // verus!
