//! Replies that arrive in fragments.
//!
//! A long reply comes in numbered fragments. The first answers the request
//! itself; each of the others is asked for by number, with an id of its own.
//! All of them share the deadline of the one operation that the caller asked
//! for.

use crate::cbor::{cbor_bytes, entry_trees, lemma_pairs_tree, plain, CborTree, CborValue};
use crate::error::{rpc_error, viewed, ErrorView, JadeError};
use crate::members::{gives_none, holds, named};
use crate::protocol::{id_later, lemma_ids_are_fresh, params_tree, request_tree, text_value};
use crate::reply::{
    bytes_in, lemma_replies_say_what_was_sent, reply_of, result_bytes, result_in, says, JadeReply,
    ReplyView,
};
use crate::text::{decimal, decimal_text};
use crate::transport::{
    abort_error, abort_or, advanced, begun, distrusted, given_up, CancelHandle, ConnectionView,
    Event, EventView, Exchange, ExchangeView, JadeConnection, Progress, ProgressView,
    MAX_REASSEMBLED_BYTES, MAX_REPLY_FRAGMENTS,
};
use vstd::prelude::*;

verus! {

// ----------------------------------------------------------------------------
// What may go wrong
// ----------------------------------------------------------------------------
/// How an optional number is shown.
pub open spec fn shown(n: Option<u32>) -> Seq<char> {
    match n {
        Some(n) => "Some("@ + decimal(n as nat) + ")"@,
        None => "None"@,
    }
}

fn show(n: Option<u32>) -> (r: String)
    ensures
        r@ == shown(n),
{
    match n {
        Some(n) => {
            let mut out = "Some(".to_owned();
            out.append(decimal_text(n as u64).as_str());
            out.append(")");
            out
        },
        None => "None".to_owned(),
    }
}

/// The error for a first fragment that is not the first of an acceptable
/// number.
pub open spec fn invalid_sequence(seqnum: u32, seqlen: u32) -> ErrorView {
    ErrorView::ProtocolError(
        "invalid fragment sequence "@ + decimal(seqnum as nat) + " of "@ + decimal(seqlen as nat),
    )
}

/// The error for a fragment other than the one that was asked for.
pub open spec fn wrong_fragment(expected: u32, sent: Option<u32>) -> ErrorView {
    ErrorView::ProtocolError(
        "expected fragment "@ + decimal(expected as nat) + ", device sent "@ + shown(sent),
    )
}

/// The error for a fragment that announces another number of fragments.
pub open spec fn wrong_count(expected: u32, reported: Option<u32>) -> ErrorView {
    ErrorView::ProtocolError(
        "expected "@ + decimal(expected as nat) + " fragments, device reported "@ + shown(reported),
    )
}

/// The error for fragments that add up to too much.
pub open spec fn too_large() -> ErrorView {
    ErrorView::ProtocolError(
        "extended reply exceeded the "@ + decimal(MAX_REASSEMBLED_BYTES as nat) + " byte limit"@,
    )
}

fn sequence_error(seqnum: u32, seqlen: u32) -> (r: JadeError)
    ensures
        r@ == invalid_sequence(seqnum, seqlen),
{
    let mut details = "invalid fragment sequence ".to_owned();
    details.append(decimal_text(seqnum as u64).as_str());
    details.append(" of ");
    details.append(decimal_text(seqlen as u64).as_str());
    JadeError::protocol(details)
}

fn fragment_error(expected: u32, sent: Option<u32>) -> (r: JadeError)
    ensures
        r@ == wrong_fragment(expected, sent),
{
    let mut details = "expected fragment ".to_owned();
    details.append(decimal_text(expected as u64).as_str());
    details.append(", device sent ");
    details.append(show(sent).as_str());
    JadeError::protocol(details)
}

fn count_error(expected: u32, reported: Option<u32>) -> (r: JadeError)
    ensures
        r@ == wrong_count(expected, reported),
{
    let mut details = "expected ".to_owned();
    details.append(decimal_text(expected as u64).as_str());
    details.append(" fragments, device reported ");
    details.append(show(reported).as_str());
    JadeError::protocol(details)
}

/// The error for fragments that add up to more than [`MAX_REASSEMBLED_BYTES`].
pub fn reply_too_large() -> (r: JadeError)
    ensures
        r@ == too_large(),
{
    let mut details = "extended reply exceeded the ".to_owned();
    details.append(decimal_text(MAX_REASSEMBLED_BYTES as u64).as_str());
    details.append(" byte limit");
    JadeError::protocol(details)
}

/// How much time is left until the deadline, if any.
pub fn remaining_until(deadline: u128, now: u128) -> (r: Result<u128, JadeError>)
    ensures
        now < deadline ==> r == Ok::<u128, JadeError>((deadline - now) as u128),
        now >= deadline ==> r == Err::<u128, JadeError>(JadeError::Timeout),
{
    if now >= deadline {
        return Err(JadeError::Timeout);
    }
    Ok(deadline - now)
}

// ----------------------------------------------------------------------------
// Fragments
// ----------------------------------------------------------------------------
/// The fragments that have arrived, put together.
#[derive(Debug)]
pub struct Fragments {
    seqnum: u32,
    seqlen: u32,
    payload: Vec<u8>,
}

/// The mathematical value of [`Fragments`].
pub struct FragmentsView {
    /// The number of the last fragment that arrived.
    pub seqnum: u32,
    /// How many fragments the reply has.
    pub seqlen: u32,
    /// The bytes of all fragments so far, in order.
    pub payload: Seq<u8>,
}

impl View for Fragments {
    type V = FragmentsView;

    closed spec fn view(&self) -> FragmentsView {
        FragmentsView { seqnum: self.seqnum, seqlen: self.seqlen, payload: self.payload@ }
    }
}

impl FragmentsView {
    /// Fragments are counted from one, and neither their number nor their
    /// bytes exceed the limits.
    pub open spec fn wf(&self) -> bool {
        &&& 1 <= self.seqnum <= self.seqlen <= MAX_REPLY_FRAGMENTS
        &&& self.payload.len() <= MAX_REASSEMBLED_BYTES
    }
}

/// The bytes that a reply carries.
pub open spec fn payload_in(reply: ReplyView, min_firmware: Seq<char>) -> Result<
    Seq<u8>,
    ErrorView,
> {
    match result_in(reply, min_firmware) {
        Ok(t) => bytes_in(t),
        Err(e) => Err(e),
    }
}

/// The number that a reply gives, or one.
pub open spec fn or_one(n: Option<u32>) -> u32 {
    match n {
        Some(n) => n,
        None => 1,
    }
}

/// What the reply to the request itself opens, or why it opens nothing and
/// whether that leaves the device waiting for a follow-up.
///
/// A reply without numbers is the only fragment.
pub open spec fn opened(reply: ReplyView, min_firmware: Seq<char>) -> Result<
    FragmentsView,
    (ErrorView, bool),
> {
    let seqnum = or_one(reply.seqnum);
    let seqlen = or_one(reply.seqlen);
    match payload_in(reply, min_firmware) {
        Err(e) => Err((e, seqlen > 1)),
        Ok(payload) => if seqnum != 1 || seqlen == 0 || seqlen > MAX_REPLY_FRAGMENTS {
            Err((invalid_sequence(seqnum, seqlen), true))
        } else if payload.len() > MAX_REASSEMBLED_BYTES {
            Err((too_large(), true))
        } else {
            Ok(FragmentsView { seqnum: 1, seqlen, payload })
        },
    }
}

/// What the reply to a follow-up makes of the fragments so far, or why it is
/// not the fragment that is due and whether that is for its size.
pub open spec fn continued(f: FragmentsView, reply: ReplyView, min_firmware: Seq<char>) -> Result<
    FragmentsView,
    (ErrorView, bool),
> {
    let due = (f.seqnum + 1) as u32;
    if reply.seqnum != Some(due) {
        Err((wrong_fragment(due, reply.seqnum), false))
    } else if reply.seqlen != Some(f.seqlen) {
        Err((wrong_count(f.seqlen, reply.seqlen), false))
    } else {
        match payload_in(reply, min_firmware) {
            Err(e) => Err((e, false)),
            Ok(payload) => if f.payload.len() + payload.len() > MAX_REASSEMBLED_BYTES {
                Err((too_large(), true))
            } else {
                Ok(FragmentsView { seqnum: due, payload: f.payload + payload, ..f })
            },
        }
    }
}

/// Reads the bytes that a reply carries.
fn read_payload(reply: JadeReply, min_firmware: &str) -> (r: Result<Vec<u8>, JadeError>)
    ensures
        viewed(r) == payload_in(reply@, min_firmware@),
{
    match reply.into_result(min_firmware) {
        Ok(value) => result_bytes(&value),
        Err(e) => Err(e),
    }
}

impl Fragments {
    /// Takes the reply to the request itself for the first fragment. An error
    /// comes with whether the device is left waiting.
    pub fn open(reply: JadeReply, min_firmware: &str) -> (r: Result<Fragments, (JadeError, bool)>)
        ensures
            opened(reply@, min_firmware@) == (match r {
                Ok(f) => Ok(f@),
                Err((e, waiting)) => Err((e@, waiting)),
            }),
    {
        let seqnum: u32 = match reply.seqnum {
            Some(n) => n,
            None => 1,
        };
        let seqlen: u32 = match reply.seqlen {
            Some(n) => n,
            None => 1,
        };
        match read_payload(reply, min_firmware) {
            Err(e) => Err((e, seqlen > 1)),
            Ok(payload) => {
                if seqnum != 1 || seqlen == 0 || seqlen > MAX_REPLY_FRAGMENTS {
                    return Err((sequence_error(seqnum, seqlen), true));
                }
                if payload.len() > MAX_REASSEMBLED_BYTES {
                    return Err((reply_too_large(), true));
                }
                Ok(Fragments { seqnum, seqlen, payload })
            },
        }
    }

    /// Takes the reply to a follow-up for the fragment that is due. An error
    /// comes with whether it is for the size.
    pub fn accept(self, reply: JadeReply, min_firmware: &str) -> (r: Result<
        Fragments,
        (JadeError, bool),
    >)
        requires
            self@.wf(),
            self@.seqnum < self@.seqlen,
        ensures
            continued(self@, reply@, min_firmware@) == (match r {
                Ok(f) => Ok(f@),
                Err((e, oversized)) => Err((e@, oversized)),
            }),
    {
        let due: u32 = self.seqnum + 1;
        if reply.seqnum != Some(due) {
            return Err((fragment_error(due, reply.seqnum), false));
        }
        if reply.seqlen != Some(self.seqlen) {
            return Err((count_error(self.seqlen, reply.seqlen), false));
        }
        match read_payload(reply, min_firmware) {
            Err(e) => Err((e, false)),
            Ok(fragment) => {
                if fragment.len() > MAX_REASSEMBLED_BYTES - self.payload.len() {
                    return Err((reply_too_large(), true));
                }
                let mut fragment = fragment;
                let mut payload = self.payload;
                payload.append(&mut fragment);
                Ok(Fragments { seqnum: due, seqlen: self.seqlen, payload })
            },
        }
    }

    /// Tells whether the last fragment has arrived.
    pub fn complete(&self) -> (r: bool)
        ensures
            r == (self@.seqnum >= self@.seqlen),
    {
        self.seqnum >= self.seqlen
    }

    /// The bytes of all fragments.
    pub fn into_payload(self) -> (r: Vec<u8>)
        ensures
            r@ == self@.payload,
    {
        self.payload
    }
}

// ----------------------------------------------------------------------------
// The operation
// ----------------------------------------------------------------------------
/// One operation whose reply may come in fragments.
#[derive(Debug)]
pub struct Transfer {
    origin: String,
    method: String,
    deadline: u128,
    /// What has arrived, while a follow-up is in flight.
    fragments: Option<Fragments>,
    exchange: Exchange,
}

/// The mathematical value of a [`Transfer`].
pub struct TransferView {
    /// The id of the request itself.
    pub origin: Seq<char>,
    /// The method of the request itself.
    pub method: Seq<char>,
    /// When the whole operation is given up.
    pub deadline: u128,
    /// What has arrived, while a follow-up is in flight.
    pub fragments: Option<FragmentsView>,
    /// The request or follow-up in flight.
    pub exchange: ExchangeView,
}

impl View for Transfer {
    type V = TransferView;

    closed spec fn view(&self) -> TransferView {
        TransferView {
            origin: self.origin@,
            method: self.method@,
            deadline: self.deadline,
            fragments: match self.fragments {
                Some(f) => Some(f@),
                None => None,
            },
            exchange: self.exchange@,
        }
    }
}

impl Transfer {
    /// The id of the request itself.
    pub fn id(&self) -> (r: String)
        ensures
            r@ == self@.origin,
    {
        self.origin.clone()
    }

    /// The id of the request or follow-up in flight.
    pub fn flight_id(&self) -> (r: String)
        ensures
            r@ == self@.exchange.id,
    {
        self.exchange.id()
    }

    /// How many fragments the reply has, once it is known to have several.
    pub fn fragment_count(&self) -> (r: Option<u32>)
        ensures
            r == (match self@.fragments {
                Some(f) => Some(f.seqlen),
                None => None,
            }),
    {
        match &self.fragments {
            Some(fragments) => Some(fragments.seqlen),
            None => None,
        }
    }
}

impl TransferView {
    /// A follow-up is in flight only for fragments of which some are missing.
    pub open spec fn wf(&self) -> bool {
        self.fragments matches Some(f) ==> f.wf() && f.seqnum < f.seqlen
    }
}

/// What to do next for an operation.
#[derive(Debug, PartialEq)]
pub enum Step {
    /// Write these bytes, within this time.
    Write { request: Vec<u8>, within: u128 },
    /// Read, for at most this long.
    Read(u128),
    /// Pause for this long.
    Sleep(u128),
    /// The operation is over.
    Done(Result<Vec<u8>, JadeError>),
}

/// The mathematical value of a [`Step`].
pub enum StepView {
    Write { request: Seq<u8>, within: u128 },
    Read(u128),
    Sleep(u128),
    Done(Result<Seq<u8>, ErrorView>),
}

impl View for Step {
    type V = StepView;

    open spec fn view(&self) -> StepView {
        match *self {
            Step::Write { request, within } => StepView::Write { request: request@, within },
            Step::Read(within) => StepView::Read(within),
            Step::Sleep(lasting) => StepView::Sleep(lasting),
            Step::Done(outcome) => StepView::Done(viewed(outcome)),
        }
    }
}

/// What a connection, an operation and what to do next are after a step.
pub struct Moved {
    pub connection: ConnectionView,
    pub transfer: TransferView,
    pub step: StepView,
}

/// The parameters of a follow-up: which request it belongs to, and which
/// fragment of how many it asks for.
pub open spec fn follow_up_tree(
    origin: Seq<char>,
    method: Seq<char>,
    seqnum: u32,
    seqlen: u32,
) -> CborTree {
    CborTree::Pairs(
        seq![
            (CborTree::Text("origid"@), CborTree::Text(origin)),
            (CborTree::Text("orig"@), CborTree::Text(method)),
            (CborTree::Text("seqnum"@), CborTree::Integer(seqnum as int)),
            (CborTree::Text("seqlen"@), CborTree::Integer(seqlen as int)),
        ],
    )
}

/// The connection after an operation was started at `now`, and the operation
/// with the bytes of its request, or why there is none.
///
/// An operation without any time is refused before anything is written.
pub open spec fn transfer_begun(
    c: ConnectionView,
    method: Seq<char>,
    params: Option<CborTree>,
    timeout: u128,
    now: u128,
    cancelled: bool,
) -> (ConnectionView, Result<(TransferView, Seq<u8>), ErrorView>) {
    match begun(c, method, params, timeout, now, cancelled) {
        (after, Err(e)) => (after, Err(e)),
        (after, Ok((exchange, request))) => if timeout == 0 {
            (after, Err(ErrorView::Timeout))
        } else {
            (
                after,
                Ok(
                    (
                        TransferView {
                            origin: exchange.id,
                            method,
                            deadline: exchange.deadline,
                            fragments: None,
                            exchange,
                        },
                        request,
                    ),
                ),
            )
        },
    }
}

/// A step that ends an operation.
pub open spec fn ended(
    c: ConnectionView,
    t: TransferView,
    outcome: Result<Seq<u8>, ErrorView>,
) -> Moved {
    Moved {
        connection: c,
        transfer: TransferView { fragments: None, ..t },
        step: StepView::Done(outcome),
    }
}

/// What follows once these fragments have arrived: the operation is over, or
/// the next fragment is asked for within the time that is left.
pub open spec fn proceeded(
    c: ConnectionView,
    t: TransferView,
    f: FragmentsView,
    now: u128,
    cancelled: bool,
) -> Moved {
    if f.seqnum >= f.seqlen {
        ended(c, t, Ok(f.payload))
    } else if now >= t.deadline {
        ended(given_up(c), t, Err(abort_error(ErrorView::Timeout, cancelled)))
    } else {
        let within = (t.deadline - now) as u128;
        let params = follow_up_tree(t.origin, t.method, (f.seqnum + 1) as u32, f.seqlen);
        match begun(c, "get_extended_data"@, Some(params), within, now, cancelled) {
            (after, Err(e)) => ended(distrusted(after), t, Err(e)),
            (after, Ok((exchange, request))) => Moved {
                connection: after,
                transfer: TransferView { fragments: Some(f), exchange, ..t },
                step: StepView::Write { request, within },
            },
        }
    }
}

/// What a settled request or follow-up means for the operation.
pub open spec fn settled(
    c: ConnectionView,
    t: TransferView,
    outcome: Result<ReplyView, ErrorView>,
    now: u128,
    cancelled: bool,
) -> Moved {
    match (t.fragments, outcome) {
        (None, Err(e)) => ended(c, t, Err(e)),
        (Some(_), Err(e)) => ended(distrusted(c), t, Err(e)),
        (None, Ok(reply)) => match opened(reply, c.min_firmware) {
            Ok(f) => proceeded(c, t, f, now, cancelled),
            Err((e, waiting)) => ended(
                if waiting {
                    given_up(c)
                } else {
                    c
                },
                t,
                Err(e),
            ),
        },
        (Some(f), Ok(reply)) => match continued(f, reply, c.min_firmware) {
            Ok(f) => proceeded(c, t, f, now, cancelled),
            Err((e, oversized)) => ended(
                if oversized {
                    given_up(c)
                } else {
                    distrusted(c)
                },
                t,
                Err(e),
            ),
        },
    }
}

/// What an event at `now` means for an operation.
pub open spec fn moved(
    c: ConnectionView,
    t: TransferView,
    event: EventView,
    now: u128,
    cancelled: bool,
) -> Moved {
    let stepped = advanced(c, t.exchange, event, now, cancelled);
    let t = TransferView { exchange: stepped.exchange, ..t };
    match stepped.progress {
        ProgressView::Read(within) => Moved {
            connection: stepped.connection,
            transfer: t,
            step: StepView::Read(within),
        },
        ProgressView::Sleep(lasting) => Moved {
            connection: stepped.connection,
            transfer: t,
            step: StepView::Sleep(lasting),
        },
        ProgressView::Done(outcome) => settled(stepped.connection, t, outcome, now, cancelled),
    }
}

/// Builds the parameters of a follow-up.
pub fn follow_up_params(origin: &str, method: &str, seqnum: u32, seqlen: u32) -> (r: CborValue)
    ensures
        r@ == follow_up_tree(origin@, method@, seqnum, seqlen),
{
    broadcast use lemma_pairs_tree;

    let mut entries: Vec<(CborValue, CborValue)> = Vec::new();
    entries.push((text_value("origid"), text_value(origin)));
    entries.push((text_value("orig"), text_value(method)));
    entries.push((text_value("seqnum"), CborValue::Integer(seqnum as i128)));
    entries.push((text_value("seqlen"), CborValue::Integer(seqlen as i128)));
    proof {
        assert(entry_trees(entries@) =~= follow_up_tree(
            origin@,
            method@,
            seqnum,
            seqlen,
        )->Pairs_0);
    }
    CborValue::Pairs(entries)
}

impl JadeConnection {
    /// Starts an operation whose reply may come in fragments: the bytes have to
    /// be written within `timeout`.
    pub fn begin_reassembled(
        &mut self,
        method: &str,
        params: Option<CborValue>,
        timeout: u128,
        now: u128,
        cancel: &CancelHandle,
    ) -> (r: Result<(Transfer, Vec<u8>), JadeError>)
        requires
            now + timeout <= u128::MAX,
        ensures
            (final(self)@, viewed(r)) == transfer_begun(
                old(self)@,
                method@,
                params_tree(params),
                timeout,
                now,
                cancel.on(),
            ),
            r matches Ok((transfer, _)) ==> transfer@.wf(),
    {
        match self.begin(method, params, timeout, now, cancel) {
            Err(e) => Err(e),
            Ok((exchange, request)) => {
                if timeout == 0 {
                    return Err(JadeError::Timeout);
                }
                let transfer = Transfer {
                    origin: exchange.id(),
                    method: method.to_owned(),
                    deadline: exchange.deadline(),
                    fragments: None,
                    exchange,
                };
                Ok((transfer, request))
            },
        }
    }

    /// Goes on once these fragments have arrived.
    fn proceed(
        &mut self,
        transfer: &mut Transfer,
        fragments: Fragments,
        now: u128,
        cancel: &CancelHandle,
    ) -> (r: Step)
        requires
            fragments@.wf(),
            old(transfer)@.fragments is None,
        ensures
            (Moved { connection: final(self)@, transfer: final(transfer)@, step: r@ })
                == proceeded(old(self)@, old(transfer)@, fragments@, now, cancel.on()),
            final(transfer)@.wf(),
    {
        if fragments.complete() {
            return Step::Done(Ok(fragments.into_payload()));
        }
        let within: u128 = match remaining_until(transfer.deadline, now) {
            Err(e) => {
                self.poison();
                return Step::Done(Err(abort_or(e, cancel)));
            },
            Ok(within) => within,
        };
        let params = follow_up_params(
            transfer.origin.as_str(),
            transfer.method.as_str(),
            fragments.seqnum + 1,
            fragments.seqlen,
        );
        match self.begin("get_extended_data", Some(params), within, now, cancel) {
            Err(e) => {
                // The device is left waiting for a follow-up that never comes.
                self.distrust();
                Step::Done(Err(e))
            },
            Ok((exchange, request)) => {
                transfer.exchange = exchange;
                transfer.fragments = Some(fragments);
                Step::Write { request, within }
            },
        }
    }

    /// Takes in what became of the request or follow-up in flight.
    fn settle(
        &mut self,
        transfer: &mut Transfer,
        outcome: Result<JadeReply, JadeError>,
        now: u128,
        cancel: &CancelHandle,
    ) -> (r: Step)
        requires
            old(transfer)@.wf(),
        ensures
            (Moved { connection: final(self)@, transfer: final(transfer)@, step: r@ }) == settled(
                old(self)@,
                old(transfer)@,
                viewed(outcome),
                now,
                cancel.on(),
            ),
            final(transfer)@.wf(),
    {
        match transfer.fragments.take() {
            None => match outcome {
                Err(e) => Step::Done(Err(e)),
                Ok(reply) => match Fragments::open(reply, self.min_firmware()) {
                    Ok(fragments) => self.proceed(transfer, fragments, now, cancel),
                    Err((e, waiting)) => {
                        if waiting {
                            self.poison();
                        }
                        Step::Done(Err(e))
                    },
                },
            },
            Some(fragments) => match outcome {
                Err(e) => {
                    self.distrust();
                    Step::Done(Err(e))
                },
                Ok(reply) => match fragments.accept(reply, self.min_firmware()) {
                    Ok(fragments) => self.proceed(transfer, fragments, now, cancel),
                    Err((e, oversized)) => {
                        if oversized {
                            self.poison();
                        } else {
                            self.distrust();
                        }
                        Step::Done(Err(e))
                    },
                },
            },
        }
    }

    /// Takes in what the link did for an operation whose reply may come in
    /// fragments.
    pub fn advance_reassembled(
        &mut self,
        transfer: &mut Transfer,
        event: Event,
        now: u128,
        cancel: &CancelHandle,
    ) -> (r: Step)
        requires
            old(transfer)@.wf(),
        ensures
            (Moved { connection: final(self)@, transfer: final(transfer)@, step: r@ }) == moved(
                old(self)@,
                old(transfer)@,
                event@,
                now,
                cancel.on(),
            ),
            final(transfer)@.wf(),
    {
        match self.advance(&mut transfer.exchange, event, now, cancel) {
            Progress::Read(within) => Step::Read(within),
            Progress::Sleep(lasting) => Step::Sleep(lasting),
            Progress::Done(outcome) => self.settle(transfer, outcome, now, cancel),
        }
    }
}

// ----------------------------------------------------------------------------
// Laws
// ----------------------------------------------------------------------------
/// Neither the first fragment nor any other takes the reply over the limits.
pub proof fn lemma_fragments_stay_within_limits(
    f: FragmentsView,
    reply: ReplyView,
    min_firmware: Seq<char>,
)
    ensures
        opened(reply, min_firmware) matches Ok(g) ==> g.wf() && g.seqnum == 1,
        f.wf() && f.seqnum < f.seqlen ==> (continued(f, reply, min_firmware) matches Ok(g)
            ==> g.wf() && g.seqnum == f.seqnum + 1 && g.seqlen == f.seqlen),
{
}

/// What several replies to follow-ups, one after the other, make of the
/// fragments so far.
pub open spec fn continued_by(
    f: FragmentsView,
    replies: Seq<ReplyView>,
    min_firmware: Seq<char>,
) -> Result<FragmentsView, ErrorView>
    decreases replies.len(),
{
    if replies.len() == 0 {
        Ok(f)
    } else {
        match continued(f, replies[0], min_firmware) {
            Ok(g) => continued_by(g, replies.skip(1), min_firmware),
            Err((e, _)) => Err(e),
        }
    }
}

/// Whether replies carry these pieces as the fragments after the one with
/// number `last`, out of `seqlen`.
pub open spec fn carry_next(
    last: u32,
    seqlen: u32,
    replies: Seq<ReplyView>,
    pieces: Seq<Seq<u8>>,
    min_firmware: Seq<char>,
) -> bool {
    &&& replies.len() == pieces.len()
    &&& forall|i: int|
        #![trigger replies[i]]
        0 <= i < replies.len() ==> replies[i].seqnum == Some((last + 1 + i) as u32)
            && replies[i].seqlen == Some(seqlen) && payload_in(replies[i], min_firmware) == Ok::<
            Seq<u8>,
            ErrorView,
        >(pieces[i])
}

/// The pieces behind the first are carried by the replies behind the first.
proof fn lemma_carry_next_skips(
    last: u32,
    seqlen: u32,
    replies: Seq<ReplyView>,
    pieces: Seq<Seq<u8>>,
    min_firmware: Seq<char>,
)
    requires
        replies.len() > 0,
        last + replies.len() <= u32::MAX,
        carry_next(last, seqlen, replies, pieces, min_firmware),
    ensures
        carry_next((last + 1) as u32, seqlen, replies.skip(1), pieces.skip(1), min_firmware),
        pieces.flatten() == pieces[0] + pieces.skip(1).flatten(),
{
    let others = replies.skip(1);
    assert forall|i: int|
        #![trigger others[i]]
        0 <= i < others.len() implies others[i].seqnum == Some((last + 1 + 1 + i) as u32)
        && others[i].seqlen == Some(seqlen) && payload_in(others[i], min_firmware) == Ok::<
        Seq<u8>,
        ErrorView,
    >(pieces.skip(1)[i]) by {
        assert(others[i] == replies[i + 1]);
    }
    assert(pieces.drop_first() =~= pieces.skip(1));
}

/// Fragments that come one after the other are put together in their order,
/// with nothing lost and nothing between them.
pub proof fn lemma_fragments_are_put_together_in_order(
    f: FragmentsView,
    replies: Seq<ReplyView>,
    pieces: Seq<Seq<u8>>,
    min_firmware: Seq<char>,
)
    requires
        f.wf(),
        f.seqnum + replies.len() <= f.seqlen,
        carry_next(f.seqnum, f.seqlen, replies, pieces, min_firmware),
        f.payload.len() + pieces.flatten().len() <= MAX_REASSEMBLED_BYTES,
    ensures
        continued_by(f, replies, min_firmware) == Ok::<FragmentsView, ErrorView>(
            FragmentsView {
                seqnum: (f.seqnum + replies.len()) as u32,
                seqlen: f.seqlen,
                payload: f.payload + pieces.flatten(),
            },
        ),
    decreases replies.len(),
{
    if replies.len() == 0 {
        assert(f.payload + pieces.flatten() =~= f.payload);
    } else {
        lemma_carry_next_skips(f.seqnum, f.seqlen, replies, pieces, min_firmware);
        let first = replies[0];
        let g = FragmentsView {
            seqnum: (f.seqnum + 1) as u32,
            seqlen: f.seqlen,
            payload: f.payload + pieces[0],
        };
        assert(continued(f, first, min_firmware) == Ok::<
            FragmentsView,
            (ErrorView, bool),
        >(g));
        lemma_fragments_are_put_together_in_order(
            g,
            replies.skip(1),
            pieces.skip(1),
            min_firmware,
        );
        assert(g.payload + pieces.skip(1).flatten() =~= f.payload + pieces.flatten());
    }
}

/// What an operation comes to when these replies answer its request and its
/// follow-ups, one after the other, at these times.
pub open spec fn answered(
    c: ConnectionView,
    t: TransferView,
    replies: Seq<ReplyView>,
    times: Seq<u128>,
) -> Moved
    decreases replies.len(),
{
    let after = settled(c, t, Ok(replies[0]), times[0], false);
    if replies.len() > 1 && after.step is Write {
        answered(after.connection, after.transfer, replies.skip(1), times.skip(1))
    } else {
        after
    }
}

/// An operation whose fragments all arrive in time delivers them as one: the
/// pieces in their order. The connection stays usable.
pub proof fn lemma_operation_delivers_all_fragments(
    c: ConnectionView,
    t: TransferView,
    replies: Seq<ReplyView>,
    pieces: Seq<Seq<u8>>,
    times: Seq<u128>,
)
    requires
        !c.poisoned,
        t.fragments is None,
        0 < replies.len() <= MAX_REPLY_FRAGMENTS,
        replies.len() == times.len(),
        carry_next(0, replies.len() as u32, replies, pieces, c.min_firmware),
        pieces.flatten().len() <= MAX_REASSEMBLED_BYTES,
        forall|i: int| 0 <= i < times.len() ==> #[trigger] times[i] < t.deadline,
    ensures
        answered(c, t, replies, times).step == StepView::Done(Ok(pieces.flatten())),
        !answered(c, t, replies, times).connection.poisoned,
{
    let n = replies.len() as u32;
    let first = replies[0];
    lemma_carry_next_skips(0, n, replies, pieces, c.min_firmware);
    let f = FragmentsView { seqnum: 1, seqlen: n, payload: pieces[0] };
    assert(opened(first, c.min_firmware) == Ok::<FragmentsView, (ErrorView, bool)>(f));
    lemma_rest_is_delivered(c, t, f, replies, pieces, times);
}

/// The same for the fragments that are missing once some have arrived.
proof fn lemma_rest_is_delivered(
    c: ConnectionView,
    t: TransferView,
    f: FragmentsView,
    replies: Seq<ReplyView>,
    pieces: Seq<Seq<u8>>,
    times: Seq<u128>,
)
    requires
        !c.poisoned,
        replies.len() > 0,
        replies.len() == times.len(),
        f.wf(),
        f.seqnum + replies.len() - 1 == f.seqlen,
        settled(c, t, Ok(replies[0]), times[0], false) == proceeded(c, t, f, times[0], false),
        carry_next(
            f.seqnum,
            f.seqlen,
            replies.skip(1),
            pieces.skip(1),
            c.min_firmware,
        ),
        replies.len() == pieces.len(),
        f.payload.len() + pieces.skip(1).flatten().len() <= MAX_REASSEMBLED_BYTES,
        forall|i: int| 0 <= i < times.len() ==> #[trigger] times[i] < t.deadline,
    ensures
        answered(c, t, replies, times).step == StepView::Done(
            Ok(f.payload + pieces.skip(1).flatten()),
        ),
        !answered(c, t, replies, times).connection.poisoned,
    decreases replies.len(),
{
    let others = replies.skip(1);
    let left = pieces.skip(1);
    if replies.len() == 1 {
        assert(f.payload + left.flatten() =~= f.payload);
    } else {
        let now = times[0];
        lemma_follow_ups_are_plain(
            decimal(c.upcoming as nat),
            t.origin,
            t.method,
            (f.seqnum + 1) as u32,
            f.seqlen,
        );
        let after = settled(c, t, Ok(replies[0]), now, false);
        assert(after.step is Write);
        lemma_carry_next_skips(f.seqnum, f.seqlen, others, left, c.min_firmware);
        let next = others[0];
        let g = FragmentsView {
            seqnum: (f.seqnum + 1) as u32,
            seqlen: f.seqlen,
            payload: f.payload + left[0],
        };
        assert(continued(f, next, c.min_firmware) == Ok::<
            FragmentsView,
            (ErrorView, bool),
        >(g));
        assert forall|i: int| 0 <= i < times.skip(1).len() implies #[trigger] times.skip(1)[i]
            < after.transfer.deadline by {
            assert(times.skip(1)[i] == times[i + 1]);
        }
        lemma_rest_is_delivered(after.connection, after.transfer, g, others, left, times.skip(1));
        assert(g.payload + left.skip(1).flatten() =~= f.payload + left.flatten());
    }
}

/// A reply that is not split needs no follow-up: its bytes are the outcome.
pub proof fn lemma_single_fragment_needs_no_follow_up(
    c: ConnectionView,
    t: TransferView,
    reply: ReplyView,
    payload: Seq<u8>,
    now: u128,
    cancelled: bool,
)
    requires
        t.fragments is None,
        or_one(reply.seqnum) == 1,
        or_one(reply.seqlen) == 1,
        payload_in(reply, c.min_firmware) == Ok::<Seq<u8>, ErrorView>(payload),
        payload.len() <= MAX_REASSEMBLED_BYTES,
    ensures
        settled(c, t, Ok(reply), now, cancelled) == ended(c, t, Ok(payload)),
{
}

/// A failure part way through gives the connection up: the device stays
/// blocked, waiting for a follow-up.
pub proof fn lemma_failures_part_way_give_up(
    c: ConnectionView,
    t: TransferView,
    event: EventView,
    now: u128,
    cancelled: bool,
)
    requires
        t.fragments is Some,
    ensures
        moved(c, t, event, now, cancelled).step matches StepView::Done(Err(_)) ==> moved(
            c,
            t,
            event,
            now,
            cancelled,
        ).connection.poisoned,
{
}

/// The same holds from the first reply on, as soon as it announces that there
/// are more.
pub proof fn lemma_failures_after_an_announcement_give_up(
    c: ConnectionView,
    t: TransferView,
    reply: ReplyView,
    now: u128,
    cancelled: bool,
)
    requires
        or_one(reply.seqlen) > 1,
    ensures
        settled(c, t, Ok(reply), now, cancelled).step matches StepView::Done(Err(_)) ==> settled(
            c,
            t,
            Ok(reply),
            now,
            cancelled,
        ).connection.poisoned,
{
}

/// An operation that is cancelled between fragments fails as cancelled, whether
/// or not its time is up, and leaves the connection unusable.
pub proof fn lemma_cancelling_between_fragments(
    c: ConnectionView,
    t: TransferView,
    f: FragmentsView,
    now: u128,
)
    requires
        !c.poisoned,
        f.seqnum < f.seqlen,
    ensures
        proceeded(c, t, f, now, true).step == StepView::Done(Err(ErrorView::UserCancelled)),
        proceeded(c, t, f, now, true).connection.poisoned,
{
}

/// All fragments share the deadline of the operation: every write and every
/// read ends before it, and no step moves it.
pub proof fn lemma_fragments_share_one_deadline(
    c: ConnectionView,
    t: TransferView,
    event: EventView,
    now: u128,
    cancelled: bool,
)
    requires
        t.exchange.deadline == t.deadline,
    ensures
        ({
            let after = moved(c, t, event, now, cancelled);
            &&& after.transfer.deadline == t.deadline
            &&& after.transfer.exchange.deadline == t.deadline
            &&& after.step matches StepView::Write { within, .. } ==> 0 < within && now + within
                == t.deadline
            &&& after.step matches StepView::Read(within) ==> 0 < within && now + within
                <= t.deadline
        }),
{
}

/// An operation starts with the deadline of its request.
pub proof fn lemma_operations_start_with_one_deadline(
    c: ConnectionView,
    method: Seq<char>,
    params: Option<CborTree>,
    timeout: u128,
    now: u128,
    cancelled: bool,
)
    requires
        now + timeout <= u128::MAX,
    ensures
        transfer_begun(c, method, params, timeout, now, cancelled).1 matches Ok((t, _)) ==> t.wf()
            && t.deadline == now + timeout && t.exchange.deadline == t.deadline && now < t.deadline,
{
}

/// Every follow-up can be encoded.
proof fn lemma_follow_ups_are_plain(
    id: Seq<char>,
    origin: Seq<char>,
    method: Seq<char>,
    seqnum: u32,
    seqlen: u32,
)
    ensures
        plain(
            request_tree(
                id,
                "get_extended_data"@,
                Some(follow_up_tree(origin, method, seqnum, seqlen)),
            ),
        ),
{
    let params = follow_up_tree(origin, method, seqnum, seqlen);
    assert(plain(params)) by {
        assert forall|i: int|
            #![trigger params->Pairs_0[i]]
            0 <= i < params->Pairs_0.len() implies plain(params->Pairs_0[i].0) && plain(
            params->Pairs_0[i].1,
        ) by {}
    }
    let whole = request_tree(id, "get_extended_data"@, Some(params));
    assert forall|i: int|
        #![trigger whole->Pairs_0[i]]
        0 <= i < whole->Pairs_0.len() implies plain(whole->Pairs_0[i].0) && plain(
        whole->Pairs_0[i].1,
    ) by {}
}

/// While fragments are missing and there is time, the next one is asked for:
/// its number is one more than the last, the number of fragments is echoed
/// unchanged, the original request is named, and the follow-up has an id of
/// its own, different from that of the original request.
pub proof fn lemma_follow_ups_ask_for_the_next_fragment(
    c: ConnectionView,
    t: TransferView,
    f: FragmentsView,
    first: u32,
    requests: nat,
    now: u128,
)
    requires
        !c.poisoned,
        f.wf(),
        f.seqnum < f.seqlen,
        now < t.deadline,
        first >= 1,
        0 < requests < u32::MAX,
        t.origin == decimal(first as nat),
        c.upcoming == id_later(first, requests),
    ensures
        ({
            let after = proceeded(c, t, f, now, false);
            let id = decimal(c.upcoming as nat);
            &&& after.step == (StepView::Write {
                request: cbor_bytes(
                    request_tree(
                        id,
                        "get_extended_data"@,
                        Some(
                            follow_up_tree(t.origin, t.method, (f.seqnum + 1) as u32, f.seqlen),
                        ),
                    ),
                ),
                within: (t.deadline - now) as u128,
            })
            &&& after.transfer.exchange.id == id
            &&& id != t.origin
            &&& after.transfer.fragments == Some(f)
            &&& after.connection.upcoming == id_later(first, requests + 1)
        }),
{
    lemma_ids_are_fresh(first, requests);
    lemma_follow_ups_are_plain(
        decimal(c.upcoming as nat),
        t.origin,
        t.method,
        (f.seqnum + 1) as u32,
        f.seqlen,
    );
}

/// Whether a reply carries these bytes: its result is the byte string of them,
/// and it reports no error.
pub open spec fn carries(reply: ReplyView, bytes: Seq<u8>) -> bool {
    reply.error is None && reply.result == Some(CborTree::Bytes(bytes))
}

/// The payload of a reply is the byte string that it carries, whole and
/// unchanged. A reply with an error has that for a payload, and any other none.
pub proof fn lemma_payloads_are_the_byte_strings(
    reply: ReplyView,
    bytes: Seq<u8>,
    min_firmware: Seq<char>,
)
    ensures
        payload_in(reply, min_firmware) == Ok::<Seq<u8>, ErrorView>(bytes) <==> carries(
            reply,
            bytes,
        ),
        reply.error matches Some(e) ==> payload_in(reply, min_firmware) == Err::<
            Seq<u8>,
            ErrorView,
        >(rpc_error(e.code, e.message, min_firmware)),
        reply.error is None ==> (payload_in(reply, min_firmware) matches Err(e)
            ==> e is ProtocolError),
{
}

/// Whether an item is the message with number `seqnum` of `seqlen`, reports no
/// error, and has the byte string of these bytes for a result.
pub open spec fn delivers(item: CborTree, seqnum: int, seqlen: int, bytes: Seq<u8>) -> bool {
    item matches CborTree::Pairs(entries) && {
        &&& forall|i: int| 0 <= i < entries.len() ==> (#[trigger] entries[i]).0 is Text
        &&& gives_none(entries, "id"@) || exists|id: Seq<char>| #[trigger]
            holds(entries, "id"@, CborTree::Text(id))
        &&& holds(entries, "result"@, CborTree::Bytes(bytes))
        &&& gives_none(entries, "error"@)
        &&& holds(entries, "seqnum"@, CborTree::Integer(seqnum))
        &&& holds(entries, "seqlen"@, CborTree::Integer(seqlen))
    }
}

proof fn lemma_delivering_items_are_replies(
    item: CborTree,
    seqnum: u32,
    seqlen: u32,
    bytes: Seq<u8>,
)
    requires
        delivers(item, seqnum as int, seqlen as int, bytes),
    ensures
        reply_of(item) matches Ok(reply) && carries(reply, bytes) && reply.seqnum == Some(seqnum)
            && reply.seqlen == Some(seqlen),
{
    let entries = item->Pairs_0;
    let id = if gives_none(entries, "id"@) {
        None
    } else {
        Some(choose|id: Seq<char>| #[trigger] holds(entries, "id"@, CborTree::Text(id)))
    };
    let reply = ReplyView {
        id,
        result: Some(CborTree::Bytes(bytes)),
        error: None,
        seqnum: Some(seqnum),
        seqlen: Some(seqlen),
    };
    assert(says(entries, reply));
    lemma_replies_say_what_was_sent(item, reply);
}

/// The outcome of an operation is the concatenation of the byte strings in the
/// results of its replies. The replies are taken as the items that arrived:
/// maps that number the fragments from one and hold the pieces, one after the
/// other. The connection stays usable.
pub proof fn lemma_the_outcome_is_the_byte_strings_of_the_items(
    c: ConnectionView,
    t: TransferView,
    items: Seq<CborTree>,
    pieces: Seq<Seq<u8>>,
    times: Seq<u128>,
)
    requires
        !c.poisoned,
        t.fragments is None,
        0 < items.len() <= 64,
        items.len() == pieces.len(),
        items.len() == times.len(),
        forall|i: int|
            0 <= i < items.len() ==> delivers(
                #[trigger] items[i],
                i + 1,
                items.len() as int,
                pieces[i],
            ),
        pieces.flatten().len() <= 1_048_576,
        forall|i: int| 0 <= i < times.len() ==> #[trigger] times[i] < t.deadline,
    ensures
        ({
            let replies = Seq::new(items.len(), |i: int| reply_of(items[i])->Ok_0);
            &&& forall|i: int| 0 <= i < items.len() ==> reply_of(#[trigger] items[i]) is Ok
            &&& answered(c, t, replies, times).step == StepView::Done(Ok(pieces.flatten()))
            &&& !answered(c, t, replies, times).connection.poisoned
        }),
{
    let n = items.len() as u32;
    let replies = Seq::new(items.len(), |i: int| reply_of(items[i])->Ok_0);
    assert forall|i: int|
        #![trigger items[i]]
        #![trigger replies[i]]
        0 <= i < items.len() implies reply_of(items[i]) is Ok && replies[i].seqnum == Some(
        (0u32 + 1 + i) as u32,
    ) && replies[i].seqlen == Some(n) && payload_in(replies[i], c.min_firmware) == Ok::<
        Seq<u8>,
        ErrorView,
    >(pieces[i]) by {
        assert(delivers(items[i], i + 1, items.len() as int, pieces[i]));
        lemma_delivering_items_are_replies(items[i], (i + 1) as u32, n, pieces[i]);
        lemma_payloads_are_the_byte_strings(replies[i], pieces[i], c.min_firmware);
    }
    assert(carry_next(0, n, replies, pieces, c.min_firmware));
    lemma_operation_delivers_all_fragments(c, t, replies, pieces, times);
}

/// A reply to the request itself opens a transfer exactly if it carries bytes,
/// no more than a mebibyte, and is the first fragment of at most 64: by its
/// numbers, or because it has none. The transfer then holds just those bytes.
pub proof fn lemma_first_fragments(
    reply: ReplyView,
    min_firmware: Seq<char>,
    f: FragmentsView,
)
    ensures
        opened(reply, min_firmware) == Ok::<FragmentsView, (ErrorView, bool)>(f) <==> {
            &&& carries(reply, f.payload)
            &&& f.payload.len() <= 1_048_576
            &&& reply.seqnum is None || reply.seqnum == Some(1u32)
            &&& f.seqnum == 1
            &&& 1 <= f.seqlen <= 64
            &&& reply.seqlen == Some(f.seqlen) || (reply.seqlen is None && f.seqlen == 1)
        },
        opened(reply, min_firmware) matches Err((e, waiting)) ==> {
            &&& payload_in(reply, min_firmware) matches Err(own) ==> e == own && (waiting <==> (
            reply.seqlen matches Some(n) && n > 1))
            &&& payload_in(reply, min_firmware) matches Ok(payload) ==> {
                let seqnum = match reply.seqnum {
                    Some(n) => n,
                    None => 1,
                };
                let seqlen = match reply.seqlen {
                    Some(n) => n,
                    None => 1,
                };
                &&& waiting
                &&& seqnum != 1 || seqlen == 0 || seqlen > 64 ==> e == invalid_sequence(
                    seqnum,
                    seqlen,
                )
                &&& seqnum == 1 && 0 < seqlen <= 64 ==> e == too_large() && payload.len()
                    > 1_048_576
            }
        },
{
    if payload_in(reply, min_firmware) is Ok {
        lemma_payloads_are_the_byte_strings(
            reply,
            payload_in(reply, min_firmware)->Ok_0,
            min_firmware,
        );
    }
    lemma_payloads_are_the_byte_strings(reply, f.payload, min_firmware);
}

/// A reply to a follow-up goes on with a transfer exactly if it carries bytes,
/// has the number after the last and the number of fragments that was
/// announced, and takes the whole to no more than a mebibyte. Its bytes are
/// then behind those so far. A failure is one of size only if all else is
/// right.
pub proof fn lemma_next_fragments(
    f: FragmentsView,
    reply: ReplyView,
    min_firmware: Seq<char>,
    bytes: Seq<u8>,
)
    requires
        f.wf(),
        f.seqnum < f.seqlen,
    ensures
        continued(f, reply, min_firmware) is Ok <==> exists|piece: Seq<u8>| #[trigger]
            carries(reply, piece) && reply.seqnum == Some((f.seqnum + 1) as u32) && reply.seqlen
                == Some(f.seqlen) && f.payload.len() + piece.len() <= 1_048_576,
        carries(reply, bytes) ==> (continued(f, reply, min_firmware) matches Ok(g) ==> g.seqnum
            == f.seqnum + 1 && g.seqlen == f.seqlen && g.payload == f.payload + bytes),
        continued(f, reply, min_firmware) matches Err((e, oversized)) ==> {
            &&& oversized <==> reply.seqnum == Some((f.seqnum + 1) as u32) && reply.seqlen == Some(
                f.seqlen,
            ) && exists|piece: Seq<u8>| #[trigger]
                carries(reply, piece) && f.payload.len() + piece.len() > 1_048_576
            &&& oversized ==> e == too_large()
            &&& e is ProtocolError || (reply.error matches Some(own) && e == rpc_error(
                own.code,
                own.message,
                min_firmware,
            ))
        },
{
    lemma_payloads_are_the_byte_strings(reply, bytes, min_firmware);
    if let Ok(payload) = payload_in(reply, min_firmware) {
        lemma_payloads_are_the_byte_strings(reply, payload, min_firmware);
        assert(carries(reply, payload));
    }
    assert forall|piece: Seq<u8>| #[trigger] carries(reply, piece) implies payload_in(
        reply,
        min_firmware,
    ) == Ok::<Seq<u8>, ErrorView>(piece) by {
        lemma_payloads_are_the_byte_strings(reply, piece, min_firmware);
    }
}

/// What is wrong with a fragment is told in words: the number that was due and
/// the number that came.
pub proof fn lemma_fragment_errors_name_the_numbers(
    expected: u32,
    sent: u32,
    f: FragmentsView,
    reply: ReplyView,
    min_firmware: Seq<char>,
)
    ensures
        invalid_sequence(sent, expected) == ErrorView::ProtocolError(
            "invalid fragment sequence "@ + decimal(sent as nat) + " of "@ + decimal(
                expected as nat,
            ),
        ),
        wrong_fragment(expected, Some(sent)) == ErrorView::ProtocolError(
            "expected fragment "@ + decimal(expected as nat) + ", device sent "@ + ("Some("@
                + decimal(sent as nat) + ")"@),
        ),
        wrong_fragment(expected, None) == ErrorView::ProtocolError(
            "expected fragment "@ + decimal(expected as nat) + ", device sent "@ + "None"@,
        ),
        wrong_count(expected, Some(sent)) == ErrorView::ProtocolError(
            "expected "@ + decimal(expected as nat) + " fragments, device reported "@ + ("Some("@
                + decimal(sent as nat) + ")"@),
        ),
        wrong_count(expected, None) == ErrorView::ProtocolError(
            "expected "@ + decimal(expected as nat) + " fragments, device reported "@ + "None"@,
        ),
        too_large() == ErrorView::ProtocolError(
            "extended reply exceeded the "@ + decimal(1_048_576) + " byte limit"@,
        ),
        f.wf() && f.seqnum < f.seqlen && reply.seqnum != Some((f.seqnum + 1) as u32) ==> continued(
            f,
            reply,
            min_firmware,
        ) == Err::<FragmentsView, (ErrorView, bool)>(
            (wrong_fragment((f.seqnum + 1) as u32, reply.seqnum), false),
        ),
        f.wf() && f.seqnum < f.seqlen && reply.seqnum == Some((f.seqnum + 1) as u32)
            && reply.seqlen != Some(f.seqlen) ==> continued(f, reply, min_firmware) == Err::<
            FragmentsView,
            (ErrorView, bool),
        >((wrong_count(f.seqlen, reply.seqlen), false)),
{
}

/// A follow-up names the request that it belongs to and the fragment that it
/// asks for, and holds nothing else.
pub proof fn lemma_follow_ups_say_what_they_ask_for(
    origin: Seq<char>,
    method: Seq<char>,
    seqnum: u32,
    seqlen: u32,
)
    ensures
        follow_up_tree(origin, method, seqnum, seqlen) is Pairs,
        ({
            let entries = follow_up_tree(origin, method, seqnum, seqlen)->Pairs_0;
            &&& entries.len() == 4
            &&& holds(entries, "origid"@, CborTree::Text(origin))
            &&& holds(entries, "orig"@, CborTree::Text(method))
            &&& holds(entries, "seqnum"@, CborTree::Integer(seqnum as int))
            &&& holds(entries, "seqlen"@, CborTree::Integer(seqlen as int))
        }),
{
    let entries = follow_up_tree(origin, method, seqnum, seqlen)->Pairs_0;
    reveal_strlit("origid");
    reveal_strlit("orig");
    reveal_strlit("seqnum");
    reveal_strlit("seqlen");
    assert("origid"@.len() == 6 && "orig"@.len() == 4);
    assert("seqnum"@.len() == 6 && "seqlen"@.len() == 6);
    assert("origid"@[0] == 'o' && "seqnum"@[0] == 's' && "seqlen"@[0] == 's');
    assert("seqnum"@[3] == 'n' && "seqlen"@[3] == 'l');
    assert(named(entries, 0, "origid"@));
    assert(named(entries, 1, "orig"@));
    assert(named(entries, 2, "seqnum"@));
    assert(named(entries, 3, "seqlen"@));
    assert forall|i: int| 0 <= i < entries.len() implies (#[trigger] named(
        entries,
        i,
        "origid"@,
    ) ==> i == 0) && (named(entries, i, "orig"@) ==> i == 1) && (named(entries, i, "seqnum"@) ==> i
        == 2) && (named(entries, i, "seqlen"@) ==> i == 3) by {}
}

/// An operation starts just as its request does, and remembers what it was
/// for. One without any time is refused.
pub proof fn lemma_operations_start_as_requests(
    c: ConnectionView,
    method: Seq<char>,
    params: Option<CborTree>,
    timeout: u128,
    now: u128,
    cancelled: bool,
)
    ensures
        ({
            let (after, started) = transfer_begun(c, method, params, timeout, now, cancelled);
            let (requested, request) = begun(c, method, params, timeout, now, cancelled);
            &&& after == requested
            &&& request matches Err(e) ==> started == Err::<(TransferView, Seq<u8>), ErrorView>(e)
            &&& request is Ok && timeout == 0 ==> started == Err::<
                (TransferView, Seq<u8>),
                ErrorView,
            >(ErrorView::Timeout)
            &&& request matches Ok((x, bytes)) ==> timeout > 0 ==> (started matches Ok((t, sent))
                && sent == bytes && t.exchange == x && t.origin == x.id && t.method == method
                && t.deadline == x.deadline && t.fragments is None)
        }),
{
}

/// Once the last fragment is there the operation is over, with all of its
/// bytes, and the connection is left as it was. If time runs out before, it is
/// over too, and the connection is given up.
pub proof fn lemma_operations_end(
    c: ConnectionView,
    t: TransferView,
    f: FragmentsView,
    now: u128,
    cancelled: bool,
)
    ensures
        ({
            let after = proceeded(c, t, f, now, cancelled);
            &&& f.seqnum >= f.seqlen ==> after.step == StepView::Done(Ok(f.payload))
                && after.connection == c && after.transfer.fragments is None
            &&& f.seqnum < f.seqlen && now >= t.deadline && !cancelled ==> after.step
                == StepView::Done(Err(ErrorView::Timeout)) && after.connection.poisoned
                && after.connection.buffer.len() == 0 && after.transfer.fragments is None
            &&& f.seqnum < f.seqlen && c.poisoned && now < t.deadline ==> after.step
                == StepView::Done(Err(ErrorView::DeviceDisconnected)) && after.connection.poisoned
            &&& after.step matches StepView::Done(Ok(bytes)) ==> f.seqnum >= f.seqlen && bytes
                == f.payload
            &&& after.transfer.origin == t.origin && after.transfer.method == t.method
                && after.transfer.deadline == t.deadline
        }),
{
}

/// A failed request ends its operation with the same failure and leaves the
/// connection as it was. A failed follow-up does too, but leaves a connection
/// that refuses further work. Fragments decide as [`lemma_first_fragments`] and
/// [`lemma_next_fragments`] have it; the connection is unusable after one that
/// is refused, unless it was the only one.
pub proof fn lemma_replies_decide_the_operation(
    c: ConnectionView,
    t: TransferView,
    outcome: Result<ReplyView, ErrorView>,
    now: u128,
    cancelled: bool,
)
    ensures
        ({
            let after = settled(c, t, outcome, now, cancelled);
            &&& outcome matches Err(e) ==> {
                &&& after.step == StepView::Done(Err(e))
                &&& t.fragments is None ==> after.connection == c
                &&& t.fragments is Some ==> after.connection.poisoned && after.connection.buffer
                    == c.buffer && after.connection.upcoming == c.upcoming
            }
            &&& outcome matches Ok(reply) ==> (t.fragments is None ==> {
                &&& opened(reply, c.min_firmware) matches Ok(f) ==> after == proceeded(
                    c,
                    t,
                    f,
                    now,
                    cancelled,
                )
                &&& opened(reply, c.min_firmware) matches Err((e, waiting)) ==> after.step
                    == StepView::Done(Err(e)) && (!waiting ==> after.connection == c) && (waiting
                    ==> after.connection.poisoned && after.connection.buffer.len() == 0)
            })
            &&& outcome matches Ok(reply) ==> (t.fragments matches Some(f) ==> {
                &&& continued(f, reply, c.min_firmware) matches Ok(g) ==> after == proceeded(
                    c,
                    t,
                    g,
                    now,
                    cancelled,
                )
                &&& continued(f, reply, c.min_firmware) matches Err((e, oversized)) ==> after.step
                    == StepView::Done(Err(e)) && after.connection.poisoned && (oversized
                    ==> after.connection.buffer.len() == 0) && (!oversized
                    ==> after.connection.buffer == c.buffer)
            })
        }),
{
}

/// An operation does for its request or follow-up in flight what that needs:
/// it reads and pauses as told, and takes in the outcome once there is one.
pub proof fn lemma_operations_follow_their_request(
    c: ConnectionView,
    t: TransferView,
    event: EventView,
    now: u128,
    cancelled: bool,
)
    ensures
        ({
            let request = advanced(c, t.exchange, event, now, cancelled);
            let after = moved(c, t, event, now, cancelled);
            let flying = TransferView { exchange: request.exchange, ..t };
            &&& request.progress matches ProgressView::Read(within) ==> after.step
                == StepView::Read(within) && after.connection == request.connection
                && after.transfer == flying
            &&& request.progress matches ProgressView::Sleep(lasting) ==> after.step
                == StepView::Sleep(lasting) && after.connection == request.connection
                && after.transfer == flying
            &&& request.progress matches ProgressView::Done(outcome) ==> after == settled(
                request.connection,
                flying,
                outcome,
                now,
                cancelled,
            )
        }),
{
}

/// The value of a step is what it holds.
pub proof fn lemma_steps_show_what_they_hold(bytes: Vec<u8>, error: JadeError, time: u128)
    ensures
        (Step::Write { request: bytes, within: time })@ == (StepView::Write {
            request: bytes@,
            within: time,
        }),
        Step::Read(time)@ == StepView::Read(time),
        Step::Sleep(time)@ == StepView::Sleep(time),
        Step::Done(Ok(bytes))@ == StepView::Done(Ok(bytes@)),
        Step::Done(Err(error))@ == StepView::Done(Err(error@)),
{
}

/// The time that is left until a deadline and the time that has passed add up
/// to it; there is none once it has come.
pub proof fn lemma_time_left_adds_up(deadline: u128, now: u128, r: Result<u128, JadeError>)
    requires
        call_ensures(remaining_until, (deadline, now), r),
    ensures
        r matches Ok(left) ==> left > 0 && now + left == deadline,
        r matches Err(e) ==> now >= deadline && e is Timeout,
{
}

/// The bytes of an operation are handed out once its last fragment is there:
/// all of them, in the order in which they came.
pub proof fn lemma_fragments_hand_out_what_they_hold(
    fragments: Fragments,
    complete: bool,
    payload: Vec<u8>,
)
    requires
        call_ensures(Fragments::complete, (&fragments,), complete),
        call_ensures(Fragments::into_payload, (fragments,), payload),
    ensures
        complete <==> fragments@.seqnum >= fragments@.seqlen,
        payload@ == fragments@.payload,
{
}

} // verus!
