//! Unlocking a device with the help of the pinserver.
//!
//! A device that is locked asks the host to carry a document to the pinserver,
//! and the answer back. What passes is encrypted between the two: the host
//! never learns the PIN. This module decides what is sent where; it never
//! touches the network.

use crate::cbor::{entry_trees, item_trees, lemma_array_tree, lemma_pairs_tree, CborTree, CborValue};
use crate::error::{rpc_error, viewed, ErrorView, JadeError};
use crate::json::{
    cbor_form, cbor_to_json, json_decoded, json_of, json_text, json_to_cbor,
    lemma_json_survives_cbor, names_once, parse_json, print_json, whole, JsonTree, JsonValue,
};
use crate::members::{
    find, gives_none, holds, lemma_holding_is_being_the_member, member, named, read_text,
    text_member, text_view, Member, Slot,
};
use crate::protocol::{params_tree, text_value};
use crate::reassembly::remaining_until;
use crate::reply::{bool_in, result_bool, result_in, JadeReply, ReplyView};
use crate::text::{
    chars_of, lemma_split_first, lemma_split_prefix, lemma_split_single, lemma_the_first_part,
    lemma_the_last_part, same_text, split, split_at_each, views,
};
use crate::transport::{abort_error, abort_or, CancelHandle};
use crate::types::{lemma_networks_have_their_names, network_name, JadeNetwork};
use vstd::prelude::*;

verus! {

// ----------------------------------------------------------------------------
// The body of an answer
// ----------------------------------------------------------------------------
/// How long the answer of the pinserver may be.
pub const MAX_BODY_BYTES: usize = 64 * 1024;

/// Appends a part of the answer to what has arrived, unless that makes it too
/// long. Then nothing is appended.
pub fn append_body_chunk(body: &mut Vec<u8>, chunk: &[u8]) -> (r: Result<(), JadeError>)
    ensures
        old(body)@.len() + chunk@.len() <= MAX_BODY_BYTES ==> r is Ok && final(body)@ == old(
            body,
        )@ + chunk@,
        old(body)@.len() + chunk@.len() > MAX_BODY_BYTES ==> viewed(r) == Err::<(), ErrorView>(
            ErrorView::PinServerError("pinserver answer is too long"@),
        ) && final(body)@ == old(body)@,
{
    if body.len() > MAX_BODY_BYTES || chunk.len() > MAX_BODY_BYTES - body.len() {
        return Err(
            JadeError::PinServerError { error_details: "pinserver answer is too long".to_owned() },
        );
    }
    body.extend_from_slice(chunk);
    Ok(())
}

// ----------------------------------------------------------------------------
// Where the document goes
// ----------------------------------------------------------------------------
/// The host of a URL: what stands behind the scheme, without a path, a query, a
/// fragment, a user and a port.
pub open spec fn host_of(url: Seq<char>) -> Seq<char> {
    let located = split(split(url, '#')[0], '?')[0];
    let parts = split(located, '/');
    let authority = if parts.len() >= 3 && parts[1].len() == 0 {
        parts[2]
    } else {
        parts[0]
    };
    split(split(authority, '@').last(), ':')[0]
}

/// Whether a URL names a Tor hidden service, which an ordinary client cannot
/// reach. The end of the host tells, not the end of the URL.
pub open spec fn is_onion(url: Seq<char>) -> bool {
    ".onion"@.is_suffix_of(host_of(url))
}

/// The first of these URLs that an ordinary client can reach.
pub open spec fn first_reachable(urls: Seq<Seq<char>>) -> Option<Seq<char>>
    decreases urls.len(),
{
    if urls.len() == 0 {
        None
    } else if !is_onion(urls[0]) {
        Some(urls[0])
    } else {
        first_reachable(urls.skip(1))
    }
}

proof fn lemma_split_has_parts(s: Seq<char>, separator: char)
    ensures
        split(s, separator).len() > 0,
    decreases s.len(),
{
    if s.len() > 0 {
        lemma_split_has_parts(s.drop_last(), separator);
    }
}

/// The part of a text ahead of the first separator.
fn first_part(s: &Vec<char>, separator: char) -> (r: Vec<char>)
    ensures
        r@ == split(s@, separator)[0],
{
    let mut parts = split_at_each(s, separator);
    proof {
        lemma_split_has_parts(s@, separator);
        assert(views(parts@)[0] == parts@[0]@);
    }
    parts.swap_remove(0)
}

/// The part of a text behind the last separator.
fn last_part(s: &Vec<char>, separator: char) -> (r: Vec<char>)
    ensures
        r@ == split(s@, separator).last(),
{
    let mut parts = split_at_each(s, separator);
    proof {
        lemma_split_has_parts(s@, separator);
        assert(views(parts@).last() == parts@.last()@);
    }
    let last: usize = parts.len() - 1;
    parts.swap_remove(last)
}

fn find_host(url: &str) -> (r: Vec<char>)
    ensures
        r@ == host_of(url@),
{
    let located = first_part(&first_part(&chars_of(url), '#'), '?');
    let mut parts = split_at_each(&located, '/');
    let ghost texts = split(located@, '/');
    proof {
        lemma_split_has_parts(located@, '/');
        assert(forall|i: int| 0 <= i < parts@.len() ==> texts[i] == #[trigger] parts@[i]@);
    }
    let authority = if parts.len() >= 3 && parts[1].len() == 0 {
        parts.swap_remove(2)
    } else {
        parts.swap_remove(0)
    };
    first_part(&last_part(&authority, '@'), ':')
}

fn ends_with(s: &Vec<char>, end: &str) -> (r: bool)
    ensures
        r == end@.is_suffix_of(s@),
{
    let end_chars = chars_of(end);
    if end_chars.len() > s.len() {
        return false;
    }
    let length: usize = s.len();
    let offset: usize = length - end_chars.len();
    let mut i: usize = 0;
    while i < end_chars.len()
        invariant
            i <= end_chars@.len() <= s@.len(),
            length == s@.len(),
            offset == length - end_chars@.len(),
            end_chars@ == end@,
            forall|k: int| 0 <= k < i ==> s@[offset + k] == end_chars@[k],
        decreases end_chars@.len() - i,
    {
        if s[offset + i] != end_chars[i] {
            assert(end@[i as int] != s@.subrange(offset as int, s@.len() as int)[i as int]);
            return false;
        }
        i += 1;
    }
    proof {
        assert(end@ =~= s@.subrange(offset as int, s@.len() as int));
    }
    true
}

/// Tells whether a URL names a Tor hidden service.
pub fn names_onion(url: &str) -> (r: bool)
    ensures
        r == is_onion(url@),
{
    ends_with(&find_host(url), ".onion")
}

// ----------------------------------------------------------------------------
// What the device asks for
// ----------------------------------------------------------------------------
/// What the device wants carried to the pinserver.
#[derive(Debug, PartialEq)]
pub struct PinRequest {
    /// Where to, if a URL can be reached.
    pub url: Option<String>,
    /// The HTTP method.
    pub method: String,
    /// The document, if there is one.
    pub document: Option<JsonValue>,
}

/// The mathematical value of a [`PinRequest`].
pub struct PinRequestView {
    pub url: Option<Seq<char>>,
    pub method: Seq<char>,
    pub document: Option<JsonTree>,
}

impl View for PinRequest {
    type V = PinRequestView;

    open spec fn view(&self) -> PinRequestView {
        PinRequestView {
            url: text_view(self.url),
            method: self.method@,
            document: match self.document {
                Some(j) => Some(j@),
                None => None,
            },
        }
    }
}

/// What the device answers to `auth_user`.
#[derive(Debug, PartialEq)]
pub enum Auth {
    /// It is unlocked already.
    Unlocked,
    /// It needs the pinserver.
    Ask(PinRequest),
}

/// The mathematical value of an [`Auth`].
pub enum AuthView {
    Unlocked,
    Ask(PinRequestView),
}

impl View for Auth {
    type V = AuthView;

    open spec fn view(&self) -> AuthView {
        match *self {
            Auth::Unlocked => AuthView::Unlocked,
            Auth::Ask(request) => AuthView::Ask(request@),
        }
    }
}

/// The error for a request to the pinserver that cannot be read.
pub open spec fn unreadable_request() -> ErrorView {
    ErrorView::ProtocolError("request to the pinserver is not readable"@)
}

/// The URLs that an item lists, if it lists URLs.
pub open spec fn urls_in(t: CborTree) -> Option<Seq<Seq<char>>> {
    match t {
        CborTree::Array(items) => if forall|i: int|
            0 <= i < items.len() ==> (#[trigger] items[i]) is Text {
            Some(Seq::new(items.len(), |i: int| items[i]->Text_0))
        } else {
            None
        },
        _ => None,
    }
}

/// The document that the entries of a map ask to be carried, if it can be read.
/// It may be missing.
pub open spec fn document_in(params: Seq<(CborTree, CborTree)>) -> Option<Option<JsonTree>> {
    match member(params, "data"@) {
        Member::Absent => Some(None),
        Member::Once(CborTree::Null) => Some(None),
        Member::Once(t) => match json_of(t) {
            Some(j) => Some(Some(j)),
            None => None,
        },
        Member::Repeated => None,
    }
}

/// The request that the parameters describe.
pub open spec fn described_request(params: Seq<(CborTree, CborTree)>) -> Option<PinRequestView> {
    match (member(params, "urls"@), text_member(params, "method"@), document_in(params)) {
        (Member::Once(urls), Some(Some(method)), Some(document)) => match urls_in(urls) {
            Some(urls) => Some(PinRequestView { url: first_reachable(urls), method, document }),
            None => None,
        },
        _ => None,
    }
}

/// The request to the pinserver that the device makes.
///
/// The device names the method that the answer is for. Any other than `pin`
/// is refused: it would let the device have the host call whatever it likes.
pub open spec fn pin_request_in(request: Seq<(CborTree, CborTree)>) -> Result<
    PinRequestView,
    ErrorView,
> {
    match (member(request, "params"@), text_member(request, "on-reply"@)) {
        (Member::Once(CborTree::Pairs(params)), Some(Some(on_reply))) => if on_reply != "pin"@ {
            Err(ErrorView::ProtocolError("device named a method other than pin"@))
        } else {
            match described_request(params) {
                Some(described) => Ok(described),
                None => Err(unreadable_request()),
            }
        },
        _ => Err(unreadable_request()),
    }
}

/// What the result of `auth_user` says.
pub open spec fn auth_in(t: CborTree) -> Result<AuthView, ErrorView> {
    match t {
        CborTree::Bool(true) => Ok(AuthView::Unlocked),
        CborTree::Bool(false) => Err(ErrorView::InvalidPin),
        CborTree::Pairs(entries) => match member(entries, "http_request"@) {
            Member::Once(CborTree::Pairs(request)) => match pin_request_in(request) {
                Ok(asked) => Ok(AuthView::Ask(asked)),
                Err(e) => Err(e),
            },
            _ => Err(unreadable_request()),
        },
        _ => Err(unreadable_request()),
    }
}

/// What the result of `pin` says: whether the PIN was right.
pub open spec fn pin_verdict(t: CborTree) -> Result<(), ErrorView> {
    match bool_in(t) {
        Ok(true) => Ok(()),
        Ok(false) => Err(ErrorView::InvalidPin),
        Err(e) => Err(e),
    }
}

spec fn url_texts(urls: Seq<String>) -> Seq<Seq<char>> {
    Seq::new(urls.len(), |i: int| urls[i]@)
}

/// Reads a list of URLs.
fn read_urls(value: &CborValue) -> (r: Option<Vec<String>>)
    ensures
        urls_in(value@) == (match r {
            Some(urls) => Some(url_texts(urls@)),
            None => None,
        }),
{
    broadcast use lemma_array_tree;

    let items = match value {
        CborValue::Array(items) => items,
        _ => {
            return None;
        },
    };
    let ghost trees = item_trees(items@);
    let mut out: Vec<String> = Vec::new();
    let mut i: usize = 0;
    while i < items.len()
        invariant
            i <= items@.len(),
            out@.len() == i,
            trees == item_trees(items@),
            value@ == CborTree::Array(trees),
            forall|k: int| 0 <= k < i ==> (#[trigger] trees[k]) == CborTree::Text(out@[k]@),
        decreases items@.len() - i,
    {
        match &items[i] {
            CborValue::Text(url) => {
                out.push(url.clone());
            },
            _ => {
                assert(!(trees[i as int] is Text));
                return None;
            },
        }
        i += 1;
    }
    proof {
        assert(url_texts(out@) =~= Seq::new(trees.len(), |k: int| trees[k]->Text_0));
    }
    Some(out)
}

/// Picks the first URL that an ordinary client can reach.
pub fn pick_url(urls: &Vec<String>) -> (r: Option<String>)
    ensures
        text_view(r) == first_reachable(Seq::new(urls@.len(), |i: int| urls@[i]@)),
{
    let ghost texts = Seq::new(urls@.len(), |i: int| urls@[i]@);
    let mut i: usize = 0;
    proof {
        assert(texts.skip(0) =~= texts);
    }
    while i < urls.len()
        invariant
            i <= urls@.len(),
            texts == Seq::new(urls@.len(), |i: int| urls@[i]@),
            first_reachable(texts.skip(i as int)) == first_reachable(texts),
        decreases urls@.len() - i,
    {
        proof {
            assert(texts.skip(i as int).skip(1) =~= texts.skip(i + 1));
            assert(texts.skip(i as int)[0] == urls@[i as int]@);
        }
        if !names_onion(urls[i].as_str()) {
            return Some(urls[i].clone());
        }
        i += 1;
    }
    None
}

/// Reads the document that is to be carried.
fn read_document(params: &Vec<(CborValue, CborValue)>) -> (r: Option<Option<JsonValue>>)
    ensures
        document_in(entry_trees(params@)) == (match r {
            Some(Some(j)) => Some(Some(j@)),
            Some(None) => Some(None),
            None => None,
        }),
        r matches Some(Some(j)) ==> cbor_form(j) is Some,
{
    match find(params, "data") {
        Slot::Absent => Some(None),
        Slot::At(i) => match &params[i].1 {
            CborValue::Null => Some(None),
            value => match cbor_to_json(value) {
                Ok(j) => Some(Some(j)),
                Err(_) => None,
            },
        },
        Slot::Repeated => None,
    }
}

/// Reads the parameters of a request to the pinserver.
fn describe_request(params: &Vec<(CborValue, CborValue)>) -> (r: Option<PinRequest>)
    ensures
        described_request(entry_trees(params@)) == (match r {
            Some(request) => Some(request@),
            None => None,
        }),
        r matches Some(request) ==> (request.document matches Some(j) ==> cbor_form(j) is Some),
{
    let urls = match find(params, "urls") {
        Slot::At(i) => read_urls(&params[i].1),
        _ => None,
    };
    match (urls, read_text(params, "method"), read_document(params)) {
        (Some(urls), Some(Some(method)), Some(document)) => {
            proof {
                assert(url_texts(urls@) =~= Seq::new(urls@.len(), |i: int| urls@[i]@));
            }
            Some(PinRequest { url: pick_url(&urls), method, document })
        },
        _ => None,
    }
}

fn unreadable() -> (r: JadeError)
    ensures
        r@ == unreadable_request(),
{
    JadeError::protocol("request to the pinserver is not readable".to_owned())
}

/// Reads a request to the pinserver.
fn read_request(request: &Vec<(CborValue, CborValue)>) -> (r: Result<PinRequest, JadeError>)
    ensures
        viewed(r) == pin_request_in(entry_trees(request@)),
        r matches Ok(asked) ==> (asked.document matches Some(j) ==> cbor_form(j) is Some),
{
    broadcast use lemma_pairs_tree;

    let params = match find(request, "params") {
        Slot::At(i) => match &request[i].1 {
            CborValue::Pairs(params) => params,
            _ => {
                return Err(unreadable());
            },
        },
        _ => {
            return Err(unreadable());
        },
    };
    match read_text(request, "on-reply") {
        Some(Some(on_reply)) => {
            if !same_text(on_reply.as_str(), "pin") {
                return Err(JadeError::protocol("device named a method other than pin".to_owned()));
            }
            match describe_request(params) {
                Some(asked) => Ok(asked),
                None => Err(unreadable()),
            }
        },
        _ => Err(unreadable()),
    }
}

/// Reads the result of `auth_user`.
pub fn read_auth(value: &CborValue) -> (r: Result<Auth, JadeError>)
    ensures
        viewed(r) == auth_in(value@),
        r matches Ok(Auth::Ask(asked)) ==> (asked.document matches Some(j) ==> cbor_form(
            j,
        ) is Some),
{
    broadcast use lemma_pairs_tree;

    match value {
        CborValue::Bool(unlocked) => if *unlocked {
            Ok(Auth::Unlocked)
        } else {
            Err(JadeError::InvalidPin)
        },
        CborValue::Pairs(entries) => match find(entries, "http_request") {
            Slot::At(i) => match &entries[i].1 {
                CborValue::Pairs(request) => match read_request(request) {
                    Ok(asked) => Ok(Auth::Ask(asked)),
                    Err(e) => Err(e),
                },
                _ => Err(unreadable()),
            },
            _ => Err(unreadable()),
        },
        _ => Err(unreadable()),
    }
}

/// Reads the result of `pin`.
pub fn read_pin(value: &CborValue) -> (r: Result<(), JadeError>)
    ensures
        viewed(r) == pin_verdict(value@),
{
    match result_bool(value) {
        Ok(right) => if right {
            Ok(())
        } else {
            Err(JadeError::InvalidPin)
        },
        Err(e) => Err(e),
    }
}

// ----------------------------------------------------------------------------
// The exchange
// ----------------------------------------------------------------------------
/// One attempt to unlock the device. All of it shares one deadline.
#[derive(Debug)]
pub struct Unlocking {
    deadline: u128,
}

/// What to do next to unlock the device.
#[derive(Debug, PartialEq)]
pub enum UnlockStep {
    /// Carry a document to the pinserver, within this time.
    Fetch { url: String, method: String, body: Option<String>, within: u128 },
    /// Send `pin` to the device, within this time.
    Pin { params: Option<CborValue>, within: u128 },
    /// The attempt is over.
    Done(Result<(), JadeError>),
}

/// The mathematical value of an [`UnlockStep`].
pub enum UnlockStepView {
    Fetch { url: Seq<char>, method: Seq<char>, body: Option<Seq<char>>, within: u128 },
    Pin { params: Option<CborTree>, within: u128 },
    Done(Result<(), ErrorView>),
}

impl View for UnlockStep {
    type V = UnlockStepView;

    open spec fn view(&self) -> UnlockStepView {
        match *self {
            UnlockStep::Fetch { url, method, body, within } => UnlockStepView::Fetch {
                url: url@,
                method: method@,
                body: text_view(body),
                within,
            },
            UnlockStep::Pin { params, within } => UnlockStepView::Pin {
                params: params_tree(params),
                within,
            },
            UnlockStep::Done(outcome) => UnlockStepView::Done(viewed(outcome)),
        }
    }
}

/// The parameters of `auth_user`.
pub open spec fn auth_tree(network: JadeNetwork, epoch: u64) -> CborTree {
    CborTree::Pairs(
        seq![
            (CborTree::Text("network"@), CborTree::Text(network_name(network))),
            (CborTree::Text("epoch"@), CborTree::Integer(epoch as int)),
        ],
    )
}

/// The time that an attempt has left, or why it ends: it was cancelled, or its
/// deadline has passed.
pub open spec fn time_left(deadline: u128, now: u128, cancelled: bool) -> Result<u128, ErrorView> {
    if cancelled {
        Err(ErrorView::UserCancelled)
    } else if now >= deadline {
        Err(ErrorView::Timeout)
    } else {
        Ok((deadline - now) as u128)
    }
}

/// What follows from a request to the pinserver. Without a URL that can be
/// reached there is no answer to wait for, and the device is told so at once.
pub open spec fn carried(
    deadline: u128,
    asked: PinRequestView,
    now: u128,
    cancelled: bool,
) -> UnlockStepView {
    match time_left(deadline, now, cancelled) {
        Err(e) => UnlockStepView::Done(Err(e)),
        Ok(within) => match asked.url {
            Some(url) => UnlockStepView::Fetch {
                url,
                method: asked.method,
                body: match asked.document {
                    Some(j) => Some(json_text(j)),
                    None => None,
                },
                within,
            },
            None => UnlockStepView::Pin { params: None, within },
        },
    }
}

/// What follows from the reply to `auth_user`.
pub open spec fn authorised(
    deadline: u128,
    outcome: Result<ReplyView, ErrorView>,
    min_firmware: Seq<char>,
    now: u128,
    cancelled: bool,
) -> UnlockStepView {
    match outcome {
        Err(e) => UnlockStepView::Done(Err(e)),
        Ok(reply) => match result_in(reply, min_firmware) {
            Err(e) => UnlockStepView::Done(Err(e)),
            Ok(t) => match auth_in(t) {
                Err(e) => UnlockStepView::Done(Err(e)),
                Ok(AuthView::Unlocked) => UnlockStepView::Done(Ok(())),
                Ok(AuthView::Ask(asked)) => carried(deadline, asked, now, cancelled),
            },
        },
    }
}

/// `pin` with these parameters, if there is time left.
pub open spec fn passed_on(
    deadline: u128,
    params: Option<CborTree>,
    now: u128,
    cancelled: bool,
) -> UnlockStepView {
    match time_left(deadline, now, cancelled) {
        Err(e) => UnlockStepView::Done(Err(e)),
        Ok(within) => UnlockStepView::Pin { params, within },
    }
}

/// The parameters that an answer of the pinserver makes, if it is a document
/// that can be passed on.
pub open spec fn answer_form(answer: Option<JsonValue>) -> Option<CborTree> {
    match answer {
        Some(j) => cbor_form(j),
        None => None,
    }
}

/// What follows from the reply to `pin`.
pub open spec fn confirmed(
    outcome: Result<ReplyView, ErrorView>,
    min_firmware: Seq<char>,
) -> Result<(), ErrorView> {
    match outcome {
        Err(e) => Err(e),
        Ok(reply) => match result_in(reply, min_firmware) {
            Err(e) => Err(e),
            Ok(t) => pin_verdict(t),
        },
    }
}

/// Builds the parameters of `auth_user`.
pub fn auth_params(network: JadeNetwork, epoch: u64) -> (r: CborValue)
    ensures
        r@ == auth_tree(network, epoch),
{
    broadcast use lemma_pairs_tree;

    let mut entries: Vec<(CborValue, CborValue)> = Vec::new();
    entries.push((text_value("network"), text_value(network.wire_name())));
    entries.push((text_value("epoch"), CborValue::Integer(epoch as i128)));
    proof {
        assert(entry_trees(entries@) =~= auth_tree(network, epoch)->Pairs_0);
    }
    CborValue::Pairs(entries)
}

/// Turns an answer of the pinserver into the parameters of `pin`.
pub fn pin_params(answer: &Option<JsonValue>) -> (r: Option<CborValue>)
    ensures
        params_tree(r) == answer_form(*answer),
{
    match answer {
        Some(j) => match json_to_cbor(j) {
            Ok(params) => Some(params),
            Err(_) => None,
        },
        None => None,
    }
}

impl Unlocking {
    /// When the attempt is given up.
    pub closed spec fn until(&self) -> u128 {
        self.deadline
    }

    /// Starts an attempt. The first message is `auth_user`, with
    /// [`auth_params`], within the whole time.
    pub fn begin(timeout: u128, now: u128) -> (r: Unlocking)
        requires
            now + timeout <= u128::MAX,
        ensures
            r.until() == now + timeout,
    {
        Unlocking { deadline: now + timeout }
    }

    /// The time that is left.
    fn left(&self, now: u128, cancel: &CancelHandle) -> (r: Result<u128, JadeError>)
        ensures
            viewed(r) == time_left(self.until(), now, cancel.on()),
    {
        if cancel.is_cancelled() {
            return Err(JadeError::UserCancelled);
        }
        remaining_until(self.deadline, now)
    }

    /// Goes on with a request to the pinserver.
    fn carry(&self, asked: PinRequest, now: u128, cancel: &CancelHandle) -> (r: UnlockStep)
        requires
            asked.document matches Some(j) ==> cbor_form(j) is Some,
        ensures
            r@ == carried(self.until(), asked@, now, cancel.on()),
    {
        match self.left(now, cancel) {
            Err(e) => UnlockStep::Done(Err(e)),
            Ok(within) => match asked.url {
                Some(url) => {
                    let body = match &asked.document {
                        Some(j) => print_json(j),
                        None => None,
                    };
                    UnlockStep::Fetch { url, method: asked.method, body, within }
                },
                None => UnlockStep::Pin { params: None, within },
            },
        }
    }

    /// Goes on with the reply to `auth_user`.
    pub fn after_auth(
        &self,
        outcome: Result<JadeReply, JadeError>,
        min_firmware: &str,
        now: u128,
        cancel: &CancelHandle,
    ) -> (r: UnlockStep)
        ensures
            r@ == authorised(self.until(), viewed(outcome), min_firmware@, now, cancel.on()),
    {
        match outcome {
            Err(e) => UnlockStep::Done(Err(e)),
            Ok(reply) => match reply.into_result(min_firmware) {
                Err(e) => UnlockStep::Done(Err(e)),
                Ok(value) => match read_auth(&value) {
                    Err(e) => UnlockStep::Done(Err(e)),
                    Ok(Auth::Unlocked) => UnlockStep::Done(Ok(())),
                    Ok(Auth::Ask(asked)) => self.carry(asked, now, cancel),
                },
            },
        }
    }

    /// Sends `pin` with these parameters, if there is time left.
    pub fn pass_on(
        &self,
        params: Option<CborValue>,
        now: u128,
        cancel: &CancelHandle,
    ) -> (r: UnlockStep)
        ensures
            r@ == passed_on(self.until(), params_tree(params), now, cancel.on()),
    {
        match self.left(now, cancel) {
            Err(e) => UnlockStep::Done(Err(e)),
            Ok(within) => UnlockStep::Pin { params, within },
        }
    }

    /// Goes on with what the pinserver answered. Without an answer in time the
    /// attempt is over.
    ///
    /// A failure there still sends `pin`, without parameters: the device waits
    /// for that message, and would take the next request for it. The same goes
    /// for an answer that is no document, or that has a number other than an
    /// integer in it. Otherwise the document is passed on, each member once, in
    /// no particular order.
    pub fn after_fetch(
        &self,
        answer: Option<Result<Vec<u8>, JadeError>>,
        now: u128,
        cancel: &CancelHandle,
    ) -> (r: UnlockStep)
        ensures
            match answer {
                None => r@ == UnlockStepView::Done(
                    Err(abort_error(ErrorView::Timeout, cancel.on())),
                ),
                Some(Err(_)) => r@ == passed_on(self.until(), None, now, cancel.on()),
                Some(Ok(bytes)) => match json_decoded(bytes@) {
                    Some(j) => if whole(j) {
                        exists|params: CborTree|
                            #![trigger json_of(params)]
                            json_of(params) == Some(j) && names_once(params) && r@ == passed_on(
                                self.until(),
                                Some(params),
                                now,
                                cancel.on(),
                            )
                    } else {
                        r@ == passed_on(self.until(), None, now, cancel.on())
                    },
                    None => r@ == passed_on(self.until(), None, now, cancel.on()),
                },
            },
    {
        let document = match &answer {
            None => {
                return UnlockStep::Done(Err(abort_or(JadeError::Timeout, cancel)));
            },
            Some(Ok(bytes)) => parse_json(bytes.as_slice()),
            Some(Err(_)) => None,
        };
        let params = pin_params(&document);
        proof {
            if let Some(j) = document {
                lemma_json_survives_cbor(j);
                if let Some(t) = cbor_form(j) {
                    assert(json_of(t) == Some(j@));
                }
            }
        }
        self.pass_on(params, now, cancel)
    }

    /// Goes on with the reply to `pin`.
    pub fn after_pin(&self, outcome: Result<JadeReply, JadeError>, min_firmware: &str) -> (r: Result<
        (),
        JadeError,
    >)
        ensures
            viewed(r) == confirmed(viewed(outcome), min_firmware@),
    {
        match outcome {
            Err(e) => Err(e),
            Ok(reply) => match reply.into_result(min_firmware) {
                Err(e) => Err(e),
                Ok(value) => read_pin(&value),
            },
        }
    }
}

// ----------------------------------------------------------------------------
// Laws
// ----------------------------------------------------------------------------
/// The URL that is picked is one that the device named and is no hidden
/// service; none is picked only if all of them are.
pub proof fn lemma_picked_url(urls: Seq<Seq<char>>)
    ensures
        match first_reachable(urls) {
            Some(url) => urls.contains(url) && !is_onion(url),
            None => forall|i: int| 0 <= i < urls.len() ==> is_onion(#[trigger] urls[i]),
        },
    decreases urls.len(),
{
    if urls.len() > 0 {
        lemma_picked_url(urls.skip(1));
        if let Some(url) = first_reachable(urls.skip(1)) {
            let i = urls.skip(1).index_of(url);
            assert(urls[i + 1] == url);
        } else if is_onion(urls[0]) {
            assert forall|i: int| 0 <= i < urls.len() implies is_onion(#[trigger] urls[i]) by {
                if i > 0 {
                    assert(urls.skip(1)[i - 1] == urls[i]);
                }
            }
        }
        assert(urls.contains(urls[0]));
    }
}

/// The host acts for the device only if the answer is meant for `pin`.
pub proof fn lemma_only_pin_is_answered(request: Seq<(CborTree, CborTree)>)
    ensures
        pin_request_in(request) is Ok ==> text_member(request, "on-reply"@) == Some(Some("pin"@)),
{
}

/// Every step of an attempt ends before its deadline, and a cancelled attempt
/// takes no further step.
pub proof fn lemma_unlocking_keeps_the_deadline(
    deadline: u128,
    outcome: Result<ReplyView, ErrorView>,
    min_firmware: Seq<char>,
    params: Option<CborTree>,
    now: u128,
    cancelled: bool,
)
    ensures
        authorised(
            deadline,
            outcome,
            min_firmware,
            now,
            cancelled,
        ) matches UnlockStepView::Fetch { within, .. } ==> 0 < within && now + within == deadline
            && !cancelled,
        authorised(
            deadline,
            outcome,
            min_firmware,
            now,
            cancelled,
        ) matches UnlockStepView::Pin { within, .. } ==> 0 < within && now + within == deadline
            && !cancelled,
        passed_on(deadline, params, now, cancelled) matches UnlockStepView::Pin { within, .. }
            ==> 0 < within && now + within == deadline && !cancelled,
{
}

/// A failure of the pinserver still sends `pin`, without parameters, as long as
/// the attempt has time and was not cancelled.
pub proof fn lemma_failed_fetch_still_sends_pin(deadline: u128, now: u128)
    requires
        now < deadline,
    ensures
        passed_on(deadline, None, now, false) == (UnlockStepView::Pin {
            params: None,
            within: (deadline - now) as u128,
        }),
{
}

proof fn lemma_host_in_authority(user: Seq<char>, host: Seq<char>, port: Seq<char>)
    requires
        !host.contains('@') && !host.contains(':'),
        user.len() == 0 || user.last() == '@',
        port.len() == 0 || port[0] == ':',
        !port.contains('@'),
    ensures
        split(split(user + host + port, '@').last(), ':')[0] == host,
{
    let authority = user + host + port;
    let end = host + port;
    lemma_the_last_part(authority, '@');
    let behind = split(authority, '@').last();
    assert forall|i: int| 0 <= i < end.len() implies #[trigger] end[i] != '@' && end[i]
        == authority[user.len() + i] by {
        if i < host.len() {
            assert(host.contains(host[i]));
        } else {
            assert(port.contains(port[i - host.len()]));
        }
    }
    if behind.len() > end.len() {
        let at = behind.len() - end.len() - 1;
        assert(behind[at] == authority[user.len() - 1]);
        assert(authority[user.len() - 1] == '@');
    } else if behind.len() < end.len() {
        let at = end.len() - behind.len() - 1;
        assert(end[at] == authority[authority.len() - behind.len() - 1]);
    }
    assert forall|i: int| 0 <= i < end.len() implies #[trigger] behind[i] == end[i] by {
        assert(authority[user.len() + i] == end[i]);
    }
    assert(behind =~= end);
    lemma_the_first_part(end, ':');
    let first = split(end, ':')[0];
    if first.len() < host.len() {
        assert(host[first.len() as int] == end[first.len() as int]);
        assert(host.contains(':'));
    } else if first.len() > host.len() {
        assert(first[host.len() as int] == end[host.len() as int]);
        assert(end[host.len() as int] == port[0]);
    }
    assert(first =~= host);
}

proof fn lemma_located(front: Seq<char>, rest: Seq<char>)
    requires
        !front.contains('#') && !front.contains('?'),
        rest.len() == 0 || rest[0] == '/' || rest[0] == '?' || rest[0] == '#',
    ensures
        ({
            let located = split(split(front + rest, '#')[0], '?')[0];
            exists|path: Seq<char>|
                located == #[trigger] (front + path) && (path.len() == 0 || path[0] == '/')
                    && path.is_prefix_of(rest)
        }),
{
    lemma_split_prefix(front, rest, '#');
    let kept = split(rest, '#')[0];
    lemma_the_first_part(rest, '#');
    lemma_split_prefix(front, kept, '?');
    let path = split(kept, '?')[0];
    lemma_the_first_part(kept, '?');
    if path.len() > 0 {
        assert(path[0] == kept[0] && kept[0] == rest[0]);
        assert(kept[0] != '?' && rest[0] != '#');
    }
    assert forall|i: int| 0 <= i < path.len() implies #[trigger] path[i] == rest.subrange(
        0,
        path.len() as int,
    )[i] by {
        assert(path[i] == kept[i] && kept[i] == rest[i]);
    }
    assert(path =~= rest.subrange(0, path.len() as int));
    assert(split(split(front + rest, '#')[0], '?')[0] == front + path);
}

proof fn lemma_authority_has_none(user: Seq<char>, host: Seq<char>, port: Seq<char>, c: char)
    requires
        !user.contains(c),
        !host.contains(c),
        !port.contains(c),
    ensures
        !(user + host + port).contains(c),
{
    let authority = user + host + port;
    if authority.contains(c) {
        let k = authority.index_of(c);
        if k < user.len() {
            assert(user[k] == c);
        } else if k < user.len() + host.len() {
            assert(host[k - user.len()] == c);
        } else {
            assert(port[k - user.len() - host.len()] == c);
        }
    }
}

/// Without a scheme the host is found at the front, ahead of a path that does
/// not start with two slashes, a query and a fragment.
pub proof fn lemma_the_host_without_a_scheme(
    user: Seq<char>,
    host: Seq<char>,
    port: Seq<char>,
    rest: Seq<char>,
)
    requires
        forall|c: char| c == '#' || c == '?' || c == '/' ==> !(#[trigger] user.contains(c)),
        forall|c: char|
            c == '#' || c == '?' || c == '/' || c == '@' || c == ':' ==> !(
            #[trigger] host.contains(c)),
        forall|c: char|
            c == '#' || c == '?' || c == '/' || c == '@' ==> !(#[trigger] port.contains(c)),
        user.len() == 0 || user.last() == '@',
        port.len() == 0 || port[0] == ':',
        rest.len() == 0 || rest[0] == '/' || rest[0] == '?' || rest[0] == '#',
        rest.len() > 1 && rest[0] == '/' ==> rest[1] != '/',
    ensures
        host_of(user + host + port + rest) == host,
        is_onion(user + host + port + rest) <==> host.len() >= 6 && host.skip(host.len() - 6)
            == seq!['.', 'o', 'n', 'i', 'o', 'n'],
{
    let authority = user + host + port;
    let url = authority + rest;
    lemma_authority_has_none(user, host, port, '#');
    lemma_authority_has_none(user, host, port, '?');
    lemma_authority_has_none(user, host, port, '/');
    lemma_located(authority, rest);
    let located = split(split(url, '#')[0], '?')[0];
    let path = choose|path: Seq<char>|
        located == #[trigger] (authority + path) && (path.len() == 0 || path[0] == '/')
            && path.is_prefix_of(rest);
    let parts = split(located, '/');
    if path.len() == 0 {
        assert(located =~= authority);
        lemma_split_single(authority, '/');
    } else {
        let behind = path.skip(1);
        assert(located =~= authority.push('/') + behind);
        lemma_split_first(authority, behind, '/');
        assert(parts =~= seq![authority] + split(behind, '/'));
        lemma_the_first_part(behind, '/');
        assert(rest.subrange(0, path.len() as int)[0] == rest[0]);
        if behind.len() > 0 {
            assert(rest.subrange(0, path.len() as int)[1] == rest[1]);
            assert(behind[0] == rest[1]);
            assert(split(behind, '/')[0].len() > 0);
        } else {
            assert(behind =~= Seq::empty());
            lemma_split_single(behind, '/');
        }
    }
    assert(parts[0] == authority);
    lemma_host_in_authority(user, host, port);
    reveal_strlit(".onion");
    assert(".onion"@ =~= seq!['.', 'o', 'n', 'i', 'o', 'n']);
    if host.len() >= 6 {
        assert(host.skip(host.len() - 6) =~= host.subrange(host.len() - 6, host.len() as int));
    }
}

/// The host of a URL is found wherever it stands: behind the scheme and the
/// user, ahead of the port, the path, the query and the fragment. The URL is a
/// hidden service exactly if that host ends in ".onion".
pub proof fn lemma_the_host_tells_a_hidden_service(
    scheme: Seq<char>,
    user: Seq<char>,
    host: Seq<char>,
    port: Seq<char>,
    rest: Seq<char>,
)
    requires
        forall|c: char| c == '#' || c == '?' || c == '/' ==> !(#[trigger] scheme.contains(c)),
        forall|c: char| c == '#' || c == '?' || c == '/' ==> !(#[trigger] user.contains(c)),
        forall|c: char|
            c == '#' || c == '?' || c == '/' || c == '@' || c == ':' ==> !(
            #[trigger] host.contains(c)),
        forall|c: char|
            c == '#' || c == '?' || c == '/' || c == '@' ==> !(#[trigger] port.contains(c)),
        user.len() == 0 || user.last() == '@',
        port.len() == 0 || port[0] == ':',
        rest.len() == 0 || rest[0] == '/' || rest[0] == '?' || rest[0] == '#',
    ensures
        host_of(scheme + seq![':', '/', '/'] + (user + host + port) + rest) == host,
        is_onion(scheme + seq![':', '/', '/'] + (user + host + port) + rest) <==> host.len() >= 6
            && host.skip(host.len() - 6) == seq!['.', 'o', 'n', 'i', 'o', 'n'],
{
    let authority = user + host + port;
    let front = scheme + seq![':', '/', '/'] + authority;
    let url = front + rest;
    assert forall|c: char| c == '#' || c == '?' || c == '/' implies !(
    #[trigger] authority.contains(c)) by {
        lemma_authority_has_none(user, host, port, c);
    }
    assert forall|c: char| c == '#' || c == '?' implies !(#[trigger] front.contains(c)) by {
        if front.contains(c) {
            let k = front.index_of(c);
            if k < scheme.len() {
                assert(scheme[k] == c);
                assert(scheme.contains(c));
            } else if k >= scheme.len() + 3 {
                assert(authority[k - scheme.len() - 3] == c);
                assert(authority.contains(c));
            }
        }
    }
    lemma_located(front, rest);
    let located = split(split(url, '#')[0], '?')[0];
    let path = choose|path: Seq<char>|
        located == #[trigger] (front + path) && (path.len() == 0 || path[0] == '/')
            && path.is_prefix_of(rest);
    let label = scheme.push(':');
    let empty = Seq::<char>::empty();
    let tail = authority + path;
    if label.contains('/') {
        let k = label.index_of('/');
        if k < scheme.len() {
            assert(scheme[k] == '/');
            assert(scheme.contains('/'));
        }
    }
    assert(located =~= label.push('/') + (empty.push('/') + tail));
    lemma_split_first(label, empty.push('/') + tail, '/');
    lemma_split_first(empty, tail, '/');
    lemma_the_first_part(tail, '/');
    let parts = split(located, '/');
    assert(parts =~= seq![label, empty] + split(tail, '/'));
    let found = split(tail, '/')[0];
    if found.len() < authority.len() {
        assert(authority[found.len() as int] == tail[found.len() as int]);
        assert(authority.contains('/'));
    } else if found.len() > authority.len() {
        assert(found[authority.len() as int] == tail[authority.len() as int]);
        assert(tail[authority.len() as int] == path[0]);
    }
    assert(found =~= authority);
    lemma_host_in_authority(user, host, port);
    reveal_strlit(".onion");
    assert(".onion"@ =~= seq!['.', 'o', 'n', 'i', 'o', 'n']);
    if host.len() >= 6 {
        assert(host.skip(host.len() - 6) =~= host.subrange(host.len() - 6, host.len() as int));
    }
}

/// The URL that is picked is the first in the list that is no hidden service:
/// every one ahead of it is.
pub proof fn lemma_the_first_reachable_url_is_picked(urls: Seq<Seq<char>>, url: Seq<char>)
    ensures
        first_reachable(urls) == Some(url) <==> exists|k: int|
            {
                &&& 0 <= k < urls.len()
                &&& #[trigger] urls[k] == url
                &&& !is_onion(url)
                &&& forall|j: int| 0 <= j < k ==> is_onion(#[trigger] urls[j])
            },
    decreases urls.len(),
{
    if urls.len() > 0 {
        let rest = urls.skip(1);
        lemma_the_first_reachable_url_is_picked(rest, url);
        if !is_onion(urls[0]) {
            if first_reachable(urls) == Some(url) {
                assert(urls[0] == url);
            }
        } else {
            if first_reachable(urls) == Some(url) {
                let k = choose|k: int|
                    {
                        &&& 0 <= k < rest.len()
                        &&& #[trigger] rest[k] == url
                        &&& !is_onion(url)
                        &&& forall|j: int| 0 <= j < k ==> is_onion(#[trigger] rest[j])
                    };
                assert(urls[k + 1] == url);
                assert forall|j: int| 0 <= j < k + 1 implies is_onion(#[trigger] urls[j]) by {
                    if j > 0 {
                        assert(rest[j - 1] == urls[j]);
                    }
                }
            }
            if exists|k: int|
                {
                    &&& 0 <= k < urls.len()
                    &&& #[trigger] urls[k] == url
                    &&& !is_onion(url)
                    &&& forall|j: int| 0 <= j < k ==> is_onion(#[trigger] urls[j])
                } {
                let k = choose|k: int|
                    {
                        &&& 0 <= k < urls.len()
                        &&& #[trigger] urls[k] == url
                        &&& !is_onion(url)
                        &&& forall|j: int| 0 <= j < k ==> is_onion(#[trigger] urls[j])
                    };
                assert(k > 0);
                assert(rest[k - 1] == url);
                assert forall|j: int| 0 <= j < k - 1 implies is_onion(#[trigger] rest[j]) by {
                    assert(rest[j] == urls[j + 1]);
                }
            }
        }
    }
}

/// The parameters of `auth_user` name the network that was asked for by the
/// device's own name for it, and hold the epoch that was given. So those for
/// another network or another epoch are others.
pub proof fn lemma_auth_params_name_the_network(network: JadeNetwork, epoch: u64)
    ensures
        auth_tree(network, epoch) is Pairs,
        auth_tree(network, epoch)->Pairs_0.len() == 2,
        network is Mainnet <==> holds(
            auth_tree(network, epoch)->Pairs_0,
            "network"@,
            CborTree::Text("mainnet"@),
        ),
        network is Testnet <==> holds(
            auth_tree(network, epoch)->Pairs_0,
            "network"@,
            CborTree::Text("testnet"@),
        ),
        network is Regtest <==> holds(
            auth_tree(network, epoch)->Pairs_0,
            "network"@,
            CborTree::Text("localtest"@),
        ),
        forall|n: int| #[trigger]
            holds(auth_tree(network, epoch)->Pairs_0, "epoch"@, CborTree::Integer(n)) <==> n
                == epoch,
        forall|other: JadeNetwork, time: u64| #[trigger]
            auth_tree(other, time) == auth_tree(network, epoch) ==> other == network && time
                == epoch,
{
    let entries = auth_tree(network, epoch)->Pairs_0;
    reveal_strlit("network");
    reveal_strlit("epoch");
    assert("network"@.len() != "epoch"@.len());
    lemma_networks_have_their_names(network, network);
    assert(named(entries, 0, "network"@) && !named(entries, 1, "network"@));
    assert(named(entries, 1, "epoch"@) && !named(entries, 0, "epoch"@));
    assert forall|other: JadeNetwork, time: u64| #[trigger]
        auth_tree(other, time) == auth_tree(network, epoch) implies other == network && time
        == epoch by {
        let others = auth_tree(other, time)->Pairs_0;
        assert(others[0] == entries[0] && others[1] == entries[1]);
        assert(others[0].1 == CborTree::Text(network_name(other)));
        assert(entries[0].1 == CborTree::Text(network_name(network)));
        lemma_networks_have_their_names(other, network);
    }
}

/// Whether a map asks for this to be carried to the pinserver, member by member.
pub open spec fn asks(request: Seq<(CborTree, CborTree)>, asked: PinRequestView) -> bool {
    &&& holds(request, "on-reply"@, CborTree::Text("pin"@))
    &&& exists|params: Seq<(CborTree, CborTree)>| #[trigger]
        holds(request, "params"@, CborTree::Pairs(params)) && {
            &&& exists|urls: Seq<CborTree>| #[trigger]
                holds(params, "urls"@, CborTree::Array(urls)) && {
                    &&& forall|i: int| 0 <= i < urls.len() ==> (#[trigger] urls[i]) is Text
                    &&& asked.url == first_reachable(
                        Seq::new(urls.len(), |i: int| urls[i]->Text_0),
                    )
                }
            &&& holds(params, "method"@, CborTree::Text(asked.method))
            &&& match asked.document {
                Some(j) => exists|data: CborTree| #[trigger]
                    holds(params, "data"@, data) && !(data is Null) && json_of(data) == Some(j),
                None => gives_none(params, "data"@),
            }
        }
}

proof fn lemma_described(params: Seq<(CborTree, CborTree)>, asked: PinRequestView)
    ensures
        described_request(params) == Some(asked) <==> {
            &&& exists|urls: Seq<CborTree>| #[trigger]
                holds(params, "urls"@, CborTree::Array(urls)) && {
                    &&& forall|i: int| 0 <= i < urls.len() ==> (#[trigger] urls[i]) is Text
                    &&& asked.url == first_reachable(
                        Seq::new(urls.len(), |i: int| urls[i]->Text_0),
                    )
                }
            &&& holds(params, "method"@, CborTree::Text(asked.method))
            &&& match asked.document {
                Some(j) => exists|data: CborTree| #[trigger]
                    holds(params, "data"@, data) && !(data is Null) && json_of(data) == Some(j),
                None => gives_none(params, "data"@),
            }
        },
{
    lemma_holding_is_being_the_member(params, "method"@, CborTree::Text(asked.method));
    lemma_holding_is_being_the_member(params, "data"@, CborTree::Null);
    assert forall|urls: Seq<CborTree>| #[trigger]
        holds(params, "urls"@, CborTree::Array(urls)) implies member(params, "urls"@)
        == Member::Once(CborTree::Array(urls)) by {
        lemma_holding_is_being_the_member(params, "urls"@, CborTree::Array(urls));
    }
    assert forall|data: CborTree| #[trigger] holds(params, "data"@, data) implies member(
        params,
        "data"@,
    ) == Member::Once(data) by {
        lemma_holding_is_being_the_member(params, "data"@, data);
    }
    if let Member::Once(CborTree::Array(urls)) = member(params, "urls"@) {
        lemma_holding_is_being_the_member(params, "urls"@, CborTree::Array(urls));
    }
    if let Member::Once(data) = member(params, "data"@) {
        lemma_holding_is_being_the_member(params, "data"@, data);
    }
}

/// The device is unlocked exactly if its answer to `auth_user` is true, and
/// refuses exactly if that is false. It asks for something to be carried to the
/// pinserver exactly if the answer is a map that says so, member by member, and
/// wants the outcome sent with `pin`. Nothing else is an answer.
pub proof fn lemma_auth_answers(t: CborTree, asked: PinRequestView)
    ensures
        auth_in(t) == Ok::<AuthView, ErrorView>(AuthView::Unlocked) <==> t == CborTree::Bool(true),
        auth_in(t) == Err::<AuthView, ErrorView>(ErrorView::InvalidPin) <==> t == CborTree::Bool(
            false,
        ),
        auth_in(t) == Ok::<AuthView, ErrorView>(AuthView::Ask(asked)) <==> t is Pairs && exists|
            request: Seq<(CborTree, CborTree)>,
        | #[trigger]
            holds(t->Pairs_0, "http_request"@, CborTree::Pairs(request)) && asks(request, asked),
        auth_in(t) matches Err(e) ==> e is InvalidPin || e == ErrorView::ProtocolError(
            "request to the pinserver is not readable"@,
        ) || e == ErrorView::ProtocolError("device named a method other than pin"@),
{
    if let CborTree::Pairs(entries) = t {
        assert forall|request: Seq<(CborTree, CborTree)>| #[trigger]
            holds(entries, "http_request"@, CborTree::Pairs(request)) implies member(
            entries,
            "http_request"@,
        ) == Member::Once(CborTree::Pairs(request)) by {
            lemma_holding_is_being_the_member(entries, "http_request"@, CborTree::Pairs(request));
        }
        if let Member::Once(CborTree::Pairs(request)) = member(entries, "http_request"@) {
            lemma_holding_is_being_the_member(entries, "http_request"@, CborTree::Pairs(request));
            lemma_asked(request, asked);
        }
    }
}

proof fn lemma_asked(request: Seq<(CborTree, CborTree)>, asked: PinRequestView)
    ensures
        pin_request_in(request) == Ok::<PinRequestView, ErrorView>(asked) <==> asks(request, asked),
{
    lemma_holding_is_being_the_member(request, "on-reply"@, CborTree::Text("pin"@));
    assert forall|params: Seq<(CborTree, CborTree)>| #[trigger]
        holds(request, "params"@, CborTree::Pairs(params)) implies member(request, "params"@)
        == Member::Once(CborTree::Pairs(params)) && (described_request(params) == Some(asked) <==> {
        &&& exists|urls: Seq<CborTree>| #[trigger]
            holds(params, "urls"@, CborTree::Array(urls)) && {
                &&& forall|i: int| 0 <= i < urls.len() ==> (#[trigger] urls[i]) is Text
                &&& asked.url == first_reachable(Seq::new(urls.len(), |i: int| urls[i]->Text_0))
            }
        &&& holds(params, "method"@, CborTree::Text(asked.method))
        &&& match asked.document {
            Some(j) => exists|data: CborTree| #[trigger]
                holds(params, "data"@, data) && !(data is Null) && json_of(data) == Some(j),
            None => gives_none(params, "data"@),
        }
    }) by {
        lemma_holding_is_being_the_member(request, "params"@, CborTree::Pairs(params));
        lemma_described(params, asked);
    }
    if let Member::Once(CborTree::Pairs(params)) = member(request, "params"@) {
        lemma_holding_is_being_the_member(request, "params"@, CborTree::Pairs(params));
    }
}

/// A request that wants its answer sent with another method than `pin` is
/// refused as such, whatever else it asks for.
pub proof fn lemma_other_methods_are_refused(
    entries: Seq<(CborTree, CborTree)>,
    request: Seq<(CborTree, CborTree)>,
    params: Seq<(CborTree, CborTree)>,
    method: Seq<char>,
)
    requires
        holds(entries, "http_request"@, CborTree::Pairs(request)),
        holds(request, "params"@, CborTree::Pairs(params)),
        holds(request, "on-reply"@, CborTree::Text(method)),
        method != "pin"@,
    ensures
        auth_in(CborTree::Pairs(entries)) == Err::<AuthView, ErrorView>(
            ErrorView::ProtocolError("device named a method other than pin"@),
        ),
{
    lemma_holding_is_being_the_member(entries, "http_request"@, CborTree::Pairs(request));
    lemma_holding_is_being_the_member(request, "params"@, CborTree::Pairs(params));
    lemma_holding_is_being_the_member(request, "on-reply"@, CborTree::Text(method));
}

/// The PIN was right exactly if the answer to `pin` is true, and wrong exactly
/// if it is false; the exchange succeeds only if the device sent that answer
/// without an error.
pub proof fn lemma_pin_answers(
    t: CborTree,
    outcome: Result<ReplyView, ErrorView>,
    min_firmware: Seq<char>,
)
    ensures
        pin_verdict(t) is Ok <==> t == CborTree::Bool(true),
        pin_verdict(t) == Err::<(), ErrorView>(ErrorView::InvalidPin) <==> t == CborTree::Bool(
            false,
        ),
        pin_verdict(t) matches Err(e) ==> e is InvalidPin || e is ProtocolError,
        confirmed(outcome, min_firmware) is Ok <==> (outcome matches Ok(reply) && reply.error
            is None && reply.result == Some(CborTree::Bool(true))),
        outcome matches Err(e) ==> confirmed(outcome, min_firmware) == Err::<(), ErrorView>(e),
        outcome matches Ok(reply) ==> reply.error is None && reply.result == Some(
            CborTree::Bool(false),
        ) ==> confirmed(outcome, min_firmware) == Err::<(), ErrorView>(ErrorView::InvalidPin),
        outcome matches Ok(reply) ==> (reply.error matches Some(e) ==> confirmed(
            outcome,
            min_firmware,
        ) == Err::<(), ErrorView>(rpc_error(e.code, e.message, min_firmware))),
{
}

/// An attempt that was cancelled ends as cancelled. One whose deadline has come
/// ends as timed out, and any other has all the time up to the deadline.
pub proof fn lemma_the_time_that_is_left(deadline: u128, now: u128, cancelled: bool)
    ensures
        cancelled ==> time_left(deadline, now, cancelled) == Err::<u128, ErrorView>(
            ErrorView::UserCancelled,
        ),
        !cancelled && deadline <= now ==> time_left(deadline, now, cancelled) == Err::<
            u128,
            ErrorView,
        >(ErrorView::Timeout),
        !cancelled && now < deadline ==> time_left(deadline, now, cancelled) == Ok::<
            u128,
            ErrorView,
        >((deadline - now) as u128),
{
}

/// While there is time, what the device asks for is carried to the URL that was
/// picked, with its method and its document. Without such a URL `pin` is sent
/// at once, without parameters. A cancelled or late attempt ends instead.
pub proof fn lemma_requests_are_carried(
    deadline: u128,
    asked: PinRequestView,
    now: u128,
    cancelled: bool,
)
    ensures
        !cancelled && now < deadline ==> (asked.url matches Some(url) ==> carried(
            deadline,
            asked,
            now,
            cancelled,
        ) == (UnlockStepView::Fetch {
            url,
            method: asked.method,
            body: match asked.document {
                Some(j) => Some(json_text(j)),
                None => None,
            },
            within: (deadline - now) as u128,
        })),
        !cancelled && now < deadline && asked.url is None ==> carried(
            deadline,
            asked,
            now,
            cancelled,
        ) == (UnlockStepView::Pin { params: None, within: (deadline - now) as u128 }),
        cancelled ==> carried(deadline, asked, now, cancelled) == UnlockStepView::Done(
            Err(ErrorView::UserCancelled),
        ),
        !cancelled && deadline <= now ==> carried(deadline, asked, now, cancelled)
            == UnlockStepView::Done(Err(ErrorView::Timeout)),
{
}

/// The reply to `auth_user` decides the next step. A failure ends the attempt
/// with itself, an error of the device with that error, and an answer as
/// [`lemma_auth_answers`] has it: true ends the attempt in success, false in a
/// wrong PIN, and a request is carried.
pub proof fn lemma_auth_replies_decide(
    deadline: u128,
    outcome: Result<ReplyView, ErrorView>,
    min_firmware: Seq<char>,
    now: u128,
    cancelled: bool,
)
    ensures
        ({
            let step = authorised(deadline, outcome, min_firmware, now, cancelled);
            &&& outcome matches Err(e) ==> step == UnlockStepView::Done(Err(e))
            &&& outcome matches Ok(reply) ==> {
                &&& reply.error matches Some(e) ==> step == UnlockStepView::Done(
                    Err(rpc_error(e.code, e.message, min_firmware)),
                )
                &&& reply.error is None ==> {
                    &&& reply.result == Some(CborTree::Bool(true)) ==> step == UnlockStepView::Done(
                        Ok(()),
                    )
                    &&& reply.result == Some(CborTree::Bool(false)) ==> step
                        == UnlockStepView::Done(Err(ErrorView::InvalidPin))
                    &&& reply.result is None ==> (step matches UnlockStepView::Done(Err(e))
                        && e is ProtocolError)
                    &&& reply.result matches Some(t) ==> {
                        &&& auth_in(t) matches Err(e) ==> step == UnlockStepView::Done(Err(e))
                        &&& auth_in(t) matches Ok(AuthView::Ask(asked)) ==> step == carried(
                            deadline,
                            asked,
                            now,
                            cancelled,
                        )
                    }
                }
            }
        }),
{
}

/// What the pinserver answered is passed on as it is while there is time. A
/// cancelled or late attempt ends instead.
pub proof fn lemma_answers_are_passed_on(
    deadline: u128,
    params: Option<CborTree>,
    now: u128,
    cancelled: bool,
)
    ensures
        !cancelled && now < deadline ==> passed_on(deadline, params, now, cancelled) == (
        UnlockStepView::Pin { params, within: (deadline - now) as u128 }),
        cancelled ==> passed_on(deadline, params, now, cancelled) == UnlockStepView::Done(
            Err(ErrorView::UserCancelled),
        ),
        !cancelled && deadline <= now ==> passed_on(deadline, params, now, cancelled)
            == UnlockStepView::Done(Err(ErrorView::Timeout)),
{
}

/// An answer makes the parameters that have the same meaning, if it makes any.
/// No answer makes none, and neither does a number that is not an integer.
pub proof fn lemma_answers_keep_their_meaning(answer: JsonValue)
    ensures
        answer_form(None) is None,
        answer_form(Some(JsonValue::Opaque)) is None,
        answer_form(Some(answer)) is Some <==> cbor_form(answer) is Some,
        answer_form(Some(answer)) matches Some(params) ==> json_of(params) == Some(answer@),
{
    lemma_json_survives_cbor(answer);
}

/// An answer of the pinserver may be 65536 bytes long.
pub proof fn lemma_bodies_are_limited()
    ensures
        MAX_BODY_BYTES == 65536,
{
}

/// The values of a request and of a step are what their fields hold.
pub proof fn lemma_requests_and_steps_show_their_fields(request: PinRequest, step: UnlockStep)
    ensures
        request@.method == request.method@,
        request@.url is Some <==> request.url is Some,
        request.url matches Some(url) ==> request@.url == Some(url@),
        request@.document is Some <==> request.document is Some,
        request.document matches Some(j) ==> request@.document == Some(j@),
        Auth::Unlocked@ is Unlocked,
        Auth::Ask(request)@ == AuthView::Ask(request@),
        step matches UnlockStep::Fetch { url, method, body, within } ==> (
        step@ matches UnlockStepView::Fetch { url: u, method: m, body: b, within: w } && u == url@
            && m == method@ && w == within && (b is Some <==> body is Some) && (body matches Some(
            text,
        ) ==> b == Some(text@))),
        step matches UnlockStep::Pin { params, within } ==> (step@ matches UnlockStepView::Pin {
            params: p,
            within: w,
        } && w == within && (p is Some <==> params is Some) && (params matches Some(value) ==> p
            == Some(value@))),
        step matches UnlockStep::Done(outcome) ==> (step@ matches UnlockStepView::Done(o) && (o
            is Ok <==> outcome is Ok) && (outcome matches Err(e) ==> o == Err::<(), ErrorView>(
            e@,
        ))),
{
}

/// The parameters that are built for `auth_user` are a map of two entries: the
/// network by the name that the device has for it, and the epoch.
pub proof fn lemma_built_auth_params(network: JadeNetwork, epoch: u64, r: CborValue)
    requires
        call_ensures(auth_params, (network, epoch), r),
    ensures
        r@ == CborTree::Pairs(
            seq![
                (
                    CborTree::Text("network"@),
                    CborTree::Text(
                        match network {
                            JadeNetwork::Mainnet => "mainnet"@,
                            JadeNetwork::Testnet => "testnet"@,
                            JadeNetwork::Regtest => "localtest"@,
                        },
                    ),
                ),
                (CborTree::Text("epoch"@), CborTree::Integer(epoch as int)),
            ],
        ),
{
    lemma_networks_have_their_names(network, network);
}

/// Whatever URLs there are, the one that is picked is among them, is no hidden
/// service, and has only hidden services ahead of it; if none is picked all of
/// them are.
pub proof fn lemma_the_picked_url(urls: &Vec<String>, r: Option<String>)
    requires
        call_ensures(pick_url, (urls,), r),
    ensures
        r matches Some(url) ==> exists|k: int|
            0 <= k < urls@.len() && (#[trigger] urls@[k])@ == url@ && !is_onion(url@) && forall|
                j: int,
            |
                0 <= j < k ==> is_onion((#[trigger] urls@[j])@),
        r is None ==> forall|k: int| 0 <= k < urls@.len() ==> is_onion((#[trigger] urls@[k])@),
{
    let texts = Seq::new(urls@.len(), |i: int| urls@[i]@);
    lemma_picked_url(texts);
    if let Some(url) = r {
        lemma_the_first_reachable_url_is_picked(texts, url@);
        let k = choose|k: int|
            {
                &&& 0 <= k < texts.len()
                &&& #[trigger] texts[k] == url@
                &&& !is_onion(url@)
                &&& forall|j: int| 0 <= j < k ==> is_onion(#[trigger] texts[j])
            };
        assert(urls@[k]@ == url@);
        assert forall|j: int| 0 <= j < k implies is_onion((#[trigger] urls@[j])@) by {
            assert(texts[j] == urls@[j]@);
        }
    } else {
        assert forall|k: int| 0 <= k < urls@.len() implies is_onion((#[trigger] urls@[k])@) by {
            assert(texts[k] == urls@[k]@);
        }
    }
}

/// A part of an answer is taken exactly if all that was taken so far stays
/// within 65536 bytes with it, and then stands behind the rest. Otherwise what
/// was taken stays as it was.
pub proof fn lemma_bodies_grow_by_their_parts(
    body: &mut Vec<u8>,
    chunk: &[u8],
    r: Result<(), JadeError>,
)
    requires
        call_ensures(append_body_chunk, (body, chunk), r),
    ensures
        r is Ok <==> old(body)@.len() + chunk@.len() <= 65536,
        r is Ok ==> final(body)@ == old(body)@ + chunk@,
        r is Err ==> final(body)@ == old(body)@ && r->Err_0 is PinServerError,
{
}

/// Whatever goes wrong with the pinserver, `pin` is sent without parameters
/// while the attempt has time and was not cancelled. An answer that is a
/// document of whole numbers is passed on with its meaning unchanged.
pub proof fn lemma_fetching_leads_to_pin(
    attempt: &Unlocking,
    answer: Option<Result<Vec<u8>, JadeError>>,
    now: u128,
    cancel: &CancelHandle,
    r: UnlockStep,
)
    requires
        call_ensures(Unlocking::after_fetch, (attempt, answer, now, cancel), r),
        answer is Some,
        !cancel.on(),
        now < attempt.until(),
    ensures
        r matches UnlockStep::Pin { within, .. } && now + within == attempt.until(),
        answer->Some_0 is Err ==> r->Pin_params is None,
        answer->Some_0 matches Ok(bytes) ==> (json_decoded(bytes@) is None ==> r->Pin_params
            is None),
        answer->Some_0 matches Ok(bytes) ==> (json_decoded(bytes@) matches Some(j) ==> {
            &&& !whole(j) ==> r->Pin_params is None
            &&& whole(j) ==> (r->Pin_params matches Some(params) && json_of(params@) == Some(j))
        }),
{
}

} // verus!
