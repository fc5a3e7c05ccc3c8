//! Replies: how they are read, whom they belong to, and what they carry.

use crate::cbor::{
    cbor_bytes, decode, decoded, entry_trees, lemma_pairs_tree, reads_back, CborTree, CborValue,
};
use crate::error::{rpc_error, viewed, ErrorView, JadeError};
use crate::members::{
    find, gives_count, gives_none, has_text_keys, holds, integer_member, keys_are_text,
    lemma_holding_is_being_the_member, member, read_integer, read_text, text_member, text_view,
    Member, Slot,
};
use crate::protocol::{request_tree, UNATTRIBUTED_ID};
use crate::text::same_text;
use vstd::prelude::*;

verus! {

/// An error that the device reports.
#[derive(Debug, PartialEq, Eq)]
pub struct RpcError {
    pub code: i64,
    pub message: String,
}

/// A reply, or a message that the device sent of its own accord.
#[derive(Debug, PartialEq)]
pub struct JadeReply {
    /// The id of the request that is answered.
    pub id: Option<String>,
    pub result: Option<CborValue>,
    pub error: Option<RpcError>,
    /// The number of this fragment of the reply, from 1.
    pub seqnum: Option<u32>,
    /// How many fragments the reply has.
    pub seqlen: Option<u32>,
}

/// An [`RpcError`] with its text as a sequence of characters.
pub struct RpcErrorView {
    pub code: i64,
    pub message: Seq<char>,
}

/// The mathematical value of a [`JadeReply`].
pub struct ReplyView {
    pub id: Option<Seq<char>>,
    pub result: Option<CborTree>,
    pub error: Option<RpcErrorView>,
    pub seqnum: Option<u32>,
    pub seqlen: Option<u32>,
}

impl View for RpcError {
    type V = RpcErrorView;

    open spec fn view(&self) -> RpcErrorView {
        RpcErrorView { code: self.code, message: self.message@ }
    }
}

impl View for JadeReply {
    type V = ReplyView;

    open spec fn view(&self) -> ReplyView {
        ReplyView {
            id: text_view(self.id),
            result: match self.result {
                Some(v) => Some(v@),
                None => None,
            },
            error: match self.error {
                Some(e) => Some(e@),
                None => None,
            },
            seqnum: self.seqnum,
            seqlen: self.seqlen,
        }
    }
}

/// A member that may be missing or null, or is an item of any kind.
pub open spec fn result_member(entries: Seq<(CborTree, CborTree)>) -> Option<Option<CborTree>> {
    match member(entries, "result"@) {
        Member::Absent => Some(None),
        Member::Once(CborTree::Null) => Some(None),
        Member::Once(t) => Some(Some(t)),
        Member::Repeated => None,
    }
}

/// The error that the entries of a map describe: a code and a message.
pub open spec fn described_error(entries: Seq<(CborTree, CborTree)>) -> Option<RpcErrorView> {
    match (
        integer_member(entries, "code"@, i64::MIN as int, i64::MAX as int),
        text_member(entries, "message"@),
    ) {
        (Some(Some(code)), Some(Some(message))) => if keys_are_text(entries) {
            Some(RpcErrorView { code: code as i64, message })
        } else {
            None
        },
        _ => None,
    }
}

/// A member that may be missing or null, or describes an error.
pub open spec fn error_member(entries: Seq<(CborTree, CborTree)>) -> Option<Option<RpcErrorView>> {
    match member(entries, "error"@) {
        Member::Absent => Some(None),
        Member::Once(CborTree::Null) => Some(None),
        Member::Once(CborTree::Pairs(described)) => match described_error(described) {
            Some(e) => Some(Some(e)),
            None => None,
        },
        _ => None,
    }
}

/// A member that may be missing or null, or counts fragments.
pub open spec fn count_member(entries: Seq<(CborTree, CborTree)>, name: Seq<char>) -> Option<
    Option<u32>,
> {
    match integer_member(entries, name, 0, u32::MAX as int) {
        Some(Some(n)) => Some(Some(n as u32)),
        Some(None) => Some(None),
        None => None,
    }
}

/// The reply that an item is, if it is one: a map whose keys are text, in which
/// each member that a reply can have stands at most once and is of its kind.
/// Other members are left aside.
pub open spec fn reply_in(t: CborTree) -> Option<ReplyView> {
    match t {
        CborTree::Pairs(entries) => match (
            text_member(entries, "id"@),
            result_member(entries),
            error_member(entries),
            count_member(entries, "seqnum"@),
            count_member(entries, "seqlen"@),
        ) {
            (Some(id), Some(result), Some(error), Some(seqnum), Some(seqlen)) => if keys_are_text(
                entries,
            ) {
                Some(ReplyView { id, result, error, seqnum, seqlen })
            } else {
                None
            },
            _ => None,
        },
        _ => None,
    }
}

/// The error for a frame that is not a reply.
pub open spec fn not_a_reply() -> ErrorView {
    ErrorView::ProtocolError("frame is not a reply"@)
}

/// The reply that an item is, or the error for one that is none.
pub open spec fn reply_of(t: CborTree) -> Result<ReplyView, ErrorView> {
    match reply_in(t) {
        Some(reply) => Ok(reply),
        None => Err(not_a_reply()),
    }
}

/// The reply in a frame.
pub open spec fn decoded_reply(frame: Seq<u8>) -> Result<ReplyView, ErrorView> {
    match decoded(frame) {
        Some(t) => reply_of(t),
        None => Err(not_a_reply()),
    }
}

fn read_count(entries: &Vec<(CborValue, CborValue)>, name: &str) -> (r: Option<Option<u32>>)
    ensures
        r == count_member(entry_trees(entries@), name@),
{
    match read_integer(entries, name, 0, u32::MAX as i128) {
        Some(Some(n)) => Some(Some(n as u32)),
        Some(None) => Some(None),
        None => None,
    }
}

fn describe_error(entries: &Vec<(CborValue, CborValue)>) -> (r: Option<RpcError>)
    ensures
        described_error(entry_trees(entries@)) == (match r {
            Some(e) => Some(e@),
            None => None,
        }),
{
    let code = read_integer(entries, "code", i64::MIN as i128, i64::MAX as i128);
    let message = read_text(entries, "message");
    match (code, message) {
        (Some(Some(code)), Some(Some(message))) => if has_text_keys(entries) {
            Some(RpcError { code: code as i64, message })
        } else {
            None
        },
        _ => None,
    }
}

fn read_error(entries: &Vec<(CborValue, CborValue)>) -> (r: Option<Option<RpcError>>)
    ensures
        error_member(entry_trees(entries@)) == (match r {
            Some(Some(e)) => Some(Some(e@)),
            Some(None) => Some(None),
            None => None,
        }),
{
    broadcast use lemma_pairs_tree;

    match find(entries, "error") {
        Slot::Absent => Some(None),
        Slot::At(i) => match &entries[i].1 {
            CborValue::Null => Some(None),
            CborValue::Pairs(described) => match describe_error(described) {
                Some(e) => Some(Some(e)),
                None => None,
            },
            _ => None,
        },
        Slot::Repeated => None,
    }
}

/// Takes the result out of the entries of a reply.
fn take_result(entries: Vec<(CborValue, CborValue)>) -> (r: Option<Option<CborValue>>)
    ensures
        result_member(entry_trees(entries@)) == (match r {
            Some(Some(v)) => Some(Some(v@)),
            Some(None) => Some(None),
            None => None,
        }),
{
    let mut entries = entries;
    match find(&entries, "result") {
        Slot::Absent => Some(None),
        Slot::At(i) => {
            let value = entries.swap_remove(i).1;
            match value {
                CborValue::Null => Some(None),
                value => Some(Some(value)),
            }
        },
        Slot::Repeated => None,
    }
}

/// Reads an item as a reply.
pub fn reply_from_value(value: CborValue) -> (r: Result<JadeReply, JadeError>)
    ensures
        viewed(r) == reply_of(value@),
{
    broadcast use lemma_pairs_tree;

    if let CborValue::Pairs(entries) = value {
        let id = read_text(&entries, "id");
        let error = read_error(&entries);
        let seqnum = read_count(&entries, "seqnum");
        let seqlen = read_count(&entries, "seqlen");
        let textual = has_text_keys(&entries);
        let result = take_result(entries);
        match (id, result, error, seqnum, seqlen) {
            (Some(id), Some(result), Some(error), Some(seqnum), Some(seqlen)) => if textual {
                return Ok(JadeReply { id, result, error, seqnum, seqlen });
            },
            _ => {},
        }
    }
    Err(JadeError::protocol("frame is not a reply".to_owned()))
}

/// Reads a frame as a reply.
pub fn decode_reply(frame: &[u8]) -> (r: Result<JadeReply, JadeError>)
    ensures
        viewed(r) == decoded_reply(frame@),
        forall|t: CborTree|
            reads_back(t) && frame@ == #[trigger] cbor_bytes(t) ==> viewed(r) == reply_of(t),
{
    match decode(frame) {
        Some(value) => reply_from_value(value),
        None => Err(JadeError::protocol("frame is not a reply".to_owned())),
    }
}

// ----------------------------------------------------------------------------
// Correlation
// ----------------------------------------------------------------------------
/// What a message means for the request in flight.
#[derive(Debug, PartialEq)]
pub enum ReplyMatch {
    /// It is the reply.
    Matched(JadeReply),
    /// It is an error whose request the device could not name. It ends the
    /// request in flight, which would otherwise wait out its deadline.
    Unattributed(RpcError),
    /// It is a log message, or a reply to an earlier request.
    Ignore,
}

/// The mathematical value of a [`ReplyMatch`].
pub enum MatchView {
    Matched(ReplyView),
    Unattributed(RpcErrorView),
    Ignore,
}

impl View for ReplyMatch {
    type V = MatchView;

    open spec fn view(&self) -> MatchView {
        match *self {
            ReplyMatch::Matched(reply) => MatchView::Matched(reply@),
            ReplyMatch::Unattributed(error) => MatchView::Unattributed(error@),
            ReplyMatch::Ignore => MatchView::Ignore,
        }
    }
}

/// What a message means for the request with this id.
pub open spec fn match_of(reply: ReplyView, id: Seq<char>) -> MatchView {
    if reply.id == Some(id) {
        MatchView::Matched(reply)
    } else if reply.id == Some(UNATTRIBUTED_ID@) && reply.error is Some {
        MatchView::Unattributed(reply.error->Some_0)
    } else {
        MatchView::Ignore
    }
}

/// Tells what a message means for the request with this id.
pub fn classify(reply: JadeReply, id: &str) -> (r: ReplyMatch)
    ensures
        r@ == match_of(reply@, id@),
{
    let (own, unattributed) = match &reply.id {
        Some(given) => (
            same_text(given.as_str(), id),
            same_text(given.as_str(), UNATTRIBUTED_ID),
        ),
        None => (false, false),
    };
    if own {
        return ReplyMatch::Matched(reply);
    }
    if unattributed {
        if let Some(error) = reply.error {
            return ReplyMatch::Unattributed(error);
        }
    }
    ReplyMatch::Ignore
}

// ----------------------------------------------------------------------------
// Results
// ----------------------------------------------------------------------------
/// What a reply comes to: its result, or the error it carries.
pub open spec fn result_in(reply: ReplyView, min_firmware: Seq<char>) -> Result<
    CborTree,
    ErrorView,
> {
    match (reply.error, reply.result) {
        (Some(e), _) => Err(rpc_error(e.code, e.message, min_firmware)),
        (None, Some(t)) => Ok(t),
        (None, None) => Err(
            ErrorView::ProtocolError("reply carries neither a result nor an error"@),
        ),
    }
}

impl JadeReply {
    /// The result of the reply, or the error it carries.
    pub fn into_result(self, min_firmware: &str) -> (r: Result<CborValue, JadeError>)
        ensures
            viewed(r) == result_in(self@, min_firmware@),
    {
        match (self.error, self.result) {
            (Some(e), _) => Err(JadeError::from_rpc(e.code, e.message, min_firmware)),
            (None, Some(value)) => Ok(value),
            (None, None) => Err(
                JadeError::protocol("reply carries neither a result nor an error".to_owned()),
            ),
        }
    }
}

/// The byte string that a result is.
pub open spec fn bytes_in(t: CborTree) -> Result<Seq<u8>, ErrorView> {
    match t {
        CborTree::Bytes(bytes) => Ok(bytes),
        _ => Err(ErrorView::ProtocolError("result is not a byte string"@)),
    }
}

/// The text that a result is.
pub open spec fn text_in(t: CborTree) -> Result<Seq<char>, ErrorView> {
    match t {
        CborTree::Text(text) => Ok(text),
        _ => Err(ErrorView::ProtocolError("result is not text"@)),
    }
}

/// The truth value that a result is.
pub open spec fn bool_in(t: CborTree) -> Result<bool, ErrorView> {
    match t {
        CborTree::Bool(b) => Ok(b),
        _ => Err(ErrorView::ProtocolError("result is not a truth value"@)),
    }
}

/// Reads a result that must be a byte string.
pub fn result_bytes(value: &CborValue) -> (r: Result<Vec<u8>, JadeError>)
    ensures
        viewed(r) == bytes_in(value@),
{
    match value {
        CborValue::Bytes(bytes) => Ok(bytes.clone()),
        _ => Err(JadeError::protocol("result is not a byte string".to_owned())),
    }
}

/// Reads a result that must be text.
pub fn result_text(value: &CborValue) -> (r: Result<String, JadeError>)
    ensures
        viewed(r) == text_in(value@),
{
    match value {
        CborValue::Text(text) => Ok(text.clone()),
        _ => Err(JadeError::protocol("result is not text".to_owned())),
    }
}

/// Reads a result that must be a truth value.
pub fn result_bool(value: &CborValue) -> (r: Result<bool, JadeError>)
    ensures
        viewed(r) == bool_in(value@),
{
    match value {
        CborValue::Bool(b) => Ok(*b),
        _ => Err(JadeError::protocol("result is not a truth value".to_owned())),
    }
}

// ----------------------------------------------------------------------------
// Laws
// ----------------------------------------------------------------------------
/// The names of the members are different.
proof fn lemma_names_differ()
    ensures
        "id"@ != "method"@,
        "id"@ != "params"@,
        "id"@ != "result"@,
        "id"@ != "error"@,
        "id"@ != "seqnum"@,
        "id"@ != "seqlen"@,
        "result"@ != "method"@,
        "result"@ != "params"@,
        "result"@ != "error"@,
        "result"@ != "seqnum"@,
        "result"@ != "seqlen"@,
        "error"@ != "method"@,
        "error"@ != "params"@,
        "error"@ != "seqnum"@,
        "error"@ != "seqlen"@,
        "seqnum"@ != "method"@,
        "seqnum"@ != "params"@,
        "seqnum"@ != "seqlen"@,
        "seqlen"@ != "method"@,
        "seqlen"@ != "params"@,
{
    reveal_strlit("id");
    reveal_strlit("method");
    reveal_strlit("params");
    reveal_strlit("result");
    reveal_strlit("error");
    reveal_strlit("seqnum");
    reveal_strlit("seqlen");
    assert("id"@.len() == 2);
    assert("error"@.len() == 5);
    assert("seqlen"@.len() == 6);
    assert("result"@[0] == 'r');
    assert("method"@[0] == 'm');
    assert("params"@[0] == 'p');
    assert("seqnum"@[0] == 's');
    assert("seqnum"@[3] == 'n');
    assert("seqlen"@[3] == 'l');
}

/// What a map holds under a name, found from its entries but the last.
proof fn lemma_member_push(
    entries: Seq<(CborTree, CborTree)>,
    last: (CborTree, CborTree),
    name: Seq<char>,
)
    ensures
        member(entries.push(last), name) == (if last.0 != CborTree::Text(name) {
            member(entries, name)
        } else if member(entries, name) is Absent {
            Member::Once(last.1)
        } else {
            Member::Repeated
        }),
{
    assert(entries.push(last).drop_last() =~= entries);
}

/// The members of a map with two entries.
proof fn lemma_member_pair(
    first: (CborTree, CborTree),
    second: (CborTree, CborTree),
    name: Seq<char>,
)
    ensures
        member(seq![first, second], name) == (match (
            first.0 == CborTree::Text(name),
            second.0 == CborTree::Text(name),
        ) {
            (false, false) => Member::Absent,
            (true, false) => Member::Once(first.1),
            (false, true) => Member::Once(second.1),
            (true, true) => Member::Repeated,
        }),
{
    let none = Seq::<(CborTree, CborTree)>::empty();
    assert(seq![first, second] =~= none.push(first).push(second));
    lemma_member_push(none, first, name);
    lemma_member_push(none.push(first), second, name);
}

/// A request that is read as a reply has its id and nothing else, with or
/// without parameters.
pub proof fn lemma_request_reads_back(id: Seq<char>, method: Seq<char>, params: Option<CborTree>)
    ensures
        reply_of(request_tree(id, method, params)) == Ok::<ReplyView, ErrorView>(
            ReplyView { id: Some(id), result: None, error: None, seqnum: None, seqlen: None },
        ),
{
    lemma_names_differ();
    let first = (CborTree::Text("id"@), CborTree::Text(id));
    let second = (CborTree::Text("method"@), CborTree::Text(method));
    let named = seq![first, second];
    let names = seq!["id"@, "result"@, "error"@, "seqnum"@, "seqlen"@];
    let entries = request_tree(id, method, params)->Pairs_0;
    assert forall|k: int| 0 <= k < names.len() implies member(entries, #[trigger] names[k]) == (
    if k == 0 {
        Member::Once(CborTree::Text(id))
    } else {
        Member::Absent
    }) by {
        lemma_member_pair(first, second, names[k]);
        if let Some(p) = params {
            lemma_member_push(named, (CborTree::Text("params"@), p), names[k]);
        }
    }
    assert(names[0] == "id"@ && names[1] == "result"@ && names[2] == "error"@ && names[3]
        == "seqnum"@ && names[4] == "seqlen"@);
}

/// A reply with an id and a result is read as just that.
pub proof fn lemma_result_reads_back(id: Seq<char>, result: CborTree)
    requires
        !(result is Null),
    ensures
        reply_of(
            CborTree::Pairs(
                seq![
                    (CborTree::Text("id"@), CborTree::Text(id)),
                    (CborTree::Text("result"@), result),
                ],
            ),
        ) == Ok::<ReplyView, ErrorView>(
            ReplyView {
                id: Some(id),
                result: Some(result),
                error: None,
                seqnum: None,
                seqlen: None,
            },
        ),
{
    lemma_names_differ();
    let first = (CborTree::Text("id"@), CborTree::Text(id));
    let second = (CborTree::Text("result"@), result);
    lemma_member_pair(first, second, "id"@);
    lemma_member_pair(first, second, "result"@);
    lemma_member_pair(first, second, "error"@);
    lemma_member_pair(first, second, "seqnum"@);
    lemma_member_pair(first, second, "seqlen"@);
}

/// Whether a map says what this reply says, member by member.
pub open spec fn says(entries: Seq<(CborTree, CborTree)>, reply: ReplyView) -> bool {
    &&& forall|i: int| 0 <= i < entries.len() ==> (#[trigger] entries[i]).0 is Text
    &&& match reply.id {
        Some(id) => holds(entries, "id"@, CborTree::Text(id)),
        None => gives_none(entries, "id"@),
    }
    &&& match reply.result {
        Some(result) => !(result is Null) && holds(entries, "result"@, result),
        None => gives_none(entries, "result"@),
    }
    &&& match reply.error {
        Some(error) => exists|described: Seq<(CborTree, CborTree)>|
            {
                &&& #[trigger] holds(entries, "error"@, CborTree::Pairs(described))
                &&& forall|i: int|
                    0 <= i < described.len() ==> (#[trigger] described[i]).0 is Text
                &&& holds(described, "code"@, CborTree::Integer(error.code as int))
                &&& holds(described, "message"@, CborTree::Text(error.message))
            },
        None => gives_none(entries, "error"@),
    }
    &&& gives_count(entries, "seqnum"@, reply.seqnum)
    &&& gives_count(entries, "seqlen"@, reply.seqlen)
}

proof fn lemma_described_error(described: Seq<(CborTree, CborTree)>, error: RpcErrorView)
    ensures
        described_error(described) == Some(error) <==> {
            &&& forall|i: int| 0 <= i < described.len() ==> (#[trigger] described[i]).0 is Text
            &&& holds(described, "code"@, CborTree::Integer(error.code as int))
            &&& holds(described, "message"@, CborTree::Text(error.message))
        },
{
    lemma_holding_is_being_the_member(
        described,
        "code"@,
        CborTree::Integer(error.code as int),
    );
    lemma_holding_is_being_the_member(described, "message"@, CborTree::Text(error.message));
}

/// A map is read as a reply exactly if it says what the reply says: each member
/// that the reply has stands in it once, those that it lacks are missing or
/// null, and every key is text. Nothing but a map is a reply.
pub proof fn lemma_replies_say_what_was_sent(t: CborTree, reply: ReplyView)
    ensures
        reply_of(t) == Ok::<ReplyView, ErrorView>(reply) <==> t is Pairs && says(
            t->Pairs_0,
            reply,
        ),
        reply_of(t) matches Err(e) ==> e == ErrorView::ProtocolError("frame is not a reply"@),
{
    if let CborTree::Pairs(entries) = t {
        lemma_holding_is_being_the_member(entries, "id"@, CborTree::Null);
        lemma_holding_is_being_the_member(entries, "result"@, CborTree::Null);
        lemma_holding_is_being_the_member(entries, "error"@, CborTree::Null);
        lemma_holding_is_being_the_member(entries, "seqnum"@, CborTree::Null);
        lemma_holding_is_being_the_member(entries, "seqlen"@, CborTree::Null);
        if let Some(id) = reply.id {
            lemma_holding_is_being_the_member(entries, "id"@, CborTree::Text(id));
        }
        if let Some(result) = reply.result {
            lemma_holding_is_being_the_member(entries, "result"@, result);
        }
        if let Some(n) = reply.seqnum {
            lemma_holding_is_being_the_member(entries, "seqnum"@, CborTree::Integer(n as int));
        }
        if let Some(n) = reply.seqlen {
            lemma_holding_is_being_the_member(entries, "seqlen"@, CborTree::Integer(n as int));
        }
        if let Some(error) = reply.error {
            if let Member::Once(CborTree::Pairs(described)) = member(entries, "error"@) {
                lemma_described_error(described, error);
                lemma_holding_is_being_the_member(
                    entries,
                    "error"@,
                    CborTree::Pairs(described),
                );
            }
            assert forall|described: Seq<(CborTree, CborTree)>| #[trigger]
                holds(entries, "error"@, CborTree::Pairs(described)) implies member(
                entries,
                "error"@,
            ) == Member::Once(CborTree::Pairs(described)) by {
                lemma_holding_is_being_the_member(
                    entries,
                    "error"@,
                    CborTree::Pairs(described),
                );
            }
        }
    }
}

/// A frame is read as the reply that its item is.
pub proof fn lemma_frames_are_read_by_their_item(frame: Seq<u8>, t: CborTree)
    ensures
        decoded(frame) == Some(t) ==> decoded_reply(frame) == reply_of(t),
        decoded(frame) is None ==> decoded_reply(frame) == Err::<ReplyView, ErrorView>(
            ErrorView::ProtocolError("frame is not a reply"@),
        ),
{
}

/// A message is the reply to a request exactly if it carries the id of that
/// request. It ends the request without being the reply exactly if it carries
/// the id "00", another than the request has, and an error, which is passed on.
/// Any other message is ignored.
pub proof fn lemma_messages_are_matched_by_id(reply: ReplyView, id: Seq<char>)
    ensures
        match_of(reply, id) is Matched <==> reply.id == Some(id),
        match_of(reply, id) matches MatchView::Matched(matched) ==> matched == reply,
        match_of(reply, id) is Unattributed <==> reply.id == Some("00"@) && id != "00"@
            && reply.error is Some,
        match_of(reply, id) matches MatchView::Unattributed(error) ==> reply.error == Some(error),
{
}

/// A reply that carries an error comes to that error, even beside a result. One
/// that carries a result and no error comes to that result, unchanged. One that
/// carries neither is a protocol error.
pub proof fn lemma_replies_come_to_what_they_carry(reply: ReplyView, min_firmware: Seq<char>)
    ensures
        reply.error matches Some(e) ==> result_in(reply, min_firmware) == Err::<
            CborTree,
            ErrorView,
        >(rpc_error(e.code, e.message, min_firmware)),
        reply.error is None ==> (reply.result matches Some(t) ==> result_in(reply, min_firmware)
            == Ok::<CborTree, ErrorView>(t)),
        reply.error is None && reply.result is None ==> result_in(reply, min_firmware) == Err::<
            CborTree,
            ErrorView,
        >(ErrorView::ProtocolError("reply carries neither a result nor an error"@)),
{
}

/// A result is read as the byte string, the text or the truth value that it is,
/// whole and unchanged, and as nothing else.
pub proof fn lemma_results_are_read_whole(t: CborTree, bytes: Seq<u8>, text: Seq<char>, b: bool)
    ensures
        bytes_in(CborTree::Bytes(bytes)) == Ok::<Seq<u8>, ErrorView>(bytes),
        text_in(CborTree::Text(text)) == Ok::<Seq<char>, ErrorView>(text),
        bool_in(CborTree::Bool(b)) == Ok::<bool, ErrorView>(b),
        bytes_in(t) is Ok <==> t is Bytes,
        text_in(t) is Ok <==> t is Text,
        bool_in(t) is Ok <==> t is Bool,
        bytes_in(t) matches Err(e) ==> e == ErrorView::ProtocolError(
            "result is not a byte string"@,
        ),
        text_in(t) matches Err(e) ==> e == ErrorView::ProtocolError("result is not text"@),
        bool_in(t) matches Err(e) ==> e == ErrorView::ProtocolError(
            "result is not a truth value"@,
        ),
{
}

/// The value of a reply is what its fields hold.
pub proof fn lemma_replies_show_their_fields(reply: JadeReply, error: RpcError)
    ensures
        reply@.seqnum == reply.seqnum,
        reply@.seqlen == reply.seqlen,
        reply@.id is Some <==> reply.id is Some,
        reply.id matches Some(id) ==> reply@.id == Some(id@),
        reply@.result is Some <==> reply.result is Some,
        reply.result matches Some(result) ==> reply@.result == Some(result@),
        reply@.error is Some <==> reply.error is Some,
        reply.error matches Some(e) ==> reply@.error == Some(e@),
        error@.code == error.code,
        error@.message == error.message@,
{
}

/// Reading a result that is a byte string gives back its bytes, all of them and
/// in order, and reading any other gives none.
pub proof fn lemma_byte_strings_are_handed_out_whole(
    value: &CborValue,
    r: Result<Vec<u8>, JadeError>,
)
    requires
        call_ensures(result_bytes, (value,), r),
    ensures
        *value matches CborValue::Bytes(bytes) ==> (r matches Ok(out) && out@.len() == bytes@.len()
            && forall|i: int| 0 <= i < bytes@.len() ==> #[trigger] out@[i] == bytes@[i]),
        r is Ok <==> *value is Bytes,
{
}

} // verus!
