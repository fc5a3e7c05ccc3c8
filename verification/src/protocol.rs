//! Frames and requests.
//!
//! The device speaks a JSON-RPC shaped protocol encoded as CBOR. Requests and
//! replies are maps; one map is one frame.

use crate::cbor::{
    cbor_bytes, encode, entry_trees, head_bytes, lemma_encoding_is_one_item, lemma_pairs_tree,
    plain, sized, CborTree, CborValue,
};
use crate::error::{viewed, ErrorView, JadeError};
use crate::frame::{
    find_item, first_item, is_item, lemma_extent_in_bounds, lemma_extent_local,
    lemma_extent_stable, Extent, Found, Task,
};
use crate::members::{holds, lacks, named};
use crate::text::{
    decimal, decimal_text, lemma_decimal_injective, lemma_decimal_length, lemma_decimal_starts,
};
use vstd::prelude::*;

verus! {

/// How many bytes may wait for a frame to become complete.
///
/// A corrupt length would otherwise make the buffer grow without end.
pub const MAX_FRAME_BYTES: usize = 1024 * 1024;

/// The id of a reply to a message whose own id the device could not read.
pub const UNATTRIBUTED_ID: &'static str = "00";

// ----------------------------------------------------------------------------
// Framing
// ----------------------------------------------------------------------------
/// Splits the first frame off `buffer`: the frame and what stands behind it,
/// nothing while the frame is incomplete, or the reason why no frame can come.
pub open spec fn take_frame(buffer: Seq<u8>) -> Result<Option<(Seq<u8>, Seq<u8>)>, ErrorView> {
    match first_item(buffer) {
        Extent::Complete(n) => Ok(Some((buffer.take(n as int), buffer.skip(n as int)))),
        Extent::Partial => if buffer.len() > MAX_FRAME_BYTES {
            Err(ErrorView::ProtocolError("frame exceeds the size limit"@))
        } else {
            Ok(None)
        },
        Extent::Malformed => Err(ErrorView::ProtocolError("malformed CBOR in the stream"@)),
    }
}

/// Takes the first frame out of the buffer.
///
/// An incomplete frame leaves the buffer as it is. A failure clears it, since
/// nothing in it says where the next frame starts.
pub fn try_take_frame(buffer: &mut Vec<u8>) -> (r: Result<Option<Vec<u8>>, JadeError>)
    ensures
        match take_frame(old(buffer)@) {
            Ok(Some((frame, rest))) => r is Ok && r->Ok_0 is Some && r->Ok_0->Some_0@ == frame
                && final(buffer)@ == rest,
            Ok(None) => r == Ok::<Option<Vec<u8>>, JadeError>(None) && final(buffer)@ == old(
                buffer,
            )@,
            Err(e) => r is Err && r->Err_0@ == e && final(buffer)@ == Seq::<u8>::empty(),
        },
{
    match find_item(buffer.as_slice()) {
        Found::Complete(n) => {
            proof {
                lemma_extent_in_bounds(buffer@, Task::Items(1));
            }
            let mut rest = buffer.split_off(n);
            std::mem::swap(&mut rest, buffer);
            proof {
                assert(rest@ =~= old(buffer)@.take(n as int));
                assert(buffer@ =~= old(buffer)@.skip(n as int));
            }
            Ok(Some(rest))
        },
        Found::Partial => {
            if buffer.len() > MAX_FRAME_BYTES {
                buffer.clear();
                Err(JadeError::protocol("frame exceeds the size limit".to_owned()))
            } else {
                Ok(None)
            }
        },
        Found::Malformed => {
            buffer.clear();
            Err(JadeError::protocol("malformed CBOR in the stream".to_owned()))
        },
    }
}

/// Whether `frame` is exactly one data item.
pub open spec fn is_frame(frame: Seq<u8>) -> bool {
    first_item(frame) == Extent::Complete(frame.len())
}

/// A frame comes out whole and alone, whatever was read behind it.
pub proof fn lemma_frame_comes_out_alone(frame: Seq<u8>, rest: Seq<u8>)
    requires
        is_frame(frame),
    ensures
        take_frame(frame + rest) == Ok::<_, ErrorView>(Some((frame, rest))),
{
    lemma_extent_stable(frame, rest, Task::Items(1));
    assert((frame + rest).take(frame.len() as int) =~= frame);
    assert((frame + rest).skip(frame.len() as int) =~= rest);
}

/// A part of a frame is never taken for a frame nor for an error: it waits for
/// the bytes that are missing.
pub proof fn lemma_partial_frame_waits(frame: Seq<u8>, read: nat)
    requires
        is_frame(frame),
        read < frame.len(),
        read <= MAX_FRAME_BYTES,
    ensures
        take_frame(frame.take(read as int)) == Ok::<Option<(Seq<u8>, Seq<u8>)>, ErrorView>(None),
{
    let part = frame.take(read as int);
    let missing = frame.skip(read as int);
    assert(part + missing =~= frame);
    lemma_extent_stable(part, missing, Task::Items(1));
    lemma_extent_in_bounds(part, Task::Items(1));
}

/// However many bytes arrive, the buffer is either emptied of frames or given
/// up: what is left waiting is within the limit.
pub proof fn lemma_waiting_is_bounded(buffer: Seq<u8>)
    ensures
        take_frame(buffer) == Ok::<Option<(Seq<u8>, Seq<u8>)>, ErrorView>(None) ==> buffer.len()
            <= MAX_FRAME_BYTES,
{
}

// ----------------------------------------------------------------------------
// Request ids
// ----------------------------------------------------------------------------
/// The ids of the requests on one connection.
#[derive(Debug)]
pub struct RequestIds {
    next: u32,
}

/// The number of the request after the one with number `n`.
pub open spec fn id_after(n: u32) -> u32 {
    if n == u32::MAX {
        1
    } else {
        (n + 1) as u32
    }
}

impl RequestIds {
    /// The number of the next request.
    pub closed spec fn upcoming(&self) -> u32 {
        self.next
    }

    /// Ids that start at 1.
    pub fn new() -> (r: RequestIds)
        ensures
            r.upcoming() == 1,
    {
        RequestIds { next: 1 }
    }

    /// The next id: the decimal numeral of a counter.
    pub fn next_id(&mut self) -> (r: String)
        ensures
            r@ == decimal(old(self).upcoming() as nat),
            final(self).upcoming() == id_after(old(self).upcoming()),
    {
        let id = decimal_text(self.next as u64);
        self.next = if self.next == u32::MAX {
            1
        } else {
            self.next + 1
        };
        id
    }
}

/// Every id is within what the device accepts: shorter than sixteen
/// characters, and not empty.
pub proof fn lemma_ids_fit_the_device(n: u32)
    ensures
        0 < decimal(n as nat).len() < 16,
{
    lemma_decimal_starts(n as nat);
    lemma_decimal_length(n as nat);
}

/// No request has the id of replies that belong to none.
pub proof fn lemma_ids_are_attributable(n: u32)
    ensures
        decimal(n as nat) != UNATTRIBUTED_ID@,
{
    reveal_strlit("00");
    lemma_decimal_starts(n as nat);
}

/// The number of the request that comes `steps` requests after number `n`.
pub open spec fn id_later(n: u32, steps: nat) -> u32
    decreases steps,
{
    if steps == 0 {
        n
    } else {
        id_after(id_later(n, (steps - 1) as nat))
    }
}

/// Requests of one connection have different ids, as long as fewer than
/// `u32::MAX` requests lie between them.
pub proof fn lemma_ids_are_fresh(n: u32, steps: nat)
    requires
        n >= 1,
        0 < steps < u32::MAX,
    ensures
        decimal(id_later(n, steps) as nat) != decimal(n as nat),
{
    lemma_id_later(n, steps);
    if decimal(id_later(n, steps) as nat) == decimal(n as nat) {
        lemma_decimal_injective(id_later(n, steps) as nat, n as nat);
    }
}

/// Counting on wraps around once behind the largest number.
proof fn lemma_id_later(n: u32, steps: nat)
    requires
        n >= 1,
        steps < u32::MAX,
    ensures
        id_later(n, steps) == (if n + steps <= u32::MAX {
            n + steps
        } else {
            n + steps - u32::MAX
        }),
    decreases steps,
{
    if steps > 0 {
        lemma_id_later(n, (steps - 1) as nat);
    }
}

// ----------------------------------------------------------------------------
// Requests
// ----------------------------------------------------------------------------
/// The map that is sent for a request. Without parameters the key is left out:
/// the device takes a null for a parameter of the wrong type.
pub open spec fn request_tree(
    id: Seq<char>,
    method: Seq<char>,
    params: Option<CborTree>,
) -> CborTree {
    let named = seq![
        (CborTree::Text("id"@), CborTree::Text(id)),
        (CborTree::Text("method"@), CborTree::Text(method)),
    ];
    CborTree::Pairs(
        match params {
            Some(p) => named.push((CborTree::Text("params"@), p)),
            None => named,
        },
    )
}

/// The value of optional parameters.
pub open spec fn params_tree(params: Option<CborValue>) -> Option<CborTree> {
    match params {
        Some(p) => Some(p@),
        None => None,
    }
}

/// The bytes that are sent for a request, or why none are.
pub open spec fn request_bytes(
    id: Seq<char>,
    method: Seq<char>,
    params: Option<CborTree>,
) -> Result<Seq<u8>, ErrorView> {
    let tree = request_tree(id, method, params);
    if plain(tree) {
        Ok(cbor_bytes(tree))
    } else {
        Err(ErrorView::ProtocolError("parameters cannot be encoded"@))
    }
}

/// A text item.
pub fn text_value(text: &str) -> (r: CborValue)
    ensures
        r@ == CborTree::Text(text@),
{
    CborValue::Text(text.to_owned())
}

/// Builds the map that is sent for a request.
pub fn request_value(id: &str, method: &str, params: Option<CborValue>) -> (r: CborValue)
    ensures
        r@ == request_tree(id@, method@, params_tree(params)),
{
    broadcast use lemma_pairs_tree;

    let ghost given = params_tree(params);
    let mut entries: Vec<(CborValue, CborValue)> = Vec::new();
    entries.push((text_value("id"), text_value(id)));
    entries.push((text_value("method"), text_value(method)));
    if let Some(p) = params {
        entries.push((text_value("params"), p));
    }
    proof {
        assert(entry_trees(entries@) =~= request_tree(id@, method@, given)->Pairs_0);
    }
    CborValue::Pairs(entries)
}

/// Encodes a request. Parameters that hold a float are refused: the protocol
/// has none, and this crate does not hold them.
pub fn encode_request(id: &str, method: &str, params: Option<CborValue>) -> (r: Result<
    Vec<u8>,
    JadeError,
>)
    ensures
        viewed(r) == request_bytes(id@, method@, params_tree(params)),
{
    match encode(&request_value(id, method, params)) {
        Some(bytes) => Ok(bytes),
        None => Err(JadeError::protocol("parameters cannot be encoded".to_owned())),
    }
}

/// A request is one frame, so that the device finds its end.
pub proof fn lemma_request_is_a_frame(id: Seq<char>, method: Seq<char>, params: Option<CborTree>)
    requires
        sized(request_tree(id, method, params)),
    ensures
        request_bytes(id, method, params) matches Ok(bytes) ==> is_frame(bytes),
{
    let tree = request_tree(id, method, params);
    if plain(tree) {
        lemma_encoding_is_one_item(tree, Seq::empty());
        assert(cbor_bytes(tree) + Seq::<u8>::empty() =~= cbor_bytes(tree));
    }
}

/// Binary data goes out as a byte string, never as an array of numbers: the
/// device reads it with a getter that accepts nothing else.
pub proof fn lemma_binary_goes_out_as_bytes(bytes: Seq<u8>)
    requires
        bytes.len() < 0x1_0000_0000_0000_0000,
    ensures
        0x40 <= cbor_bytes(CborTree::Bytes(bytes))[0] <= 0x5f,
{
    assert(cbor_bytes(CborTree::Bytes(bytes))[0] == head_bytes(2, bytes.len())[0]);
}

/// A frame is split off exactly if the buffer starts with one: the frame and
/// the rest are the buffer. Bytes that may become a frame wait, up to a
/// mebibyte. Nothing else does: it is an error, and a protocol error at that.
pub proof fn lemma_frames_are_split_off(buffer: Seq<u8>, frame: Seq<u8>, rest: Seq<u8>)
    ensures
        take_frame(buffer) == Ok::<Option<(Seq<u8>, Seq<u8>)>, ErrorView>(Some((frame, rest)))
            <==> buffer == frame + rest && is_item(frame),
        take_frame(buffer) == Ok::<Option<(Seq<u8>, Seq<u8>)>, ErrorView>(None) <==> first_item(
            buffer,
        ) is Partial && buffer.len() <= 1_048_576,
        take_frame(buffer) is Err <==> first_item(buffer) is Malformed || (first_item(buffer)
            is Partial && buffer.len() > 1_048_576),
        first_item(buffer) is Malformed ==> take_frame(buffer) == Err::<
            Option<(Seq<u8>, Seq<u8>)>,
            ErrorView,
        >(ErrorView::ProtocolError("malformed CBOR in the stream"@)),
        first_item(buffer) is Partial ==> (take_frame(buffer) matches Err(e) ==> e
            == ErrorView::ProtocolError("frame exceeds the size limit"@)),
        is_frame(frame) <==> is_item(frame),
{
    lemma_extent_in_bounds(buffer, Task::Items(1));
    if let Ok(Some((first, behind))) = take_frame(buffer) {
        assert(first + behind =~= buffer);
        lemma_extent_local(first, behind, Task::Items(1));
    }
    if buffer == frame + rest && is_item(frame) {
        lemma_frame_comes_out_alone(frame, rest);
    }
}

/// A request is a map with its id and its method, and its parameters if it has
/// any. Without parameters that key is left out. Requests that differ in any of
/// the three are different maps.
pub proof fn lemma_requests_say_what_they_are(
    id: Seq<char>,
    method: Seq<char>,
    params: Option<CborTree>,
)
    ensures
        request_tree(id, method, params) is Pairs,
        ({
            let entries = request_tree(id, method, params)->Pairs_0;
            &&& holds(entries, "id"@, CborTree::Text(id))
            &&& holds(entries, "method"@, CborTree::Text(method))
            &&& params is None ==> entries.len() == 2 && lacks(entries, "params"@)
            &&& params matches Some(p) ==> entries.len() == 3 && holds(entries, "params"@, p)
        }),
        plain(request_tree(id, method, params)) <==> (params matches Some(p) ==> plain(p)),
        request_bytes(id, method, params) is Ok <==> (params matches Some(p) ==> plain(p)),
        request_bytes(id, method, params) matches Ok(bytes) ==> bytes == cbor_bytes(
            request_tree(id, method, params),
        ),
        request_bytes(id, method, params) matches Err(e) ==> e == ErrorView::ProtocolError(
            "parameters cannot be encoded"@,
        ),
{
    let tree = request_tree(id, method, params);
    let entries = tree->Pairs_0;
    reveal_strlit("id");
    reveal_strlit("method");
    reveal_strlit("params");
    assert("id"@.len() == 2 && "method"@.len() == 6 && "params"@.len() == 6);
    assert("method"@[0] == 'm' && "params"@[0] == 'p');
    assert(entries[0] == (CborTree::Text("id"@), CborTree::Text(id)));
    assert(entries[1] == (CborTree::Text("method"@), CborTree::Text(method)));
    assert(named(entries, 0, "id"@));
    assert(named(entries, 1, "method"@));
    if let Some(p) = params {
        assert(entries[2] == (CborTree::Text("params"@), p));
        assert(named(entries, 2, "params"@));
    }
    assert forall|i: int| 0 <= i < entries.len() implies (#[trigger] named(entries, i, "id"@) ==> i
        == 0) && (named(entries, i, "method"@) ==> i == 1) && (named(entries, i, "params"@) ==> i
        == 2) by {}
    if params matches Some(p) ==> plain(p) {
        assert forall|i: int|
            #![trigger tree->Pairs_0[i]]
            0 <= i < tree->Pairs_0.len() implies plain(tree->Pairs_0[i].0) && plain(
            tree->Pairs_0[i].1,
        ) by {
            if i == 2 {
                assert(entries[2].1 == params->Some_0);
            }
        }
    }
    if plain(tree) {
        if let Some(p) = params {
            let last = tree->Pairs_0[2];
            assert(plain(last.1));
        }
    }
}

/// Requests are numbered one after the other, from one again behind the
/// largest number that fits 32 bits.
pub proof fn lemma_ids_count_up(n: u32)
    ensures
        n < 4_294_967_295 ==> id_after(n) == n + 1,
        n == 4_294_967_295 ==> id_after(n) == 1,
        id_after(n) >= 1,
{
}

/// The value of optional parameters is theirs.
pub proof fn lemma_parameters_show_what_they_hold(params: CborValue)
    ensures
        params_tree(Some(params)) == Some(params@),
        params_tree(None) is None,
{
}

/// Taking a frame out of the buffer loses nothing: the frame and what is left
/// are what was there. Without a complete frame nothing changes, and a failure
/// leaves nothing.
pub proof fn lemma_taking_frames_loses_nothing(
    buffer: &mut Vec<u8>,
    r: Result<Option<Vec<u8>>, JadeError>,
)
    requires
        call_ensures(try_take_frame, (buffer,), r),
    ensures
        r matches Ok(Some(frame)) ==> is_item(frame@) && old(buffer)@ == frame@ + final(buffer)@,
        r matches Ok(None) ==> final(buffer)@ == old(buffer)@ && first_item(old(buffer)@)
            is Partial && old(buffer)@.len() <= 1_048_576,
        r is Err ==> final(buffer)@.len() == 0 && r->Err_0 is ProtocolError,
{
    if let Ok(Some(frame)) = r {
        lemma_frames_are_split_off(old(buffer)@, frame@, final(buffer)@);
    } else {
        lemma_frames_are_split_off(old(buffer)@, Seq::empty(), Seq::empty());
    }
}

/// Each id is the numeral of the next number, and two that follow one another
/// differ.
pub proof fn lemma_ids_follow_one_another(
    ids: &mut RequestIds,
    later: &mut RequestIds,
    first: String,
    second: String,
)
    requires
        call_ensures(RequestIds::next_id, (ids,), first),
        call_ensures(RequestIds::next_id, (later,), second),
        old(later).upcoming() == final(ids).upcoming(),
        old(ids).upcoming() < u32::MAX,
    ensures
        first@ == decimal(old(ids).upcoming() as nat),
        second@ == decimal((old(ids).upcoming() + 1) as nat),
        first@ != second@,
{
    if first@ == second@ {
        lemma_decimal_injective(old(ids).upcoming() as nat, (old(ids).upcoming() + 1) as nat);
    }
}

} // verus!
