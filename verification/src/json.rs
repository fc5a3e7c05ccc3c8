//! JSON documents, which the pinserver speaks, and how CBOR items become them.
//!
//! The text form itself is serde_json's.

use crate::cbor::{
    entry_trees, item_trees, lemma_array_tree, lemma_pairs_tree, CborTree, CborValue,
};
use crate::error::{viewed, ErrorView, JadeError};
use crate::text::same_text;
use vstd::prelude::*;

verus! {

// ----------------------------------------------------------------------------
// Values
// ----------------------------------------------------------------------------
/// The mathematical value of a JSON document. The members of an object have no
/// order.
pub enum JsonTree {
    Null,
    Bool(bool),
    Integer(int),
    Text(Seq<char>),
    Array(Seq<JsonTree>),
    Object(Map<Seq<char>, JsonTree>),
    Opaque,
}

/// A JSON document.
#[derive(Debug, PartialEq)]
pub enum JsonValue {
    Null,
    Bool(bool),
    Integer(i128),
    Text(String),
    Array(Vec<JsonValue>),
    /// The members of an object. Of two with the same name the last counts.
    Object(Vec<(String, JsonValue)>),
    /// A number that is not an integer, which the pinserver does not use.
    Opaque,
}

impl View for JsonValue {
    type V = JsonTree;

    open spec fn view(&self) -> JsonTree {
        self.tree()
    }
}

impl JsonValue {
    /// The value of this document.
    pub open spec fn tree(&self) -> JsonTree
        decreases *self,
    {
        match *self {
            JsonValue::Null => JsonTree::Null,
            JsonValue::Bool(b) => JsonTree::Bool(b),
            JsonValue::Integer(n) => JsonTree::Integer(n as int),
            JsonValue::Text(text) => JsonTree::Text(text@),
            JsonValue::Array(items) => JsonTree::Array(
                Seq::new(
                    items@.len(),
                    |i: int|
                        if 0 <= i < items@.len() {
                            items@[i].tree()
                        } else {
                            JsonTree::Null
                        },
                ),
            ),
            JsonValue::Object(entries) => JsonTree::Object(members(entries@)),
            JsonValue::Opaque => JsonTree::Opaque,
        }
    }
}

/// The object that these members make up.
pub open spec fn members(entries: Seq<(String, JsonValue)>) -> Map<Seq<char>, JsonTree>
    decreases entries,
{
    if entries.len() == 0 {
        Map::empty()
    } else {
        let (name, value) = entries[entries.len() - 1];
        members(entries.drop_last()).insert(name@, value.tree())
    }
}

/// The values of several documents.
pub open spec fn element_trees(items: Seq<JsonValue>) -> Seq<JsonTree> {
    Seq::new(items.len(), |i: int| items[i].tree())
}

/// The value of an array is made of the values of its elements.
pub broadcast proof fn lemma_elements_tree(items: Vec<JsonValue>)
    ensures
        #[trigger] JsonValue::Array(items).tree() == JsonTree::Array(element_trees(items@)),
{
    assert(JsonValue::Array(items).tree()->Array_0 =~= element_trees(items@));
}

/// One more member of an object.
proof fn lemma_members_push(entries: Seq<(String, JsonValue)>, last: (String, JsonValue))
    ensures
        members(entries.push(last)) == members(entries).insert(last.0@, last.1.tree()),
{
    assert(entries.push(last).drop_last() =~= entries);
}

// ----------------------------------------------------------------------------
// CBOR to JSON and back
// ----------------------------------------------------------------------------
/// Whether a JSON document can hold this integer: it fits 64 bits, with or
/// without a sign.
pub open spec fn json_integer(n: int) -> bool {
    -0x8000_0000_0000_0000 <= n < 0x1_0000_0000_0000_0000
}

/// The JSON document that a CBOR item becomes, if it has one.
///
/// A byte string has none: the pinserver carries binary data as text, so that
/// raw bytes mean that the device sent something unexpected. Neither has a
/// tagged item, nor a map with keys that are not text.
pub open spec fn json_of(t: CborTree) -> Option<JsonTree>
    decreases t,
{
    match t {
        CborTree::Null => Some(JsonTree::Null),
        CborTree::Bool(b) => Some(JsonTree::Bool(b)),
        CborTree::Integer(n) => if json_integer(n) {
            Some(JsonTree::Integer(n))
        } else {
            None
        },
        CborTree::Text(text) => Some(JsonTree::Text(text)),
        CborTree::Array(items) => if forall|i: int|
            0 <= i < items.len() ==> json_of(#[trigger] items[i]) is Some {
            Some(
                JsonTree::Array(
                    Seq::new(
                        items.len(),
                        |i: int|
                            if 0 <= i < items.len() {
                                json_of(items[i])->Some_0
                            } else {
                                JsonTree::Null
                            },
                    ),
                ),
            )
        } else {
            None
        },
        CborTree::Pairs(entries) => match members_of(entries) {
            Some(m) => Some(JsonTree::Object(m)),
            None => None,
        },
        CborTree::Bytes(_) => None,
        CborTree::Tagged(_, _) => None,
        CborTree::Opaque => None,
    }
}

/// The object that the entries of a map become. Of two with the same name the
/// last counts.
pub open spec fn members_of(entries: Seq<(CborTree, CborTree)>) -> Option<
    Map<Seq<char>, JsonTree>,
>
    decreases entries,
{
    if entries.len() == 0 {
        Some(Map::empty())
    } else {
        let (key, value) = entries[entries.len() - 1];
        match (members_of(entries.drop_last()), key, json_of(value)) {
            (Some(m), CborTree::Text(name), Some(j)) => Some(m.insert(name, j)),
            _ => None,
        }
    }
}

/// The CBOR item that a JSON document becomes, if it has one: the members of
/// an object in the order in which they are listed. A number that is not an
/// integer has none.
pub open spec fn cbor_form(value: JsonValue) -> Option<CborTree>
    decreases value,
{
    match value {
        JsonValue::Null => Some(CborTree::Null),
        JsonValue::Bool(b) => Some(CborTree::Bool(b)),
        JsonValue::Integer(n) => if json_integer(n as int) {
            Some(CborTree::Integer(n as int))
        } else {
            None
        },
        JsonValue::Text(text) => Some(CborTree::Text(text@)),
        JsonValue::Array(items) => if forall|i: int|
            0 <= i < items@.len() ==> cbor_form(#[trigger] items@[i]) is Some {
            Some(
                CborTree::Array(
                    Seq::new(
                        items@.len(),
                        |i: int|
                            if 0 <= i < items@.len() {
                                cbor_form(items@[i])->Some_0
                            } else {
                                CborTree::Null
                            },
                    ),
                ),
            )
        } else {
            None
        },
        JsonValue::Object(entries) => if forall|i: int|
            #![trigger entries@[i]]
            0 <= i < entries@.len() ==> cbor_form(entries@[i].1) is Some {
            Some(
                CborTree::Pairs(
                    Seq::new(
                        entries@.len(),
                        |i: int|
                            (
                                CborTree::Text(entries@[i].0@),
                                if 0 <= i < entries@.len() {
                                    cbor_form(entries@[i].1)->Some_0
                                } else {
                                    CborTree::Null
                                },
                            ),
                    ),
                ),
            )
        } else {
            None
        },
        JsonValue::Opaque => None,
    }
}

/// Whether no map in an item has a key twice.
pub open spec fn names_once(t: CborTree) -> bool
    decreases t,
{
    match t {
        CborTree::Array(items) => forall|i: int|
            0 <= i < items.len() ==> names_once(#[trigger] items[i]),
        CborTree::Pairs(entries) => {
            &&& forall|i: int, j: int|
                0 <= i < j < entries.len() ==> (#[trigger] entries[i]).0 != (
                #[trigger] entries[j]).0
            &&& forall|i: int|
                #![trigger entries[i]]
                0 <= i < entries.len() ==> names_once(entries[i].0) && names_once(entries[i].1)
        },
        CborTree::Tagged(_, inner) => names_once(*inner),
        _ => true,
    }
}

/// The JSON document that a CBOR item becomes, or the error for one that
/// becomes none.
pub open spec fn json_or_error(t: CborTree) -> Result<JsonTree, ErrorView> {
    match json_of(t) {
        Some(j) => Ok(j),
        None => Err(ErrorView::ProtocolError("item has no JSON form"@)),
    }
}

fn carry_to_json(value: &CborValue) -> (r: Option<JsonValue>)
    ensures
        match r {
            Some(j) => json_of(value@) == Some(j@) && cbor_form(j) == Some(value@),
            None => json_of(value@) is None,
        },
    decreases *value,
{
    broadcast use {lemma_array_tree, lemma_pairs_tree, lemma_elements_tree};

    match value {
        CborValue::Null => Some(JsonValue::Null),
        CborValue::Bool(b) => Some(JsonValue::Bool(*b)),
        CborValue::Integer(n) => if -0x8000_0000_0000_0000 <= *n && *n < 0x1_0000_0000_0000_0000 {
            Some(JsonValue::Integer(*n))
        } else {
            None
        },
        CborValue::Text(text) => Some(JsonValue::Text(text.clone())),
        CborValue::Array(items) => {
            let mut out: Vec<JsonValue> = Vec::new();
            let mut i: usize = 0;
            while i < items.len()
                invariant
                    i <= items@.len(),
                    out@.len() == i,
                    value@ == CborTree::Array(item_trees(items@)),
                    *value == CborValue::Array(*items),
                    forall|k: int|
                        #![trigger out@[k]]
                        0 <= k < i ==> json_of(item_trees(items@)[k]) == Some(out@[k].tree())
                            && cbor_form(out@[k]) == Some(item_trees(items@)[k]),
                decreases items@.len() - i,
            {
                match carry_to_json(&items[i]) {
                    Some(j) => {
                        out.push(j);
                    },
                    None => {
                        assert(json_of(value@->Array_0[i as int]) is None);
                        return None;
                    },
                }
                i += 1;
            }
            let ghost all = item_trees(items@);
            let ghost made = out@;
            let r = JsonValue::Array(out);
            proof {
                assert forall|k: int| 0 <= k < all.len() implies json_of(
                    #[trigger] all[k],
                ) is Some by {
                    let j = made[k];
                }
                assert(json_of(value@)->Some_0->Array_0 =~= element_trees(made));
                assert(cbor_form(r)->Some_0->Array_0 =~= all);
            }
            Some(r)
        },
        CborValue::Pairs(entries) => {
            let ghost all = entry_trees(entries@);
            let mut out: Vec<(String, JsonValue)> = Vec::new();
            let mut i: usize = 0;
            proof {
                assert(all.take(0) =~= Seq::empty());
            }
            while i < entries.len()
                invariant
                    i <= entries@.len(),
                    out@.len() == i,
                    all == entry_trees(entries@),
                    value@ == CborTree::Pairs(all),
                    *value == CborValue::Pairs(*entries),
                    members_of(all.take(i as int)) == Some(members(out@)),
                    forall|k: int|
                        #![trigger out@[k]]
                        0 <= k < i ==> all[k].0 == CborTree::Text(out@[k].0@) && cbor_form(
                            out@[k].1,
                        ) == Some(all[k].1),
                decreases entries@.len() - i,
            {
                proof {
                    assert(all.take(i + 1).drop_last() =~= all.take(i as int));
                    assert(all.take(i + 1)[i as int] == all[i as int]);
                }
                let name = match &entries[i].0 {
                    CborValue::Text(name) => name.clone(),
                    _ => {
                        proof {
                            lemma_members_need_all(all, i + 1);
                        }
                        return None;
                    },
                };
                match carry_to_json(&entries[i].1) {
                    Some(j) => {
                        proof {
                            lemma_members_push(out@, (name, j));
                        }
                        out.push((name, j));
                    },
                    None => {
                        proof {
                            lemma_members_need_all(all, i + 1);
                        }
                        return None;
                    },
                }
                i += 1;
            }
            let ghost made = out@;
            let r = JsonValue::Object(out);
            proof {
                assert(all.take(i as int) =~= all);
                assert(cbor_form(r)->Some_0->Pairs_0 =~= all);
            }
            Some(r)
        },
        CborValue::Bytes(_) => None,
        CborValue::Tagged(_, _) => None,
        CborValue::Opaque => None,
    }
}

/// A map of which some entries become no object becomes none itself.
proof fn lemma_members_need_all(entries: Seq<(CborTree, CborTree)>, n: int)
    requires
        0 <= n <= entries.len(),
        members_of(entries.take(n)) is None,
    ensures
        members_of(entries) is None,
    decreases entries.len() - n,
{
    if n < entries.len() {
        assert(entries.take(n + 1).drop_last() =~= entries.take(n));
        lemma_members_need_all(entries, n + 1);
    } else {
        assert(entries.take(n) =~= entries);
    }
}

/// Turns a CBOR item into a JSON document. Turned back, it is the same item.
pub fn cbor_to_json(value: &CborValue) -> (r: Result<JsonValue, JadeError>)
    ensures
        viewed(r) == json_or_error(value@),
        r matches Ok(j) ==> cbor_form(j) == Some(value@),
{
    match carry_to_json(value) {
        Some(j) => Ok(j),
        None => Err(JadeError::protocol("item has no JSON form".to_owned())),
    }
}

fn carry_to_cbor(value: &JsonValue) -> (r: Option<CborValue>)
    ensures
        cbor_form(*value) == (match r {
            Some(v) => Some(v@),
            None => None,
        }),
    decreases *value,
{
    broadcast use {lemma_array_tree, lemma_pairs_tree};

    match value {
        JsonValue::Null => Some(CborValue::Null),
        JsonValue::Bool(b) => Some(CborValue::Bool(*b)),
        JsonValue::Integer(n) => if -0x8000_0000_0000_0000 <= *n && *n < 0x1_0000_0000_0000_0000 {
            Some(CborValue::Integer(*n))
        } else {
            None
        },
        JsonValue::Text(text) => Some(CborValue::Text(text.clone())),
        JsonValue::Array(items) => {
            let mut out: Vec<CborValue> = Vec::new();
            let mut i: usize = 0;
            while i < items.len()
                invariant
                    i <= items@.len(),
                    out@.len() == i,
                    *value == JsonValue::Array(*items),
                    forall|k: int|
                        #![trigger out@[k]]
                        #![trigger items@[k]]
                        0 <= k < i ==> cbor_form(items@[k]) == Some(out@[k].tree()),
                decreases items@.len() - i,
            {
                match carry_to_cbor(&items[i]) {
                    Some(v) => {
                        out.push(v);
                    },
                    None => {
                        assert(cbor_form(items@[i as int]) is None);
                        return None;
                    },
                }
                i += 1;
            }
            proof {
                assert(cbor_form(*value)->Some_0->Array_0 =~= item_trees(out@));
            }
            Some(CborValue::Array(out))
        },
        JsonValue::Object(entries) => {
            let mut out: Vec<(CborValue, CborValue)> = Vec::new();
            let mut i: usize = 0;
            while i < entries.len()
                invariant
                    i <= entries@.len(),
                    out@.len() == i,
                    *value == JsonValue::Object(*entries),
                    forall|k: int|
                        #![trigger out@[k]]
                        #![trigger entries@[k]]
                        0 <= k < i ==> cbor_form(entries@[k].1) == Some(out@[k].1.tree())
                            && out@[k].0.tree() == CborTree::Text(entries@[k].0@),
                decreases entries@.len() - i,
            {
                match carry_to_cbor(&entries[i].1) {
                    Some(v) => {
                        out.push((CborValue::Text(entries[i].0.clone()), v));
                    },
                    None => {
                        assert(cbor_form(entries@[i as int].1) is None);
                        return None;
                    },
                }
                i += 1;
            }
            proof {
                assert(cbor_form(*value)->Some_0->Pairs_0 =~= entry_trees(out@));
            }
            Some(CborValue::Pairs(out))
        },
        JsonValue::Opaque => None,
    }
}

/// Turns a JSON document into a CBOR item.
pub fn json_to_cbor(value: &JsonValue) -> (r: Result<CborValue, JadeError>)
    ensures
        viewed(r) == (match cbor_form(*value) {
            Some(t) => Ok(t),
            None => Err(ErrorView::ProtocolError("document has no CBOR form"@)),
        }),
{
    match carry_to_cbor(value) {
        Some(v) => Ok(v),
        None => Err(JadeError::protocol("document has no CBOR form".to_owned())),
    }
}

/// A JSON document that becomes a CBOR item is what that item becomes.
pub proof fn lemma_json_survives_cbor(value: JsonValue)
    ensures
        cbor_form(value) matches Some(t) ==> json_of(t) == Some(value@),
    decreases value,
{
    if let Some(t) = cbor_form(value) {
        match value {
            JsonValue::Array(items) => {
                let trees = t->Array_0;
                assert forall|k: int| 0 <= k < trees.len() implies json_of(#[trigger] trees[k])
                    == Some(items@[k].tree()) by {
                    lemma_json_survives_cbor(items@[k]);
                }
                lemma_elements_tree(items);
                assert(json_of(t)->Some_0->Array_0 =~= element_trees(items@));
            },
            JsonValue::Object(entries) => {
                let pairs = t->Pairs_0;
                assert forall|k: int| 0 <= k < pairs.len() implies (#[trigger] pairs[k]).0
                    == CborTree::Text(entries@[k].0@) && json_of(pairs[k].1) == Some(
                    entries@[k].1.tree(),
                ) by {
                    lemma_json_survives_cbor(entries@[k].1);
                }
                lemma_members_survive(entries@, pairs);
            },
            _ => {},
        }
    }
}

proof fn lemma_members_survive(
    entries: Seq<(String, JsonValue)>,
    pairs: Seq<(CborTree, CborTree)>,
)
    requires
        entries.len() == pairs.len(),
        forall|k: int|
            0 <= k < pairs.len() ==> (#[trigger] pairs[k]).0 == CborTree::Text(entries[k].0@)
                && json_of(pairs[k].1) == Some(entries[k].1.tree()),
    ensures
        members_of(pairs) == Some(members(entries)),
    decreases entries.len(),
{
    if entries.len() > 0 {
        let n = pairs.len() - 1;
        assert(pairs[n].0 == CborTree::Text(entries[n].0@));
        lemma_members_survive(entries.drop_last(), pairs.drop_last());
    }
}

// ----------------------------------------------------------------------------
// The text form
// ----------------------------------------------------------------------------
/// A value of serde_json's own type.
#[verifier::external_type_specification]
#[verifier::external_body]
pub struct ExJsonValue(serde_json::Value);

/// What a value of serde_json's own type holds.
pub uninterp spec fn json_value_tree(v: serde_json::Value) -> JsonTree;

/// The document that `serde_json::from_slice` reads from these bytes, or
/// nothing if it refuses them.
pub uninterp spec fn json_decoded(bytes: Seq<u8>) -> Option<JsonTree>;

/// The text that `serde_json::to_string` writes for a document.
pub uninterp spec fn json_text(t: JsonTree) -> Seq<char>;

/// Whether every number of a document is an integer that fits 64 bits, with or
/// without a sign.
pub open spec fn whole(t: JsonTree) -> bool
    decreases t,
{
    match t {
        JsonTree::Integer(n) => json_integer(n),
        JsonTree::Array(items) => forall|i: int|
            0 <= i < items.len() ==> whole(#[trigger] items[i]),
        JsonTree::Object(m) => forall|name: Seq<char>| #[trigger]
            m.dom().contains(name) ==> whole(m[name]),
        JsonTree::Opaque => false,
        _ => true,
    }
}

/// The object in which each of these names stands for the document at the same
/// position.
pub open spec fn object_of(names: Seq<Seq<char>>, trees: Seq<JsonTree>) -> Map<
    Seq<char>,
    JsonTree,
> {
    Map::new(|name: Seq<char>| names.contains(name), |name: Seq<char>| trees[names.index_of(name)])
}

/// One level of a serde_json value.
enum JsonLayer<'a> {
    Null,
    Bool(bool),
    Integer(i128),
    Text(&'a String),
    Array(&'a Vec<serde_json::Value>),
    Object(Vec<&'a String>, Vec<&'a serde_json::Value>),
    Opaque,
}

/// One level of a serde_json value that is to be built.
enum JsonPiece {
    Null,
    Bool(bool),
    Integer(i128),
    Text(String),
    Array(Vec<serde_json::Value>),
    Object(Vec<String>, Vec<serde_json::Value>),
}

spec fn borrowed_texts(names: Seq<&String>) -> Seq<Seq<char>> {
    Seq::new(names.len(), |i: int| names[i]@)
}

spec fn borrowed_trees(values: Seq<&serde_json::Value>) -> Seq<JsonTree> {
    Seq::new(values.len(), |i: int| json_value_tree(*values[i]))
}

spec fn owned_texts(names: Seq<String>) -> Seq<Seq<char>> {
    Seq::new(names.len(), |i: int| names[i]@)
}

spec fn owned_trees(values: Seq<serde_json::Value>) -> Seq<JsonTree> {
    Seq::new(values.len(), |i: int| json_value_tree(values[i]))
}

spec fn json_layer_tree(layer: JsonLayer) -> JsonTree {
    match layer {
        JsonLayer::Null => JsonTree::Null,
        JsonLayer::Bool(b) => JsonTree::Bool(b),
        JsonLayer::Integer(n) => JsonTree::Integer(n as int),
        JsonLayer::Text(text) => JsonTree::Text(text@),
        JsonLayer::Array(items) => JsonTree::Array(owned_trees(items@)),
        JsonLayer::Object(names, values) => JsonTree::Object(
            object_of(borrowed_texts(names@), borrowed_trees(values@)),
        ),
        JsonLayer::Opaque => JsonTree::Opaque,
    }
}

spec fn json_piece_tree(piece: JsonPiece) -> JsonTree {
    match piece {
        JsonPiece::Null => JsonTree::Null,
        JsonPiece::Bool(b) => JsonTree::Bool(b),
        JsonPiece::Integer(n) => JsonTree::Integer(n as int),
        JsonPiece::Text(text) => JsonTree::Text(text@),
        JsonPiece::Array(items) => JsonTree::Array(owned_trees(items@)),
        JsonPiece::Object(names, values) => JsonTree::Object(
            object_of(owned_texts(names@), owned_trees(values@)),
        ),
    }
}

/// Looks at the outermost level of a `serde_json::Value`.
///
/// Taken on trust: the variant says what the value is, and the parts are those
/// it holds. The members of an object come with no name twice. A number that
/// is not an integer is told apart from the rest.
#[verifier::external_body]
fn open_json<'a>(v: &'a serde_json::Value) -> (r: JsonLayer<'a>)
    ensures
        json_value_tree(*v) == json_layer_tree(r),
        r matches JsonLayer::Object(names, values) ==> names@.len() == values@.len()
            && borrowed_texts(names@).no_duplicates(),
{
    match v {
        serde_json::Value::Null => JsonLayer::Null,
        serde_json::Value::Bool(b) => JsonLayer::Bool(*b),
        serde_json::Value::Number(n) => match n.as_i128() {
            Some(n) => JsonLayer::Integer(n),
            None => JsonLayer::Opaque,
        },
        serde_json::Value::String(text) => JsonLayer::Text(text),
        serde_json::Value::Array(items) => JsonLayer::Array(items),
        serde_json::Value::Object(members) => {
            let (names, values) = members.iter().unzip();
            JsonLayer::Object(names, values)
        },
    }
}

/// Builds a `serde_json::Value` from its outermost level.
///
/// Taken on trust: the value holds what it was built from. An integer that
/// fits 64 bits neither with nor without a sign has no form there, and of two
/// members with the same name only one would stay, so both are left out.
#[verifier::external_body]
fn build_json(piece: JsonPiece) -> (r: serde_json::Value)
    requires
        piece matches JsonPiece::Integer(n) ==> json_integer(n as int),
        piece matches JsonPiece::Object(names, values) ==> names@.len() == values@.len()
            && owned_texts(names@).no_duplicates(),
    ensures
        json_value_tree(r) == json_piece_tree(piece),
{
    match piece {
        JsonPiece::Null => serde_json::Value::Null,
        JsonPiece::Bool(b) => serde_json::Value::Bool(b),
        JsonPiece::Integer(n) => serde_json::Value::from(serde_json::Number::from_i128(n)),
        JsonPiece::Text(text) => serde_json::Value::String(text),
        JsonPiece::Array(items) => serde_json::Value::Array(items),
        JsonPiece::Object(names, values) => names.into_iter().zip(values).collect(),
    }
}

/// Reads a document with `serde_json::from_slice`.
///
/// Taken on trust: the outcome depends on the bytes alone. Which bytes are
/// which document is left unsaid.
#[verifier::external_body]
fn read_json(bytes: &[u8]) -> (r: Option<serde_json::Value>)
    ensures
        json_decoded(bytes@) == (match r {
            Some(v) => Some(json_value_tree(v)),
            None => None,
        }),
{
    serde_json::from_slice(bytes).ok()
}

/// Writes a document with `serde_json::to_string`.
///
/// Taken on trust: a document whose numbers are integers is always written,
/// and the text depends on the document alone, since the members of an object
/// are kept in the order of their names. Which text it is is left unsaid.
#[verifier::external_body]
fn write_json(v: &serde_json::Value) -> (r: Option<String>)
    ensures
        whole(json_value_tree(*v)) ==> r is Some && r->Some_0@ == json_text(json_value_tree(*v)),
{
    serde_json::to_string(v).ok()
}

spec fn entry_names(entries: Seq<(String, JsonValue)>) -> Seq<Seq<char>> {
    Seq::new(entries.len(), |i: int| entries[i].0@)
}

spec fn entry_values(entries: Seq<(String, JsonValue)>) -> Seq<JsonTree> {
    Seq::new(entries.len(), |i: int| entries[i].1.tree())
}

/// A name of an object stands for the document at its position.
proof fn lemma_object_at(names: Seq<Seq<char>>, trees: Seq<JsonTree>, i: int)
    requires
        names.no_duplicates(),
        0 <= i < names.len(),
    ensures
        object_of(names, trees).dom().contains(names[i]),
        object_of(names, trees)[names[i]] == trees[i],
        object_of(names, trees).dom().finite(),
{
    vstd::seq_lib::seq_to_set_is_finite(names);
    assert(object_of(names, trees).dom() =~= names.to_set());
    assert(names.contains(names[i]));
    assert(names.index_of(names[i]) == i);
}

/// An object with one more name.
proof fn lemma_object_push(
    names: Seq<Seq<char>>,
    trees: Seq<JsonTree>,
    name: Seq<char>,
    tree: JsonTree,
)
    requires
        names.len() == trees.len(),
        names.no_duplicates(),
        !names.contains(name),
    ensures
        names.push(name).no_duplicates(),
        object_of(names.push(name), trees.push(tree)) == object_of(names, trees).insert(name, tree),
{
    let more = names.push(name);
    let grown = trees.push(tree);
    assert forall|i: int, j: int| 0 <= i < more.len() && 0 <= j < more.len() && i != j implies more[i]
        != more[j] by {
        if i < names.len() {
            assert(names.contains(names[i]));
        }
        if j < names.len() {
            assert(names.contains(names[j]));
        }
    }
    let left = object_of(more, grown);
    let right = object_of(names, trees).insert(name, tree);
    lemma_object_at(more, grown, names.len() as int);
    assert forall|n: Seq<char>| left.dom().contains(n) == right.dom().contains(n) by {
        if names.contains(n) {
            let i = names.index_of(n);
            assert(more[i] == n);
        }
        if more.contains(n) && n != name {
            let i = more.index_of(n);
            assert(names[i] == n);
        }
    }
    assert forall|n: Seq<char>| left.dom().contains(n) implies left[n] == right[n] by {
        if n != name {
            let i = more.index_of(n);
            assert(names[i] == n);
            lemma_object_at(names, trees, i);
            lemma_object_at(more, grown, i);
        }
    }
    assert(left =~= right);
}

/// An object in which a name stands for another document.
proof fn lemma_object_update(
    names: Seq<Seq<char>>,
    trees: Seq<JsonTree>,
    i: int,
    tree: JsonTree,
)
    requires
        names.len() == trees.len(),
        names.no_duplicates(),
        0 <= i < names.len(),
    ensures
        object_of(names, trees.update(i, tree)) == object_of(names, trees).insert(names[i], tree),
{
    let left = object_of(names, trees.update(i, tree));
    let right = object_of(names, trees).insert(names[i], tree);
    lemma_object_at(names, trees.update(i, tree), i);
    assert forall|n: Seq<char>| left.dom().contains(n) implies left[n] == right[n] by {
        let k = names.index_of(n);
        lemma_object_at(names, trees, k);
        lemma_object_at(names, trees.update(i, tree), k);
    }
    assert(left =~= right);
}

/// Members with no name twice make up the object of their names.
proof fn lemma_members_are_an_object(entries: Seq<(String, JsonValue)>)
    requires
        entry_names(entries).no_duplicates(),
    ensures
        members(entries) == object_of(entry_names(entries), entry_values(entries)),
    decreases entries.len(),
{
    let names = entry_names(entries);
    let trees = entry_values(entries);
    if entries.len() == 0 {
        assert(members(entries) =~= object_of(names, trees));
    } else {
        let before = entries.drop_last();
        let n = entries.len() - 1;
        assert(entry_names(before).push(names[n]) =~= names);
        assert(entry_values(before).push(trees[n]) =~= trees);
        assert forall|i: int, j: int|
            0 <= i < before.len() && 0 <= j < before.len() && i != j implies entry_names(before)[i]
            != entry_names(before)[j] by {
            assert(names[i] != names[j]);
        }
        if entry_names(before).contains(names[n]) {
            let k = entry_names(before).index_of(names[n]);
            assert(names[k] == names[n]);
        }
        lemma_members_are_an_object(before);
        lemma_object_push(entry_names(before), entry_values(before), names[n], trees[n]);
    }
}

/// An array whose elements have no name twice has none itself.
proof fn lemma_array_names_once(items: Vec<JsonValue>)
    requires
        forall|k: int|
            #![trigger items@[k]]
            0 <= k < items@.len() && cbor_form(items@[k]) is Some ==> names_once(
                cbor_form(items@[k])->Some_0,
            ),
    ensures
        cbor_form(JsonValue::Array(items)) matches Some(form) ==> names_once(form),
{
    if let Some(form) = cbor_form(JsonValue::Array(items)) {
        assert forall|k: int| 0 <= k < form->Array_0.len() implies names_once(
            #[trigger] form->Array_0[k],
        ) by {
            assert(cbor_form(items@[k]) is Some);
        }
    }
}

/// An object with no name twice, nor one in what its names stand for, has none
/// in its CBOR form.
proof fn lemma_object_names_once(entries: Vec<(String, JsonValue)>)
    requires
        entry_names(entries@).no_duplicates(),
        forall|k: int|
            #![trigger entries@[k]]
            0 <= k < entries@.len() && cbor_form(entries@[k].1) is Some ==> names_once(
                cbor_form(entries@[k].1)->Some_0,
            ),
    ensures
        cbor_form(JsonValue::Object(entries)) matches Some(form) ==> names_once(form),
{
    if let Some(form) = cbor_form(JsonValue::Object(entries)) {
        let pairs = form->Pairs_0;
        let names = entry_names(entries@);
        assert forall|i: int, j: int| 0 <= i < j < pairs.len() implies (#[trigger] pairs[i]).0 != (
        #[trigger] pairs[j]).0 by {
            assert(names[i] != names[j]);
        }
        assert forall|i: int|
            #![trigger pairs[i]]
            0 <= i < pairs.len() implies names_once(pairs[i].0) && names_once(pairs[i].1) by {
            assert(cbor_form(entries@[i].1) is Some);
        }
    }
}

/// Carries a serde_json value over, with everything that it holds.
fn carry_json(v: &serde_json::Value) -> (r: JsonValue)
    ensures
        r@ == json_value_tree(*v),
        whole(r@) ==> cbor_form(r) is Some,
        cbor_form(r) matches Some(form) ==> names_once(form),
    decreases json_value_tree(*v),
{
    broadcast use lemma_elements_tree;

    let ghost t = json_value_tree(*v);
    match open_json(v) {
        JsonLayer::Null => JsonValue::Null,
        JsonLayer::Bool(b) => JsonValue::Bool(b),
        JsonLayer::Integer(n) => JsonValue::Integer(n),
        JsonLayer::Text(text) => JsonValue::Text(text.clone()),
        JsonLayer::Array(items) => {
            let mut out: Vec<JsonValue> = Vec::new();
            let mut i: usize = 0;
            while i < items.len()
                invariant
                    i <= items@.len(),
                    out@.len() == i,
                    t == json_value_tree(*v),
                    t == JsonTree::Array(owned_trees(items@)),
                    forall|k: int|
                        #![trigger out@[k]]
                        0 <= k < i ==> out@[k].tree() == json_value_tree(items@[k]) && (whole(
                            out@[k].tree(),
                        ) ==> cbor_form(out@[k]) is Some) && (cbor_form(out@[k]) is Some
                            ==> names_once(cbor_form(out@[k])->Some_0)),
                decreases items@.len() - i,
            {
                proof {
                    assert(decreases_to!(t => t->Array_0));
                    assert(decreases_to!(t->Array_0 => t->Array_0[i as int]));
                }
                out.push(carry_json(&items[i]));
                i += 1;
            }
            proof {
                assert(element_trees(out@) =~= owned_trees(items@));
                if whole(t) {
                    assert forall|k: int| 0 <= k < out@.len() implies cbor_form(
                        #[trigger] out@[k],
                    ) is Some by {
                        assert(whole(t->Array_0[k]));
                    }
                }
                lemma_array_names_once(out);
            }
            JsonValue::Array(out)
        },
        JsonLayer::Object(names, values) => {
            let ghost texts = borrowed_texts(names@);
            let ghost trees = borrowed_trees(values@);
            let mut out: Vec<(String, JsonValue)> = Vec::new();
            let mut i: usize = 0;
            while i < names.len()
                invariant
                    i <= names@.len(),
                    names@.len() == values@.len(),
                    out@.len() == i,
                    t == json_value_tree(*v),
                    texts == borrowed_texts(names@),
                    trees == borrowed_trees(values@),
                    texts.no_duplicates(),
                    t == JsonTree::Object(object_of(texts, trees)),
                    forall|k: int|
                        #![trigger out@[k]]
                        0 <= k < i ==> out@[k].0@ == texts[k] && out@[k].1.tree() == trees[k] && (
                        whole(trees[k]) ==> cbor_form(out@[k].1) is Some) && (cbor_form(
                            out@[k].1,
                        ) is Some ==> names_once(cbor_form(out@[k].1)->Some_0)),
                decreases names@.len() - i,
            {
                proof {
                    lemma_object_at(texts, trees, i as int);
                    assert(decreases_to!(t => t->Object_0));
                    assert(decreases_to!(t->Object_0 => t->Object_0[texts[i as int]]));
                    assert(json_value_tree(*values@[i as int]) == trees[i as int]);
                }
                out.push((names[i].clone(), carry_json(values[i])));
                i += 1;
            }
            proof {
                assert(entry_names(out@) =~= texts);
                assert(entry_values(out@) =~= trees);
                lemma_members_are_an_object(out@);
                if whole(t) {
                    assert forall|k: int| 0 <= k < out@.len() implies cbor_form(
                        (#[trigger] out@[k]).1,
                    ) is Some by {
                        lemma_object_at(texts, trees, k);
                        assert(t->Object_0.dom().contains(texts[k]));
                    }
                }
                lemma_object_names_once(out);
            }
            JsonValue::Object(out)
        },
        JsonLayer::Opaque => JsonValue::Opaque,
    }
}

/// Reads a JSON document. It has a CBOR form if its numbers are integers, and
/// no name stands twice in that.
pub fn parse_json(bytes: &[u8]) -> (r: Option<JsonValue>)
    ensures
        json_decoded(bytes@) == (match r {
            Some(j) => Some(j@),
            None => None,
        }),
        r matches Some(j) ==> cbor_form(j) is Some == whole(j@),
        r matches Some(j) ==> (cbor_form(j) matches Some(form) ==> names_once(form)),
{
    match read_json(bytes) {
        Some(v) => {
            let j = carry_json(&v);
            proof {
                lemma_form_is_whole(j);
            }
            Some(j)
        },
        None => None,
    }
}

/// Where a name stands among others.
fn position(names: &Vec<String>, name: &String) -> (r: Option<usize>)
    ensures
        match r {
            Some(i) => i < names@.len() && names@[i as int]@ == name@,
            None => !owned_texts(names@).contains(name@),
        },
{
    let mut i: usize = 0;
    while i < names.len()
        invariant
            i <= names@.len(),
            forall|k: int| 0 <= k < i ==> (#[trigger] names@[k])@ != name@,
        decreases names@.len() - i,
    {
        if same_text(names[i].as_str(), name.as_str()) {
            return Some(i);
        }
        i += 1;
    }
    proof {
        let texts = owned_texts(names@);
        assert forall|k: int| 0 <= k < texts.len() implies texts[k] != name@ by {
            assert(names@[k]@ == texts[k]);
        }
    }
    None
}

/// Builds the serde_json value of a document.
fn to_json_value(value: &JsonValue) -> (r: Option<serde_json::Value>)
    ensures
        r is Some == cbor_form(*value) is Some,
        r matches Some(v) ==> json_value_tree(v) == value@,
    decreases *value,
{
    broadcast use lemma_elements_tree;

    match value {
        JsonValue::Null => Some(build_json(JsonPiece::Null)),
        JsonValue::Bool(b) => Some(build_json(JsonPiece::Bool(*b))),
        JsonValue::Integer(n) => if -0x8000_0000_0000_0000 <= *n && *n < 0x1_0000_0000_0000_0000 {
            Some(build_json(JsonPiece::Integer(*n)))
        } else {
            None
        },
        JsonValue::Text(text) => Some(build_json(JsonPiece::Text(text.clone()))),
        JsonValue::Array(items) => {
            let mut out: Vec<serde_json::Value> = Vec::new();
            let mut i: usize = 0;
            while i < items.len()
                invariant
                    i <= items@.len(),
                    out@.len() == i,
                    *value == JsonValue::Array(*items),
                    forall|k: int|
                        #![trigger items@[k]]
                        0 <= k < i ==> cbor_form(items@[k]) is Some && json_value_tree(out@[k])
                            == items@[k].tree(),
                decreases items@.len() - i,
            {
                match to_json_value(&items[i]) {
                    Some(v) => {
                        out.push(v);
                    },
                    None => {
                        assert(cbor_form(items@[i as int]) is None);
                        return None;
                    },
                }
                i += 1;
            }
            proof {
                assert(owned_trees(out@) =~= element_trees(items@));
            }
            Some(build_json(JsonPiece::Array(out)))
        },
        JsonValue::Object(entries) => {
            let mut names: Vec<String> = Vec::new();
            let mut values: Vec<serde_json::Value> = Vec::new();
            let mut i: usize = 0;
            proof {
                assert(entries@.take(0) =~= Seq::empty());
                assert(object_of(owned_texts(names@), owned_trees(values@)) =~= Map::empty());
            }
            while i < entries.len()
                invariant
                    i <= entries@.len(),
                    *value == JsonValue::Object(*entries),
                    names@.len() == values@.len(),
                    owned_texts(names@).no_duplicates(),
                    object_of(owned_texts(names@), owned_trees(values@)) == members(
                        entries@.take(i as int),
                    ),
                    forall|k: int|
                        #![trigger entries@[k]]
                        0 <= k < i ==> cbor_form(entries@[k].1) is Some,
                decreases entries@.len() - i,
            {
                let ghost texts = owned_texts(names@);
                let ghost trees = owned_trees(values@);
                proof {
                    assert(entries@.take(i + 1) =~= entries@.take(i as int).push(
                        entries@[i as int],
                    ));
                    lemma_members_push(entries@.take(i as int), entries@[i as int]);
                }
                let v = match to_json_value(&entries[i].1) {
                    Some(v) => v,
                    None => {
                        assert(cbor_form(entries@[i as int].1) is None);
                        return None;
                    },
                };
                let ghost tree = json_value_tree(v);
                match position(&names, &entries[i].0) {
                    Some(p) => {
                        values.set(p, v);
                        proof {
                            assert(owned_trees(values@) =~= trees.update(p as int, tree));
                            lemma_object_update(texts, trees, p as int, tree);
                        }
                    },
                    None => {
                        names.push(entries[i].0.clone());
                        values.push(v);
                        proof {
                            let name = entries@[i as int].0@;
                            assert(owned_texts(names@) =~= texts.push(name));
                            assert(owned_trees(values@) =~= trees.push(tree));
                            lemma_object_push(texts, trees, name, tree);
                        }
                    },
                }
                i += 1;
            }
            proof {
                assert(entries@.take(i as int) =~= entries@);
            }
            Some(build_json(JsonPiece::Object(names, values)))
        },
        JsonValue::Opaque => None,
    }
}

/// The numbers of a document that has a CBOR form are integers.
proof fn lemma_form_is_whole(value: JsonValue)
    ensures
        cbor_form(value) is Some ==> whole(value@),
    decreases value,
{
    if cbor_form(value) is Some {
        match value {
            JsonValue::Array(items) => {
                lemma_elements_tree(items);
                let trees = element_trees(items@);
                assert forall|i: int| 0 <= i < trees.len() implies whole(#[trigger] trees[i]) by {
                    lemma_form_is_whole(items@[i]);
                }
            },
            JsonValue::Object(entries) => {
                assert forall|i: int| 0 <= i < entries@.len() implies whole(
                    (#[trigger] entries@[i]).1@,
                ) by {
                    lemma_form_is_whole(entries@[i].1);
                }
                lemma_members_are_whole(entries@);
                let t = value@;
                assert forall|name: Seq<char>| #[trigger]
                    t->Object_0.dom().contains(name) implies whole(t->Object_0[name]) by {
                    assert(members(entries@).dom().contains(name));
                }
            },
            _ => {},
        }
    }
}

proof fn lemma_members_are_whole(entries: Seq<(String, JsonValue)>)
    requires
        forall|i: int| 0 <= i < entries.len() ==> whole((#[trigger] entries[i]).1@),
    ensures
        forall|name: Seq<char>| #[trigger]
            members(entries).dom().contains(name) ==> whole(members(entries)[name]),
    decreases entries.len(),
{
    if entries.len() > 0 {
        let last = entries[entries.len() - 1];
        assert(whole(last.1@));
        let before = members(entries.drop_last());
        lemma_members_are_whole(entries.drop_last());
        assert forall|name: Seq<char>| #[trigger]
            members(entries).dom().contains(name) implies whole(members(entries)[name]) by {
            if name != last.0@ {
                assert(before.dom().contains(name));
            }
        }
    }
}

/// Writes a JSON document, if its numbers are integers.
pub fn print_json(value: &JsonValue) -> (r: Option<String>)
    ensures
        r is Some == cbor_form(*value) is Some,
        r matches Some(text) ==> text@ == json_text(value@),
{
    proof {
        lemma_form_is_whole(*value);
    }
    match to_json_value(value) {
        Some(v) => write_json(&v),
        None => None,
    }
}

// ----------------------------------------------------------------------------
// Laws: what becomes of a document
// ----------------------------------------------------------------------------
/// A name is in an object exactly if one of the members has it, and stands for
/// the document of the last that has.
pub proof fn lemma_objects_hold_their_last_members(
    entries: Seq<(String, JsonValue)>,
    name: Seq<char>,
    at: int,
)
    ensures
        members(entries).dom().contains(name) <==> exists|i: int|
            0 <= i < entries.len() && (#[trigger] entries[i]).0@ == name,
        0 <= at < entries.len() && entries[at].0@ == name && (forall|i: int|
            at < i < entries.len() ==> (#[trigger] entries[i]).0@ != name) ==> members(
            entries,
        )[name] == entries[at].1.tree(),
    decreases entries.len(),
{
    if entries.len() > 0 {
        let before = entries.drop_last();
        let last = entries[entries.len() - 1];
        lemma_objects_hold_their_last_members(before, name, at);
        if members(before).dom().contains(name) {
            let i = choose|i: int| 0 <= i < before.len() && (#[trigger] before[i]).0@ == name;
            assert(entries[i].0@ == name);
        }
        if exists|i: int| 0 <= i < entries.len() && (#[trigger] entries[i]).0@ == name {
            let i = choose|i: int| 0 <= i < entries.len() && (#[trigger] entries[i]).0@ == name;
            if i < before.len() {
                assert(before[i].0@ == name);
            }
        }
        if 0 <= at < before.len() && entries[at].0@ == name && forall|i: int|
            at < i < entries.len() ==> (#[trigger] entries[i]).0@ != name {
            assert(before[at].0@ == name);
            assert forall|i: int| at < i < before.len() implies (#[trigger] before[i]).0@
                != name by {
                assert(before[i] == entries[i]);
            }
            assert(last.0@ != name);
        }
    }
}

/// The entries of a map make an object exactly if every key is text and every
/// value becomes a document. A name is in it exactly if one of the entries has
/// it, and stands for the document of the last that has.
pub proof fn lemma_maps_become_their_last_entries(
    entries: Seq<(CborTree, CborTree)>,
    name: Seq<char>,
    at: int,
)
    ensures
        members_of(entries) is Some <==> forall|i: int|
            0 <= i < entries.len() ==> (#[trigger] entries[i]).0 is Text && json_of(entries[i].1)
                is Some,
        members_of(entries) matches Some(m) ==> (m.dom().contains(name) <==> exists|i: int|
            0 <= i < entries.len() && (#[trigger] entries[i]).0 == CborTree::Text(name)),
        members_of(entries) matches Some(m) ==> 0 <= at < entries.len() && entries[at].0
            == CborTree::Text(name) && (forall|i: int|
            at < i < entries.len() ==> (#[trigger] entries[i]).0 != CborTree::Text(name)) ==> Some(
            m[name],
        ) == json_of(entries[at].1),
    decreases entries.len(),
{
    if entries.len() > 0 {
        let before = entries.drop_last();
        let last = entries[entries.len() - 1];
        lemma_maps_become_their_last_entries(before, name, at);
        if members_of(entries) is Some {
            assert forall|i: int| 0 <= i < entries.len() implies (#[trigger] entries[i]).0 is Text
                && json_of(entries[i].1) is Some by {
                if i < before.len() {
                    assert(before[i] == entries[i]);
                }
            }
            let m = members_of(entries)->Some_0;
            let earlier = members_of(before)->Some_0;
            if earlier.dom().contains(name) {
                let i = choose|i: int|
                    0 <= i < before.len() && (#[trigger] before[i]).0 == CborTree::Text(name);
                assert(entries[i].0 == CborTree::Text(name));
            }
            if exists|i: int|
                0 <= i < entries.len() && (#[trigger] entries[i]).0 == CborTree::Text(name) {
                let i = choose|i: int|
                    0 <= i < entries.len() && (#[trigger] entries[i]).0 == CborTree::Text(name);
                if i < before.len() {
                    assert(before[i].0 == CborTree::Text(name));
                }
            }
            if 0 <= at < before.len() && entries[at].0 == CborTree::Text(name) && forall|i: int|
                at < i < entries.len() ==> (#[trigger] entries[i]).0 != CborTree::Text(name) {
                assert(before[at] == entries[at]);
                assert forall|i: int| at < i < before.len() implies (#[trigger] before[i]).0
                    != CborTree::Text(name) by {
                    assert(before[i] == entries[i]);
                }
                assert(last.0 != CborTree::Text(name));
            }
        }
        if forall|i: int|
            0 <= i < entries.len() ==> (#[trigger] entries[i]).0 is Text && json_of(entries[i].1)
                is Some {
            assert forall|i: int| 0 <= i < before.len() implies (#[trigger] before[i]).0 is Text
                && json_of(before[i].1) is Some by {
                assert(before[i] == entries[i]);
            }
        }
    }
}

/// What a CBOR item becomes: null, truth values, text, and integers that fit 64
/// bits with or without a sign become themselves, an array becomes what its
/// items become, and a map what its entries do. Bytes, tags and floats become
/// nothing, and nothing that holds them becomes anything.
pub proof fn lemma_what_becomes_of_an_item(
    n: int,
    b: bool,
    text: Seq<char>,
    bytes: Seq<u8>,
    tag: u64,
    inner: CborTree,
    items: Seq<CborTree>,
    made: Seq<JsonTree>,
    entries: Seq<(CborTree, CborTree)>,
    object: Map<Seq<char>, JsonTree>,
)
    ensures
        json_of(CborTree::Null) == Some(JsonTree::Null),
        json_of(CborTree::Bool(b)) == Some(JsonTree::Bool(b)),
        json_of(CborTree::Text(text)) == Some(JsonTree::Text(text)),
        -9_223_372_036_854_775_808 <= n <= 18_446_744_073_709_551_615 ==> json_of(
            CborTree::Integer(n),
        ) == Some(JsonTree::Integer(n)),
        n < -9_223_372_036_854_775_808 || n > 18_446_744_073_709_551_615 ==> json_of(
            CborTree::Integer(n),
        ) is None,
        json_of(CborTree::Bytes(bytes)) is None,
        json_of(CborTree::Tagged(tag, Box::new(inner))) is None,
        json_of(CborTree::Opaque) is None,
        json_of(CborTree::Array(items)) == Some(JsonTree::Array(made)) <==> items.len()
            == made.len() && forall|i: int|
            0 <= i < items.len() ==> json_of(#[trigger] items[i]) == Some(made[i]),
        json_of(CborTree::Pairs(entries)) == Some(JsonTree::Object(object)) <==> members_of(entries)
            == Some(object),
        json_of(inner) matches Some(j) ==> json_or_error(inner) == Ok::<JsonTree, ErrorView>(j),
        json_of(inner) is None ==> json_or_error(inner) == Err::<JsonTree, ErrorView>(
            ErrorView::ProtocolError("item has no JSON form"@),
        ),
{
    let array = CborTree::Array(items);
    assert(array->Array_0 == items);
    if json_of(array) == Some(JsonTree::Array(made)) {
        assert forall|i: int| 0 <= i < items.len() implies json_of(#[trigger] items[i]) == Some(
            made[i],
        ) by {
            assert(json_of(array->Array_0[i]) is Some);
        }
    }
    if items.len() == made.len() && forall|i: int|
        0 <= i < items.len() ==> json_of(#[trigger] items[i]) == Some(made[i]) {
        assert forall|i: int| 0 <= i < array->Array_0.len() implies json_of(
            #[trigger] array->Array_0[i],
        ) is Some by {}
        assert(json_of(array)->Some_0->Array_0 =~= made);
    }
    let pairs = CborTree::Pairs(entries);
    assert(pairs->Pairs_0 == entries);
}

/// What a document becomes: the same, the other way round, with the members of
/// an object in the order in which they are listed.
pub proof fn lemma_what_becomes_of_a_document(
    n: i128,
    b: bool,
    text: String,
    items: Vec<JsonValue>,
    made: Seq<CborTree>,
    entries: Vec<(String, JsonValue)>,
    pairs: Seq<(CborTree, CborTree)>,
)
    ensures
        cbor_form(JsonValue::Null) == Some(CborTree::Null),
        cbor_form(JsonValue::Bool(b)) == Some(CborTree::Bool(b)),
        cbor_form(JsonValue::Text(text)) == Some(CborTree::Text(text@)),
        -9_223_372_036_854_775_808 <= n <= 18_446_744_073_709_551_615 ==> cbor_form(
            JsonValue::Integer(n),
        ) == Some(CborTree::Integer(n as int)),
        n < -9_223_372_036_854_775_808 || n > 18_446_744_073_709_551_615 ==> cbor_form(
            JsonValue::Integer(n),
        ) is None,
        cbor_form(JsonValue::Opaque) is None,
        cbor_form(JsonValue::Array(items)) == Some(CborTree::Array(made)) <==> items@.len()
            == made.len() && forall|i: int|
            0 <= i < items@.len() ==> cbor_form(#[trigger] items@[i]) == Some(made[i]),
        cbor_form(JsonValue::Object(entries)) == Some(CborTree::Pairs(pairs)) <==> entries@.len()
            == pairs.len() && forall|i: int|
            0 <= i < entries@.len() ==> (#[trigger] pairs[i]).0 == CborTree::Text(entries@[i].0@)
                && cbor_form(entries@[i].1) == Some(pairs[i].1),
{
    let array = JsonValue::Array(items);
    let object = JsonValue::Object(entries);
    if cbor_form(array) == Some(CborTree::Array(made)) {
        assert forall|i: int| 0 <= i < items@.len() implies cbor_form(#[trigger] items@[i]) == Some(
            made[i],
        ) by {
            assert(cbor_form(array->Array_0@[i]) is Some);
        }
    }
    if items@.len() == made.len() && forall|i: int|
        0 <= i < items@.len() ==> cbor_form(#[trigger] items@[i]) == Some(made[i]) {
        assert(cbor_form(array)->Some_0->Array_0 =~= made);
    }
    if cbor_form(object) == Some(CborTree::Pairs(pairs)) {
        assert forall|i: int| 0 <= i < entries@.len() implies (#[trigger] pairs[i]).0
            == CborTree::Text(entries@[i].0@) && cbor_form(entries@[i].1) == Some(pairs[i].1) by {
            let entry = object->Object_0@[i];
            assert(cbor_form(entry.1) is Some);
        }
    }
    if entries@.len() == pairs.len() && forall|i: int|
        0 <= i < entries@.len() ==> (#[trigger] pairs[i]).0 == CborTree::Text(entries@[i].0@)
            && cbor_form(entries@[i].1) == Some(pairs[i].1) {
        assert forall|i: int|
            #![trigger entries@[i]]
            0 <= i < entries@.len() implies cbor_form(entries@[i].1) is Some by {
            let pair = pairs[i];
        }
        assert(cbor_form(object)->Some_0->Pairs_0 =~= pairs);
    }
}

/// Which documents are whole and which items have every name once, by what they
/// hold.
pub proof fn lemma_whole_documents_and_single_names(
    n: int,
    b: bool,
    text: Seq<char>,
    trees: Seq<JsonTree>,
    object: Map<Seq<char>, JsonTree>,
    items: Seq<CborTree>,
    entries: Seq<(CborTree, CborTree)>,
    tag: u64,
    inner: CborTree,
)
    ensures
        whole(JsonTree::Integer(n)) <==> -9_223_372_036_854_775_808 <= n
            <= 18_446_744_073_709_551_615,
        !whole(JsonTree::Opaque),
        whole(JsonTree::Null) && whole(JsonTree::Bool(b)) && whole(JsonTree::Text(text)),
        whole(JsonTree::Array(trees)) <==> forall|i: int|
            0 <= i < trees.len() ==> whole(#[trigger] trees[i]),
        whole(JsonTree::Object(object)) <==> forall|name: Seq<char>| #[trigger]
            object.dom().contains(name) ==> whole(object[name]),
        names_once(CborTree::Array(items)) <==> forall|i: int|
            0 <= i < items.len() ==> names_once(#[trigger] items[i]),
        names_once(CborTree::Pairs(entries)) <==> {
            &&& forall|i: int, j: int|
                0 <= i < j < entries.len() ==> (#[trigger] entries[i]).0 != (
                #[trigger] entries[j]).0
            &&& forall|i: int|
                0 <= i < entries.len() ==> names_once((#[trigger] entries[i]).0) && names_once(
                    entries[i].1,
                )
        },
        names_once(CborTree::Tagged(tag, Box::new(inner))) <==> names_once(inner),
        names_once(CborTree::Null) && names_once(CborTree::Bool(b)) && names_once(
            CborTree::Text(text),
        ) && names_once(CborTree::Integer(n)),
{
    assert(CborTree::Array(items)->Array_0 == items);
    assert(CborTree::Pairs(entries)->Pairs_0 == entries);
    assert(*CborTree::Tagged(tag, Box::new(inner))->Tagged_1 == inner);
    assert(JsonTree::Array(trees)->Array_0 == trees);
    let t = JsonTree::Object(object);
    assert(t->Object_0 == object);
    if whole(t) {
        assert forall|name: Seq<char>| #[trigger] object.dom().contains(name) implies whole(
            object[name],
        ) by {
            assert(t->Object_0.dom().contains(name));
        }
    }
}

/// The value of a document is what it holds, in order.
pub proof fn lemma_documents_show_what_they_hold(
    n: i128,
    b: bool,
    text: String,
    items: Vec<JsonValue>,
    entries: Vec<(String, JsonValue)>,
)
    ensures
        JsonValue::Null@ == JsonTree::Null,
        JsonValue::Bool(b)@ == JsonTree::Bool(b),
        JsonValue::Integer(n)@ == JsonTree::Integer(n as int),
        JsonValue::Text(text)@ == JsonTree::Text(text@),
        JsonValue::Opaque@ == JsonTree::Opaque,
        JsonValue::Array(items)@ matches JsonTree::Array(seen) && seen.len() == items@.len()
            && forall|i: int| 0 <= i < items@.len() ==> #[trigger] seen[i] == items@[i]@,
        JsonValue::Object(entries)@ == JsonTree::Object(members(entries@)),
{
    lemma_elements_tree(items);
}

} // verus!
