//! CBOR data items: the values that requests and replies are made of.
//!
//! The encoding itself is ciborium's. This module carries its values over into
//! [`CborValue`], which the rest of the crate reads, and back.

use crate::frame::{
    argument, first_item, header, heads, lemma_extent_in_bounds, number_in, scan, shift, width,
    word, Extent, Header, Task,
};
use vstd::prelude::*;

verus! {

/// The mathematical value of a data item.
pub enum CborTree {
    Integer(int),
    Bytes(Seq<u8>),
    Text(Seq<char>),
    Bool(bool),
    Null,
    Array(Seq<CborTree>),
    Pairs(Seq<(CborTree, CborTree)>),
    Tagged(u64, Box<CborTree>),
    Opaque,
}

/// A data item.
#[derive(Debug, PartialEq)]
pub enum CborValue {
    Integer(i128),
    Bytes(Vec<u8>),
    Text(String),
    Bool(bool),
    Null,
    Array(Vec<CborValue>),
    /// The entries of a map, in the order in which they stand.
    Pairs(Vec<(CborValue, CborValue)>),
    /// An item with a tag ahead of it.
    Tagged(u64, Box<CborValue>),
    /// A float, which the protocol does not use and this crate does not hold.
    Opaque,
}

impl View for CborValue {
    type V = CborTree;

    open spec fn view(&self) -> CborTree {
        self.tree()
    }
}

impl CborValue {
    /// The value of this item.
    pub open spec fn tree(&self) -> CborTree
        decreases *self,
    {
        match *self {
            CborValue::Integer(n) => CborTree::Integer(n as int),
            CborValue::Bytes(bytes) => CborTree::Bytes(bytes@),
            CborValue::Text(text) => CborTree::Text(text@),
            CborValue::Bool(b) => CborTree::Bool(b),
            CborValue::Null => CborTree::Null,
            CborValue::Array(items) => CborTree::Array(
                Seq::new(
                    items@.len(),
                    |i: int|
                        if 0 <= i < items@.len() {
                            items@[i].tree()
                        } else {
                            CborTree::Null
                        },
                ),
            ),
            CborValue::Pairs(entries) => CborTree::Pairs(
                Seq::new(
                    entries@.len(),
                    |i: int|
                        if 0 <= i < entries@.len() {
                            (entries@[i].0.tree(), entries@[i].1.tree())
                        } else {
                            (CborTree::Null, CborTree::Null)
                        },
                ),
            ),
            CborValue::Tagged(tag, inner) => CborTree::Tagged(tag, Box::new(inner.tree())),
            CborValue::Opaque => CborTree::Opaque,
        }
    }
}

/// The values of several items.
pub open spec fn item_trees(items: Seq<CborValue>) -> Seq<CborTree> {
    Seq::new(items.len(), |i: int| items[i].tree())
}

/// The values of the entries of a map.
pub open spec fn entry_trees(entries: Seq<(CborValue, CborValue)>) -> Seq<(CborTree, CborTree)> {
    Seq::new(entries.len(), |i: int| (entries[i].0.tree(), entries[i].1.tree()))
}

/// The value of an array is made of the values of its items.
pub broadcast proof fn lemma_array_tree(items: Vec<CborValue>)
    ensures
        #[trigger] CborValue::Array(items).tree() == CborTree::Array(item_trees(items@)),
{
    assert(CborValue::Array(items).tree()->Array_0 =~= item_trees(items@));
}

/// The value of a map is made of the values of its entries.
pub broadcast proof fn lemma_pairs_tree(entries: Vec<(CborValue, CborValue)>)
    ensures
        #[trigger] CborValue::Pairs(entries).tree() == CborTree::Pairs(entry_trees(entries@)),
{
    assert(CborValue::Pairs(entries).tree()->Pairs_0 =~= entry_trees(entries@));
}

/// Whether every part of an item can be written: no float, and integers within
/// 64 bits and a sign.
pub open spec fn plain(t: CborTree) -> bool
    decreases t,
{
    match t {
        CborTree::Integer(n) => -0x1_0000_0000_0000_0000 <= n < 0x1_0000_0000_0000_0000,
        CborTree::Array(items) => forall|i: int|
            0 <= i < items.len() ==> plain(#[trigger] items[i]),
        CborTree::Pairs(entries) => forall|i: int|
            #![trigger entries[i]]
            0 <= i < entries.len() ==> plain(entries[i].0) && plain(entries[i].1),
        CborTree::Tagged(_, inner) => plain(*inner),
        CborTree::Opaque => false,
        _ => true,
    }
}

/// Whether arrays, maps and tags nest at most `levels` deep.
pub open spec fn nests_within(t: CborTree, levels: nat) -> bool
    decreases levels,
{
    match t {
        CborTree::Array(items) => levels > 0 && forall|i: int|
            0 <= i < items.len() ==> nests_within(#[trigger] items[i], (levels - 1) as nat),
        CborTree::Pairs(entries) => levels > 0 && forall|i: int|
            #![trigger entries[i]]
            0 <= i < entries.len() ==> nests_within(entries[i].0, (levels - 1) as nat)
                && nests_within(entries[i].1, (levels - 1) as nat),
        CborTree::Tagged(_, inner) => levels > 0 && nests_within(*inner, (levels - 1) as nat),
        _ => true,
    }
}

/// Whether an item has no tagged byte string that stands for a large integer:
/// tag 2 or 3, and at most sixteen bytes. Such a one is read as the integer,
/// and not as it is written if that has a shorter form.
pub open spec fn no_large_integer(t: CborTree) -> bool
    decreases t,
{
    match t {
        CborTree::Array(items) => forall|i: int|
            0 <= i < items.len() ==> no_large_integer(#[trigger] items[i]),
        CborTree::Pairs(entries) => forall|i: int|
            #![trigger entries[i]]
            0 <= i < entries.len() ==> no_large_integer(entries[i].0) && no_large_integer(
                entries[i].1,
            ),
        CborTree::Tagged(tag, inner) => no_large_integer(*inner) && !((tag == 2 || tag == 3)
            && *inner is Bytes && inner->Bytes_0.len() <= 16),
        _ => true,
    }
}

/// Whether reading the encoding of an item gives the item back.
pub open spec fn reads_back(t: CborTree) -> bool {
    plain(t) && nests_within(t, max_nesting()) && no_large_integer(t)
}

/// How deep arrays, maps and tags may nest in bytes that are read.
pub open spec fn max_nesting() -> nat {
    256
}

/// The shortest header with this major type and this argument.
pub open spec fn head_bytes(major: u8, n: nat) -> Seq<u8> {
    let first = (major * 32) as int;
    if n < 24 {
        seq![(first + n) as u8]
    } else if n < 0x100 {
        seq![(first + 24) as u8, n as u8]
    } else if n < 0x1_0000 {
        seq![(first + 25) as u8, (n / 0x100) as u8, (n % 0x100) as u8]
    } else if n < 0x1_0000_0000 {
        seq![(first + 26) as u8] + word_bytes(n)
    } else {
        seq![(first + 27) as u8] + word_bytes(n / 0x1_0000_0000) + word_bytes(n % 0x1_0000_0000)
    }
}

/// A 32-bit number, the most significant byte first.
pub open spec fn word_bytes(n: nat) -> Seq<u8> {
    seq![
        (n / 0x100_0000 % 0x100) as u8,
        (n / 0x1_0000 % 0x100) as u8,
        (n / 0x100 % 0x100) as u8,
        (n % 0x100) as u8,
    ]
}

/// The encoding of an item: the shortest header, lengths ahead of contents,
/// map entries in their order. Major type 2 is a byte string, 3 text, 4 an
/// array, 5 a map and 6 a tag.
pub open spec fn cbor_bytes(t: CborTree) -> Seq<u8>
    decreases t, 0nat,
{
    match t {
        CborTree::Integer(n) => if n >= 0 {
            head_bytes(0, n as nat)
        } else {
            head_bytes(1, (-1 - n) as nat)
        },
        CborTree::Bytes(bytes) => head_bytes(2, bytes.len()) + bytes,
        CborTree::Text(text) => {
            let bytes = vstd::utf8::encode_utf8(text);
            head_bytes(3, bytes.len()) + bytes
        },
        CborTree::Array(items) => head_bytes(4, items.len()) + item_bytes(items, 0),
        CborTree::Pairs(entries) => head_bytes(5, entries.len()) + entry_bytes(entries, 0),
        CborTree::Tagged(tag, inner) => head_bytes(6, tag as nat) + cbor_bytes(*inner),
        CborTree::Bool(b) => seq![
            if b {
                0xf5u8
            } else {
                0xf4u8
            },
        ],
        CborTree::Null => seq![0xf6u8],
        CborTree::Opaque => Seq::empty(),
    }
}

/// The encodings of the items from position `from` on, one behind the other.
pub open spec fn item_bytes(items: Seq<CborTree>, from: int) -> Seq<u8>
    decreases items, (items.len() - from) as nat,
{
    if 0 <= from < items.len() {
        cbor_bytes(items[from]) + item_bytes(items, from + 1)
    } else {
        Seq::empty()
    }
}

/// The encodings of the entries from position `from` on, each key ahead of its
/// value.
pub open spec fn entry_bytes(entries: Seq<(CborTree, CborTree)>, from: int) -> Seq<u8>
    decreases entries, (entries.len() - from) as nat,
{
    if 0 <= from < entries.len() {
        cbor_bytes(entries[from].0) + cbor_bytes(entries[from].1) + entry_bytes(entries, from + 1)
    } else {
        Seq::empty()
    }
}

/// A value of ciborium's own type.
#[verifier::external_type_specification]
#[verifier::external_body]
pub struct ExValue(ciborium::Value);

/// What a value of ciborium's own type holds.
pub uninterp spec fn value_tree(v: ciborium::Value) -> CborTree;

/// What `ciborium::from_reader` reads from these bytes, or nothing if it
/// refuses them.
pub uninterp spec fn decoded(bytes: Seq<u8>) -> Option<CborTree>;

/// One level of a ciborium value.
enum Layer<'a> {
    Integer(i128),
    Bytes(&'a Vec<u8>),
    Text(&'a String),
    Bool(bool),
    Null,
    Array(&'a Vec<ciborium::Value>),
    Pairs(&'a Vec<(ciborium::Value, ciborium::Value)>),
    Tagged(u64, &'a ciborium::Value),
    Opaque,
}

/// One level of a ciborium value that is to be built.
enum Piece {
    Integer(i128),
    Bytes(Vec<u8>),
    Text(String),
    Bool(bool),
    Null,
    Array(Vec<ciborium::Value>),
    Pairs(Vec<(ciborium::Value, ciborium::Value)>),
    Tagged(u64, ciborium::Value),
}

spec fn value_trees(items: Seq<ciborium::Value>) -> Seq<CborTree> {
    Seq::new(items.len(), |i: int| value_tree(items[i]))
}

spec fn value_entry_trees(entries: Seq<(ciborium::Value, ciborium::Value)>) -> Seq<
    (CborTree, CborTree),
> {
    Seq::new(entries.len(), |i: int| (value_tree(entries[i].0), value_tree(entries[i].1)))
}

spec fn layer_tree(layer: Layer) -> CborTree {
    match layer {
        Layer::Integer(n) => CborTree::Integer(n as int),
        Layer::Bytes(bytes) => CborTree::Bytes(bytes@),
        Layer::Text(text) => CborTree::Text(text@),
        Layer::Bool(b) => CborTree::Bool(b),
        Layer::Null => CborTree::Null,
        Layer::Array(items) => CborTree::Array(value_trees(items@)),
        Layer::Pairs(entries) => CborTree::Pairs(value_entry_trees(entries@)),
        Layer::Tagged(tag, inner) => CborTree::Tagged(tag, Box::new(value_tree(*inner))),
        Layer::Opaque => CborTree::Opaque,
    }
}

spec fn piece_tree(piece: Piece) -> CborTree {
    match piece {
        Piece::Integer(n) => CborTree::Integer(n as int),
        Piece::Bytes(bytes) => CborTree::Bytes(bytes@),
        Piece::Text(text) => CborTree::Text(text@),
        Piece::Bool(b) => CborTree::Bool(b),
        Piece::Null => CborTree::Null,
        Piece::Array(items) => CborTree::Array(value_trees(items@)),
        Piece::Pairs(entries) => CborTree::Pairs(value_entry_trees(entries@)),
        Piece::Tagged(tag, inner) => CborTree::Tagged(tag, Box::new(value_tree(inner))),
    }
}

/// Looks at the outermost level of a `ciborium::Value`.
///
/// Taken on trust: the variant says what the value is, the numbers, bytes and
/// characters are those it holds, and the parts of an array, a map or a tagged
/// item are the values that stand in it, in order. Floats are told apart from
/// the rest but not from each other.
#[verifier::external_body]
fn open_value<'a>(v: &'a ciborium::Value) -> (r: Layer<'a>)
    ensures
        value_tree(*v) == layer_tree(r),
{
    match v {
        ciborium::Value::Integer(n) => Layer::Integer(i128::from(*n)),
        ciborium::Value::Bytes(bytes) => Layer::Bytes(bytes),
        ciborium::Value::Text(text) => Layer::Text(text),
        ciborium::Value::Bool(b) => Layer::Bool(*b),
        ciborium::Value::Null => Layer::Null,
        ciborium::Value::Array(items) => Layer::Array(items),
        ciborium::Value::Map(entries) => Layer::Pairs(entries),
        ciborium::Value::Tag(tag, inner) => Layer::Tagged(*tag, inner),
        _ => Layer::Opaque,
    }
}

/// Builds a `ciborium::Value` from its outermost level.
///
/// Taken on trust: the value holds what it was built from. An integer outside
/// 64 bits and a sign would become a tagged item instead, so it is left out.
#[verifier::external_body]
fn build_value(piece: Piece) -> (r: ciborium::Value)
    requires
        piece matches Piece::Integer(n) ==> -0x1_0000_0000_0000_0000 <= n
            < 0x1_0000_0000_0000_0000,
    ensures
        value_tree(r) == piece_tree(piece),
{
    match piece {
        Piece::Integer(n) => ciborium::Value::from(n),
        Piece::Bytes(bytes) => ciborium::Value::Bytes(bytes),
        Piece::Text(text) => ciborium::Value::Text(text),
        Piece::Bool(b) => ciborium::Value::Bool(b),
        Piece::Null => ciborium::Value::Null,
        Piece::Array(items) => ciborium::Value::Array(items),
        Piece::Pairs(entries) => ciborium::Value::Map(entries),
        Piece::Tagged(tag, inner) => ciborium::Value::Tag(tag, Box::new(inner)),
    }
}

/// Reads the data item at the front of some bytes with `ciborium::from_reader`.
///
/// Taken on trust: the outcome depends on the bytes alone, and reading the
/// encoding of an item that [`write_value`] could have written gives that item
/// back, unless it nests too deep or holds a tagged byte string that stands for
/// a large integer. What is read from other bytes is left unsaid.
#[verifier::external_body]
fn read_value(bytes: &[u8]) -> (r: Option<ciborium::Value>)
    ensures
        match r {
            Some(v) => decoded(bytes@) == Some(value_tree(v)),
            None => decoded(bytes@) is None,
        },
        forall|t: CborTree|
            reads_back(t) && bytes@ == #[trigger] cbor_bytes(t) ==> r is Some && value_tree(
                r->Some_0,
            ) == t,
{
    ciborium::from_reader(bytes).ok()
}

/// Encodes a value with `ciborium::into_writer`.
///
/// Taken on trust: a value without floats is always written, with the shortest
/// headers and definite lengths.
#[verifier::external_body]
fn write_value(v: &ciborium::Value) -> (r: Option<Vec<u8>>)
    ensures
        plain(value_tree(*v)) ==> r is Some && r->Some_0@ == cbor_bytes(value_tree(*v)),
{
    let mut out: Vec<u8> = Vec::new();
    match ciborium::into_writer(v, &mut out) {
        Ok(()) => Some(out),
        Err(_) => None,
    }
}

/// Carries a ciborium value over, with everything that it holds.
pub fn carry_over(v: &ciborium::Value) -> (r: CborValue)
    ensures
        r@ == value_tree(*v),
    decreases value_tree(*v),
{
    broadcast use {lemma_array_tree, lemma_pairs_tree};

    let ghost t = value_tree(*v);
    match open_value(v) {
        Layer::Integer(n) => CborValue::Integer(n),
        Layer::Bytes(bytes) => CborValue::Bytes(bytes.clone()),
        Layer::Text(text) => CborValue::Text(text.clone()),
        Layer::Bool(b) => CborValue::Bool(b),
        Layer::Null => CborValue::Null,
        Layer::Array(items) => {
            let mut out: Vec<CborValue> = Vec::new();
            let mut i: usize = 0;
            while i < items.len()
                invariant
                    i <= items@.len(),
                    out@.len() == i,
                    t == value_tree(*v),
                    t == CborTree::Array(value_trees(items@)),
                    forall|k: int| 0 <= k < i ==> #[trigger] out@[k].tree() == value_tree(items@[k]),
                decreases items@.len() - i,
            {
                proof {
                    assert(decreases_to!(t => t->Array_0));
                    assert(decreases_to!(t->Array_0 => t->Array_0[i as int]));
                }
                out.push(carry_over(&items[i]));
                i += 1;
            }
            proof {
                assert(item_trees(out@) =~= value_trees(items@));
            }
            CborValue::Array(out)
        },
        Layer::Pairs(entries) => {
            let mut out: Vec<(CborValue, CborValue)> = Vec::new();
            let mut i: usize = 0;
            while i < entries.len()
                invariant
                    i <= entries@.len(),
                    out@.len() == i,
                    t == value_tree(*v),
                    t == CborTree::Pairs(value_entry_trees(entries@)),
                    forall|k: int|
                        #![trigger out@[k]]
                        0 <= k < i ==> out@[k].0.tree() == value_tree(entries@[k].0)
                            && out@[k].1.tree() == value_tree(entries@[k].1),
                decreases entries@.len() - i,
            {
                proof {
                    assert(decreases_to!(t => t->Pairs_0));
                    let e = t->Pairs_0[i as int];
                    assert(decreases_to!(t->Pairs_0 => e));
                    assert(decreases_to!(e => e.0));
                    assert(decreases_to!(e => e.1));
                }
                let key = carry_over(&entries[i].0);
                let value = carry_over(&entries[i].1);
                out.push((key, value));
                i += 1;
            }
            proof {
                assert(entry_trees(out@) =~= value_entry_trees(entries@));
            }
            CborValue::Pairs(out)
        },
        Layer::Tagged(tag, inner) => {
            proof {
                assert(decreases_to!(t => t->Tagged_1));
            }
            CborValue::Tagged(tag, Box::new(carry_over(inner)))
        },
        Layer::Opaque => CborValue::Opaque,
    }
}

/// Builds the ciborium value of an item, unless a part of it cannot be written.
fn to_value(v: &CborValue) -> (r: Option<ciborium::Value>)
    ensures
        match r {
            Some(value) => plain(v@) && value_tree(value) == v@,
            None => !plain(v@),
        },
    decreases *v,
{
    broadcast use {lemma_array_tree, lemma_pairs_tree};

    match v {
        CborValue::Integer(n) => {
            if -0x1_0000_0000_0000_0000i128 <= *n && *n < 0x1_0000_0000_0000_0000i128 {
                Some(build_value(Piece::Integer(*n)))
            } else {
                None
            }
        },
        CborValue::Bytes(bytes) => Some(build_value(Piece::Bytes(bytes.clone()))),
        CborValue::Text(text) => Some(build_value(Piece::Text(text.clone()))),
        CborValue::Bool(b) => Some(build_value(Piece::Bool(*b))),
        CborValue::Null => Some(build_value(Piece::Null)),
        CborValue::Array(items) => {
            let mut out: Vec<ciborium::Value> = Vec::new();
            let mut i: usize = 0;
            while i < items.len()
                invariant
                    i <= items@.len(),
                    out@.len() == i,
                    *v == CborValue::Array(*items),
                    v@ == CborTree::Array(item_trees(items@)),
                    forall|k: int|
                        0 <= k < i ==> plain(items@[k].tree()) && #[trigger] value_tree(out@[k])
                            == items@[k].tree(),
                decreases items@.len() - i,
            {
                match to_value(&items[i]) {
                    Some(value) => {
                        out.push(value);
                    },
                    None => {
                        proof {
                            assert(!plain(v@->Array_0[i as int]));
                        }
                        return None;
                    },
                }
                i += 1;
            }
            proof {
                assert(value_trees(out@) =~= item_trees(items@));
                assert forall|k: int| 0 <= k < items@.len() implies plain(
                    #[trigger] item_trees(items@)[k],
                ) by {
                    assert(value_tree(out@[k]) == items@[k].tree());
                }
            }
            Some(build_value(Piece::Array(out)))
        },
        CborValue::Pairs(entries) => {
            let mut out: Vec<(ciborium::Value, ciborium::Value)> = Vec::new();
            let mut i: usize = 0;
            while i < entries.len()
                invariant
                    i <= entries@.len(),
                    out@.len() == i,
                    *v == CborValue::Pairs(*entries),
                    v@ == CborTree::Pairs(entry_trees(entries@)),
                    forall|k: int|
                        #![trigger out@[k]]
                        0 <= k < i ==> plain(entries@[k].0.tree()) && plain(entries@[k].1.tree())
                            && value_tree(out@[k].0) == entries@[k].0.tree() && value_tree(out@[k].1)
                            == entries@[k].1.tree(),
                decreases entries@.len() - i,
            {
                match (to_value(&entries[i].0), to_value(&entries[i].1)) {
                    (Some(key), Some(value)) => {
                        out.push((key, value));
                    },
                    _ => {
                        proof {
                            let entry = v@->Pairs_0[i as int];
                            assert(!plain(entry.0) || !plain(entry.1));
                        }
                        return None;
                    },
                }
                i += 1;
            }
            proof {
                assert(value_entry_trees(out@) =~= entry_trees(entries@));
                assert forall|k: int| 0 <= k < entries@.len() implies plain(
                    (#[trigger] entry_trees(entries@)[k]).0,
                ) && plain(entry_trees(entries@)[k].1) by {
                    assert(value_tree(out@[k].0) == entries@[k].0.tree());
                }
            }
            Some(build_value(Piece::Pairs(out)))
        },
        CborValue::Tagged(tag, inner) => match to_value(inner) {
            Some(value) => Some(build_value(Piece::Tagged(*tag, value))),
            None => None,
        },
        CborValue::Opaque => None,
    }
}

/// Reads the data item at the front of some bytes.
///
/// What bytes mean is ciborium's to say. An encoding that [`encode`] made is
/// read as the item it was made from, if that does not nest too deep and holds
/// no tagged byte string that stands for a large integer.
pub fn decode(bytes: &[u8]) -> (r: Option<CborValue>)
    ensures
        match r {
            Some(v) => decoded(bytes@) == Some(v@),
            None => decoded(bytes@) is None,
        },
        forall|t: CborTree|
            reads_back(t) && bytes@ == #[trigger] cbor_bytes(t) ==> decoded(bytes@) == Some(t),
{
    match read_value(bytes) {
        Some(v) => Some(carry_over(&v)),
        None => None,
    }
}

/// Encodes an item, unless a part of it cannot be written.
pub fn encode(v: &CborValue) -> (r: Option<Vec<u8>>)
    ensures
        match r {
            Some(bytes) => plain(v@) && bytes@ == cbor_bytes(v@),
            None => !plain(v@),
        },
{
    match to_value(v) {
        Some(value) => write_value(&value),
        None => None,
    }
}

/// Whether lengths and counts fit the widest header.
pub open spec fn sized(t: CborTree) -> bool
    decreases t,
{
    match t {
        CborTree::Bytes(bytes) => bytes.len() < 0x1_0000_0000_0000_0000,
        CborTree::Text(text) => vstd::utf8::encode_utf8(text).len() < 0x1_0000_0000_0000_0000,
        CborTree::Array(items) => items.len() < 0x1_0000_0000_0000_0000 && forall|i: int|
            0 <= i < items.len() ==> sized(#[trigger] items[i]),
        CborTree::Pairs(entries) => entries.len() < 0x1_0000_0000_0000_0000 && forall|i: int|
            #![trigger entries[i]]
            0 <= i < entries.len() ==> sized(entries[i].0) && sized(entries[i].1),
        CborTree::Tagged(_, inner) => sized(*inner),
        _ => true,
    }
}

/// Four bytes read back as the number they were written for.
proof fn lemma_word(n: nat, before: Seq<u8>, after: Seq<u8>)
    requires
        n < 0x1_0000_0000,
    ensures
        word(before + word_bytes(n) + after, before.len() as int) == n,
{
    let s = before + word_bytes(n) + after;
    let at = before.len() as int;
    assert(s[at] == word_bytes(n)[0]);
    assert(s[at + 1] == word_bytes(n)[1]);
    assert(s[at + 2] == word_bytes(n)[2]);
    assert(s[at + 3] == word_bytes(n)[3]);
}

/// What a header of `size` bytes with this major type and argument says.
spec fn meaning(major: u8, n: nat, size: nat) -> Header {
    if major <= 1 {
        Header::Leaf(size)
    } else if major <= 3 {
        Header::Leaf(size + n)
    } else if major == 4 {
        Header::Branch(size, Task::Items(n as u128))
    } else if major == 5 {
        Header::Branch(size, Task::Items((2 * n) as u128))
    } else {
        Header::Branch(size, Task::Items(1))
    }
}

/// What the first byte and the argument behind it say.
proof fn lemma_header_parts(s: Seq<u8>, major: u8, info: u8, n: nat)
    requires
        major <= 6,
        info < 28,
        s.len() > width(info as int),
        s[0] == major * 32 + info,
        info < 24 ==> n == info,
        info >= 24 ==> n == argument(s, width(info as int)),
    ensures
        header(s) == meaning(major, n, 1 + width(info as int)),
{
    reveal(header);
    assert(s[0] as int / 32 == major);
    assert(s[0] as int % 32 == info);
}

/// A header reads back as it was written.
proof fn lemma_head(major: u8, n: nat, rest: Seq<u8>)
    requires
        major <= 6,
        n < 0x1_0000_0000_0000_0000,
    ensures
        header(head_bytes(major, n) + rest) == meaning(major, n, head_bytes(major, n).len()),
{
    let head = head_bytes(major, n);
    let s = head + rest;
    assert(s[0] == head[0]);
    if n < 24 {
        lemma_header_parts(s, major, n as u8, n);
    } else if n < 0x100 {
        assert(s[1] == head[1]);
        lemma_header_parts(s, major, 24, n);
    } else if n < 0x1_0000 {
        assert(s[1] == head[1]);
        assert(s[2] == head[2]);
        lemma_header_parts(s, major, 25, n);
    } else if n < 0x1_0000_0000 {
        let first = seq![(major * 32 + 26) as u8];
        assert(s =~= first + word_bytes(n) + rest);
        lemma_word(n, first, rest);
        lemma_header_parts(s, major, 26, n);
    } else {
        let first = seq![(major * 32 + 27) as u8];
        let high = n / 0x1_0000_0000;
        let low = n % 0x1_0000_0000;
        assert(s =~= first + word_bytes(high) + (word_bytes(low) + rest));
        lemma_word(high, first, word_bytes(low) + rest);
        assert(s =~= (first + word_bytes(high)) + word_bytes(low) + rest);
        lemma_word(low, first + word_bytes(high), rest);
        lemma_header_parts(s, major, 27, n);
    }
}

/// Several items are the first and then the others.
proof fn lemma_items_first(s: Seq<u8>, count: u128)
    requires
        count > 0,
    ensures
        scan(s, Task::Items(count)) == (match first_item(s) {
            Extent::Complete(n) => shift(
                n,
                scan(s.skip(n as int), Task::Items((count - 1) as u128)),
            ),
            e => e,
        }),
{
    reveal_with_fuel(scan, 2);
    lemma_extent_in_bounds(s, Task::Items(1));
    match header(s) {
        Header::Branch(n, inner) => if 0 < n <= s.len() {
            if let Extent::Complete(m) = scan(s.skip(n as int), inner) {
                lemma_extent_in_bounds(s.skip(n as int), inner);
            }
        },
        _ => {},
    }
}

/// An item that is nothing but its header, or a string, ends with it.
proof fn lemma_leaf_item(s: Seq<u8>, n: nat)
    requires
        header(s) == Header::Leaf(n),
        0 < n <= s.len(),
    ensures
        first_item(s) == Extent::Complete(n),
{
    reveal_with_fuel(scan, 2);
}

/// An item that holds others ends where they do.
proof fn lemma_branch_item(s: Seq<u8>, n: nat, inner: Task, m: nat)
    requires
        header(s) == Header::Branch(n, inner),
        0 < n,
        n + m <= s.len(),
        scan(s.skip(n as int), inner) == Extent::Complete(m),
    ensures
        first_item(s) == Extent::Complete(n + m),
{
    let rest = s.skip((n + m) as int);
    assert(scan(rest, Task::Items(0)) == Extent::Complete(0));
}

/// A truth value and null are one byte each.
proof fn lemma_simple_item(first: u8, rest: Seq<u8>)
    requires
        0xf4 <= first <= 0xf6,
    ensures
        first_item(seq![first] + rest) == Extent::Complete(1),
{
    reveal(header);
    let s = seq![first] + rest;
    assert(s[0] == first);
    lemma_leaf_item(s, 1);
}

/// The encoding of an item is one data item, whatever stands behind it.
pub proof fn lemma_encoding_is_one_item(t: CborTree, rest: Seq<u8>)
    requires
        plain(t),
        sized(t),
    ensures
        first_item(cbor_bytes(t) + rest) == Extent::Complete(cbor_bytes(t).len()),
    decreases t, 0nat,
{
    let s = cbor_bytes(t) + rest;
    match t {
        CborTree::Integer(n) => {
            if n >= 0 {
                lemma_head(0, n as nat, rest);
            } else {
                lemma_head(1, (-1 - n) as nat, rest);
            }
            lemma_leaf_item(s, cbor_bytes(t).len());
        },
        CborTree::Bytes(bytes) => {
            lemma_head(2, bytes.len(), bytes + rest);
            assert(s =~= head_bytes(2, bytes.len()) + (bytes + rest));
            lemma_leaf_item(s, cbor_bytes(t).len());
        },
        CborTree::Text(text) => {
            let bytes = vstd::utf8::encode_utf8(text);
            lemma_head(3, bytes.len(), bytes + rest);
            assert(s =~= head_bytes(3, bytes.len()) + (bytes + rest));
            lemma_leaf_item(s, cbor_bytes(t).len());
        },
        CborTree::Array(items) => {
            let head = head_bytes(4, items.len());
            let body = item_bytes(items, 0);
            lemma_head(4, items.len(), body + rest);
            assert(s =~= head + (body + rest));
            assert(s.skip(head.len() as int) =~= body + rest);
            assert forall|i: int| 0 <= i < items.len() implies plain(#[trigger] items[i]) && sized(
                items[i],
            ) by {
                assert(t->Array_0[i] == items[i]);
            }
            lemma_items_follow(items, 0, rest);
            lemma_branch_item(s, head.len(), Task::Items(items.len() as u128), body.len());
        },
        CborTree::Pairs(entries) => {
            let head = head_bytes(5, entries.len());
            let body = entry_bytes(entries, 0);
            lemma_head(5, entries.len(), body + rest);
            assert(s =~= head + (body + rest));
            assert(s.skip(head.len() as int) =~= body + rest);
            assert forall|i: int| 0 <= i < entries.len() implies plain((#[trigger] entries[i]).0)
                && plain(entries[i].1) && sized(entries[i].0) && sized(entries[i].1) by {
                assert(t->Pairs_0[i] == entries[i]);
            }
            lemma_entries_follow(entries, 0, rest);
            lemma_branch_item(s, head.len(), Task::Items((2 * entries.len()) as u128), body.len());
        },
        CborTree::Tagged(tag, inner) => {
            let head = head_bytes(6, tag as nat);
            let body = cbor_bytes(*inner);
            lemma_head(6, tag as nat, body + rest);
            assert(s =~= head + (body + rest));
            assert(s.skip(head.len() as int) =~= body + rest);
            assert(decreases_to!(t => t->Tagged_1));
            lemma_encoding_is_one_item(*inner, rest);
            lemma_branch_item(s, head.len(), Task::Items(1), body.len());
        },
        CborTree::Bool(b) => {
            lemma_simple_item(
                if b {
                    0xf5u8
                } else {
                    0xf4u8
                },
                rest,
            );
        },
        CborTree::Null => {
            lemma_simple_item(0xf6u8, rest);
        },
        CborTree::Opaque => {},
    }
}

/// The encodings of several items are as many data items.
proof fn lemma_items_follow(items: Seq<CborTree>, from: int, rest: Seq<u8>)
    requires
        0 <= from <= items.len(),
        items.len() < 0x1_0000_0000_0000_0000,
        forall|i: int| 0 <= i < items.len() ==> plain(#[trigger] items[i]) && sized(items[i]),
    ensures
        scan(item_bytes(items, from) + rest, Task::Items((items.len() - from) as u128))
            == Extent::Complete(item_bytes(items, from).len()),
    decreases items, (items.len() - from) as nat,
{
    if from < items.len() {
        let first = cbor_bytes(items[from]);
        let others = item_bytes(items, from + 1);
        let s = item_bytes(items, from) + rest;
        assert(s =~= first + (others + rest));
        lemma_encoding_is_one_item(items[from], others + rest);
        lemma_items_first(s, (items.len() - from) as u128);
        assert(s.skip(first.len() as int) =~= others + rest);
        lemma_items_follow(items, from + 1, rest);
    }
}

/// The encodings of several entries are twice as many data items.
proof fn lemma_entries_follow(entries: Seq<(CborTree, CborTree)>, from: int, rest: Seq<u8>)
    requires
        0 <= from <= entries.len(),
        entries.len() < 0x1_0000_0000_0000_0000,
        forall|i: int|
            0 <= i < entries.len() ==> plain((#[trigger] entries[i]).0) && plain(entries[i].1)
                && sized(entries[i].0) && sized(entries[i].1),
    ensures
        scan(entry_bytes(entries, from) + rest, Task::Items((2 * (entries.len() - from)) as u128))
            == Extent::Complete(entry_bytes(entries, from).len()),
    decreases entries, (entries.len() - from) as nat,
{
    if from < entries.len() {
        let count = (2 * (entries.len() - from)) as u128;
        let key = cbor_bytes(entries[from].0);
        let value = cbor_bytes(entries[from].1);
        let others = entry_bytes(entries, from + 1);
        let s = entry_bytes(entries, from) + rest;
        assert(s =~= key + (value + (others + rest)));
        assert(decreases_to!(entries => entries[from]));
        assert(decreases_to!(entries[from] => entries[from].0));
        assert(decreases_to!(entries[from] => entries[from].1));
        lemma_encoding_is_one_item(entries[from].0, value + (others + rest));
        lemma_items_first(s, count);
        let s1 = s.skip(key.len() as int);
        assert(s1 =~= value + (others + rest));
        lemma_encoding_is_one_item(entries[from].1, others + rest);
        lemma_items_first(s1, (count - 1) as u128);
        assert(s1.skip(value.len() as int) =~= others + rest);
        lemma_entries_follow(entries, from + 1, rest);
    }
}

// ----------------------------------------------------------------------------
// Laws: what the encoding looks like
// ----------------------------------------------------------------------------
/// Whether these bytes are the shortest header of this major type that states
/// this number.
pub open spec fn heads_shortly(head: Seq<u8>, major: int, n: nat) -> bool {
    &&& heads(head, major, n)
    &&& n < 24 ==> head.len() == 1
    &&& n < 0x100 ==> head.len() <= 2
    &&& n < 0x1_0000 ==> head.len() <= 3
    &&& n < 0x1_0000_0000 ==> head.len() <= 5
}

proof fn lemma_word_is_a_number(n: nat)
    requires
        n < 0x1_0000_0000,
    ensures
        number_in(word_bytes(n)) == n,
{
    let d = word_bytes(n);
    reveal_with_fuel(number_in, 5);
    let c = d.drop_last();
    let b = c.drop_last();
    let a = b.drop_last();
    assert(a.drop_last().len() == 0);
    assert(number_in(a) == d[0]);
    assert(number_in(b) == d[0] * 0x100 + d[1]);
    assert(number_in(c) == d[0] * 0x1_0000 + d[1] * 0x100 + d[2]);
}

proof fn lemma_two_words_are_a_number(high: nat, low: nat)
    requires
        high < 0x1_0000_0000,
        low < 0x1_0000_0000,
    ensures
        number_in(word_bytes(high) + word_bytes(low)) == high * 0x1_0000_0000 + low,
{
    let d = word_bytes(high) + word_bytes(low);
    lemma_word_is_a_number(high);
    lemma_word_is_a_number(low);
    let l = word_bytes(low);
    let g = d.drop_last();
    let f = g.drop_last();
    let e = f.drop_last();
    assert(e.drop_last() =~= word_bytes(high));
    assert(number_in(e) == high * 0x100 + l[0]);
    assert(number_in(f) == high * 0x1_0000 + l[0] * 0x100 + l[1]);
    assert(number_in(g) == high * 0x100_0000 + l[0] * 0x1_0000 + l[1] * 0x100 + l[2]);
    assert(low == l[0] * 0x100_0000 + l[1] * 0x1_0000 + l[2] * 0x100 + l[3]);
}

/// A header states its number in the fewest bytes.
pub proof fn lemma_headers_are_short(major: u8, n: nat)
    requires
        major <= 7,
        n < 0x1_0000_0000_0000_0000,
    ensures
        heads_shortly(head_bytes(major, n), major as int, n),
{
    let head = head_bytes(major, n);
    let digits = head.skip(1);
    if n < 24 {
    } else if n < 0x100 {
        assert(digits =~= seq![n as u8]);
        reveal_with_fuel(number_in, 2);
        assert(digits.drop_last().len() == 0);
    } else if n < 0x1_0000 {
        assert(digits =~= seq![(n / 0x100) as u8, (n % 0x100) as u8]);
        reveal_with_fuel(number_in, 3);
        assert(digits.drop_last().drop_last().len() == 0);
    } else if n < 0x1_0000_0000 {
        assert(digits =~= word_bytes(n));
        lemma_word_is_a_number(n);
    } else {
        assert(digits =~= word_bytes(n / 0x1_0000_0000) + word_bytes(n % 0x1_0000_0000));
        lemma_two_words_are_a_number(n / 0x1_0000_0000, n % 0x1_0000_0000);
    }
}

proof fn lemma_item_bytes_are_flat(items: Seq<CborTree>, from: int)
    requires
        0 <= from <= items.len(),
    ensures
        item_bytes(items, from) == Seq::new(
            (items.len() - from) as nat,
            |i: int| cbor_bytes(items[from + i]),
        ).flatten(),
    decreases items.len() - from,
{
    let parts = Seq::new((items.len() - from) as nat, |i: int| cbor_bytes(items[from + i]));
    if from < items.len() {
        lemma_item_bytes_are_flat(items, from + 1);
        assert(parts.drop_first() =~= Seq::new(
            (items.len() - (from + 1)) as nat,
            |i: int| cbor_bytes(items[from + 1 + i]),
        ));
        assert(parts.flatten() == parts[0] + parts.drop_first().flatten());
    } else {
        assert(parts.flatten() =~= Seq::empty());
    }
}

proof fn lemma_entry_bytes_are_flat(entries: Seq<(CborTree, CborTree)>, from: int)
    requires
        0 <= from <= entries.len(),
    ensures
        entry_bytes(entries, from) == Seq::new(
            (entries.len() - from) as nat,
            |i: int| cbor_bytes(entries[from + i].0) + cbor_bytes(entries[from + i].1),
        ).flatten(),
    decreases entries.len() - from,
{
    let parts = Seq::new(
        (entries.len() - from) as nat,
        |i: int| cbor_bytes(entries[from + i].0) + cbor_bytes(entries[from + i].1),
    );
    if from < entries.len() {
        lemma_entry_bytes_are_flat(entries, from + 1);
        assert(parts.drop_first() =~= Seq::new(
            (entries.len() - (from + 1)) as nat,
            |i: int| cbor_bytes(entries[from + 1 + i].0) + cbor_bytes(entries[from + 1 + i].1),
        ));
        assert(parts.flatten() == parts[0] + parts.drop_first().flatten());
    } else {
        assert(parts.flatten() =~= Seq::empty());
    }
}

/// Numbers, truth values, null and strings are written as a header and, for a
/// string, its bytes behind it. A negative number states how far it is below
/// minus one.
pub proof fn lemma_values_are_written_plainly(
    n: nat,
    bytes: Seq<u8>,
    text: Seq<char>,
)
    requires
        n < 0x1_0000_0000_0000_0000,
        bytes.len() < 0x1_0000_0000_0000_0000,
        vstd::utf8::encode_utf8(text).len() < 0x1_0000_0000_0000_0000,
    ensures
        heads_shortly(cbor_bytes(CborTree::Integer(n as int)), 0, n),
        heads_shortly(cbor_bytes(CborTree::Integer(-1 - n)), 1, n),
        exists|head: Seq<u8>|
            cbor_bytes(CborTree::Bytes(bytes)) == #[trigger] (head + bytes) && heads_shortly(
                head,
                2,
                bytes.len(),
            ),
        exists|head: Seq<u8>|
            cbor_bytes(CborTree::Text(text)) == #[trigger] (head + vstd::utf8::encode_utf8(text))
                && heads_shortly(head, 3, vstd::utf8::encode_utf8(text).len()),
        cbor_bytes(CborTree::Bool(false)) == seq![0xf4u8],
        cbor_bytes(CborTree::Bool(true)) == seq![0xf5u8],
        cbor_bytes(CborTree::Null) == seq![0xf6u8],
{
    let encoded = vstd::utf8::encode_utf8(text);
    lemma_headers_are_short(0, n);
    lemma_headers_are_short(1, n);
    lemma_headers_are_short(2, bytes.len());
    lemma_headers_are_short(3, encoded.len());
    assert(cbor_bytes(CborTree::Bytes(bytes)) == head_bytes(2, bytes.len()) + bytes);
    assert(cbor_bytes(CborTree::Text(text)) == head_bytes(3, encoded.len()) + encoded);
}

/// Arrays and maps are written as a header and what they hold, in order: each
/// item, or each key and the value behind it. A tag stands ahead of its item.
pub proof fn lemma_collections_are_written_in_order(
    items: Seq<CborTree>,
    written: Seq<Seq<u8>>,
    entries: Seq<(CborTree, CborTree)>,
    pairs: Seq<Seq<u8>>,
    tag: u64,
    inner: CborTree,
)
    requires
        items.len() < 0x1_0000_0000_0000_0000,
        entries.len() < 0x1_0000_0000_0000_0000,
        written.len() == items.len(),
        forall|i: int| 0 <= i < items.len() ==> #[trigger] written[i] == cbor_bytes(items[i]),
        pairs.len() == entries.len(),
        forall|i: int|
            0 <= i < entries.len() ==> #[trigger] pairs[i] == cbor_bytes(entries[i].0) + cbor_bytes(
                entries[i].1,
            ),
    ensures
        exists|head: Seq<u8>|
            cbor_bytes(CborTree::Array(items)) == #[trigger] (head + written.flatten())
                && heads_shortly(head, 4, items.len()),
        exists|head: Seq<u8>|
            cbor_bytes(CborTree::Pairs(entries)) == #[trigger] (head + pairs.flatten())
                && heads_shortly(head, 5, entries.len()),
        exists|head: Seq<u8>|
            cbor_bytes(CborTree::Tagged(tag, Box::new(inner))) == #[trigger] (head + cbor_bytes(
                inner,
            )) && heads_shortly(head, 6, tag as nat),
{
    lemma_headers_are_short(4, items.len());
    lemma_headers_are_short(5, entries.len());
    lemma_headers_are_short(6, tag as nat);
    lemma_item_bytes_are_flat(items, 0);
    lemma_entry_bytes_are_flat(entries, 0);
    assert(Seq::new((items.len() - 0) as nat, |i: int| cbor_bytes(items[0 + i])) =~= written);
    assert(Seq::new(
        (entries.len() - 0) as nat,
        |i: int| cbor_bytes(entries[0 + i].0) + cbor_bytes(entries[0 + i].1),
    ) =~= pairs);
    assert(cbor_bytes(CborTree::Array(items)) == head_bytes(4, items.len()) + written.flatten());
    assert(cbor_bytes(CborTree::Pairs(entries)) == head_bytes(5, entries.len())
        + pairs.flatten());
    let t = CborTree::Tagged(tag, Box::new(inner));
    assert(cbor_bytes(t) == head_bytes(6, tag as nat) + cbor_bytes(inner));
}

/// Which items can be written: all but floats and integers beyond 64 bits and a
/// sign, and whatever holds nothing but such.
pub proof fn lemma_what_can_be_written(
    n: int,
    bytes: Seq<u8>,
    text: Seq<char>,
    b: bool,
    items: Seq<CborTree>,
    entries: Seq<(CborTree, CborTree)>,
    tag: u64,
    inner: CborTree,
)
    ensures
        plain(CborTree::Integer(n)) <==> -18_446_744_073_709_551_616 <= n
            <= 18_446_744_073_709_551_615,
        plain(CborTree::Bytes(bytes)),
        plain(CborTree::Text(text)),
        plain(CborTree::Bool(b)),
        plain(CborTree::Null),
        !plain(CborTree::Opaque),
        plain(CborTree::Array(items)) <==> forall|i: int|
            0 <= i < items.len() ==> plain(#[trigger] items[i]),
        plain(CborTree::Pairs(entries)) <==> forall|i: int|
            #![trigger entries[i]]
            0 <= i < entries.len() ==> plain(entries[i].0) && plain(entries[i].1),
        plain(CborTree::Tagged(tag, Box::new(inner))) <==> plain(inner),
{
    let array = CborTree::Array(items);
    let pairs = CborTree::Pairs(entries);
    assert(array->Array_0 == items);
    assert(pairs->Pairs_0 == entries);
    assert(plain(array) <==> forall|i: int| 0 <= i < items.len() ==> plain(#[trigger] items[i]));
    let tagged = CborTree::Tagged(tag, Box::new(inner));
    assert(*tagged->Tagged_1 == inner);
}

/// The value of an item is what it holds, in order.
pub proof fn lemma_items_show_what_they_hold(
    n: i128,
    bytes: Vec<u8>,
    text: String,
    b: bool,
    items: Vec<CborValue>,
    entries: Vec<(CborValue, CborValue)>,
    tag: u64,
    inner: CborValue,
)
    ensures
        CborValue::Integer(n)@ == CborTree::Integer(n as int),
        CborValue::Bytes(bytes)@ == CborTree::Bytes(bytes@),
        CborValue::Text(text)@ == CborTree::Text(text@),
        CborValue::Bool(b)@ == CborTree::Bool(b),
        CborValue::Null@ == CborTree::Null,
        CborValue::Opaque@ == CborTree::Opaque,
        CborValue::Tagged(tag, Box::new(inner))@ == CborTree::Tagged(tag, Box::new(inner@)),
        CborValue::Array(items)@ matches CborTree::Array(seen) && seen.len() == items@.len()
            && forall|i: int| 0 <= i < items@.len() ==> #[trigger] seen[i] == items@[i]@,
        CborValue::Pairs(entries)@ matches CborTree::Pairs(seen) && seen.len() == entries@.len()
            && forall|i: int|
            0 <= i < entries@.len() ==> #[trigger] seen[i] == (entries@[i].0@, entries@[i].1@),
{
    lemma_array_tree(items);
    lemma_pairs_tree(entries);
}

/// An item that has no arrays, maps and tags in it, no float and no integer
/// beyond 64 bits and a sign is read back from its encoding, and so is one
/// level of any of them, up to 256 levels.
pub proof fn lemma_what_is_read_back(
    t: CborTree,
    items: Seq<CborTree>,
    entries: Seq<(CborTree, CborTree)>,
    tag: u64,
    levels: nat,
)
    ensures
        plain(t) && !(t is Array) && !(t is Pairs) && !(t is Tagged) ==> reads_back(t),
        reads_back(t) <==> plain(t) && nests_within(t, 256) && no_large_integer(t),
        nests_within(CborTree::Array(items), levels + 1) <==> forall|i: int|
            0 <= i < items.len() ==> nests_within(#[trigger] items[i], levels),
        nests_within(CborTree::Pairs(entries), levels + 1) <==> forall|i: int|
            #![trigger entries[i]]
            0 <= i < entries.len() ==> nests_within(entries[i].0, levels) && nests_within(
                entries[i].1,
                levels,
            ),
        nests_within(CborTree::Tagged(tag, Box::new(t)), levels + 1) <==> nests_within(t, levels),
        no_large_integer(CborTree::Array(items)) <==> forall|i: int|
            0 <= i < items.len() ==> no_large_integer(#[trigger] items[i]),
        no_large_integer(CborTree::Pairs(entries)) <==> forall|i: int|
            #![trigger entries[i]]
            0 <= i < entries.len() ==> no_large_integer(entries[i].0) && no_large_integer(
                entries[i].1,
            ),
        no_large_integer(t) && tag != 2 && tag != 3 ==> no_large_integer(
            CborTree::Tagged(tag, Box::new(t)),
        ),
        no_large_integer(t) && (t matches CborTree::Bytes(bytes) ==> bytes.len() > 16)
            ==> no_large_integer(CborTree::Tagged(tag, Box::new(t))),
{
    let array = CborTree::Array(items);
    let pairs = CborTree::Pairs(entries);
    let tagged = CborTree::Tagged(tag, Box::new(t));
    assert(array->Array_0 == items);
    assert(pairs->Pairs_0 == entries);
    assert(*tagged->Tagged_1 == t);
    assert((levels + 1 - 1) as nat == levels);
}

/// Reading what was written for an item gives the item back. An item is written
/// exactly if every part of it can be.
pub proof fn lemma_decoding_undoes_encoding(
    value: &CborValue,
    written: Option<Vec<u8>>,
    bytes: &[u8],
    r: Option<CborValue>,
)
    requires
        call_ensures(encode, (value,), written),
        call_ensures(decode, (bytes,), r),
    ensures
        written is Some <==> plain(value@),
        written matches Some(out) ==> bytes@ == out@ && nests_within(value@, 256)
            && no_large_integer(value@) ==> r is Some && r->Some_0@ == value@,
{
    if let Some(out) = written {
        if bytes@ == out@ && nests_within(value@, 256) && no_large_integer(value@) {
            assert(reads_back(value@));
            assert(bytes@ == cbor_bytes(value@));
        }
    }
}

} // verus!
