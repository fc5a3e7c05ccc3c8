//! The members of a map: what it holds under a name.

use crate::cbor::{entry_trees, CborTree, CborValue};
use crate::text::same_text;
use vstd::prelude::*;

verus! {

/// What a map holds under a name.
pub enum Member {
    Absent,
    Once(CborTree),
    Repeated,
}

/// What the entries of a map hold under `name`.
pub open spec fn member(entries: Seq<(CborTree, CborTree)>, name: Seq<char>) -> Member
    decreases entries.len(),
{
    if entries.len() == 0 {
        Member::Absent
    } else {
        let before = member(entries.drop_last(), name);
        let last = entries.last();
        if last.0 != CborTree::Text(name) {
            before
        } else if before is Absent {
            Member::Once(last.1)
        } else {
            Member::Repeated
        }
    }
}

/// Where a map holds a name.
pub enum Slot {
    Absent,
    At(usize),
    Repeated,
}

/// Finds the entry with this name.
pub fn find(entries: &Vec<(CborValue, CborValue)>, name: &str) -> (r: Slot)
    ensures
        match r {
            Slot::Absent => member(entry_trees(entries@), name@) is Absent,
            Slot::At(i) => i < entries@.len() && member(entry_trees(entries@), name@)
                == Member::Once(entries@[i as int].1@),
            Slot::Repeated => member(entry_trees(entries@), name@) is Repeated,
        },
{
    let ghost all = entry_trees(entries@);
    let mut found = Slot::Absent;
    let mut i: usize = 0;
    while i < entries.len()
        invariant
            i <= entries@.len(),
            all == entry_trees(entries@),
            match found {
                Slot::Absent => member(all.take(i as int), name@) is Absent,
                Slot::At(k) => k < i && member(all.take(i as int), name@) == Member::Once(
                    entries@[k as int].1@,
                ),
                Slot::Repeated => member(all.take(i as int), name@) is Repeated,
            },
        decreases entries@.len() - i,
    {
        proof {
            assert(all.take(i + 1).drop_last() =~= all.take(i as int));
            assert(all.take(i + 1).last() == all[i as int]);
        }
        let same = match &entries[i].0 {
            CborValue::Text(key) => same_text(key.as_str(), name),
            _ => false,
        };
        if same {
            found = match found {
                Slot::Absent => Slot::At(i),
                _ => Slot::Repeated,
            };
        }
        i += 1;
    }
    proof {
        assert(all.take(entries@.len() as int) =~= all);
    }
    found
}

/// Whether every key of a map is text.
pub open spec fn keys_are_text(entries: Seq<(CborTree, CborTree)>) -> bool {
    forall|i: int| 0 <= i < entries.len() ==> (#[trigger] entries[i]).0 is Text
}

/// Tells whether every key of a map is text.
pub fn has_text_keys(entries: &Vec<(CborValue, CborValue)>) -> (r: bool)
    ensures
        r == keys_are_text(entry_trees(entries@)),
{
    let ghost all = entry_trees(entries@);
    let mut i: usize = 0;
    while i < entries.len()
        invariant
            i <= entries@.len(),
            all == entry_trees(entries@),
            forall|k: int| 0 <= k < i ==> (#[trigger] all[k]).0 is Text,
        decreases entries@.len() - i,
    {
        let textual = match &entries[i].0 {
            CborValue::Text(_) => true,
            _ => false,
        };
        if !textual {
            assert(!(all[i as int].0 is Text));
            return false;
        }
        i += 1;
    }
    true
}

/// A member that may be missing or null, or is text. `None` stands for any
/// other kind, or for a name that stands twice.
pub open spec fn text_member(entries: Seq<(CborTree, CborTree)>, name: Seq<char>) -> Option<
    Option<Seq<char>>,
> {
    match member(entries, name) {
        Member::Absent => Some(None),
        Member::Once(CborTree::Null) => Some(None),
        Member::Once(CborTree::Text(text)) => Some(Some(text)),
        _ => None,
    }
}

/// A member that may be missing or null, or is an integer within bounds.
pub open spec fn integer_member(
    entries: Seq<(CborTree, CborTree)>,
    name: Seq<char>,
    low: int,
    high: int,
) -> Option<Option<int>> {
    match member(entries, name) {
        Member::Absent => Some(None),
        Member::Once(CborTree::Null) => Some(None),
        Member::Once(CborTree::Integer(n)) => if low <= n <= high {
            Some(Some(n))
        } else {
            None
        },
        _ => None,
    }
}

/// A member that may be missing or null, or is a truth value.
pub open spec fn bool_member(entries: Seq<(CborTree, CborTree)>, name: Seq<char>) -> Option<
    Option<bool>,
> {
    match member(entries, name) {
        Member::Absent => Some(None),
        Member::Once(CborTree::Null) => Some(None),
        Member::Once(CborTree::Bool(b)) => Some(Some(b)),
        _ => None,
    }
}

/// The characters of optional text.
pub open spec fn text_view(text: Option<String>) -> Option<Seq<char>> {
    match text {
        Some(t) => Some(t@),
        None => None,
    }
}

/// Reads a member that is text.
pub fn read_text(entries: &Vec<(CborValue, CborValue)>, name: &str) -> (r: Option<Option<String>>)
    ensures
        text_member(entry_trees(entries@), name@) == (match r {
            Some(text) => Some(text_view(text)),
            None => None,
        }),
{
    match find(entries, name) {
        Slot::Absent => Some(None),
        Slot::At(i) => match &entries[i].1 {
            CborValue::Null => Some(None),
            CborValue::Text(text) => Some(Some(text.clone())),
            _ => None,
        },
        Slot::Repeated => None,
    }
}

/// Reads a member that is an integer.
pub fn read_integer(
    entries: &Vec<(CborValue, CborValue)>,
    name: &str,
    low: i128,
    high: i128,
) -> (r: Option<Option<i128>>)
    ensures
        integer_member(entry_trees(entries@), name@, low as int, high as int) == (match r {
            Some(Some(n)) => Some(Some(n as int)),
            Some(None) => Some(None),
            None => None,
        }),
        r matches Some(Some(n)) ==> low <= n <= high,
{
    match find(entries, name) {
        Slot::Absent => Some(None),
        Slot::At(i) => match &entries[i].1 {
            CborValue::Null => Some(None),
            CborValue::Integer(n) => if low <= *n && *n <= high {
                Some(Some(*n))
            } else {
                None
            },
            _ => None,
        },
        Slot::Repeated => None,
    }
}

/// Reads a member that is a truth value.
pub fn read_bool(entries: &Vec<(CborValue, CborValue)>, name: &str) -> (r: Option<Option<bool>>)
    ensures
        r == bool_member(entry_trees(entries@), name@),
{
    match find(entries, name) {
        Slot::Absent => Some(None),
        Slot::At(i) => match &entries[i].1 {
            CborValue::Null => Some(None),
            CborValue::Bool(b) => Some(Some(*b)),
            _ => None,
        },
        Slot::Repeated => None,
    }
}

// ----------------------------------------------------------------------------
// Laws
// ----------------------------------------------------------------------------
/// Whether the entry at this position has this name.
pub open spec fn named(entries: Seq<(CborTree, CborTree)>, i: int, name: Seq<char>) -> bool {
    entries[i].0 == CborTree::Text(name)
}

/// A map holds nothing under a name that no entry has, the value of the one
/// entry that has it, and nothing certain if two entries have it.
pub proof fn lemma_members_are_entries(entries: Seq<(CborTree, CborTree)>, name: Seq<char>)
    ensures
        member(entries, name) is Absent <==> forall|i: int|
            0 <= i < entries.len() ==> !#[trigger] named(entries, i, name),
        member(entries, name) matches Member::Once(value) ==> exists|i: int|
            0 <= i < entries.len() && #[trigger] named(entries, i, name) && entries[i].1 == value,
        member(entries, name) is Repeated <==> exists|i: int, j: int|
            0 <= i < j < entries.len() && #[trigger] named(entries, i, name) && #[trigger] named(
                entries,
                j,
                name,
            ),
    decreases entries.len(),
{
    if entries.len() > 0 {
        let before = entries.drop_last();
        let n = before.len() as int;
        lemma_members_are_entries(before, name);
        assert forall|i: int| 0 <= i < n implies #[trigger] named(entries, i, name) == named(
            before,
            i,
            name,
        ) by {}
        assert(named(entries, n, name) == (entries.last().0 == CborTree::Text(name)));
        if member(before, name) is Once {
            let value = member(before, name)->Once_0;
            let i = choose|i: int|
                0 <= i < n && #[trigger] named(before, i, name) && before[i].1 == value;
            assert(named(entries, i, name) && entries[i].1 == value);
        }
        if member(before, name) is Repeated {
            let (i, j) = choose|i: int, j: int|
                0 <= i < j < n && #[trigger] named(before, i, name) && #[trigger] named(
                    before,
                    j,
                    name,
                );
            assert(named(entries, i, name) && named(entries, j, name));
        }
        if !(member(before, name) is Absent) {
            let i = choose|i: int| 0 <= i < n && #[trigger] named(before, i, name);
            assert(named(entries, i, name));
        }
        assert forall|i: int, j: int|
            0 <= i < j < entries.len() && #[trigger] named(entries, i, name) && #[trigger] named(
                entries,
                j,
                name,
            ) implies member(entries, name) is Repeated by {
            assert(named(before, i, name));
            if j < n {
                assert(named(before, j, name));
            }
        }
    }
}

/// The only entry with a name is what the map holds under it, whichever kind
/// of value is asked for.
pub proof fn lemma_the_only_entry_is_the_member(
    entries: Seq<(CborTree, CborTree)>,
    name: Seq<char>,
    at: int,
    low: int,
    high: int,
)
    requires
        0 <= at < entries.len(),
        named(entries, at, name),
        forall|i: int| 0 <= i < entries.len() && #[trigger] named(entries, i, name) ==> i == at,
    ensures
        ({
            let value = entries[at].1;
            &&& member(entries, name) == Member::Once(value)
            &&& text_member(entries, name) == (match value {
                CborTree::Text(text) => Some(Some(text)),
                CborTree::Null => Some(None),
                _ => None,
            })
            &&& bool_member(entries, name) == (match value {
                CborTree::Bool(b) => Some(Some(b)),
                CborTree::Null => Some(None),
                _ => None,
            })
            &&& integer_member(entries, name, low, high) == (match value {
                CborTree::Integer(n) => if n < low || high < n {
                    None
                } else {
                    Some(Some(n))
                },
                CborTree::Null => Some(None),
                _ => None,
            })
        }),
{
    lemma_members_are_entries(entries, name);
    match member(entries, name) {
        Member::Once(value) => {
            let i = choose|i: int|
                0 <= i < entries.len() && #[trigger] named(entries, i, name) && entries[i].1
                    == value;
            assert(i == at);
        },
        _ => {},
    }
}

/// A name that no entry has stands for nothing, whichever kind of value is
/// asked for, and one that two entries have is refused.
pub proof fn lemma_missing_and_repeated_members(
    entries: Seq<(CborTree, CborTree)>,
    name: Seq<char>,
    low: int,
    high: int,
)
    ensures
        (forall|i: int| 0 <= i < entries.len() ==> !#[trigger] named(entries, i, name)) ==> {
            &&& text_member(entries, name) == Some(None::<Seq<char>>)
            &&& bool_member(entries, name) == Some(None::<bool>)
            &&& integer_member(entries, name, low, high) == Some(None::<int>)
        },
        (exists|i: int, j: int|
            0 <= i < j < entries.len() && #[trigger] named(entries, i, name) && #[trigger] named(
                entries,
                j,
                name,
            )) ==> {
            &&& text_member(entries, name) is None
            &&& bool_member(entries, name) is None
            &&& integer_member(entries, name, low, high) is None
        },
        keys_are_text(entries) <==> !exists|i: int|
            0 <= i < entries.len() && !((#[trigger] entries[i]).0 is Text),
{
    lemma_members_are_entries(entries, name);
}

/// Whether exactly one entry has this name, with this value.
pub open spec fn holds(
    entries: Seq<(CborTree, CborTree)>,
    name: Seq<char>,
    value: CborTree,
) -> bool {
    exists|at: int|
        {
            &&& 0 <= at < entries.len()
            &&& #[trigger] named(entries, at, name)
            &&& entries[at].1 == value
            &&& forall|i: int|
                0 <= i < entries.len() && #[trigger] named(entries, i, name) ==> i == at
        }
}

/// Whether no entry has this name.
pub open spec fn lacks(entries: Seq<(CborTree, CborTree)>, name: Seq<char>) -> bool {
    forall|i: int| 0 <= i < entries.len() ==> !#[trigger] named(entries, i, name)
}

/// Whether a map gives no value under a name: it lacks it, or holds a null.
pub open spec fn gives_none(entries: Seq<(CborTree, CborTree)>, name: Seq<char>) -> bool {
    lacks(entries, name) || holds(entries, name, CborTree::Null)
}

/// Whether a map gives this number, or none, under a name.
pub open spec fn gives_count(
    entries: Seq<(CborTree, CborTree)>,
    name: Seq<char>,
    count: Option<u32>,
) -> bool {
    match count {
        Some(n) => holds(entries, name, CborTree::Integer(n as int)),
        None => gives_none(entries, name),
    }
}

/// Whether a map gives this text, or none, under a name.
pub open spec fn gives_text(
    entries: Seq<(CborTree, CborTree)>,
    name: Seq<char>,
    text: Option<Seq<char>>,
) -> bool {
    match text {
        Some(text) => holds(entries, name, CborTree::Text(text)),
        None => gives_none(entries, name),
    }
}

/// Whether a map gives this truth value, or none, under a name.
pub open spec fn gives_bool(
    entries: Seq<(CborTree, CborTree)>,
    name: Seq<char>,
    b: Option<bool>,
) -> bool {
    match b {
        Some(b) => holds(entries, name, CborTree::Bool(b)),
        None => gives_none(entries, name),
    }
}

/// What a map holds under a name is told by its entries alone.
pub proof fn lemma_holding_is_being_the_member(
    entries: Seq<(CborTree, CborTree)>,
    name: Seq<char>,
    value: CborTree,
)
    ensures
        holds(entries, name, value) <==> member(entries, name) == Member::Once(value),
        lacks(entries, name) <==> member(entries, name) is Absent,
{
    lemma_members_are_entries(entries, name);
    if holds(entries, name, value) {
        let at = choose|at: int|
            {
                &&& 0 <= at < entries.len()
                &&& #[trigger] named(entries, at, name)
                &&& entries[at].1 == value
                &&& forall|i: int|
                    0 <= i < entries.len() && #[trigger] named(entries, i, name) ==> i == at
            };
        lemma_the_only_entry_is_the_member(entries, name, at, 0, 0);
    }
    if member(entries, name) == Member::Once(value) {
        let at = choose|i: int|
            0 <= i < entries.len() && #[trigger] named(entries, i, name) && entries[i].1 == value;
        assert forall|i: int|
            0 <= i < entries.len() && #[trigger] named(entries, i, name) implies i == at by {
            if i < at {
                assert(named(entries, i, name) && named(entries, at, name));
            } else if at < i {
                assert(named(entries, at, name) && named(entries, i, name));
            }
        }
    }
}

/// A member of one kind is read as what the map gives under its name: the
/// text, the truth value or the number that is the only one there, or none.
pub proof fn lemma_members_are_what_is_given(
    entries: Seq<(CborTree, CborTree)>,
    name: Seq<char>,
    text: Option<Seq<char>>,
    b: Option<bool>,
    count: Option<u32>,
)
    ensures
        text_member(entries, name) == Some(text) <==> gives_text(entries, name, text),
        bool_member(entries, name) == Some(b) <==> gives_bool(entries, name, b),
        integer_member(entries, name, 0, u32::MAX as int) == Some(
            match count {
                Some(n) => Some(n as int),
                None => None,
            },
        ) <==> gives_count(entries, name, count),
{
    lemma_holding_is_being_the_member(entries, name, CborTree::Null);
    if let Some(text) = text {
        lemma_holding_is_being_the_member(entries, name, CborTree::Text(text));
    }
    if let Some(b) = b {
        lemma_holding_is_being_the_member(entries, name, CborTree::Bool(b));
    }
    if let Some(n) = count {
        lemma_holding_is_being_the_member(entries, name, CborTree::Integer(n as int));
    }
}

} // verus!
