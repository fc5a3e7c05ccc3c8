//! Derivation paths.
//!
//! Reading a path is rust-bitcoin's. On its own it takes an empty text for the
//! master key and a path without the leading `m` for one with it, either of
//! which would silently use another key than the caller meant.

use crate::error::{viewed, ErrorView, JadeError};
use crate::text::{
    decimal, joined, lemma_decimal_starts, lemma_join_undoes_split, lemma_numerals_read_back, number,
    same_text, split, starts_with,
};
use std::str::FromStr;
use vstd::prelude::*;

verus! {

/// How many elements a path may have.
pub const MAX_PATH_DEPTH: usize = 8;

/// What is added to the index of a hardened element.
pub const HARDENED: u32 = 0x8000_0000;

/// The index that an element of a path writes: a number below
/// [`HARDENED`], with an optional plus sign ahead of it.
pub open spec fn index_in(s: Seq<char>) -> Option<u32> {
    let digits = if s.len() > 0 && s[0] == '+' {
        s.skip(1)
    } else {
        s
    };
    match number(digits) {
        Some(n) => if n < HARDENED {
            Some(n as u32)
        } else {
            None
        },
        None => None,
    }
}

/// The number of one element of a path. An apostrophe or an `h` behind the
/// index marks it as hardened.
pub open spec fn element_in(s: Seq<char>) -> Option<u32> {
    if s.len() > 0 && (s.last() == '\'' || s.last() == 'h') {
        match index_in(s.drop_last()) {
            Some(n) => Some((HARDENED + n) as u32),
            None => None,
        }
    } else {
        index_in(s)
    }
}

/// The numbers of the elements of a path, unless one of them is none.
pub open spec fn elements_in(s: Seq<char>) -> Option<Seq<u32>> {
    let parts = split(s, '/');
    if forall|i: int| 0 <= i < parts.len() ==> element_in(#[trigger] parts[i]) is Some {
        Some(Seq::new(parts.len(), |i: int| element_in(parts[i])->Some_0))
    } else {
        None
    }
}

/// The numbers of a path that may start with the master key. The master key
/// alone has none.
pub open spec fn path_numbers(path: Seq<char>) -> Option<Seq<u32>> {
    if path == ""@ || path == "m"@ || path == "m/"@ {
        Some(Seq::empty())
    } else if "m/"@.is_prefix_of(path) {
        elements_in(path.skip(2))
    } else {
        elements_in(path)
    }
}

/// Reads a path with `bitcoin::bip32::DerivationPath::from_str`, and gives its
/// elements as `to_u32_vec` does.
///
/// Taken on trust: the path is the master key, or elements between slashes,
/// with or without `m/` ahead of them; it is refused if one element is not an
/// index below 2^31, and a hardened element has the top bit set.
#[verifier::external_body]
fn read_path(path: &str) -> (r: Option<Vec<u32>>)
    ensures
        path_numbers(path@) == (match r {
            Some(numbers) => Some(numbers@),
            None => None,
        }),
{
    match bitcoin::bip32::DerivationPath::from_str(path) {
        Ok(path) => Some(path.to_u32_vec()),
        Err(_) => None,
    }
}

/// The numbers that are sent for a path, or why it is refused. The master key
/// alone has to be allowed.
pub open spec fn wire_path(path: Seq<char>, allow_empty: bool) -> Result<Seq<u32>, ErrorView> {
    if path != "m"@ && !"m/"@.is_prefix_of(path) {
        Err(ErrorView::InvalidPath("path must start with m"@))
    } else {
        match path_numbers(path) {
            None => Err(ErrorView::InvalidPath("path is malformed"@)),
            Some(numbers) => if numbers.len() == 0 && !allow_empty {
                Err(ErrorView::InvalidPath("path must not be empty"@))
            } else if numbers.len() > MAX_PATH_DEPTH {
                Err(ErrorView::InvalidPath("path is too deep"@))
            } else {
                Ok(numbers)
            },
        }
    }
}

fn invalid(details: &str) -> (r: JadeError)
    ensures
        r@ == ErrorView::InvalidPath(details@),
{
    JadeError::InvalidPath { error_details: details.to_owned() }
}

/// Lowers a path to the numbers that are sent for it.
pub fn to_wire(path: &str, allow_empty: bool) -> (r: Result<Vec<u32>, JadeError>)
    ensures
        viewed(r) == wire_path(path@, allow_empty),
{
    if !same_text(path, "m") && !starts_with(path, "m/") {
        return Err(invalid("path must start with m"));
    }
    match read_path(path) {
        None => Err(invalid("path is malformed")),
        Some(numbers) => {
            if numbers.len() == 0 && !allow_empty {
                return Err(invalid("path must not be empty"));
            }
            if numbers.len() > MAX_PATH_DEPTH {
                return Err(invalid("path is too deep"));
            }
            Ok(numbers)
        },
    }
}

/// Checks that a path is acceptable.
pub fn validate(path: &str, allow_empty: bool) -> (r: Result<(), JadeError>)
    ensures
        viewed(r) == (match wire_path(path@, allow_empty) {
            Ok(_) => Ok(()),
            Err(e) => Err(e),
        }),
{
    match to_wire(path, allow_empty) {
        Ok(_) => Ok(()),
        Err(e) => Err(e),
    }
}

/// The index of the first element of a path, hardened or not.
pub open spec fn purpose_in(path: Seq<char>) -> Option<u32> {
    match wire_path(path, false) {
        Ok(numbers) => Some((numbers[0] % HARDENED) as u32),
        Err(_) => None,
    }
}

/// The purpose that a path names with its first element, to be checked against
/// a kind of address.
pub fn purpose(path: &str) -> (r: Option<u32>)
    ensures
        r == purpose_in(path@),
{
    match to_wire(path, false) {
        Ok(numbers) => Some(numbers[0] % HARDENED),
        Err(_) => None,
    }
}

/// The two marks of a hardened element mean the same.
pub proof fn lemma_hardened_marks_are_equivalent(index: Seq<char>)
    ensures
        element_in(index.push('h')) == element_in(index.push('\'')),
{
    assert(index.push('h').drop_last() =~= index);
    assert(index.push('\'').drop_last() =~= index);
}

/// An accepted path has elements unless an empty one is allowed, not too many
/// of them, and starts at the master key.
pub proof fn lemma_accepted_paths(path: Seq<char>, allow_empty: bool)
    ensures
        wire_path(path, allow_empty) matches Ok(numbers) ==> {
            &&& numbers.len() <= MAX_PATH_DEPTH
            &&& numbers.len() > 0 || allow_empty
            &&& path == "m"@ || "m/"@.is_prefix_of(path)
        },
{
}

/// Whether some characters write this index: its digits, with or without a
/// plus sign ahead of them.
pub open spec fn writes_index(s: Seq<char>, n: int) -> bool {
    &&& 0 <= n < 0x8000_0000
    &&& {
        ||| number(s) == Some(n as nat)
        ||| s.len() > 0 && s[0] == '+' && number(s.skip(1)) == Some(n as nat)
    }
}

/// Whether an element of a path stands for this number: the index that it
/// writes, and 2^31 more if it is marked as hardened.
pub open spec fn stands_for(part: Seq<char>, n: u32) -> bool {
    if n < 0x8000_0000 {
        writes_index(part, n as int)
    } else {
        &&& part.len() > 0
        &&& part.last() == '\'' || part.last() == 'h'
        &&& writes_index(part.drop_last(), n - 0x8000_0000)
    }
}

proof fn lemma_index_is_written(s: Seq<char>, n: u32)
    ensures
        index_in(s) == Some(n) <==> writes_index(s, n as int),
        s.len() > 0 && (s.last() == '\'' || s.last() == 'h') ==> index_in(s) is None,
        index_in(s) matches Some(m) ==> m < 0x8000_0000,
{
    if s.len() > 0 && s[0] == '+' {
        assert(!crate::text::is_digit(s[0]));
        if s.len() > 1 && (s.last() == '\'' || s.last() == 'h') {
            assert(s.skip(1)[s.len() - 2] == s.last());
            assert(!crate::text::is_digit(s.skip(1)[s.len() - 2]));
        }
    }
    if s.len() > 0 && (s.last() == '\'' || s.last() == 'h') {
        assert(!crate::text::is_digit(s[s.len() - 1]));
    }
}

proof fn lemma_element_stands_for(part: Seq<char>, n: u32)
    ensures
        element_in(part) == Some(n) <==> stands_for(part, n),
{
    lemma_index_is_written(part, n);
    if part.len() > 0 {
        lemma_index_is_written(part.drop_last(), n);
        if n >= 0x8000_0000 {
            lemma_index_is_written(part.drop_last(), (n - 0x8000_0000) as u32);
        }
    }
}

/// A path that goes on from the master key is lowered to these numbers exactly
/// if there are as many of them as it has elements, no more than eight, and
/// each is the index that the element in its place writes, 2^31 more if that
/// element is marked as hardened. Whether an empty path is allowed makes no
/// difference to it.
pub proof fn lemma_paths_are_lowered_element_by_element(
    rest: Seq<char>,
    allow_empty: bool,
    numbers: Seq<u32>,
)
    requires
        rest.len() > 0,
    ensures
        wire_path("m/"@ + rest, allow_empty) == Ok::<Seq<u32>, ErrorView>(numbers) <==> {
            let parts = split(rest, '/');
            &&& numbers.len() == parts.len() <= 8
            &&& forall|i: int|
                0 <= i < parts.len() ==> stands_for(#[trigger] parts[i], numbers[i])
        },
{
    let path = "m/"@ + rest;
    let parts = split(rest, '/');
    reveal_strlit("");
    reveal_strlit("m");
    reveal_strlit("m/");
    crate::text::lemma_split_undoes_join(rest, '/');
    assert(path.skip(2) =~= rest);
    assert("m/"@.is_prefix_of(path)) by {
        assert("m/"@ =~= path.subrange(0, 2));
    }
    assert forall|i: int| 0 <= i < parts.len() implies (element_in(#[trigger] parts[i]) == Some(
        numbers[i],
    ) <==> stands_for(parts[i], numbers[i])) by {
        lemma_element_stands_for(parts[i], numbers[i]);
    }
    if wire_path(path, allow_empty) == Ok::<Seq<u32>, ErrorView>(numbers) {
        assert forall|i: int| 0 <= i < parts.len() implies stands_for(
            #[trigger] parts[i],
            numbers[i],
        ) by {
            assert(element_in(parts[i]) is Some);
            assert(numbers[i] == element_in(parts[i])->Some_0);
        }
    }
    if numbers.len() == parts.len() <= 8 && forall|i: int|
        0 <= i < parts.len() ==> stands_for(#[trigger] parts[i], numbers[i]) {
        assert forall|i: int| 0 <= i < parts.len() implies element_in(#[trigger] parts[i])
            is Some by {}
        assert(elements_in(rest)->Some_0 =~= numbers);
    }
}

/// The master key alone has no numbers, and is accepted only where that is
/// allowed. A path that does not start at the master key is refused, and so is
/// whatever else is, as an invalid path.
pub proof fn lemma_other_paths(path: Seq<char>, allow_empty: bool)
    ensures
        wire_path("m"@, true) == Ok::<Seq<u32>, ErrorView>(Seq::empty()),
        wire_path("m/"@, true) == Ok::<Seq<u32>, ErrorView>(Seq::empty()),
        wire_path("m"@, false) == Err::<Seq<u32>, ErrorView>(
            ErrorView::InvalidPath("path must not be empty"@),
        ),
        wire_path("m/"@, false) == Err::<Seq<u32>, ErrorView>(
            ErrorView::InvalidPath("path must not be empty"@),
        ),
        path != "m"@ && (path.len() < 2 || path[0] != 'm' || path[1] != '/') ==> wire_path(
            path,
            allow_empty,
        ) == Err::<Seq<u32>, ErrorView>(ErrorView::InvalidPath("path must start with m"@)),
{
    reveal_strlit("");
    reveal_strlit("m");
    reveal_strlit("m/");
    assert("m/"@.is_prefix_of("m/"@));
    if "m/"@.is_prefix_of(path) {
        assert(path.subrange(0, 2)[0] == path[0]);
        assert(path.subrange(0, 2)[1] == path[1]);
    }
}

/// A path that goes on from the master key and is refused either has an element
/// that stands for no number, or has more than eight elements.
pub proof fn lemma_refused_paths(rest: Seq<char>, allow_empty: bool, at: int)
    requires
        rest.len() > 0,
    ensures
        0 <= at < split(rest, '/').len() && (forall|n: u32|
            !#[trigger] stands_for(split(rest, '/')[at], n)) ==> wire_path(
            "m/"@ + rest,
            allow_empty,
        ) == Err::<Seq<u32>, ErrorView>(ErrorView::InvalidPath("path is malformed"@)),
        wire_path("m/"@ + rest, allow_empty) matches Err(e) ==> {
            ||| e == ErrorView::InvalidPath("path is malformed"@) && exists|i: int|
                0 <= i < split(rest, '/').len() && forall|n: u32|
                    !stands_for(#[trigger] split(rest, '/')[i], n)
            ||| e == ErrorView::InvalidPath("path is too deep"@) && split(rest, '/').len() > 8
        },
{
    let path = "m/"@ + rest;
    let parts = split(rest, '/');
    reveal_strlit("");
    reveal_strlit("m");
    reveal_strlit("m/");
    crate::text::lemma_split_undoes_join(rest, '/');
    assert(path.skip(2) =~= rest);
    assert("m/"@.is_prefix_of(path)) by {
        assert("m/"@ =~= path.subrange(0, 2));
    }
    if 0 <= at < parts.len() && element_in(parts[at]) is Some {
        lemma_element_stands_for(parts[at], element_in(parts[at])->Some_0);
    }
    if elements_in(rest) is None {
        let i = choose|i: int| 0 <= i < parts.len() && !(element_in(#[trigger] parts[i]) is Some);
        assert forall|n: u32| !#[trigger] stands_for(parts[i], n) by {
            lemma_element_stands_for(parts[i], n);
        }
    }
}

/// The text of an element with this index, hardened or not.
pub open spec fn element_text(element: (nat, bool)) -> Seq<char> {
    if element.1 {
        decimal(element.0).push('\'')
    } else {
        decimal(element.0)
    }
}

/// The elements of a path as they are written, with slashes between them.
pub open spec fn path_text(elements: Seq<(nat, bool)>) -> Seq<char> {
    joined(Seq::new(elements.len(), |i: int| element_text(elements[i])), '/')
}

proof fn lemma_element_text(element: (nat, bool))
    requires
        element.0 < 0x8000_0000,
    ensures
        element_text(element).len() > 0,
        !element_text(element).contains('/'),
        stands_for(
            element_text(element),
            (element.0 + if element.1 {
                0x8000_0000int
            } else {
                0
            }) as u32,
        ),
{
    let digits = decimal(element.0);
    let text = element_text(element);
    lemma_numerals_read_back(element.0);
    lemma_decimal_starts(element.0);
    assert(digits.push('\'').drop_last() =~= digits);
    if text.contains('/') {
        let k = text.index_of('/');
        if k < digits.len() {
            assert('0' <= digits[k] <= '9');
        }
    }
}

/// A path that is written out of some elements, up to eight, is lowered to
/// their indices, each with 2^31 added if the element is hardened.
pub proof fn lemma_written_paths_are_lowered(elements: Seq<(nat, bool)>, allow_empty: bool)
    requires
        0 < elements.len() <= 8,
        forall|i: int| 0 <= i < elements.len() ==> (#[trigger] elements[i]).0 < 0x8000_0000,
    ensures
        wire_path("m/"@ + path_text(elements), allow_empty) == Ok::<Seq<u32>, ErrorView>(
            Seq::new(
                elements.len(),
                |i: int|
                    (elements[i].0 + if elements[i].1 {
                        0x8000_0000int
                    } else {
                        0
                    }) as u32,
            ),
        ),
{
    let parts = Seq::new(elements.len(), |i: int| element_text(elements[i]));
    assert forall|i: int| 0 <= i < parts.len() implies !(#[trigger] parts[i]).contains('/')
        && parts[i].len() > 0 by {
        lemma_element_text(elements[i]);
    }
    lemma_join_undoes_split(parts, '/');
    let rest = path_text(elements);
    if rest.len() == 0 {
        assert(rest =~= Seq::empty());
        assert(split(rest, '/') =~= seq![Seq::empty()]);
        assert(parts[0].len() == 0);
    }
    let numbers = Seq::new(
        elements.len(),
        |i: int|
            (elements[i].0 + if elements[i].1 {
                0x8000_0000int
            } else {
                0
            }) as u32,
    );
    assert forall|i: int| 0 <= i < parts.len() implies stands_for(
        #[trigger] parts[i],
        numbers[i],
    ) by {
        lemma_element_text(elements[i]);
    }
    lemma_paths_are_lowered_element_by_element(rest, allow_empty, numbers);
}

/// The purpose of a path is the index of its first element, hardened or not. A
/// path that is refused, or has no element, has none.
pub proof fn lemma_the_purpose_is_the_first_index(path: Seq<char>)
    ensures
        purpose_in(path) is Some <==> wire_path(path, false) is Ok,
        wire_path(path, false) matches Ok(numbers) ==> numbers.len() > 0 && (numbers[0]
            < 0x8000_0000 ==> purpose_in(path) == Some(numbers[0])) && (numbers[0] >= 0x8000_0000
            ==> purpose_in(path) == Some((numbers[0] - 0x8000_0000) as u32)),
{
}

/// Lowering a path gives as many numbers as it has elements, and each stands
/// where its element does.
pub proof fn lemma_lowering_keeps_every_element(
    path: &str,
    allow_empty: bool,
    r: Result<Vec<u32>, JadeError>,
)
    requires
        call_ensures(to_wire, (path, allow_empty), r),
    ensures
        r matches Ok(numbers) ==> {
            &&& path@ == "m"@ || "m/"@.is_prefix_of(path@)
            &&& path@.len() <= 2 ==> numbers@.len() == 0 && allow_empty
            &&& path@.len() > 2 ==> {
                let parts = split(path@.skip(2), '/');
                &&& 0 < numbers@.len() == parts.len() <= 8
                &&& forall|i: int|
                    0 <= i < parts.len() ==> stands_for(#[trigger] parts[i], numbers@[i])
            }
        },
{
    reveal_strlit("");
    reveal_strlit("m");
    reveal_strlit("m/");
    if let Ok(numbers) = r {
        lemma_accepted_paths(path@, allow_empty);
        if path@.len() > 2 {
            let rest = path@.skip(2);
            assert(path@.subrange(0, 2) == "m/"@);
            assert(path@ =~= "m/"@ + rest);
            lemma_paths_are_lowered_element_by_element(rest, allow_empty, numbers@);
            crate::text::lemma_split_undoes_join(rest, '/');
        } else {
            if path@ != "m"@ {
                assert(path@ =~= "m/"@);
            }
            lemma_other_paths(path@, allow_empty);
        }
    }
}

/// A path is valid exactly if it can be lowered, and refused for the same
/// reason.
pub proof fn lemma_valid_paths_can_be_lowered(
    path: &str,
    allow_empty: bool,
    valid: Result<(), JadeError>,
    lowered: Result<Vec<u32>, JadeError>,
)
    requires
        call_ensures(validate, (path, allow_empty), valid),
        call_ensures(to_wire, (path, allow_empty), lowered),
    ensures
        valid is Ok <==> lowered is Ok,
        valid matches Err(e) ==> e@ == lowered->Err_0@,
{
}

} // verus!
