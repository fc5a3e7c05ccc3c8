//! Framing: where one CBOR data item ends in a stream of bytes.
//!
//! The device writes replies and log messages back to back, with nothing
//! between them, and a transport hands them over in arbitrary pieces. A frame
//! is one complete data item, so finding its end takes nothing but the item
//! headers.

use vstd::prelude::*;

verus! {

/// What a run of bytes holds of the items it should start with.
pub enum Extent {
    /// The items are complete and take this many bytes.
    Complete(nat),
    /// The bytes end before the items do.
    Partial,
    /// No continuation of the bytes would be well formed.
    Malformed,
}

/// What still has to be read.
#[derive(Clone, Copy)]
pub enum Task {
    /// This many data items.
    Items(u128),
    /// Groups of this many data items, up to a break.
    Groups(u8),
    /// The chunks of an indefinite string of this major type, up to a break.
    Chunks(u8),
}

/// The first byte of a break.
pub const BREAK: u8 = 0xff;

/// What the header at the front of some bytes says.
pub enum Header {
    /// The bytes end inside the header.
    Cut,
    /// The header is reserved, or a break where an item must stand.
    Bad,
    /// An item that ends after this many bytes, counted from its header.
    Leaf(nat),
    /// A header of this many bytes, and what must follow it.
    Branch(nat, Task),
}

/// The big-endian number in the `width` bytes behind the first.
pub open spec fn argument(s: Seq<u8>, width: nat) -> nat
    recommends
        width == 1 || width == 2 || width == 4 || width == 8,
        s.len() > width,
{
    if width == 1 {
        s[1] as nat
    } else if width == 2 {
        (s[1] * 0x100 + s[2]) as nat
    } else if width == 4 {
        word(s, 1)
    } else {
        word(s, 1) * 0x1_0000_0000 + word(s, 5)
    }
}

/// The big-endian 32-bit number at position `at`.
pub open spec fn word(s: Seq<u8>, at: int) -> nat {
    (s[at] * 0x100_0000 + s[at + 1] * 0x1_0000 + s[at + 2] * 0x100 + s[at + 3]) as nat
}

/// How many bytes behind the first hold the argument of a header.
pub open spec fn width(info: int) -> nat {
    if info < 24 {
        0
    } else if info == 24 {
        1
    } else if info == 25 {
        2
    } else if info == 26 {
        4
    } else {
        8
    }
}

/// Reads the header at the front of `s`.
///
/// The upper three bits of the first byte are the major type: integers,
/// byte and text strings, arrays, maps, tags and simple values. The lower five
/// hold the argument, or say how many bytes behind hold it.
#[verifier::opaque]
pub open spec fn header(s: Seq<u8>) -> Header {
    if s.len() == 0 {
        Header::Cut
    } else {
        let major = s[0] as int / 32;
        let info = s[0] as int % 32;
        if 28 <= info <= 30 {
            Header::Bad
        } else if info == 31 {
            if major == 2 || major == 3 {
                Header::Branch(1, Task::Chunks(major as u8))
            } else if major == 4 {
                Header::Branch(1, Task::Groups(1))
            } else if major == 5 {
                Header::Branch(1, Task::Groups(2))
            } else {
                Header::Bad
            }
        } else if s.len() <= width(info) {
            Header::Cut
        } else {
            let size = 1 + width(info);
            let n = if info < 24 {
                info as nat
            } else {
                argument(s, width(info))
            };
            if major == 2 || major == 3 {
                Header::Leaf(size + n)
            } else if major == 4 {
                Header::Branch(size, Task::Items(n as u128))
            } else if major == 5 {
                Header::Branch(size, Task::Items((2 * n) as u128))
            } else if major == 6 {
                Header::Branch(size, Task::Items(1))
            } else {
                Header::Leaf(size)
            }
        }
    }
}

/// Moves the end of an extent `by` bytes further.
pub open spec fn shift(by: nat, e: Extent) -> Extent {
    match e {
        Extent::Complete(n) => Extent::Complete(by + n),
        _ => e,
    }
}

/// What `s` holds of what `task` asks for.
pub open spec fn scan(s: Seq<u8>, task: Task) -> Extent
    decreases
            s.len(),
            if task is Groups {
                1nat
            } else {
                0
            },
{
    match task {
        Task::Items(count) => if count == 0 {
            Extent::Complete(0)
        } else {
            let others = Task::Items((count - 1) as u128);
            match header(s) {
                Header::Cut => Extent::Partial,
                Header::Bad => Extent::Malformed,
                Header::Leaf(n) => if 0 < n <= s.len() {
                    shift(n, scan(s.skip(n as int), others))
                } else {
                    Extent::Partial
                },
                Header::Branch(n, inner) => if 0 < n <= s.len() {
                    match scan(s.skip(n as int), inner) {
                        Extent::Complete(m) => if n + m <= s.len() {
                            shift(n + m, scan(s.skip((n + m) as int), others))
                        } else {
                            Extent::Partial
                        },
                        e => e,
                    }
                } else {
                    Extent::Partial
                },
            }
        },
        Task::Groups(size) => if s.len() == 0 {
            Extent::Partial
        } else if s[0] == BREAK {
            Extent::Complete(1)
        } else {
            match scan(s, Task::Items(size as u128)) {
                Extent::Complete(n) => if 0 < n <= s.len() {
                    shift(n, scan(s.skip(n as int), task))
                } else {
                    Extent::Partial
                },
                e => e,
            }
        },
        Task::Chunks(major) => if s.len() == 0 {
            Extent::Partial
        } else if s[0] == BREAK {
            Extent::Complete(1)
        } else if s[0] as int / 32 != major {
            Extent::Malformed
        } else {
            match header(s) {
                Header::Cut => Extent::Partial,
                Header::Leaf(n) => if 0 < n <= s.len() {
                    shift(n, scan(s.skip(n as int), task))
                } else {
                    Extent::Partial
                },
                _ => Extent::Malformed,
            }
        },
    }
}

/// The extent of the first data item of `s`.
pub open spec fn first_item(s: Seq<u8>) -> Extent {
    scan(s, Task::Items(1))
}

/// An extent ends within the bytes it was found in.
pub proof fn lemma_extent_in_bounds(s: Seq<u8>, task: Task)
    ensures
        scan(s, task) matches Extent::Complete(n) ==> n <= s.len(),
        task matches Task::Items(count) ==> count > 0 ==> (scan(s, task) matches Extent::Complete(
            n,
        ) ==> n > 0),
    decreases
            s.len(),
            if task is Groups {
                1nat
            } else {
                0
            },
{
    match task {
        Task::Items(count) => if count > 0 {
            let others = Task::Items((count - 1) as u128);
            match header(s) {
                Header::Leaf(n) => if 0 < n <= s.len() {
                    lemma_extent_in_bounds(s.skip(n as int), others);
                },
                Header::Branch(n, inner) => if 0 < n <= s.len() {
                    lemma_extent_in_bounds(s.skip(n as int), inner);
                    if let Extent::Complete(m) = scan(s.skip(n as int), inner) {
                        lemma_extent_in_bounds(s.skip((n + m) as int), others);
                    }
                },
                _ => {},
            }
        },
        Task::Groups(size) => if s.len() > 0 && s[0] != BREAK {
            lemma_extent_in_bounds(s, Task::Items(size as u128));
            if let Extent::Complete(n) = scan(s, Task::Items(size as u128)) {
                if 0 < n <= s.len() {
                    lemma_extent_in_bounds(s.skip(n as int), task);
                }
            }
        },
        Task::Chunks(_) => if s.len() > 0 && s[0] != BREAK {
            if let Header::Leaf(n) = header(s) {
                if 0 < n <= s.len() {
                    lemma_extent_in_bounds(s.skip(n as int), task);
                }
            }
        },
    }
}

/// A header takes at least one byte, and groups hold at least one item.
proof fn lemma_header_bounds(s: Seq<u8>)
    ensures
        header(s) matches Header::Leaf(n) ==> n > 0,
        header(s) matches Header::Branch(n, inner) ==> 0 < n <= s.len() && (
        inner matches Task::Groups(size) ==> size > 0),
        s.len() == 0 ==> header(s) is Cut,
{
    reveal(header);
}

/// A header that is not cut reads the same with more bytes behind it.
proof fn lemma_header_stable(s: Seq<u8>, t: Seq<u8>)
    ensures
        !(header(s) is Cut) ==> header(s + t) == header(s),
{
    reveal(header);
    if s.len() > 0 {
        assert((s + t)[0] == s[0]);
        let info = s[0] as int % 32;
        if width(info) < s.len() {
            assert forall|i: int| 0 <= i <= width(info) implies (s + t)[i] == s[i] by {}
        }
    }
}

/// More bytes never change what was found: a complete item keeps its end, and
/// malformed bytes stay malformed.
pub proof fn lemma_extent_stable(s: Seq<u8>, t: Seq<u8>, task: Task)
    ensures
        !(scan(s, task) is Partial) ==> scan(s + t, task) == scan(s, task),
    decreases
            s.len(),
            if task is Groups {
                1nat
            } else {
                0
            },
{
    lemma_header_stable(s, t);
    match task {
        Task::Items(count) => if count > 0 {
            let others = Task::Items((count - 1) as u128);
            match header(s) {
                Header::Leaf(n) => if 0 < n <= s.len() {
                    assert((s + t).skip(n as int) =~= s.skip(n as int) + t);
                    lemma_extent_stable(s.skip(n as int), t, others);
                },
                Header::Branch(n, inner) => if 0 < n <= s.len() {
                    assert((s + t).skip(n as int) =~= s.skip(n as int) + t);
                    lemma_extent_stable(s.skip(n as int), t, inner);
                    if let Extent::Complete(m) = scan(s.skip(n as int), inner) {
                        lemma_extent_in_bounds(s.skip(n as int), inner);
                        assert((s + t).skip((n + m) as int) =~= s.skip((n + m) as int) + t);
                        lemma_extent_stable(s.skip((n + m) as int), t, others);
                    }
                },
                _ => {},
            }
        },
        Task::Groups(size) => if s.len() > 0 {
            assert((s + t)[0] == s[0]);
            if s[0] != BREAK {
                let items = Task::Items(size as u128);
                lemma_extent_stable(s, t, items);
                if let Extent::Complete(n) = scan(s, items) {
                    if 0 < n <= s.len() {
                        assert((s + t).skip(n as int) =~= s.skip(n as int) + t);
                        lemma_extent_stable(s.skip(n as int), t, task);
                    }
                }
            }
        },
        Task::Chunks(_) => if s.len() > 0 {
            assert((s + t)[0] == s[0]);
            if s[0] != BREAK {
                if let Header::Leaf(n) = header(s) {
                    if 0 < n <= s.len() {
                        assert((s + t).skip(n as int) =~= s.skip(n as int) + t);
                        lemma_extent_stable(s.skip(n as int), t, task);
                    }
                }
            }
        },
    }
}

/// A header that is cut takes more bytes than there are.
proof fn lemma_header_local(s: Seq<u8>, t: Seq<u8>)
    requires
        header(s) is Cut,
    ensures
        header(s + t) matches Header::Leaf(n) ==> n > s.len(),
        header(s + t) matches Header::Branch(n, _) ==> n > s.len(),
{
    reveal(header);
    if s.len() > 0 {
        assert((s + t)[0] == s[0]);
    }
}

/// What stands behind a complete item has no part in it: without those bytes
/// the item is found just the same.
pub proof fn lemma_extent_local(s: Seq<u8>, t: Seq<u8>, task: Task)
    ensures
        scan(s + t, task) matches Extent::Complete(n) ==> n <= s.len() ==> scan(s, task)
            == Extent::Complete(n),
    decreases
            s.len(),
            if task is Groups {
                1nat
            } else {
                0
            },
{
    let whole = s + t;
    lemma_header_bounds(whole);
    if header(s) is Cut {
        lemma_header_local(s, t);
    } else {
        lemma_header_stable(s, t);
    }
    lemma_extent_in_bounds(whole, task);
    if let Extent::Complete(total) = scan(whole, task) {
        if total <= s.len() {
            match task {
                Task::Items(count) => if count > 0 {
                    let others = Task::Items((count - 1) as u128);
                    match header(whole) {
                        Header::Leaf(n) => {
                            assert(n <= total);
                            assert(whole.skip(n as int) =~= s.skip(n as int) + t);
                            lemma_extent_local(s.skip(n as int), t, others);
                        },
                        Header::Branch(n, inner) => {
                            assert(n <= total);
                            assert(whole.skip(n as int) =~= s.skip(n as int) + t);
                            lemma_extent_local(s.skip(n as int), t, inner);
                            if let Extent::Complete(m) = scan(whole.skip(n as int), inner) {
                                assert(n + m <= total);
                                assert(whole.skip((n + m) as int) =~= s.skip((n + m) as int) + t);
                                lemma_extent_local(s.skip((n + m) as int), t, others);
                            }
                        },
                        _ => {},
                    }
                },
                Task::Groups(size) => {
                    assert(whole[0] == s[0]);
                    if s[0] != BREAK {
                        let items = Task::Items(size as u128);
                        lemma_extent_local(s, t, items);
                        if let Extent::Complete(n) = scan(whole, items) {
                            assert(0 < n <= total);
                            assert(whole.skip(n as int) =~= s.skip(n as int) + t);
                            lemma_extent_local(s.skip(n as int), t, task);
                        }
                    }
                },
                Task::Chunks(_) => {
                    assert(whole[0] == s[0]);
                    if s[0] != BREAK {
                        if let Header::Leaf(n) = header(whole) {
                            assert(n <= total);
                            assert(whole.skip(n as int) =~= s.skip(n as int) + t);
                            lemma_extent_local(s.skip(n as int), t, task);
                        }
                    }
                },
            }
        }
    }
}

/// The verdict on the items at the front of some bytes.
#[derive(Clone, Copy, Debug, PartialEq, Eq)]
pub enum Found {
    Complete(usize),
    Partial,
    Malformed,
}

impl View for Found {
    type V = Extent;

    open spec fn view(&self) -> Extent {
        match *self {
            Found::Complete(n) => Extent::Complete(n as nat),
            Found::Partial => Extent::Partial,
            Found::Malformed => Extent::Malformed,
        }
    }
}

/// A header that was read.
enum Mark {
    Cut,
    Bad,
    Leaf(u128),
    Branch(usize, Task),
}

impl View for Mark {
    type V = Header;

    closed spec fn view(&self) -> Header {
        match *self {
            Mark::Cut => Header::Cut,
            Mark::Bad => Header::Bad,
            Mark::Leaf(n) => Header::Leaf(n as nat),
            Mark::Branch(n, task) => Header::Branch(n as nat, task),
        }
    }
}

/// The big-endian 32-bit number at position `at`.
fn read_word(bytes: &[u8], at: usize) -> (r: u64)
    requires
        at + 4 <= bytes@.len(),
    ensures
        r == word(bytes@, at as int),
        r < 0x1_0000_0000,
{
    bytes[at] as u64 * 0x100_0000 + bytes[at + 1] as u64 * 0x1_0000 + bytes[at + 2] as u64 * 0x100
        + bytes[at + 3] as u64
}

/// The big-endian number in the `size` bytes behind position `at`.
fn read_argument(bytes: &[u8], at: usize, size: usize) -> (r: u64)
    requires
        size == 1 || size == 2 || size == 4 || size == 8,
        at + size < bytes@.len(),
    ensures
        r == argument(bytes@.skip(at as int), size as nat),
{
    let _end: usize = bytes.len();
    if size == 1 {
        bytes[at + 1] as u64
    } else if size == 2 {
        bytes[at + 1] as u64 * 0x100 + bytes[at + 2] as u64
    } else if size == 4 {
        read_word(bytes, at + 1)
    } else {
        read_word(bytes, at + 1) * 0x1_0000_0000 + read_word(bytes, at + 5)
    }
}

/// Reads the header at position `at`.
fn read_header(bytes: &[u8], at: usize) -> (r: Mark)
    requires
        at <= bytes@.len(),
    ensures
        r@ == header(bytes@.skip(at as int)),
{
    reveal(header);
    let left: usize = bytes.len() - at;
    if left == 0 {
        return Mark::Cut;
    }
    let major: u8 = bytes[at] / 32;
    let info: u8 = bytes[at] % 32;
    if 28 <= info && info <= 30 {
        return Mark::Bad;
    }
    if info == 31 {
        return if major == 2 || major == 3 {
            Mark::Branch(1, Task::Chunks(major))
        } else if major == 4 {
            Mark::Branch(1, Task::Groups(1))
        } else if major == 5 {
            Mark::Branch(1, Task::Groups(2))
        } else {
            Mark::Bad
        };
    }
    let size: usize = if info < 24 {
        0
    } else if info == 24 {
        1
    } else if info == 25 {
        2
    } else if info == 26 {
        4
    } else {
        8
    };
    if left <= size {
        return Mark::Cut;
    }
    let n: u64 = if info < 24 {
        info as u64
    } else {
        read_argument(bytes, at, size)
    };
    if major == 2 || major == 3 {
        Mark::Leaf(1 + size as u128 + n as u128)
    } else if major == 4 {
        Mark::Branch(1 + size, Task::Items(n as u128))
    } else if major == 5 {
        Mark::Branch(1 + size, Task::Items(2 * (n as u128)))
    } else if major == 6 {
        Mark::Branch(1 + size, Task::Items(1))
    } else {
        Mark::Leaf(1 + size as u128)
    }
}

/// What `s` holds of everything that `tasks` asks for, the last task first.
spec fn scan_all(s: Seq<u8>, tasks: Seq<Task>) -> Extent
    decreases tasks.len(),
{
    if tasks.len() == 0 {
        Extent::Complete(0)
    } else {
        match scan(s, tasks.last()) {
            Extent::Complete(n) => shift(n, scan_all(s.skip(n as int), tasks.drop_last())),
            e => e,
        }
    }
}

/// Unfolds the last of several tasks.
proof fn lemma_scan_last(s: Seq<u8>, rest: Seq<Task>, task: Task)
    ensures
        scan_all(s, rest.push(task)) == (match scan(s, task) {
            Extent::Complete(n) => shift(n, scan_all(s.skip(n as int), rest)),
            e => e,
        }),
{
    assert(rest.push(task).drop_last() =~= rest);
}

/// Skipping twice is skipping once.
proof fn lemma_skip_skip(s: Seq<u8>, a: nat, b: nat)
    requires
        a + b <= s.len(),
    ensures
        s.skip(a as int).skip(b as int) == s.skip((a + b) as int),
{
    assert(s.skip(a as int).skip(b as int) =~= s.skip((a + b) as int));
}

/// Scanning a leaf, or the header of a branch, leaves the other items and what
/// the branch holds to be scanned behind it.
proof fn lemma_scan_item(s: Seq<u8>, rest: Seq<Task>, count: u128)
    requires
        count > 0,
    ensures
        header(s) is Cut ==> scan_all(s, rest.push(Task::Items(count))) is Partial,
        header(s) is Bad ==> scan_all(s, rest.push(Task::Items(count))) is Malformed,
        header(s) matches Header::Leaf(n) ==> {
            let others = rest.push(Task::Items((count - 1) as u128));
            if n <= s.len() {
                scan_all(s, rest.push(Task::Items(count))) == shift(
                    n,
                    scan_all(s.skip(n as int), others),
                )
            } else {
                scan_all(s, rest.push(Task::Items(count))) is Partial
            }
        },
        header(s) matches Header::Branch(n, inner) ==> {
            let others = rest.push(Task::Items((count - 1) as u128));
            n <= s.len() && scan_all(s, rest.push(Task::Items(count))) == shift(
                n,
                scan_all(s.skip(n as int), others.push(inner)),
            )
        },
{
    let all = Task::Items(count);
    let others = Task::Items((count - 1) as u128);
    lemma_header_bounds(s);
    lemma_scan_last(s, rest, all);
    match header(s) {
        Header::Leaf(n) => if n <= s.len() {
            let s1 = s.skip(n as int);
            lemma_scan_last(s1, rest, others);
            lemma_extent_in_bounds(s1, others);
            if let Extent::Complete(m) = scan(s1, others) {
                lemma_skip_skip(s, n, m);
            }
        },
        Header::Branch(n, inner) => {
            let s1 = s.skip(n as int);
            lemma_scan_last(s1, rest.push(others), inner);
            lemma_extent_in_bounds(s1, inner);
            if let Extent::Complete(m) = scan(s1, inner) {
                lemma_skip_skip(s, n, m);
                let s2 = s.skip((n + m) as int);
                lemma_scan_last(s2, rest, others);
                lemma_extent_in_bounds(s2, others);
                if let Extent::Complete(k) = scan(s2, others) {
                    lemma_skip_skip(s, n + m, k);
                }
            }
        },
        _ => {},
    }
}

/// A group that does not start with a break is its items, then the groups
/// behind it.
proof fn lemma_scan_group(s: Seq<u8>, rest: Seq<Task>, size: u8)
    requires
        s.len() > 0,
        s[0] != BREAK,
        size > 0,
    ensures
        scan_all(s, rest.push(Task::Groups(size))) == scan_all(
            s,
            rest.push(Task::Groups(size)).push(Task::Items(size as u128)),
        ),
{
    let groups = Task::Groups(size);
    let items = Task::Items(size as u128);
    lemma_scan_last(s, rest, groups);
    lemma_scan_last(s, rest.push(groups), items);
    lemma_extent_in_bounds(s, items);
    if let Extent::Complete(n) = scan(s, items) {
        let s1 = s.skip(n as int);
        lemma_scan_last(s1, rest, groups);
        lemma_extent_in_bounds(s1, groups);
        if let Extent::Complete(m) = scan(s1, groups) {
            lemma_skip_skip(s, n, m);
        }
    }
}

/// A chunk of a string that is not a break, then the chunks behind it.
proof fn lemma_scan_chunk(s: Seq<u8>, rest: Seq<Task>, major: u8)
    requires
        s.len() > 0,
        s[0] != BREAK,
        s[0] as int / 32 == major,
        header(s) is Leaf,
    ensures
        header(s) matches Header::Leaf(n) ==> if n <= s.len() {
            scan_all(s, rest.push(Task::Chunks(major))) == shift(
                n,
                scan_all(s.skip(n as int), rest.push(Task::Chunks(major))),
            )
        } else {
            scan_all(s, rest.push(Task::Chunks(major))) is Partial
        },
{
    let chunks = Task::Chunks(major);
    lemma_header_bounds(s);
    lemma_scan_last(s, rest, chunks);
    if let Header::Leaf(n) = header(s) {
        if n <= s.len() {
            let s1 = s.skip(n as int);
            lemma_scan_last(s1, rest, chunks);
            lemma_extent_in_bounds(s1, chunks);
            if let Extent::Complete(m) = scan(s1, chunks) {
                lemma_skip_skip(s, n, m);
            }
        }
    }
}

/// How far the next step is from one that takes bytes or ends the scan.
spec fn waiting(tasks: Seq<Task>) -> nat {
    if tasks.len() == 0 {
        0
    } else {
        match tasks.last() {
            Task::Items(count) => if count == 0 {
                2 + tasks.len()
            } else {
                0
            },
            Task::Groups(_) => 1,
            Task::Chunks(_) => 0,
        }
    }
}

/// Whether every group among `tasks` holds an item.
spec fn groups_hold_items(tasks: Seq<Task>) -> bool {
    forall|i: int|
        0 <= i < tasks.len() ==> (#[trigger] tasks[i] matches Task::Groups(size) ==> size > 0)
}

/// What one step of a scan establishes: either the verdict, or a later
/// position from which the tasks that are left give the same verdict.
spec fn step_keeps_verdict(
    s: Seq<u8>,
    at: nat,
    before: Seq<Task>,
    r: Result<usize, Found>,
    after: Seq<Task>,
) -> bool {
    match r {
        Ok(next) => {
            &&& at <= next <= s.len()
            &&& groups_hold_items(after)
            &&& scan_all(s.skip(at as int), before) == shift(
                (next - at) as nat,
                scan_all(s.skip(next as int), after),
            )
        },
        Err(found) => {
            &&& !(found is Complete)
            &&& found@ == scan_all(s.skip(at as int), before)
        },
    }
}

/// Takes the next of `count` items.
fn step_items(bytes: &[u8], at: usize, count: u128, tasks: &mut Vec<Task>) -> (r: Result<
    usize,
    Found,
>)
    requires
        at <= bytes@.len(),
        count > 0,
        groups_hold_items(old(tasks)@),
    ensures
        step_keeps_verdict(
            bytes@,
            at as nat,
            old(tasks)@.push(Task::Items(count)),
            r,
            final(tasks)@,
        ),
        r matches Ok(next) ==> at < next,
{
    let left: usize = bytes.len() - at;
    proof {
        lemma_header_bounds(bytes@.skip(at as int));
        lemma_scan_item(bytes@.skip(at as int), tasks@, count);
    }
    match read_header(bytes, at) {
        Mark::Cut => Err(Found::Partial),
        Mark::Bad => Err(Found::Malformed),
        Mark::Leaf(n) => {
            if n > left as u128 {
                return Err(Found::Partial);
            }
            proof {
                lemma_skip_skip(bytes@, at as nat, n as nat);
            }
            tasks.push(Task::Items(count - 1));
            Ok(at + n as usize)
        },
        Mark::Branch(n, inner) => {
            proof {
                lemma_skip_skip(bytes@, at as nat, n as nat);
            }
            tasks.push(Task::Items(count - 1));
            tasks.push(inner);
            Ok(at + n)
        },
    }
}

/// Takes the break that ends groups of `size` items, or starts the next group.
fn step_groups(bytes: &[u8], at: usize, size: u8, tasks: &mut Vec<Task>) -> (r: Result<
    usize,
    Found,
>)
    requires
        at <= bytes@.len(),
        size > 0,
        groups_hold_items(old(tasks)@),
    ensures
        step_keeps_verdict(
            bytes@,
            at as nat,
            old(tasks)@.push(Task::Groups(size)),
            r,
            final(tasks)@,
        ),
        r matches Ok(next) ==> at < next || waiting(final(tasks)@) == 0,
{
    let ghost s = bytes@.skip(at as int);
    proof {
        lemma_scan_last(s, tasks@, Task::Groups(size));
    }
    if at == bytes.len() {
        return Err(Found::Partial);
    }
    if bytes[at] == BREAK {
        proof {
            lemma_skip_skip(bytes@, at as nat, 1);
        }
        Ok(at + 1)
    } else {
        proof {
            lemma_scan_group(s, tasks@, size);
        }
        tasks.push(Task::Groups(size));
        tasks.push(Task::Items(size as u128));
        Ok(at)
    }
}

/// Takes the break that ends an indefinite string, or its next chunk.
fn step_chunks(bytes: &[u8], at: usize, major: u8, tasks: &mut Vec<Task>) -> (r: Result<
    usize,
    Found,
>)
    requires
        at <= bytes@.len(),
        groups_hold_items(old(tasks)@),
    ensures
        step_keeps_verdict(
            bytes@,
            at as nat,
            old(tasks)@.push(Task::Chunks(major)),
            r,
            final(tasks)@,
        ),
        r matches Ok(next) ==> at < next,
{
    let ghost s = bytes@.skip(at as int);
    proof {
        lemma_header_bounds(s);
        lemma_scan_last(s, tasks@, Task::Chunks(major));
    }
    let left: usize = bytes.len() - at;
    if left == 0 {
        return Err(Found::Partial);
    }
    if bytes[at] == BREAK {
        proof {
            lemma_skip_skip(bytes@, at as nat, 1);
        }
        return Ok(at + 1);
    }
    if bytes[at] / 32 != major {
        return Err(Found::Malformed);
    }
    match read_header(bytes, at) {
        Mark::Cut => Err(Found::Partial),
        Mark::Leaf(n) => {
            proof {
                lemma_scan_chunk(s, tasks@, major);
            }
            if n > left as u128 {
                return Err(Found::Partial);
            }
            proof {
                lemma_skip_skip(bytes@, at as nat, n as nat);
            }
            tasks.push(Task::Chunks(major));
            Ok(at + n as usize)
        },
        _ => Err(Found::Malformed),
    }
}

/// Finds the end of the first data item, without recursion: a deeply nested
/// item costs memory in proportion, not stack.
pub fn find_item(bytes: &[u8]) -> (r: Found)
    ensures
        r@ == first_item(bytes@),
{
    let mut tasks: Vec<Task> = Vec::new();
    tasks.push(Task::Items(1));
    let mut at: usize = 0;
    proof {
        assert(bytes@.skip(0) =~= bytes@);
        lemma_scan_last(bytes@, Seq::empty(), Task::Items(1));
        assert(Seq::<Task>::empty().push(Task::Items(1)) =~= tasks@);
        lemma_extent_in_bounds(bytes@, Task::Items(1));
    }
    while tasks.len() > 0
        invariant
            at <= bytes@.len(),
            first_item(bytes@) == shift(at as nat, scan_all(bytes@.skip(at as int), tasks@)),
            groups_hold_items(tasks@),
        decreases bytes@.len() - at, waiting(tasks@),
    {
        let ghost before = tasks@;
        let ghost s = bytes@.skip(at as int);
        let task = tasks.pop().unwrap();
        proof {
            assert(tasks@.push(task) =~= before);
            assert(before[before.len() - 1] == task);
            assert forall|i: int| 0 <= i < tasks@.len() implies tasks@[i] == before[i] by {}
        }
        let step = match task {
            Task::Items(count) => {
                if count == 0 {
                    proof {
                        lemma_scan_last(s, tasks@, task);
                        assert(s.skip(0) =~= s);
                    }
                    Ok(at)
                } else {
                    step_items(bytes, at, count, &mut tasks)
                }
            },
            Task::Groups(size) => step_groups(bytes, at, size, &mut tasks),
            Task::Chunks(major) => step_chunks(bytes, at, major, &mut tasks),
        };
        match step {
            Ok(next) => {
                at = next;
            },
            Err(found) => {
                return found;
            },
        }
    }
    Found::Complete(at)
}

// ----------------------------------------------------------------------------
// Laws: what is an item
// ----------------------------------------------------------------------------
/// The number that some bytes write, the most significant first.
pub open spec fn number_in(digits: Seq<u8>) -> nat
    decreases digits.len(),
{
    if digits.len() == 0 {
        0
    } else {
        number_in(digits.drop_last()) * 256 + digits.last() as nat
    }
}

/// Whether these bytes are a header of this major type that states this number:
/// in the first byte if it is below 24, or in the one, two, four or eight bytes
/// behind it.
pub open spec fn heads(head: Seq<u8>, major: int, n: nat) -> bool {
    ||| head.len() == 1 && n < 24 && head[0] == major * 32 + n
    ||| head.len() == 2 && head[0] == major * 32 + 24 && n == number_in(head.skip(1))
    ||| head.len() == 3 && head[0] == major * 32 + 25 && n == number_in(head.skip(1))
    ||| head.len() == 5 && head[0] == major * 32 + 26 && n == number_in(head.skip(1))
    ||| head.len() == 9 && head[0] == major * 32 + 27 && n == number_in(head.skip(1))
}

/// Whether some bytes are one data item and nothing else.
pub open spec fn is_item(s: Seq<u8>) -> bool {
    first_item(s) == Extent::Complete(s.len())
}

proof fn lemma_number_in_four(d: Seq<u8>)
    requires
        d.len() == 4,
    ensures
        number_in(d) == d[0] * 0x100_0000 + d[1] * 0x1_0000 + d[2] * 0x100 + d[3],
{
    reveal_with_fuel(number_in, 5);
    let c = d.drop_last();
    let b = c.drop_last();
    let a = b.drop_last();
    assert(a.drop_last().len() == 0);
    assert(number_in(a) == d[0]);
    assert(number_in(b) == d[0] * 0x100 + d[1]);
    assert(number_in(c) == d[0] * 0x1_0000 + d[1] * 0x100 + d[2]);
}

proof fn lemma_number_in_eight(d: Seq<u8>)
    requires
        d.len() == 8,
    ensures
        number_in(d) == number_in(d.take(4)) * 0x1_0000_0000 + number_in(d.skip(4)),
{
    let high = d.take(4);
    lemma_number_in_four(high);
    lemma_number_in_four(d.skip(4));
    let g = d.drop_last();
    let f = g.drop_last();
    let e = f.drop_last();
    assert(e.drop_last() =~= high);
    assert(number_in(e) == number_in(high) * 0x100 + d[4]);
    assert(number_in(f) == number_in(high) * 0x1_0000 + d[4] * 0x100 + d[5]);
    assert(number_in(g) == number_in(high) * 0x100_0000 + d[4] * 0x1_0000 + d[5] * 0x100 + d[6]);
}

proof fn lemma_header_states(head: Seq<u8>, major: int, n: nat, rest: Seq<u8>)
    requires
        0 <= major <= 7,
        heads(head, major, n),
    ensures
        n < 0x1_0000_0000_0000_0000,
        head[0] as int / 32 == major,
        head[0] as int % 32 < 28,
        header(head + rest) == (if major == 2 || major == 3 {
            Header::Leaf(head.len() + n)
        } else if major == 4 {
            Header::Branch(head.len(), Task::Items(n as u128))
        } else if major == 5 {
            Header::Branch(head.len(), Task::Items((2 * n) as u128))
        } else if major == 6 {
            Header::Branch(head.len(), Task::Items(1))
        } else {
            Header::Leaf(head.len())
        }),
{
    reveal(header);
    let s = head + rest;
    let d = head.skip(1);
    assert(s[0] == head[0]);
    assert forall|i: int| 0 <= i < d.len() implies s[i + 1] == #[trigger] d[i] by {}
    if head.len() == 2 {
        reveal_with_fuel(number_in, 3);
        assert(d.drop_last().len() == 0);
        assert(s[1] == d[0]);
    } else if head.len() == 3 {
        reveal_with_fuel(number_in, 3);
        assert(d.drop_last().drop_last().len() == 0);
        assert(s[1] == d[0] && s[2] == d[1]);
    } else if head.len() == 5 {
        lemma_number_in_four(d);
        assert(s[1] == d[0] && s[2] == d[1] && s[3] == d[2] && s[4] == d[3]);
    } else if head.len() == 9 {
        lemma_number_in_eight(d);
        lemma_number_in_four(d.take(4));
        lemma_number_in_four(d.skip(4));
        assert(s[1] == d[0] && s[2] == d[1] && s[3] == d[2] && s[4] == d[3]);
        assert(s[5] == d[4] && s[6] == d[5] && s[7] == d[6] && s[8] == d[7]);
    }
}

proof fn lemma_leaf_is_one_item(s: Seq<u8>, n: nat)
    requires
        header(s) == Header::Leaf(n),
        0 < n <= s.len(),
    ensures
        first_item(s) == Extent::Complete(n),
{
    reveal_with_fuel(scan, 2);
}

proof fn lemma_branch_is_one_item(s: Seq<u8>, n: nat, inner: Task)
    requires
        header(s) == Header::Branch(n, inner),
        0 < n <= s.len(),
    ensures
        scan(s.skip(n as int), inner) matches Extent::Complete(m) ==> first_item(s)
            == Extent::Complete(n + m),
        scan(s.skip(n as int), inner) is Malformed ==> first_item(s) is Malformed,
{
    lemma_extent_in_bounds(s.skip(n as int), inner);
    if let Extent::Complete(m) = scan(s.skip(n as int), inner) {
        assert(scan(s.skip((n + m) as int), Task::Items(0)) == Extent::Complete(0));
    }
}

proof fn lemma_first_and_others(s: Seq<u8>, count: u128)
    requires
        count > 0,
    ensures
        scan(s, Task::Items(count)) == (match first_item(s) {
            Extent::Complete(n) => shift(
                n,
                scan(s.skip(n as int), Task::Items((count - 1) as u128)),
            ),
            e => e,
        }),
{
    reveal_with_fuel(scan, 2);
    lemma_extent_in_bounds(s, Task::Items(1));
    match header(s) {
        Header::Branch(n, inner) => if 0 < n <= s.len() {
            if let Extent::Complete(m) = scan(s.skip(n as int), inner) {
                lemma_extent_in_bounds(s.skip(n as int), inner);
            }
        },
        _ => {},
    }
}

/// An item is found whatever stands behind it, and is never empty.
proof fn lemma_item_then(item: Seq<u8>, rest: Seq<u8>)
    requires
        is_item(item),
    ensures
        first_item(item + rest) == Extent::Complete(item.len()),
        (item + rest).skip(item.len() as int) == rest,
        item.len() > 0,
        item[0] != 0xff,
{
    lemma_extent_stable(item, rest, Task::Items(1));
    lemma_extent_in_bounds(item, Task::Items(1));
    assert((item + rest).skip(item.len() as int) =~= rest);
    if item[0] == 0xff {
        reveal(header);
        assert(header(item) is Bad);
    }
}

/// As many items as are asked for are found one behind the other, and those
/// that are still missing after them come to what stands there.
proof fn lemma_items_then(items: Seq<Seq<u8>>, rest: Seq<u8>, count: u128)
    requires
        forall|i: int| 0 <= i < items.len() ==> is_item(#[trigger] items[i]),
        items.len() <= count,
    ensures
        scan(items.flatten() + rest, Task::Items(count)) == shift(
            items.flatten().len(),
            scan(rest, Task::Items((count - items.len()) as u128)),
        ),
    decreases items.len(),
{
    if items.len() == 0 {
        assert(items.flatten() + rest =~= rest);
    } else {
        let others = items.drop_first();
        assert forall|i: int| 0 <= i < others.len() implies is_item(#[trigger] others[i]) by {
            assert(others[i] == items[i + 1]);
        }
        let s = items.flatten() + rest;
        assert(s =~= items[0] + (others.flatten() + rest));
        lemma_item_then(items[0], others.flatten() + rest);
        lemma_first_and_others(s, count);
        lemma_items_then(others, rest, (count - 1) as u128);
    }
}

/// A number, a truth value and any other simple value is its header.
pub proof fn lemma_simple_values_are_items(head: Seq<u8>, major: int, n: nat)
    requires
        major == 0 || major == 1 || major == 7,
        heads(head, major, n),
    ensures
        is_item(head),
{
    lemma_header_states(head, major, n, Seq::empty());
    assert(head + Seq::<u8>::empty() =~= head);
    lemma_leaf_is_one_item(head, head.len());
}

/// A string is its header and as many bytes as that states, whatever they are.
pub proof fn lemma_strings_are_items(head: Seq<u8>, major: int, content: Seq<u8>)
    requires
        major == 2 || major == 3,
        heads(head, major, content.len()),
    ensures
        is_item(head + content),
{
    lemma_header_states(head, major, content.len(), content);
    lemma_leaf_is_one_item(head + content, head.len() + content.len());
}

/// An array, a map and a tagged item are their header and as many items as that
/// asks for: as many as it states, twice as many, and one.
pub proof fn lemma_collections_are_items(head: Seq<u8>, major: int, n: nat, items: Seq<Seq<u8>>)
    requires
        heads(head, major, n),
        major == 4 && items.len() == n || major == 5 && items.len() == 2 * n || major == 6
            && items.len() == 1,
        forall|i: int| 0 <= i < items.len() ==> is_item(#[trigger] items[i]),
    ensures
        is_item(head + items.flatten()),
{
    let s = head + items.flatten();
    lemma_header_states(head, major, n, items.flatten());
    lemma_items_then(items, Seq::empty(), items.len() as u128);
    assert(s.skip(head.len() as int) =~= items.flatten() + Seq::<u8>::empty());
    lemma_branch_is_one_item(s, head.len(), Task::Items(items.len() as u128));
}

proof fn lemma_groups_then(items: Seq<Seq<u8>>, rest: Seq<u8>, size: u8)
    requires
        size == 1 || size == 2,
        items.len() % (size as nat) == 0,
        forall|i: int| 0 <= i < items.len() ==> is_item(#[trigger] items[i]),
    ensures
        scan(items.flatten() + rest, Task::Groups(size)) == shift(
            items.flatten().len(),
            scan(rest, Task::Groups(size)),
        ),
    decreases items.len(),
{
    if items.len() == 0 {
        assert(items.flatten() + rest =~= rest);
    } else {
        let group = items.take(size as int);
        let others = items.skip(size as int);
        assert forall|i: int| 0 <= i < others.len() implies is_item(#[trigger] others[i]) by {
            assert(others[i] == items[i + size]);
        }
        assert forall|i: int| 0 <= i < group.len() implies is_item(#[trigger] group[i]) by {
            assert(group[i] == items[i]);
        }
        let s = items.flatten() + rest;
        assert(items =~= group + others);
        vstd::seq_lib::lemma_flatten_concat(group, others);
        assert(s =~= group.flatten() + (others.flatten() + rest));
        lemma_items_then(group, others.flatten() + rest, size as u128);
        assert(items.flatten() == items[0] + items.drop_first().flatten());
        lemma_item_then(items[0], items.drop_first().flatten() + rest);
        assert(s[0] == items[0][0]);
        let n = group.flatten().len();
        assert(group.flatten() == group[0] + group.drop_first().flatten());
        assert(n > 0);
        assert(s.skip(n as int) =~= others.flatten() + rest);
        lemma_groups_then(others, rest, size);
    }
}

/// An array and a map without a stated length go on up to a break, with any
/// number of items, or of pairs of them.
pub proof fn lemma_open_collections_are_items(items: Seq<Seq<u8>>)
    requires
        forall|i: int| 0 <= i < items.len() ==> is_item(#[trigger] items[i]),
    ensures
        is_item(seq![0x9fu8] + items.flatten() + seq![0xffu8]),
        items.len() % 2 == 0 ==> is_item(seq![0xbfu8] + items.flatten() + seq![0xffu8]),
{
    reveal(header);
    let end = seq![0xffu8];
    let array = seq![0x9fu8] + items.flatten() + end;
    let pairs = seq![0xbfu8] + items.flatten() + end;
    assert(array[0] == 0x9f && pairs[0] == 0xbf);
    assert(array.skip(1) =~= items.flatten() + end);
    assert(pairs.skip(1) =~= items.flatten() + end);
    lemma_groups_then(items, end, 1);
    lemma_branch_is_one_item(array, 1, Task::Groups(1));
    if items.len() % 2 == 0 {
        lemma_groups_then(items, end, 2);
        lemma_branch_is_one_item(pairs, 1, Task::Groups(2));
    }
}

/// Whether some bytes are a string of this major type with a stated length.
pub open spec fn is_chunk(s: Seq<u8>, major: int) -> bool {
    exists|head: Seq<u8>, content: Seq<u8>|
        s == #[trigger] (head + content) && heads(head, major, content.len())
}

proof fn lemma_chunks_then(chunks: Seq<Seq<u8>>, rest: Seq<u8>, major: u8)
    requires
        major == 2 || major == 3,
        forall|i: int| 0 <= i < chunks.len() ==> is_chunk(#[trigger] chunks[i], major as int),
    ensures
        scan(chunks.flatten() + rest, Task::Chunks(major)) == shift(
            chunks.flatten().len(),
            scan(rest, Task::Chunks(major)),
        ),
    decreases chunks.len(),
{
    if chunks.len() == 0 {
        assert(chunks.flatten() + rest =~= rest);
    } else {
        let others = chunks.drop_first();
        assert forall|i: int| 0 <= i < others.len() implies is_chunk(
            #[trigger] others[i],
            major as int,
        ) by {
            assert(others[i] == chunks[i + 1]);
        }
        let s = chunks.flatten() + rest;
        let tail = others.flatten() + rest;
        let chunk = chunks[0];
        assert(s =~= chunk + tail);
        assert(is_chunk(chunk, major as int));
        let (head, content) = choose|head: Seq<u8>, content: Seq<u8>|
            chunk == #[trigger] (head + content) && heads(head, major as int, content.len());
        assert(s =~= head + (content + tail));
        lemma_header_states(head, major as int, content.len(), content + tail);
        assert(s[0] == head[0]);
        assert(s.skip(chunk.len() as int) =~= tail);
        lemma_chunks_then(others, rest, major);
    }
}

/// A string without a stated length goes on up to a break, with any number of
/// strings of the same kind in it.
pub proof fn lemma_open_strings_are_items(chunks: Seq<Seq<u8>>)
    ensures
        (forall|i: int| 0 <= i < chunks.len() ==> is_chunk(#[trigger] chunks[i], 2)) ==> is_item(
            seq![0x5fu8] + chunks.flatten() + seq![0xffu8],
        ),
        (forall|i: int| 0 <= i < chunks.len() ==> is_chunk(#[trigger] chunks[i], 3)) ==> is_item(
            seq![0x7fu8] + chunks.flatten() + seq![0xffu8],
        ),
{
    reveal(header);
    let end = seq![0xffu8];
    let bytes = seq![0x5fu8] + chunks.flatten() + end;
    let text = seq![0x7fu8] + chunks.flatten() + end;
    assert(bytes[0] == 0x5f && text[0] == 0x7f);
    assert(bytes.skip(1) =~= chunks.flatten() + end);
    assert(text.skip(1) =~= chunks.flatten() + end);
    if forall|i: int| 0 <= i < chunks.len() ==> is_chunk(#[trigger] chunks[i], 2) {
        lemma_chunks_then(chunks, end, 2);
        lemma_branch_is_one_item(bytes, 1, Task::Chunks(2));
    }
    if forall|i: int| 0 <= i < chunks.len() ==> is_chunk(#[trigger] chunks[i], 3) {
        lemma_chunks_then(chunks, end, 3);
        lemma_branch_is_one_item(text, 1, Task::Chunks(3));
    }
}

/// Bytes that end before an item does are neither that item nor malformed.
pub proof fn lemma_parts_of_items_wait(item: Seq<u8>, read: int)
    requires
        is_item(item),
        0 <= read < item.len(),
    ensures
        first_item(item.take(read)) is Partial,
{
    let part = item.take(read);
    assert(part + item.skip(read) =~= item);
    lemma_extent_stable(part, item.skip(read), Task::Items(1));
    lemma_extent_in_bounds(part, Task::Items(1));
}

/// A first byte that is reserved, and a break where an item must stand, start
/// no item.
pub proof fn lemma_reserved_bytes_are_malformed(s: Seq<u8>)
    requires
        s.len() > 0,
        28 <= s[0] as int % 32 <= 30 || s[0] == 0x1f || s[0] == 0x3f || s[0] == 0xdf || s[0]
            == 0xff,
    ensures
        first_item(s) is Malformed,
{
    reveal(header);
}

/// A collection in which an item is malformed is so itself.
pub proof fn lemma_malformed_items_spoil_collections(
    head: Seq<u8>,
    major: int,
    n: nat,
    items: Seq<Seq<u8>>,
    bad: Seq<u8>,
)
    requires
        heads(head, major, n),
        major == 4 && items.len() < n || major == 5 && items.len() < 2 * n || major == 6
            && items.len() == 0,
        forall|i: int| 0 <= i < items.len() ==> is_item(#[trigger] items[i]),
        first_item(bad) is Malformed,
    ensures
        first_item(head + items.flatten() + bad) is Malformed,
{
    let s = head + items.flatten() + bad;
    let count = if major == 4 {
        n as u128
    } else if major == 5 {
        (2 * n) as u128
    } else {
        1
    };
    assert(s =~= head + (items.flatten() + bad));
    lemma_header_states(head, major, n, items.flatten() + bad);
    lemma_items_then(items, bad, count);
    lemma_first_and_others(bad, (count - items.len()) as u128);
    assert(s.skip(head.len() as int) =~= items.flatten() + bad);
    lemma_branch_is_one_item(s, head.len(), Task::Items(count));
}

/// The same holds of collections without a stated length. A break between the
/// key and the value of an entry is malformed too.
pub proof fn lemma_malformed_items_spoil_open_collections(items: Seq<Seq<u8>>, bad: Seq<u8>)
    requires
        forall|i: int| 0 <= i < items.len() ==> is_item(#[trigger] items[i]),
        bad.len() > 0,
        first_item(bad) is Malformed,
    ensures
        bad[0] != 0xff ==> first_item(seq![0x9fu8] + items.flatten() + bad) is Malformed,
        bad[0] != 0xff || items.len() % 2 == 1 ==> first_item(
            seq![0xbfu8] + items.flatten() + bad,
        ) is Malformed,
{
    reveal(header);
    let array = seq![0x9fu8] + items.flatten() + bad;
    let pairs = seq![0xbfu8] + items.flatten() + bad;
    assert(array[0] == 0x9f && pairs[0] == 0xbf);
    assert(array.skip(1) =~= items.flatten() + bad);
    assert(pairs.skip(1) =~= items.flatten() + bad);
    if bad[0] != 0xff {
        lemma_groups_then(items, bad, 1);
        lemma_first_and_others(bad, 1);
        lemma_branch_is_one_item(array, 1, Task::Groups(1));
    }
    if items.len() % 2 == 0 {
        if bad[0] != 0xff {
            lemma_groups_then(items, bad, 2);
            lemma_first_and_others(bad, 2);
            lemma_branch_is_one_item(pairs, 1, Task::Groups(2));
        }
    } else {
        let before = items.drop_last();
        let key = items.last();
        assert forall|i: int| 0 <= i < before.len() implies is_item(#[trigger] before[i]) by {
            assert(before[i] == items[i]);
        }
        assert(items[items.len() - 1] == key);
        assert(items =~= before + seq![key]);
        vstd::seq_lib::lemma_flatten_concat(before, seq![key]);
        assert(seq![key].drop_first() =~= Seq::<Seq<u8>>::empty());
        assert(seq![key].flatten() == seq![key][0] + seq![key].drop_first().flatten());
        assert(seq![key].flatten() =~= key);
        let tail = key + bad;
        assert(items.flatten() + bad =~= before.flatten() + tail);
        lemma_groups_then(before, tail, 2);
        lemma_item_then(key, bad);
        assert(tail[0] == key[0]);
        lemma_first_and_others(tail, 2);
        lemma_first_and_others(bad, 1);
        lemma_branch_is_one_item(pairs, 1, Task::Groups(2));
    }
}

/// A string without a stated length in which anything else stands than strings
/// of the same kind that have one is malformed.
pub proof fn lemma_other_items_spoil_open_strings(
    chunks: Seq<Seq<u8>>,
    major: u8,
    bad: Seq<u8>,
)
    requires
        major == 2 || major == 3,
        forall|i: int| 0 <= i < chunks.len() ==> is_chunk(#[trigger] chunks[i], major as int),
        bad.len() > 0,
        bad[0] != 0xff,
        bad[0] as int / 32 != major || bad[0] as int % 32 >= 28,
    ensures
        first_item(
            seq![
                if major == 2 {
                    0x5fu8
                } else {
                    0x7fu8
                },
            ] + chunks.flatten() + bad,
        ) is Malformed,
{
    reveal(header);
    let first = if major == 2 {
        0x5fu8
    } else {
        0x7fu8
    };
    let s = seq![first] + chunks.flatten() + bad;
    assert(s[0] == first);
    assert(s.skip(1) =~= chunks.flatten() + bad);
    lemma_chunks_then(chunks, bad, major);
    lemma_branch_is_one_item(s, 1, Task::Chunks(major));
}

} // verus!
