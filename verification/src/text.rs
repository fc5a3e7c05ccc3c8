//! Text helpers: characters, decimal numerals, comparison.

use vstd::prelude::*;

verus! {

/// Whether two strings hold the same characters.
pub fn same_text(a: &str, b: &str) -> (r: bool)
    ensures
        r == (a@ == b@),
{
    a.to_owned() == b.to_owned()
}

/// The characters of a string, in order.
pub fn chars_of(s: &str) -> (r: Vec<char>)
    ensures
        r@ == s@,
{
    let mut out: Vec<char> = Vec::new();
    for c in it: s.chars()
        invariant
            out@ == s@.take(it.index()),
            it.seq() == s@,
    {
        out.push(c);
    }
    out
}

/// Whether a text starts with another.
pub fn starts_with(s: &str, start: &str) -> (r: bool)
    ensures
        r == start@.is_prefix_of(s@),
{
    let text = chars_of(s);
    let start_chars = chars_of(start);
    if start_chars.len() > text.len() {
        return false;
    }
    let mut i: usize = 0;
    while i < start_chars.len()
        invariant
            i <= start_chars@.len() <= text@.len(),
            text@ == s@,
            start_chars@ == start@,
            forall|k: int| 0 <= k < i ==> text@[k] == start_chars@[k],
        decreases start_chars@.len() - i,
    {
        if text[i] != start_chars[i] {
            assert(start@[i as int] != s@.subrange(0, start@.len() as int)[i as int]);
            return false;
        }
        i += 1;
    }
    proof {
        assert(start@ =~= s@.subrange(0, start@.len() as int));
    }
    true
}

/// The character of one decimal digit.
pub open spec fn digit(d: nat) -> char {
    ('0' as u32 + d) as u8 as char
}

/// The decimal numeral of `n`, without leading zeros.
pub open spec fn decimal(n: nat) -> Seq<char>
    decreases n,
{
    if n < 10 {
        seq![digit(n)]
    } else {
        decimal(n / 10).push(digit(n % 10))
    }
}

fn digit_str(d: u64) -> (r: &'static str)
    requires
        d < 10,
    ensures
        r@ == seq![digit(d as nat)],
{
    proof {
        reveal_strlit("0");
        reveal_strlit("1");
        reveal_strlit("2");
        reveal_strlit("3");
        reveal_strlit("4");
        reveal_strlit("5");
        reveal_strlit("6");
        reveal_strlit("7");
        reveal_strlit("8");
        reveal_strlit("9");
    }
    match d {
        0 => "0",
        1 => "1",
        2 => "2",
        3 => "3",
        4 => "4",
        5 => "5",
        6 => "6",
        7 => "7",
        8 => "8",
        _ => "9",
    }
}

/// Writes `n` as a decimal numeral.
pub fn decimal_text(n: u64) -> (r: String)
    ensures
        r@ == decimal(n as nat),
    decreases n,
{
    if n < 10 {
        digit_str(n).to_owned()
    } else {
        let mut head = decimal_text(n / 10);
        head.append(digit_str(n % 10));
        proof {
            assert(seq![digit((n % 10) as nat)] =~= Seq::empty().push(digit((n % 10) as nat)));
        }
        head
    }
}

/// A numeral is not empty, and starts with a zero only if it is the zero.
pub proof fn lemma_decimal_starts(n: nat)
    ensures
        decimal(n).len() > 0,
        decimal(n)[0] == '0' ==> n == 0 && decimal(n).len() == 1,
    decreases n,
{
    if n >= 10 {
        lemma_decimal_starts(n / 10);
        assert(decimal(n)[0] == decimal(n / 10)[0]);
    }
}

/// Different numbers have different numerals.
pub proof fn lemma_decimal_injective(a: nat, b: nat)
    requires
        decimal(a) == decimal(b),
    ensures
        a == b,
    decreases a,
{
    lemma_decimal_starts(a / 10);
    lemma_decimal_starts(b / 10);
    assert(decimal(a).last() == digit(a % 10));
    assert(decimal(b).last() == digit(b % 10));
    assert(a % 10 == b % 10);
    if a >= 10 {
        assert(decimal(a).drop_last() =~= decimal(a / 10));
    } else {
        assert(decimal(a).len() == 1);
    }
    if b >= 10 {
        assert(decimal(b).drop_last() =~= decimal(b / 10));
    } else {
        assert(decimal(b).len() == 1);
    }
    if a >= 10 && b >= 10 {
        lemma_decimal_injective(a / 10, b / 10);
    }
}

/// A 32-bit number takes at most ten digits.
pub proof fn lemma_decimal_length(n: nat)
    requires
        n < 0x1_0000_0000,
    ensures
        decimal(n).len() <= 10,
{
    reveal_with_fuel(decimal, 11);
}

// ----------------------------------------------------------------------------
// Numbers and parts
// ----------------------------------------------------------------------------
/// Whether a character is a decimal digit.
pub open spec fn is_digit(c: char) -> bool {
    '0' <= c <= '9'
}

/// The value of some decimal digits, leading zeros allowed.
pub open spec fn digits_value(s: Seq<char>) -> nat
    decreases s.len(),
{
    if s.len() == 0 {
        0
    } else {
        10 * digits_value(s.drop_last()) + (s.last() as nat - '0' as nat) as nat
    }
}

/// The number that some characters write: digits and nothing else, and at
/// least one of them.
pub open spec fn number(s: Seq<char>) -> Option<nat> {
    if s.len() > 0 && forall|i: int| 0 <= i < s.len() ==> is_digit(#[trigger] s[i]) {
        Some(digits_value(s))
    } else {
        None
    }
}

/// The parts of a text between the occurrences of a separator. There is one
/// more of them than there are separators, and any of them can be empty.
pub open spec fn split(s: Seq<char>, separator: char) -> Seq<Seq<char>>
    decreases s.len(),
{
    if s.len() == 0 {
        seq![Seq::empty()]
    } else {
        let before = split(s.drop_last(), separator);
        if s.last() == separator {
            before.push(Seq::empty())
        } else {
            before.drop_last().push(before.last().push(s.last()))
        }
    }
}

/// Reads a number that fits 32 bits.
pub fn read_number(s: &Vec<char>) -> (r: Option<u32>)
    ensures
        r == (match number(s@) {
            Some(n) => if n <= u32::MAX {
                Some(n as u32)
            } else {
                None
            },
            None => None,
        }),
{
    if s.len() == 0 {
        return None;
    }
    let mut too_large = false;
    let mut value: u32 = 0;
    let mut i: usize = 0;
    while i < s.len()
        invariant
            i <= s@.len(),
            forall|k: int| 0 <= k < i ==> is_digit(#[trigger] s@[k]),
            too_large ==> digits_value(s@.take(i as int)) > u32::MAX,
            !too_large ==> digits_value(s@.take(i as int)) == value,
        decreases s@.len() - i,
    {
        let c = s[i];
        if !('0' <= c && c <= '9') {
            assert(!is_digit(s@[i as int]));
            return None;
        }
        proof {
            assert(s@.take(i + 1).drop_last() =~= s@.take(i as int));
        }
        let digit: u64 = c as u64 - '0' as u64;
        if !too_large {
            let grown: u64 = value as u64 * 10 + digit;
            if grown > u32::MAX as u64 {
                too_large = true;
            } else {
                value = grown as u32;
            }
        }
        i += 1;
    }
    proof {
        assert(s@.take(i as int) =~= s@);
    }
    if too_large {
        None
    } else {
        Some(value)
    }
}

/// The characters of several texts.
pub open spec fn views(parts: Seq<Vec<char>>) -> Seq<Seq<char>> {
    Seq::new(parts.len(), |i: int| parts[i]@)
}

/// Takes a text apart at the occurrences of a separator.
pub fn split_at_each(s: &Vec<char>, separator: char) -> (r: Vec<Vec<char>>)
    ensures
        views(r@) == split(s@, separator),
{
    let mut done: Vec<Vec<char>> = Vec::new();
    let mut current: Vec<char> = Vec::new();
    let mut i: usize = 0;
    proof {
        assert(views(done@).push(current@) =~= split(s@.take(0), separator));
    }
    while i < s.len()
        invariant
            i <= s@.len(),
            views(done@).push(current@) == split(s@.take(i as int), separator),
        decreases s@.len() - i,
    {
        let ghost before = views(done@).push(current@);
        proof {
            assert(s@.take(i + 1).drop_last() =~= s@.take(i as int));
            assert(before.drop_last() =~= views(done@));
            assert(before.last() == current@);
        }
        let c = s[i];
        if c == separator {
            let ghost earlier = done@;
            let ghost part = current;
            done.push(current);
            current = Vec::new();
            proof {
                assert(views(earlier.push(part)) =~= views(earlier).push(part@));
                assert(current@ =~= Seq::<char>::empty());
            }
        } else {
            current.push(c);
        }
        i += 1;
    }
    proof {
        assert(s@.take(i as int) =~= s@);
    }
    let ghost earlier = done@;
    let ghost part = current;
    done.push(current);
    proof {
        assert(views(earlier.push(part)) =~= views(earlier).push(part@));
    }
    done
}

// ----------------------------------------------------------------------------
// Laws
// ----------------------------------------------------------------------------
/// Parts with a separator between each two of them.
pub open spec fn joined(parts: Seq<Seq<char>>, separator: char) -> Seq<char>
    decreases parts.len(),
{
    if parts.len() == 0 {
        Seq::empty()
    } else if parts.len() == 1 {
        parts[0]
    } else {
        joined(parts.drop_last(), separator).push(separator) + parts.last()
    }
}

/// Taking a text apart loses nothing: the parts, joined again, are the text,
/// and none of them holds a separator.
pub proof fn lemma_split_undoes_join(s: Seq<char>, separator: char)
    ensures
        split(s, separator).len() > 0,
        joined(split(s, separator), separator) == s,
        forall|i: int|
            0 <= i < split(s, separator).len() ==> !(#[trigger] split(s, separator)[i]).contains(
                separator,
            ),
    decreases s.len(),
{
    let parts = split(s, separator);
    if s.len() == 0 {
        assert(parts[0] =~= s);
    } else {
        let c = s.last();
        let before = split(s.drop_last(), separator);
        lemma_split_undoes_join(s.drop_last(), separator);
        assert(s =~= s.drop_last().push(c));
        if c == separator {
            assert(parts.drop_last() =~= before);
            assert(joined(parts, separator) =~= s);
            assert forall|i: int| 0 <= i < parts.len() implies !(#[trigger] parts[i]).contains(
                separator,
            ) by {
                if i < before.len() {
                    assert(parts[i] == before[i]);
                }
            }
        } else {
            let grown = before.last().push(c);
            assert(parts.drop_last() =~= before.drop_last());
            assert(parts.last() == grown);
            assert(joined(parts, separator) =~= s);
            assert forall|i: int| 0 <= i < parts.len() implies !(#[trigger] parts[i]).contains(
                separator,
            ) by {
                if i < before.len() - 1 {
                    assert(parts[i] == before[i]);
                } else {
                    assert(!before[before.len() - 1].contains(separator));
                    if grown.contains(separator) {
                        let k = grown.index_of(separator);
                        assert(before.last()[k] == separator);
                    }
                }
            }
        }
    }
}

/// A text without separators is its only part.
pub proof fn lemma_split_single(s: Seq<char>, separator: char)
    requires
        !s.contains(separator),
    ensures
        split(s, separator) == seq![s],
    decreases s.len(),
{
    if s.len() > 0 {
        let before = s.drop_last();
        assert(s[s.len() - 1] == s.last());
        if before.contains(separator) {
            let k = before.index_of(separator);
            assert(s[k] == separator);
        }
        lemma_split_single(before, separator);
        assert(before.push(s.last()) =~= s);
        assert(split(s, separator) =~= seq![s]);
    } else {
        assert(s =~= Seq::empty());
        assert(split(s, separator) =~= seq![s]);
    }
}

/// What stands ahead of the first separator is the first part, and the others
/// are those of what stands behind it.
pub proof fn lemma_split_first(first: Seq<char>, rest: Seq<char>, separator: char)
    requires
        !first.contains(separator),
    ensures
        split(first.push(separator) + rest, separator) == seq![first] + split(rest, separator),
    decreases rest.len(),
{
    let whole = first.push(separator) + rest;
    if rest.len() == 0 {
        assert(whole =~= first.push(separator));
        assert(whole.drop_last() =~= first);
        lemma_split_single(first, separator);
        assert(split(whole, separator) =~= seq![first] + split(rest, separator));
    } else {
        let shorter = first.push(separator) + rest.drop_last();
        assert(whole.drop_last() =~= shorter);
        lemma_split_first(first, rest.drop_last(), separator);
        lemma_split_undoes_join(rest.drop_last(), separator);
        let inner = split(rest.drop_last(), separator);
        assert((seq![first] + inner).last() == inner.last());
        assert((seq![first] + inner).drop_last() =~= seq![first] + inner.drop_last());
        assert(split(whole, separator) =~= seq![first] + split(rest, separator));
    }
}

/// The first part of a text that starts without a separator starts the same.
pub proof fn lemma_split_prefix(first: Seq<char>, rest: Seq<char>, separator: char)
    requires
        !first.contains(separator),
    ensures
        split(first + rest, separator)[0] == first + split(rest, separator)[0],
    decreases rest.len(),
{
    lemma_split_undoes_join(rest, separator);
    if rest.contains(separator) {
        let k = choose|k: int| 0 <= k < rest.len() && rest[k] == separator;
        lemma_split_prefix_at(first, rest, separator, k);
    } else {
        lemma_split_single(rest, separator);
        assert forall|i: int| 0 <= i < (first + rest).len() implies (first + rest)[i]
            != separator by {
            if i < first.len() {
                assert(first.contains(first[i]));
            } else {
                assert(rest.contains(rest[i - first.len()]));
            }
        }
        lemma_split_single(first + rest, separator);
    }
}

proof fn lemma_split_prefix_at(first: Seq<char>, rest: Seq<char>, separator: char, k: int)
    requires
        !first.contains(separator),
        0 <= k < rest.len(),
        rest[k] == separator,
    ensures
        split(first + rest, separator)[0] == first + split(rest, separator)[0],
    decreases k,
{
    let head = rest.take(k);
    if head.contains(separator) {
        let j = head.index_of(separator);
        assert(rest[j] == separator);
        lemma_split_prefix_at(first, rest, separator, j);
    } else {
        let tail = rest.skip(k + 1);
        assert(rest =~= head.push(separator) + tail);
        lemma_split_first(head, tail, separator);
        let longer = first + head;
        assert forall|i: int| 0 <= i < longer.len() implies longer[i] != separator by {
            if i < first.len() {
                assert(first.contains(first[i]));
            } else {
                assert(head.contains(head[i - first.len()]));
            }
        }
        assert(first + rest =~= longer.push(separator) + tail);
        lemma_split_first(longer, tail, separator);
    }
}

/// A numeral is digits, and reads as the number it was written for.
pub proof fn lemma_numerals_read_back(n: nat)
    ensures
        number(decimal(n)) == Some(n),
        forall|i: int| 0 <= i < decimal(n).len() ==> '0' <= #[trigger] decimal(n)[i] <= '9',
    decreases n,
{
    let s = decimal(n);
    if n < 10 {
        assert(s.drop_last() =~= Seq::empty());
        assert(digits_value(s.drop_last()) == 0);
        assert(digits_value(s) == n);
    } else {
        lemma_numerals_read_back(n / 10);
        assert(s.drop_last() =~= decimal(n / 10));
        assert forall|i: int| 0 <= i < s.len() implies '0' <= #[trigger] s[i] <= '9' by {
            if i < s.len() - 1 {
                assert(s[i] == decimal(n / 10)[i]);
            }
        }
        assert(digits_value(s) == 10 * (n / 10) + n % 10);
    }
    lemma_decimal_starts(n);
}

/// Leading zeros do not change a number, and nothing but digits is one.
pub proof fn lemma_numbers_are_digits(s: Seq<char>)
    ensures
        number(s) is Some <==> s.len() > 0 && forall|i: int|
            0 <= i < s.len() ==> '0' <= #[trigger] s[i] <= '9',
        number(s) matches Some(n) ==> number(seq!['0'] + s) == Some(n),
{
    if number(s) is Some {
        lemma_leading_zero(s);
        let longer = seq!['0'] + s;
        assert forall|i: int| 0 <= i < longer.len() implies is_digit(#[trigger] longer[i]) by {
            if i > 0 {
                assert(is_digit(s[i - 1]));
            }
        }
    } else if s.len() > 0 {
        let k = choose|k: int| 0 <= k < s.len() && !is_digit(#[trigger] s[k]);
        assert(!('0' <= s[k] <= '9'));
    }
}

proof fn lemma_leading_zero(s: Seq<char>)
    ensures
        digits_value(seq!['0'] + s) == digits_value(s),
    decreases s.len(),
{
    let longer = seq!['0'] + s;
    if s.len() == 0 {
        assert(longer.drop_last() =~= Seq::empty());
        assert(digits_value(longer.drop_last()) == 0);
    } else {
        assert(longer.drop_last() =~= seq!['0'] + s.drop_last());
        lemma_leading_zero(s.drop_last());
    }
}

proof fn lemma_split_last(first: Seq<char>, last: Seq<char>, separator: char)
    requires
        !last.contains(separator),
    ensures
        split(first.push(separator) + last, separator) == split(first, separator).push(last),
    decreases last.len(),
{
    let whole = first.push(separator) + last;
    if last.len() == 0 {
        assert(whole =~= first.push(separator));
        assert(whole.drop_last() =~= first);
        assert(last =~= Seq::empty());
    } else {
        let shorter = last.drop_last();
        assert(last[last.len() - 1] == last.last());
        if shorter.contains(separator) {
            let k = shorter.index_of(separator);
            assert(last[k] == separator);
        }
        lemma_split_last(first, shorter, separator);
        assert(whole.drop_last() =~= first.push(separator) + shorter);
        assert(whole.last() == last.last());
        let before = split(first, separator).push(shorter);
        assert(before.drop_last() =~= split(first, separator));
        assert(before.last() == shorter);
        assert(shorter.push(last.last()) =~= last);
    }
}

/// Parts that do not hold the separator come back as they were, however many
/// there are, once they were joined and taken apart again.
pub proof fn lemma_join_undoes_split(parts: Seq<Seq<char>>, separator: char)
    requires
        parts.len() > 0,
        forall|i: int| 0 <= i < parts.len() ==> !(#[trigger] parts[i]).contains(separator),
    ensures
        split(joined(parts, separator), separator) == parts,
    decreases parts.len(),
{
    if parts.len() == 1 {
        lemma_split_single(parts[0], separator);
        assert(seq![parts[0]] =~= parts);
    } else {
        let before = parts.drop_last();
        assert forall|i: int| 0 <= i < before.len() implies !(#[trigger] before[i]).contains(
            separator,
        ) by {
            assert(before[i] == parts[i]);
        }
        lemma_join_undoes_split(before, separator);
        assert(parts[parts.len() - 1] == parts.last());
        lemma_split_last(joined(before, separator), parts.last(), separator);
        assert(before.push(parts.last()) =~= parts);
    }
}

/// The first part of a text is what stands ahead of the first separator, and
/// all of it where there is none.
pub proof fn lemma_the_first_part(s: Seq<char>, separator: char)
    ensures
        split(s, separator).len() > 0,
        split(s, separator)[0].len() <= s.len(),
        forall|i: int|
            0 <= i < split(s, separator)[0].len() ==> s[i] == #[trigger] split(s, separator)[0][i]
                && s[i] != separator,
        split(s, separator)[0].len() < s.len() ==> s[split(s, separator)[0].len() as int]
            == separator,
        split(s, separator).len() > 1 ==> split(s, separator)[0].len() < s.len(),
    decreases s.len(),
{
    if s.len() > 0 {
        let shorter = s.drop_last();
        lemma_the_first_part(shorter, separator);
        let before = split(shorter, separator);
        let first = split(s, separator)[0];
        if before.len() == 1 {
            lemma_split_undoes_join(shorter, separator);
            assert(before[0] == shorter);
        }
        if s.last() == separator || before.len() > 1 {
            assert(first == before[0]);
            assert forall|i: int| 0 <= i < first.len() implies s[i] == #[trigger] first[i] && s[i]
                != separator by {
                assert(shorter[i] == before[0][i]);
            }
        } else {
            assert(first == before[0].push(s.last()));
            assert forall|i: int| 0 <= i < first.len() implies s[i] == #[trigger] first[i] && s[i]
                != separator by {
                if i < before[0].len() {
                    assert(shorter[i] == before[0][i]);
                }
            }
        }
    }
}

/// The last part of a text is what stands behind the last separator, and all of
/// it where there is none.
pub proof fn lemma_the_last_part(s: Seq<char>, separator: char)
    ensures
        split(s, separator).len() > 0,
        split(s, separator).last().len() <= s.len(),
        forall|i: int|
            0 <= i < split(s, separator).last().len() ==> s[s.len() - split(
                s,
                separator,
            ).last().len() + i] == #[trigger] split(s, separator).last()[i] && split(
                s,
                separator,
            ).last()[i] != separator,
        split(s, separator).last().len() < s.len() ==> s[s.len() - split(
            s,
            separator,
        ).last().len() - 1] == separator,
    decreases s.len(),
{
    if s.len() > 0 {
        let shorter = s.drop_last();
        lemma_the_last_part(shorter, separator);
        let before = split(shorter, separator);
        let last = split(s, separator).last();
        if s.last() != separator {
            assert(last == before.last().push(s.last()));
            assert forall|i: int| 0 <= i < last.len() implies s[s.len() - last.len() + i]
                == #[trigger] last[i] && last[i] != separator by {
                if i < before.last().len() {
                    assert(before.last()[i] == shorter[shorter.len() - before.last().len() + i]);
                }
            }
        }
    }
}

/// A numeral has one digit for a number below ten. Any other is the numeral of
/// a tenth of the number, and its last digit behind it.
pub proof fn lemma_numerals_grow_by_a_digit(n: nat)
    ensures
        n < 10 ==> decimal(n).len() == 1 && decimal(n)[0] as int == 48 + n,
        n >= 10 ==> decimal(n).len() == decimal(n / 10).len() + 1 && decimal(n).drop_last()
            == decimal(n / 10) && decimal(n).last() as int == 48 + n % 10,
{
    if n >= 10 {
        assert(decimal(n).drop_last() =~= decimal(n / 10));
    }
}

/// One more digit behind a number makes it ten times as large, and adds the
/// digit.
pub proof fn lemma_numbers_grow_by_a_digit(s: Seq<char>, c: char)
    requires
        '0' <= c <= '9',
    ensures
        number(seq![c]) == Some((c as int - 48) as nat),
        number(s) matches Some(n) ==> number(s.push(c)) == Some((10 * n + (c as int - 48)) as nat),
        number(Seq::<char>::empty()) is None,
{
    let one = seq![c];
    assert(one.drop_last() =~= Seq::empty());
    assert(digits_value(one.drop_last()) == 0);
    assert(s.push(c).drop_last() =~= s);
    if number(s) is Some {
        assert forall|i: int| 0 <= i < s.push(c).len() implies is_digit(#[trigger] s.push(c)[i]) by {
            if i < s.len() {
                assert(is_digit(s[i]));
            }
        }
    }
}

} // verus!
