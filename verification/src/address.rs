//! Hardware addresses and their written form: six groups of one or two
//! hexadecimal digits, separated by colons.
//!
//! [`address_of`] says which texts are written addresses and what each
//! stands for; [`HardwareAddress::parse`] computes it. A text that is
//! refused comes back with what it [`accumulated`] to, for the diagnostic.

use vstd::arithmetic::div_mod::{lemma_add_mod_noop, lemma_mul_mod_noop_left};
use vstd::prelude::*;
use crate::groups::{all_free_of, free_of, join, lemma_split_join, lemma_split_push, split};

verus! {

/// The character between the groups of a written address.
pub const SEPARATOR: char = ':';

/// The number of groups in a written address, and of octets in an address.
pub const OCTETS: usize = 6;

/// One more than the largest number that 64 bits hold.
pub open spec fn word() -> int {
    0x1_0000_0000_0000_0000
}

/// Why a text was not accepted as a hardware address.
#[derive(Clone, Copy, Debug, PartialEq, Eq)]
pub enum ParseError {
    /// The text is not six colon-separated groups of one or two hexadecimal
    /// digits each.
    InvalidFormat {
        /// What the text was read as, to show in a diagnostic: the values of
        /// all its groups as one number, the first group most significant,
        /// kept to 64 bits. `None` where a group stands for no octet.
        parsed: Option<u64>,
    },
}

/// A hardware address: six octets, the first written group first.
#[derive(Clone, Copy, Debug, PartialEq, Eq)]
pub struct HardwareAddress {
    octets: [u8; 6],
}

impl View for HardwareAddress {
    type V = Seq<u8>;

    closed spec fn view(&self) -> Seq<u8> {
        self.octets@
    }
}

/// Whether `c` is one of the digits `0-9`, `a-f`, `A-F`.
pub open spec fn is_hex_digit(c: char) -> bool {
    ('0' <= c <= '9') || ('a' <= c <= 'f') || ('A' <= c <= 'F')
}

/// The number that a hexadecimal digit stands for, from 0 to 15; `None` for
/// any other character.
pub open spec fn hex_digit_value(c: char) -> Option<u8> {
    if '0' <= c <= '9' {
        Some((c as u32 - '0' as u32) as u8)
    } else if 'a' <= c <= 'f' {
        Some((c as u32 - 'a' as u32 + 10) as u8)
    } else if 'A' <= c <= 'F' {
        Some((c as u32 - 'A' as u32 + 10) as u8)
    } else {
        None
    }
}

/// The octet that a group stands for: one hexadecimal digit is its own value,
/// two are read with the first as the high half. Anything else (an empty
/// group, a longer one, one with another character) stands for nothing.
pub open spec fn group_value(group: Seq<char>) -> Option<u8> {
    if group.len() == 1 {
        hex_digit_value(group[0])
    } else if group.len() == 2 {
        match (hex_digit_value(group[0]), hex_digit_value(group[1])) {
            (Some(high), Some(low)) => Some((16 * high + low) as u8),
            _ => None,
        }
    } else {
        None
    }
}

/// Whether each of the groups stands for an octet.
pub open spec fn all_octets(groups: Seq<Seq<char>>) -> bool {
    forall|k: int| 0 <= k < groups.len() ==> (#[trigger] group_value(groups[k])) is Some
}

/// The octets that a sequence of groups stands for: there must be exactly six
/// groups and each must stand for an octet.
pub open spec fn octets_of_groups(groups: Seq<Seq<char>>) -> Option<Seq<u8>> {
    if groups.len() == OCTETS && all_octets(groups) {
        Some(Seq::new(OCTETS as nat, |k: int| group_value(groups[k]).unwrap()))
    } else {
        None
    }
}

/// The address that `text` is the written form of, if it is one.
pub open spec fn address_of(text: Seq<char>) -> Option<Seq<u8>> {
    octets_of_groups(split(text, SEPARATOR))
}

/// The values of the first `count` groups read as one number in base 256,
/// the first group most significant.
pub open spec fn number_of_groups(groups: Seq<Seq<char>>, count: nat) -> nat
    decreases count,
{
    if count == 0 {
        0
    } else {
        number_of_groups(groups, (count - 1) as nat) * 256 + group_value(
            groups[count - 1],
        ).unwrap() as nat
    }
}

/// What `text` accumulates to: the values of all its groups, however many,
/// read as one number with the first group most significant and kept to 64
/// bits. A text with a group that stands for no octet accumulates to nothing.
pub open spec fn accumulated(text: Seq<char>) -> Option<u64> {
    let groups = split(text, SEPARATOR);
    if all_octets(groups) {
        Some((number_of_groups(groups, groups.len()) as int % word()) as u64)
    } else {
        None
    }
}

/// Whether `group` is one or two hexadecimal digits.
pub open spec fn is_octet_group(group: Seq<char>) -> bool {
    &&& 1 <= group.len() <= 2
    &&& forall|j: int| 0 <= j < group.len() ==> is_hex_digit(#[trigger] group[j])
}

/// The octets read as one number, the first octet most significant.
pub open spec fn packed(octets: Seq<u8>) -> int {
    ((((octets[0] * 256 + octets[1]) * 256 + octets[2]) * 256 + octets[3]) * 256 + octets[4])
        * 256 + octets[5]
}

/// Reads one hexadecimal digit.
pub fn hex_digit(c: char) -> (value: Option<u8>)
    ensures
        value == hex_digit_value(c),
        value is Some <==> is_hex_digit(c),
        value matches Some(v) ==> v < 16,
{
    if '0' <= c && c <= '9' {
        Some((c as u32 - '0' as u32) as u8)
    } else if 'a' <= c && c <= 'f' {
        Some((c as u32 - 'a' as u32 + 10) as u8)
    } else if 'A' <= c && c <= 'F' {
        Some((c as u32 - 'A' as u32 + 10) as u8)
    } else {
        None
    }
}

impl HardwareAddress {
    /// An address has exactly six octets.
    pub proof fn lemma_six_octets(self)
        ensures
            self@.len() == OCTETS,
    {
    }

    /// The six octets, the first written group first.
    pub fn octets(&self) -> (octets: [u8; 6])
        ensures
            octets@ == self@,
    {
        self.octets
    }

    /// The address as one 48-bit number, the first octet most significant.
    /// The upper sixteen bits of the result are zero.
    pub fn as_u64(&self) -> (value: u64)
        ensures
            value == packed(self@),
            value < 0x1_0000_0000_0000,
    {
        let o = &self.octets;
        let upper: u64 = (o[0] as u64 * 256 + o[1] as u64) * 256 + o[2] as u64;
        let lower: u64 = (o[3] as u64 * 256 + o[4] as u64) * 256 + o[5] as u64;
        upper * 0x100_0000 + lower
    }

    /// Reads a hardware address from its written form.
    ///
    /// The text is accepted exactly when it is six groups separated by
    /// colons, each group one or two hexadecimal digits; the octets are the
    /// values of the groups in order. Any other text is refused, and the
    /// error holds what the text accumulated to.
    pub fn parse(input: &str) -> (result: Result<HardwareAddress, ParseError>)
        ensures
            match result {
                Ok(address) => address_of(input@) == Some(address@),
                Err(ParseError::InvalidFormat { parsed }) => address_of(input@) is None && parsed
                    == accumulated(input@),
            },
    {
        let mut octets: [u8; 6] = [0u8; 6];
        let mut finished: usize = 0;
        let mut digits: usize = 0;
        let mut current: u8 = 0;
        let mut number: u64 = 0;
        for c in it: input.chars()
            invariant
                it.seq() == input@,
                readable(split(input@.take(it.index() as int), SEPARATOR)),
                finished == closed_groups(split(input@.take(it.index() as int), SEPARATOR)),
                forall|k: int|
                    0 <= k < finished ==> Some(#[trigger] octets[k]) == group_value(
                        split(input@.take(it.index() as int), SEPARATOR)[k],
                    ),
                digits == split(input@.take(it.index() as int), SEPARATOR).last().len(),
                current == partial_value(
                    split(input@.take(it.index() as int), SEPARATOR).last(),
                ),
                number == number_before_last(
                    split(input@.take(it.index() as int), SEPARATOR),
                ) % word(),
        {
            let ghost seen = input@.take(it.index() as int);
            let ghost before = split(seen, SEPARATOR);
            let ghost after = split(seen.push(c), SEPARATOR);
            proof {
                assert(input@.take(it.index() + 1) =~= seen.push(c));
                lemma_split_push(seen, c, SEPARATOR);
            }
            if c == SEPARATOR {
                if digits == 0 {
                    proof {
                        assert(group_value(after[before.len() - 1]) is None);
                        lemma_dead_prefix(input@, it.index() + 1);
                    }
                    return Err(ParseError::InvalidFormat { parsed: None });
                }
                if finished < OCTETS {
                    octets[finished] = current;
                    finished = finished + 1;
                }
                number = shift_in(number, current);
                digits = 0;
                current = 0;
                proof {
                    lemma_number_agrees(before, after, before.len());
                    lemma_shift_in(number_before_last(before), group_value(before.last()).unwrap());
                }
            } else {
                match hex_digit(c) {
                    Some(value) => {
                        if digits == 2 {
                            proof {
                                lemma_dead_prefix(input@, it.index() + 1);
                            }
                            return Err(ParseError::InvalidFormat { parsed: None });
                        }
                        current = if digits == 0 {
                            value
                        } else {
                            16 * current + value
                        };
                        digits = digits + 1;
                        proof {
                            lemma_number_agrees(before, after, (before.len() - 1) as nat);
                        }
                    },
                    None => {
                        proof {
                            lemma_dead_prefix(input@, it.index() + 1);
                        }
                        return Err(ParseError::InvalidFormat { parsed: None });
                    },
                }
            }
        }
        let ghost groups = split(input@, SEPARATOR);
        proof {
            assert(input@.take(input@.len() as int) =~= input@);
        }
        if digits == 0 {
            proof {
                assert(group_value(groups[groups.len() - 1]) is None);
            }
            return Err(ParseError::InvalidFormat { parsed: None });
        }
        let total = shift_in(number, current);
        proof {
            assert(group_value(groups.last()) == Some(current));
            lemma_shift_in(number_before_last(groups), current);
        }
        if finished + 1 != OCTETS {
            return Err(ParseError::InvalidFormat { parsed: Some(total) });
        }
        octets[finished] = current;
        Ok(HardwareAddress { octets })
    }
}

/// Takes one more octet into a number that is kept to 64 bits: what was
/// there moves up by eight bits, and what moves out at the top is lost.
fn shift_in(number: u64, octet: u8) -> (shifted: u64)
    ensures
        shifted == (number * 256 + octet) % word(),
{
    let wide: u128 = number as u128 * 256 + octet as u128;
    (wide % 0x1_0000_0000_0000_0000u128) as u64
}

/// A group stands for an octet exactly when it is one or two hexadecimal
/// digits.
pub proof fn lemma_group_value(group: Seq<char>)
    ensures
        group_value(group) is Some <==> is_octet_group(group),
{
}

/// Six groups of one or two hexadecimal digits each, joined by colons, are
/// the written form of an address, and its octets are the values of the
/// groups in order.
pub proof fn lemma_well_formed_text_is_accepted(groups: Seq<Seq<char>>)
    requires
        groups.len() == OCTETS,
        forall|k: int| 0 <= k < groups.len() ==> is_octet_group(#[trigger] groups[k]),
    ensures
        address_of(join(groups, SEPARATOR)) is Some,
        address_of(join(groups, SEPARATOR)).unwrap().len() == OCTETS,
        forall|k: int|
            0 <= k < OCTETS ==> Some(#[trigger] address_of(join(groups, SEPARATOR)).unwrap()[k])
                == group_value(groups[k]),
{
    assert forall|k: int| 0 <= k < groups.len() implies free_of(
        #[trigger] groups[k],
        SEPARATOR,
    ) && group_value(groups[k]) is Some by {
        lemma_group_value(groups[k]);
    }
    lemma_split_join(groups, SEPARATOR);
}

/// Groups joined by colons are not the written form of an address when
/// there are fewer or more than six of them, or when one of them is not one
/// or two hexadecimal digits.
pub proof fn lemma_malformed_text_is_rejected(groups: Seq<Seq<char>>)
    requires
        groups.len() >= 1,
        all_free_of(groups, SEPARATOR),
        groups.len() != OCTETS || exists|k: int|
            0 <= k < groups.len() && !is_octet_group(#[trigger] groups[k]),
    ensures
        address_of(join(groups, SEPARATOR)) is None,
{
    lemma_split_join(groups, SEPARATOR);
    if groups.len() == OCTETS {
        let k: int = choose|k: int|
            0 <= k < groups.len() && !is_octet_group(#[trigger] groups[k]);
        lemma_group_value(groups[k]);
    }
}

/// An address accumulates to its octets read as one number, and that number
/// fits in 48 bits: the upper sixteen bits are zero.
pub proof fn lemma_address_fits_48_bits(text: Seq<char>)
    requires
        address_of(text) is Some,
    ensures
        accumulated(text) == Some(packed(address_of(text).unwrap()) as u64),
        0 <= packed(address_of(text).unwrap()) < 0x1_0000_0000_0000,
{
    let groups = split(text, SEPARATOR);
    reveal_with_fuel(number_of_groups, 7);
    assert(number_of_groups(groups, 6) == packed(address_of(text).unwrap()));
}

/// A text that accumulates to a number with one of the upper sixteen bits
/// set is not the written form of an address.
pub proof fn lemma_upper_bits_reject(text: Seq<char>)
    requires
        accumulated(text) matches Some(value) && value >= 0x1_0000_0000_0000,
    ensures
        address_of(text) is None,
{
    if address_of(text) is Some {
        lemma_address_fits_48_bits(text);
    }
}

/// What is read of the last, unfinished group: nothing yet is 0.
spec fn partial_value(group: Seq<char>) -> int {
    if group.len() == 1 {
        hex_digit_value(group[0]).unwrap() as int
    } else if group.len() == 2 {
        16 * hex_digit_value(group[0]).unwrap() + hex_digit_value(group[1]).unwrap()
    } else {
        0
    }
}

/// The groups of a prefix can still grow into groups that all stand for
/// octets: the closed ones do, and the last is at most two hexadecimal
/// digits so far.
spec fn readable(groups: Seq<Seq<char>>) -> bool {
    &&& 1 <= groups.len()
    &&& forall|k: int|
        0 <= k < groups.len() - 1 ==> (#[trigger] group_value(groups[k])) is Some
    &&& groups.last().len() <= 2
    &&& forall|j: int| 0 <= j < groups.last().len() ==> is_hex_digit(#[trigger] groups.last()[j])
}

/// The number of groups before the last, counted up to six.
spec fn closed_groups(groups: Seq<Seq<char>>) -> int {
    if groups.len() - 1 < OCTETS {
        groups.len() - 1
    } else {
        OCTETS as int
    }
}

/// The number that the groups before the last stand for.
spec fn number_before_last(groups: Seq<Seq<char>>) -> int {
    number_of_groups(groups, (groups.len() - 1) as nat) as int
}

/// A prefix that is not readable stays so when a character follows.
proof fn lemma_readable_before_push(text: Seq<char>, c: char)
    requires
        readable(split(text.push(c), SEPARATOR)),
    ensures
        readable(split(text, SEPARATOR)),
{
    let before = split(text, SEPARATOR);
    let after = split(text.push(c), SEPARATOR);
    lemma_split_push(text, c, SEPARATOR);
    if c == SEPARATOR {
        assert forall|k: int| 0 <= k < before.len() implies (#[trigger] group_value(
            before[k],
        )) is Some by {
            assert(group_value(after[k]) is Some);
        }
        assert(group_value(before[before.len() - 1]) is Some);
    } else {
        assert forall|k: int| 0 <= k < before.len() - 1 implies (#[trigger] group_value(
            before[k],
        )) is Some by {
            assert(group_value(after[k]) is Some);
        }
        assert forall|j: int| 0 <= j < before.last().len() implies is_hex_digit(
            #[trigger] before.last()[j],
        ) by {
            assert(after.last()[j] == before.last()[j]);
        }
    }
}

/// Every prefix of a text with readable groups has readable groups.
proof fn lemma_readable_prefix(text: Seq<char>, n: int)
    requires
        0 <= n <= text.len(),
        readable(split(text, SEPARATOR)),
    ensures
        readable(split(text.take(n), SEPARATOR)),
    decreases text.len() - n,
{
    if n == text.len() {
        assert(text.take(n) =~= text);
    } else {
        lemma_readable_prefix(text, n + 1);
        assert(text.take(n + 1) =~= text.take(n).push(text[n]));
        lemma_readable_before_push(text.take(n), text[n]);
    }
}

/// A text with a prefix that is not readable has a group that stands for no
/// octet: it accumulates to nothing and is no written address.
proof fn lemma_dead_prefix(text: Seq<char>, n: int)
    requires
        0 <= n <= text.len(),
        !readable(split(text.take(n), SEPARATOR)),
    ensures
        !all_octets(split(text, SEPARATOR)),
        accumulated(text) is None,
        address_of(text) is None,
{
    let groups = split(text, SEPARATOR);
    if all_octets(groups) {
        lemma_split_push(text, SEPARATOR, SEPARATOR);
        assert(group_value(groups[groups.len() - 1]) is Some);
        lemma_readable_prefix(text, n);
    }
}

/// The number of the first `count` groups depends on those groups alone.
proof fn lemma_number_agrees(first: Seq<Seq<char>>, second: Seq<Seq<char>>, count: nat)
    requires
        count <= first.len(),
        count <= second.len(),
        forall|k: int| 0 <= k < count ==> first[k] == second[k],
    ensures
        number_of_groups(first, count) == number_of_groups(second, count),
    decreases count,
{
    if count > 0 {
        lemma_number_agrees(first, second, (count - 1) as nat);
    }
}

/// Keeping a number to 64 bits before an octet is taken in changes nothing
/// of what it is kept to afterwards.
proof fn lemma_shift_in(number: int, octet: u8)
    requires
        0 <= number,
    ensures
        ((number % word()) * 256 + octet) % word() == (number * 256 + octet) % word(),
{
    lemma_mul_mod_noop_left(number, 256, word());
    lemma_add_mod_noop((number % word()) * 256, octet as int, word());
    lemma_add_mod_noop(number * 256, octet as int, word());
}

} // verus!
