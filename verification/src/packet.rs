//! The magic packet: six octets of `0xFF`, then the hardware address sixteen
//! times over.

use vstd::prelude::*;
use crate::address::{
    address_of, group_value, is_octet_group, lemma_well_formed_text_is_accepted, HardwareAddress,
    OCTETS, SEPARATOR,
};
use crate::groups::join;

verus! {

/// The number of `0xFF` octets that open a magic packet.
pub const PREAMBLE_LEN: usize = 6;

/// How many times the address is written after the preamble.
pub const REPETITIONS: usize = 16;

/// The length of every magic packet.
pub const PACKET_LEN: usize = 102;

/// `block` written `times` times in a row.
pub open spec fn repeated(block: Seq<u8>, times: nat) -> Seq<u8>
    decreases times,
{
    if times == 0 {
        Seq::<u8>::empty()
    } else {
        repeated(block, (times - 1) as nat) + block
    }
}

/// The magic packet for an address: the preamble, then the address sixteen
/// times.
pub open spec fn magic_packet(address: Seq<u8>) -> Seq<u8> {
    Seq::new(PREAMBLE_LEN as nat, |i: int| 0xFFu8) + repeated(address, REPETITIONS as nat)
}

/// Whether `bytes` is the magic packet for some six-octet address: the one
/// that stands right behind the preamble.
pub open spec fn is_magic_packet(bytes: Seq<u8>) -> bool {
    bytes.len() == PACKET_LEN && bytes == magic_packet(
        bytes.subrange(PREAMBLE_LEN as int, PREAMBLE_LEN + 6),
    )
}

/// A magic packet: 102 octets laid out as [`magic_packet`] says. Every value
/// of this type is one.
#[derive(Debug)]
pub struct MagicPacket {
    bytes: Vec<u8>,
}

impl View for MagicPacket {
    type V = Seq<u8>;

    closed spec fn view(&self) -> Seq<u8> {
        self.bytes@
    }
}

impl MagicPacket {
    #[verifier::type_invariant]
    spec fn well_formed(self) -> bool {
        is_magic_packet(self.bytes@)
    }

    /// Lays out the magic packet for `address`.
    pub fn build(address: &HardwareAddress) -> (packet: MagicPacket)
        ensures
            packet@ == magic_packet(address@),
    {
        let octets = address.octets();
        let mut bytes: Vec<u8> = Vec::with_capacity(PACKET_LEN);
        let mut i: usize = 0;
        while i < PREAMBLE_LEN
            invariant
                i <= PREAMBLE_LEN,
                bytes@ == Seq::new(i as nat, |k: int| 0xFFu8),
            decreases PREAMBLE_LEN - i,
        {
            bytes.push(0xFF);
            i = i + 1;
        }
        let mut round: usize = 0;
        while round < REPETITIONS
            invariant
                round <= REPETITIONS,
                octets@ == address@,
                bytes@ == Seq::new(PREAMBLE_LEN as nat, |k: int| 0xFFu8) + repeated(
                    address@,
                    round as nat,
                ),
            decreases REPETITIONS - round,
        {
            let mut j: usize = 0;
            while j < 6
                invariant
                    j <= 6,
                    octets@ == address@,
                    bytes@ == Seq::new(PREAMBLE_LEN as nat, |k: int| 0xFFu8) + repeated(
                        address@,
                        round as nat,
                    ) + address@.take(j as int),
                decreases 6 - j,
            {
                bytes.push(octets[j]);
                j = j + 1;
            }
            proof {
                assert(address@.take(6) =~= address@);
            }
            round = round + 1;
        }
        proof {
            address.lemma_six_octets();
            lemma_packet_layout(address@);
        }
        MagicPacket { bytes }
    }

    /// The octets of the packet, as they go on the wire.
    pub fn as_bytes(&self) -> (bytes: &[u8])
        ensures
            bytes@ == self@,
            is_magic_packet(bytes@),
    {
        proof {
            use_type_invariant(self);
        }
        self.bytes.as_slice()
    }
}

/// The length of a repeated block.
pub proof fn lemma_repeated_len(block: Seq<u8>, times: nat)
    ensures
        repeated(block, times).len() == times * block.len(),
    decreases times,
{
    if times > 0 {
        lemma_repeated_len(block, (times - 1) as nat);
        assert(times * block.len() == (times - 1) * block.len() + block.len())
            by (nonlinear_arith);
    } else {
        assert(times * block.len() == 0) by (nonlinear_arith)
            requires
                times == 0,
        ;
    }
}

/// The length of a repeated block, and where the octet at place `j` of copy
/// `r` stands in it.
pub proof fn lemma_repeated(block: Seq<u8>, times: nat, r: int, j: int)
    requires
        0 <= r < times,
        0 <= j < block.len(),
    ensures
        repeated(block, times).len() == times * block.len(),
        0 <= r * block.len() + j < times * block.len(),
        repeated(block, times)[r * block.len() + j] == block[j],
    decreases times,
{
    let n: int = block.len() as int;
    lemma_repeated_len(block, times);
    lemma_repeated_len(block, (times - 1) as nat);
    assert(0 <= r * n + j < times * n && ((times - 1) * n <= r * n + j ==> r == times - 1)
        && (r == times - 1 ==> r * n + j - (times - 1) * n == j)) by (nonlinear_arith)
        requires
            0 <= r < times,
            0 <= j < n,
    ;
    if r < times - 1 {
        lemma_repeated(block, (times - 1) as nat, r, j);
    }
}

/// The layout of a magic packet, octet by octet: it is 102 octets long, the
/// first six are `0xFF`, and the 96 that follow are the address sixteen times
/// over, so that the octet at place `i` is octet `(i - 6) % 6` of the address.
pub proof fn lemma_packet_layout(address: Seq<u8>)
    requires
        address.len() == 6,
    ensures
        magic_packet(address).len() == PACKET_LEN,
        forall|i: int| 0 <= i < PREAMBLE_LEN ==> magic_packet(address)[i] == 0xFF,
        forall|i: int|
            PREAMBLE_LEN <= i < PACKET_LEN ==> magic_packet(address)[i] == address[(i
                - PREAMBLE_LEN) % 6],
        is_magic_packet(magic_packet(address)),
{
    let body = repeated(address, REPETITIONS as nat);
    lemma_repeated_len(address, REPETITIONS as nat);
    assert forall|i: int| PREAMBLE_LEN <= i < PACKET_LEN implies magic_packet(address)[i]
        == address[(i - PREAMBLE_LEN) % 6] by {
        let r: int = (i - PREAMBLE_LEN) / 6;
        let j: int = (i - PREAMBLE_LEN) % 6;
        lemma_repeated(address, REPETITIONS as nat, r, j);
        assert(body[r * 6 + j] == address[j]);
    }
    assert(magic_packet(address).subrange(PREAMBLE_LEN as int, PREAMBLE_LEN + 6) =~= address);
}

/// Copy `r` of the address in a magic packet: its octet at place `j` is
/// octet `j` of the address.
pub proof fn lemma_packet_copy(address: Seq<u8>, r: int, j: int)
    requires
        address.len() == 6,
        0 <= r < REPETITIONS,
        0 <= j < 6,
    ensures
        magic_packet(address)[PREAMBLE_LEN + r * 6 + j] == address[j],
{
    lemma_packet_layout(address);
}

/// Reading a well-formed text and laying out the packet for what was read
/// gives 102 octets: six of `0xFF`, then sixteen times the values of the six
/// groups, in order.
pub proof fn lemma_packet_of_well_formed_text(groups: Seq<Seq<char>>)
    requires
        groups.len() == OCTETS,
        forall|k: int| 0 <= k < groups.len() ==> is_octet_group(#[trigger] groups[k]),
    ensures
        address_of(join(groups, SEPARATOR)) is Some,
        magic_packet(address_of(join(groups, SEPARATOR)).unwrap()).len() == PACKET_LEN,
        forall|i: int|
            0 <= i < PREAMBLE_LEN ==> magic_packet(
                address_of(join(groups, SEPARATOR)).unwrap(),
            )[i] == 0xFF,
        forall|i: int|
            PREAMBLE_LEN <= i < PACKET_LEN ==> Some(
                magic_packet(address_of(join(groups, SEPARATOR)).unwrap())[i],
            ) == group_value(groups[(i - PREAMBLE_LEN) % 6]),
{
    lemma_well_formed_text_is_accepted(groups);
    let address = address_of(join(groups, SEPARATOR)).unwrap();
    lemma_packet_layout(address);
    assert forall|i: int| PREAMBLE_LEN <= i < PACKET_LEN implies Some(
        magic_packet(address)[i],
    ) == group_value(groups[(i - PREAMBLE_LEN) % 6]) by {
        let j: int = (i - PREAMBLE_LEN) % 6;
        assert(Some(address[j]) == group_value(groups[j]));
    }
}

/// Laying out is a function of the address: two packets laid out for the
/// same address hold the same octets.
pub proof fn lemma_build_is_repeatable(
    address: HardwareAddress,
    first: MagicPacket,
    second: MagicPacket,
)
    requires
        first@ == magic_packet(address@),
        second@ == magic_packet(address@),
    ensures
        first@ == second@,
{
}

} // verus!
