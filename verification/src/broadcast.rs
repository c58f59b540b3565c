//! What is sent to wake the device, and where to: the magic packet, as one
//! datagram, to the limited broadcast address on port 9.

use vstd::prelude::*;
use crate::packet::{is_magic_packet, MagicPacket};

verus! {

/// The UDP port that the magic packet is sent to.
pub const WAKE_PORT: u16 = 9;

/// One datagram to send: the address and port it goes to, and what it
/// holds.
#[derive(Debug)]
pub struct Datagram<'a> {
    /// The IPv4 address of the receiver, the first octet first.
    pub address: [u8; 4],
    /// The UDP port of the receiver.
    pub port: u16,
    /// The octets of the datagram.
    pub payload: &'a [u8],
}

/// The limited broadcast address, `255.255.255.255`.
pub open spec fn broadcast_address() -> Seq<u8> {
    seq![255u8, 255u8, 255u8, 255u8]
}

/// The datagram that wakes the device: the whole packet and nothing else,
/// to the limited broadcast address on port 9.
pub fn wake_datagram<'a>(packet: &'a MagicPacket) -> (datagram: Datagram<'a>)
    ensures
        datagram.address@ == broadcast_address(),
        datagram.port == WAKE_PORT,
        datagram.payload@ == packet@,
        is_magic_packet(datagram.payload@),
{
    let address = [255u8, 255u8, 255u8, 255u8];
    assert(address@ =~= broadcast_address());
    Datagram { address, port: WAKE_PORT, payload: packet.as_bytes() }
}

} // verus!
