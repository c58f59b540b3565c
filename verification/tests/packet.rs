use wol_trigger::address::HardwareAddress;
use wol_trigger::broadcast::{wake_datagram, WAKE_PORT};
use wol_trigger::packet::{MagicPacket, PACKET_LEN, PREAMBLE_LEN, REPETITIONS};

#[test]
fn packet_has_fixed_length() {
    assert_eq!(PACKET_LEN, 102);
    assert_eq!(PREAMBLE_LEN + REPETITIONS * 6, PACKET_LEN);
    for text in ["00:00:00:00:00:00", "ff:ff:ff:ff:ff:ff", "1:2:3:4:5:6"] {
        let address = HardwareAddress::parse(text).unwrap();
        assert_eq!(MagicPacket::build(&address).as_bytes().len(), 102);
    }
}

#[test]
fn packet_starts_with_six_times_ff() {
    let address = HardwareAddress::parse("01:23:45:67:89:ab").unwrap();
    let packet = MagicPacket::build(&address);
    assert_eq!(&packet.as_bytes()[..6], &[0xFF; 6]);
}

#[test]
fn packet_body_is_the_address_sixteen_times() {
    let address = HardwareAddress::parse("01:23:45:67:89:ab").unwrap();
    let packet = MagicPacket::build(&address);
    let body = &packet.as_bytes()[6..];
    assert_eq!(body.len(), 96);
    for copy in body.chunks(6) {
        assert_eq!(copy, &[0x01, 0x23, 0x45, 0x67, 0x89, 0xAB]);
    }
    assert_eq!(body.chunks(6).count(), 16);
}

#[test]
fn packet_octet_by_octet() {
    let address = HardwareAddress::parse("10:20:30:40:50:60").unwrap();
    let octets = address.octets();
    let packet = MagicPacket::build(&address);
    for (i, octet) in packet.as_bytes().iter().enumerate() {
        if i < 6 {
            assert_eq!(*octet, 0xFF);
        } else {
            assert_eq!(*octet, octets[(i - 6) % 6]);
        }
    }
}

#[test]
fn packet_of_zero_address_keeps_preamble() {
    let address = HardwareAddress::parse("0:0:0:0:0:0").unwrap();
    let packet = MagicPacket::build(&address);
    let mut expected = vec![0xFFu8; 6];
    expected.extend_from_slice(&[0u8; 96]);
    assert_eq!(packet.as_bytes(), expected.as_slice());
}

#[test]
fn building_twice_gives_the_same_octets() {
    let address = HardwareAddress::parse("de:ad:be:ef:00:01").unwrap();
    let first = MagicPacket::build(&address);
    let second = MagicPacket::build(&address);
    assert_eq!(first.as_bytes(), second.as_bytes());
    let again = HardwareAddress::parse("DE:AD:BE:EF:0:1").unwrap();
    assert_eq!(MagicPacket::build(&again).as_bytes(), first.as_bytes());
}

#[test]
fn wake_datagram_goes_to_broadcast_on_port_nine() {
    let address = HardwareAddress::parse("aa:bb:cc:dd:ee:ff").unwrap();
    let packet = MagicPacket::build(&address);
    let datagram = wake_datagram(&packet);
    assert_eq!(datagram.address, [255, 255, 255, 255]);
    assert_eq!(datagram.port, 9);
    assert_eq!(WAKE_PORT, 9);
    assert_eq!(datagram.payload, packet.as_bytes());
    assert_eq!(datagram.payload.len(), 102);
}
