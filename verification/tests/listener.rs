use wol_trigger::address::HardwareAddress;
use wol_trigger::broadcast::wake_datagram;
use wol_trigger::listener::{
    action_of, response, start, step, Action, Event, Outcome, Phase, DEFAULT_TRIGGER, PREFIX_LEN,
    ROUTE_LEN,
};
use wol_trigger::packet::MagicPacket;

/// What a client sent and what the sockets did, for one connection.
struct Script<'a> {
    sent: &'a [u8],
    broadcast_works: bool,
    write_works: bool,
}

/// What the server did for one connection.
#[derive(Debug, Default, PartialEq)]
struct Record {
    actions: Vec<Action>,
    datagrams: Vec<([u8; 4], u16, Vec<u8>)>,
    written: Vec<u8>,
    outcome: Option<Outcome>,
}

fn drive(trigger: u8, packet: &MagicPacket, script: Script) -> Record {
    let mut record = Record::default();
    let mut unread = script.sent;
    let (mut phase, mut action) = start();
    loop {
        record.actions.push(action);
        let event = match action {
            Action::Read(count) => {
                if unread.len() >= count {
                    let (now, later) = unread.split_at(count);
                    unread = later;
                    Event::Received(now.to_vec())
                } else {
                    Event::Failed
                }
            }
            Action::Broadcast => {
                if script.broadcast_works {
                    let datagram = wake_datagram(packet);
                    record.datagrams.push((
                        datagram.address,
                        datagram.port,
                        datagram.payload.to_vec(),
                    ));
                    Event::Completed
                } else {
                    Event::Failed
                }
            }
            Action::Respond => {
                if script.write_works {
                    record.written.extend_from_slice(&response());
                    Event::Completed
                } else {
                    Event::Failed
                }
            }
            Action::Close(outcome) => {
                record.outcome = Some(outcome);
                return record;
            }
        };
        let next = step(trigger, phase, event);
        phase = next.0;
        action = next.1;
    }
}

fn sample_packet() -> MagicPacket {
    MagicPacket::build(&HardwareAddress::parse("aa:bb:cc:dd:ee:ff").unwrap())
}

fn all_works(sent: &[u8]) -> Script<'_> {
    Script { sent, broadcast_works: true, write_works: true }
}

#[test]
fn matching_route_wakes_and_responds() {
    let packet = sample_packet();
    let record = drive(b'w', &packet, all_works(b"GET /w"));
    assert_eq!(
        record.actions,
        vec![
            Action::Read(4),
            Action::Read(2),
            Action::Broadcast,
            Action::Respond,
            Action::Close(Outcome::Served),
        ]
    );
    assert_eq!(record.datagrams.len(), 1);
    assert_eq!(record.datagrams[0].0, [255, 255, 255, 255]);
    assert_eq!(record.datagrams[0].1, 9);
    assert_eq!(record.datagrams[0].2, packet.as_bytes());
    assert_eq!(record.written, b"HTTP/1.1 200 OK\r\n\r\n");
    assert_eq!(record.outcome, Some(Outcome::Served));
}

#[test]
fn other_route_is_dropped_without_wake_or_response() {
    let packet = sample_packet();
    let record = drive(b'w', &packet, all_works(b"GET /x"));
    assert_eq!(
        record.actions,
        vec![Action::Read(4), Action::Read(2), Action::Close(Outcome::Rejected)]
    );
    assert!(record.datagrams.is_empty());
    assert!(record.written.is_empty());
    assert_eq!(record.outcome, Some(Outcome::Rejected));
}

#[test]
fn route_is_compared_without_case_folding() {
    let packet = sample_packet();
    let record = drive(b'w', &packet, all_works(b"GET /W"));
    assert_eq!(record.outcome, Some(Outcome::Rejected));
    assert!(record.datagrams.is_empty());
    let record = drive(b'W', &packet, all_works(b"GET /W"));
    assert_eq!(record.outcome, Some(Outcome::Served));
    assert_eq!(record.datagrams.len(), 1);
}

#[test]
fn every_trigger_matches_itself_only() {
    let packet = sample_packet();
    for trigger in 0..=255u8 {
        for route in [trigger, trigger.wrapping_add(1), trigger ^ 0x20, !trigger] {
            let sent = [b'G', b'E', b'T', b' ', b'/', route];
            let record = drive(trigger, &packet, all_works(&sent));
            if route == trigger {
                assert_eq!(record.outcome, Some(Outcome::Served));
                assert_eq!(record.datagrams.len(), 1);
                assert_eq!(record.written, b"HTTP/1.1 200 OK\r\n\r\n");
            } else {
                assert_eq!(record.outcome, Some(Outcome::Rejected));
                assert!(record.datagrams.is_empty());
                assert!(record.written.is_empty());
            }
        }
    }
}

#[test]
fn what_follows_the_route_is_not_read() {
    let packet = sample_packet();
    let record = drive(
        b'w',
        &packet,
        all_works(b"GET /w HTTP/1.1\r\nHost: example\r\n\r\n"),
    );
    assert_eq!(record.outcome, Some(Outcome::Served));
    assert_eq!(
        record.actions.iter().filter(|action| matches!(action, Action::Read(_))).count(),
        2
    );
    let record = drive(b'w', &packet, all_works(b"GET /wake"));
    assert_eq!(record.outcome, Some(Outcome::Served));
}

#[test]
fn only_the_sixth_octet_is_looked_at() {
    let packet = sample_packet();
    let record = drive(b'w', &packet, all_works(b"POSTxw"));
    assert_eq!(record.outcome, Some(Outcome::Served));
    let record = drive(b'w', &packet, all_works(b"GET w/"));
    assert_eq!(record.outcome, Some(Outcome::Rejected));
}

#[test]
fn connection_closed_early_is_a_failed_read() {
    let packet = sample_packet();
    for sent in [&b""[..], b"G", b"GET", b"GET ", b"GET /"] {
        let record = drive(b'w', &packet, all_works(sent));
        assert_eq!(record.outcome, Some(Outcome::ConnectionFailed), "{:?}", sent);
        assert!(record.datagrams.is_empty());
        assert!(record.written.is_empty());
    }
}

#[test]
fn failed_broadcast_writes_no_response() {
    let packet = sample_packet();
    let script = Script { sent: b"GET /w", broadcast_works: false, write_works: true };
    let record = drive(b'w', &packet, script);
    assert_eq!(
        record.actions,
        vec![
            Action::Read(4),
            Action::Read(2),
            Action::Broadcast,
            Action::Close(Outcome::BroadcastFailed),
        ]
    );
    assert!(record.written.is_empty());
}

#[test]
fn failed_write_ends_as_connection_failure() {
    let packet = sample_packet();
    let script = Script { sent: b"GET /w", broadcast_works: true, write_works: false };
    let record = drive(b'w', &packet, script);
    assert_eq!(record.outcome, Some(Outcome::ConnectionFailed));
    assert_eq!(record.datagrams.len(), 1);
    assert!(record.written.is_empty());
}

#[test]
fn connection_starts_by_reading_four_octets() {
    assert_eq!(start(), (Phase::ReadingPrefix, Action::Read(4)));
    assert_eq!(PREFIX_LEN, 4);
    assert_eq!(ROUTE_LEN, 2);
}

#[test]
fn each_phase_waits_for_its_action() {
    assert_eq!(action_of(Phase::ReadingPrefix), Action::Read(4));
    assert_eq!(action_of(Phase::ReadingRoute), Action::Read(2));
    assert_eq!(action_of(Phase::Waking), Action::Broadcast);
    assert_eq!(action_of(Phase::Responding), Action::Respond);
    for outcome in [
        Outcome::Served,
        Outcome::Rejected,
        Outcome::ConnectionFailed,
        Outcome::BroadcastFailed,
    ] {
        assert_eq!(action_of(Phase::Closed(outcome)), Action::Close(outcome));
    }
}

#[test]
fn read_of_wrong_length_counts_as_failed() {
    for octets in [vec![], vec![b'G'; 3], vec![b'G'; 5], vec![b'G'; 6]] {
        assert_eq!(
            step(b'w', Phase::ReadingPrefix, Event::Received(octets)),
            (
                Phase::Closed(Outcome::ConnectionFailed),
                Action::Close(Outcome::ConnectionFailed)
            )
        );
    }
    for octets in [vec![], vec![b'w'], vec![b'/', b'w', b'w']] {
        assert_eq!(
            step(b'w', Phase::ReadingRoute, Event::Received(octets)),
            (
                Phase::Closed(Outcome::ConnectionFailed),
                Action::Close(Outcome::ConnectionFailed)
            )
        );
    }
}

#[test]
fn report_that_answers_nothing_closes_the_connection() {
    let failed = (
        Phase::Closed(Outcome::ConnectionFailed),
        Action::Close(Outcome::ConnectionFailed),
    );
    assert_eq!(step(b'w', Phase::ReadingPrefix, Event::Completed), failed);
    assert_eq!(step(b'w', Phase::ReadingPrefix, Event::Failed), failed);
    assert_eq!(step(b'w', Phase::ReadingRoute, Event::Completed), failed);
    assert_eq!(step(b'w', Phase::ReadingRoute, Event::Failed), failed);
    assert_eq!(step(b'w', Phase::Responding, Event::Failed), failed);
    assert_eq!(step(b'w', Phase::Responding, Event::Received(vec![b'/', b'w'])), failed);
    let unsent = (
        Phase::Closed(Outcome::BroadcastFailed),
        Action::Close(Outcome::BroadcastFailed),
    );
    assert_eq!(step(b'w', Phase::Waking, Event::Failed), unsent);
    assert_eq!(step(b'w', Phase::Waking, Event::Received(vec![b'/', b'w'])), unsent);
}

#[test]
fn closed_connection_stays_closed() {
    for outcome in [
        Outcome::Served,
        Outcome::Rejected,
        Outcome::ConnectionFailed,
        Outcome::BroadcastFailed,
    ] {
        let closed = (Phase::Closed(outcome), Action::Close(outcome));
        assert_eq!(step(b'w', Phase::Closed(outcome), Event::Completed), closed);
        assert_eq!(step(b'w', Phase::Closed(outcome), Event::Failed), closed);
        assert_eq!(
            step(b'w', Phase::Closed(outcome), Event::Received(b"GET ".to_vec())),
            closed
        );
        assert_eq!(
            step(b'w', Phase::Closed(outcome), Event::Received(vec![b'/', b'w'])),
            closed
        );
    }
}

#[test]
fn step_by_step_through_a_served_connection() {
    let next = step(b'w', Phase::ReadingPrefix, Event::Received(b"GET ".to_vec()));
    assert_eq!(next, (Phase::ReadingRoute, Action::Read(2)));
    let next = step(b'w', next.0, Event::Received(b"/w".to_vec()));
    assert_eq!(next, (Phase::Waking, Action::Broadcast));
    let next = step(b'w', next.0, Event::Completed);
    assert_eq!(next, (Phase::Responding, Action::Respond));
    let next = step(b'w', next.0, Event::Completed);
    assert_eq!(next, (Phase::Closed(Outcome::Served), Action::Close(Outcome::Served)));
}

#[test]
fn response_is_status_line_and_empty_line() {
    assert_eq!(response(), b"HTTP/1.1 200 OK\r\n\r\n".to_vec());
    assert_eq!(response().len(), 19);
}

#[test]
fn default_trigger_is_the_letter_w() {
    assert_eq!(DEFAULT_TRIGGER, b'w');
}
