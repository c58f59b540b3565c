//! The protocol of one connection to the listener, as a state machine.
//!
//! The machine does no input or output. It names the next thing to do, the
//! driver does it and reports what happened, and the machine names the next.
//! A connection is read in two fixed steps, four octets and then two; only
//! the second octet of the second read is looked at, and it alone decides
//! whether the packet is broadcast.

use vstd::prelude::*;

verus! {

/// The number of octets read first: room for `GET ` and nothing else.
pub const PREFIX_LEN: usize = 4;

/// The number of octets read next: a slash and the route character.
pub const ROUTE_LEN: usize = 2;

/// The trigger used when none is configured: the letter `w`.
pub const DEFAULT_TRIGGER: u8 = 0x77;

/// How the handling of a connection ended.
#[derive(Clone, Copy, Debug, PartialEq, Eq, Structural)]
pub enum Outcome {
    /// The route matched, the packet was broadcast and the response written.
    Served,
    /// The route did not match: nothing was sent and nothing written.
    Rejected,
    /// Reading from or writing to the connection failed.
    ConnectionFailed,
    /// The route matched but the packet could not be sent; no response was
    /// written.
    BroadcastFailed,
}

/// Where the handling of a connection stands.
#[derive(Clone, Copy, Debug, PartialEq, Eq, Structural)]
pub enum Phase {
    /// Waiting for the first four octets.
    ReadingPrefix,
    /// Waiting for the two octets of the route.
    ReadingRoute,
    /// Waiting for the broadcast of the packet.
    Waking,
    /// Waiting for the response to be written.
    Responding,
    /// Done; no further event changes this.
    Closed(Outcome),
}

/// What the driver is to do next.
#[derive(Clone, Copy, Debug, PartialEq, Eq, Structural)]
pub enum Action {
    /// Read exactly this many octets from the connection.
    Read(usize),
    /// Send the magic packet as one datagram to the broadcast address.
    Broadcast,
    /// Write the response to the connection.
    Respond,
    /// Close the connection; nothing more is to be done for it.
    Close(Outcome),
}

/// What the driver reports back.
#[derive(Debug)]
pub enum Event {
    /// The octets that a read returned.
    Received(Vec<u8>),
    /// The broadcast or the write went through.
    Completed,
    /// What was asked for could not be done.
    Failed,
}

/// The action that a phase waits for.
pub open spec fn pending(phase: Phase) -> Action {
    match phase {
        Phase::ReadingPrefix => Action::Read(PREFIX_LEN),
        Phase::ReadingRoute => Action::Read(ROUTE_LEN),
        Phase::Waking => Action::Broadcast,
        Phase::Responding => Action::Respond,
        Phase::Closed(outcome) => Action::Close(outcome),
    }
}

/// Whether `event` is a read of exactly `count` octets.
pub open spec fn received_exactly(event: Event, count: int) -> bool {
    event matches Event::Received(octets) && octets@.len() == count
}

/// The phase that follows `phase` when `event` is reported.
///
/// A read that did not return the count asked for counts as a failed read,
/// and so does any report that does not answer the pending action. The
/// prefix is not looked at. Of the route only the second octet is, and it
/// must equal `trigger` exactly.
pub open spec fn next_phase(trigger: u8, phase: Phase, event: Event) -> Phase {
    match phase {
        Phase::ReadingPrefix => if received_exactly(event, PREFIX_LEN as int) {
            Phase::ReadingRoute
        } else {
            Phase::Closed(Outcome::ConnectionFailed)
        },
        Phase::ReadingRoute => if received_exactly(event, ROUTE_LEN as int) {
            if event->Received_0@[1] == trigger {
                Phase::Waking
            } else {
                Phase::Closed(Outcome::Rejected)
            }
        } else {
            Phase::Closed(Outcome::ConnectionFailed)
        },
        Phase::Waking => if event is Completed {
            Phase::Responding
        } else {
            Phase::Closed(Outcome::BroadcastFailed)
        },
        Phase::Responding => if event is Completed {
            Phase::Closed(Outcome::Served)
        } else {
            Phase::Closed(Outcome::ConnectionFailed)
        },
        Phase::Closed(outcome) => Phase::Closed(outcome),
    }
}

/// The response written after a broadcast: `HTTP/1.1 200 OK`, a line end,
/// and an empty line.
pub open spec fn response_octets() -> Seq<u8> {
    seq![
        'H' as u8, 'T' as u8, 'T' as u8, 'P' as u8, '/' as u8, '1' as u8, '.' as u8, '1' as u8,
        ' ' as u8, '2' as u8, '0' as u8, '0' as u8, ' ' as u8, 'O' as u8, 'K' as u8, '\r' as u8,
        '\n' as u8, '\r' as u8, '\n' as u8,
    ]
}

/// The actions that the driver is asked for, in order, when a connection
/// that stands in `phase` has `events` reported to it one by one. The list
/// ends with the close of the connection, or with the action that is still
/// waited for when the events run out.
pub open spec fn actions(trigger: u8, phase: Phase, events: Seq<Event>) -> Seq<Action>
    decreases events.len(),
{
    if phase is Closed || events.len() == 0 {
        seq![pending(phase)]
    } else {
        seq![pending(phase)] + actions(
            trigger,
            next_phase(trigger, phase, events[0]),
            events.drop_first(),
        )
    }
}

/// The actions asked for when `first` is reported and then `rest`.
pub proof fn lemma_actions_unfold(trigger: u8, phase: Phase, first: Event, rest: Seq<Event>)
    ensures
        actions(trigger, phase, seq![first] + rest) == if phase is Closed {
            seq![pending(phase)]
        } else {
            seq![pending(phase)] + actions(trigger, next_phase(trigger, phase, first), rest)
        },
{
    assert((seq![first] + rest).drop_first() =~= rest);
}

/// Once a connection is closed, it is asked for nothing but the close.
pub proof fn lemma_closed_is_final(trigger: u8, outcome: Outcome, events: Seq<Event>)
    ensures
        actions(trigger, Phase::Closed(outcome), events) == seq![Action::Close(outcome)],
        forall|event: Event|
            next_phase(trigger, Phase::Closed(outcome), event) == Phase::Closed(outcome),
{
}

/// The route decides. A connection whose two reads go through, four octets
/// and then two, has the packet broadcast and the response written exactly
/// when the second octet of the route equals the trigger; then it is closed
/// as served. With any other octet there nothing is broadcast and nothing
/// written, whatever is reported afterwards, and it is closed as rejected.
pub proof fn lemma_route_decides(trigger: u8, prefix: Event, route: Event, rest: Seq<Event>)
    requires
        received_exactly(prefix, PREFIX_LEN as int),
        received_exactly(route, ROUTE_LEN as int),
    ensures
        route->Received_0@[1] == trigger ==> actions(
            trigger,
            Phase::ReadingPrefix,
            seq![prefix, route, Event::Completed, Event::Completed] + rest,
        ) == seq![
            Action::Read(PREFIX_LEN),
            Action::Read(ROUTE_LEN),
            Action::Broadcast,
            Action::Respond,
            Action::Close(Outcome::Served),
        ],
        route->Received_0@[1] != trigger ==> actions(
            trigger,
            Phase::ReadingPrefix,
            seq![prefix, route] + rest,
        ) == seq![
            Action::Read(PREFIX_LEN),
            Action::Read(ROUTE_LEN),
            Action::Close(Outcome::Rejected),
        ],
{
    if route->Received_0@[1] == trigger {
        let tail3 = seq![route, Event::Completed, Event::Completed] + rest;
        let tail2 = seq![Event::Completed, Event::Completed] + rest;
        let tail1 = seq![Event::Completed] + rest;
        assert(seq![prefix, route, Event::Completed, Event::Completed] + rest =~= seq![prefix]
            + tail3);
        assert(tail3 =~= seq![route] + tail2);
        assert(tail2 =~= seq![Event::Completed] + tail1);
        lemma_actions_unfold(trigger, Phase::ReadingPrefix, prefix, tail3);
        lemma_actions_unfold(trigger, Phase::ReadingRoute, route, tail2);
        lemma_actions_unfold(trigger, Phase::Waking, Event::Completed, tail1);
        lemma_actions_unfold(trigger, Phase::Responding, Event::Completed, rest);
        lemma_closed_is_final(trigger, Outcome::Served, rest);
        assert(actions(trigger, Phase::ReadingPrefix, seq![prefix] + tail3) =~= seq![
            Action::Read(PREFIX_LEN),
            Action::Read(ROUTE_LEN),
            Action::Broadcast,
            Action::Respond,
            Action::Close(Outcome::Served),
        ]);
    } else {
        let tail1 = seq![route] + rest;
        assert(seq![prefix, route] + rest =~= seq![prefix] + tail1);
        lemma_actions_unfold(trigger, Phase::ReadingPrefix, prefix, tail1);
        lemma_actions_unfold(trigger, Phase::ReadingRoute, route, rest);
        lemma_closed_is_final(trigger, Outcome::Rejected, rest);
        assert(actions(trigger, Phase::ReadingPrefix, seq![prefix] + tail1) =~= seq![
            Action::Read(PREFIX_LEN),
            Action::Read(ROUTE_LEN),
            Action::Close(Outcome::Rejected),
        ]);
    }
}

/// Whether the events open with two reads that went through, four octets
/// and then two, the second of the two being `trigger`.
pub open spec fn route_matched(trigger: u8, events: Seq<Event>) -> bool {
    &&& events.len() >= 2
    &&& received_exactly(events[0], PREFIX_LEN as int)
    &&& received_exactly(events[1], ROUTE_LEN as int)
    &&& events[1]->Received_0@[1] == trigger
}

/// Nothing is broadcast unless the route matched, and nothing is written
/// unless the broadcast went through: this holds of every connection,
/// whatever is reported to it.
pub proof fn lemma_wake_needs_match(trigger: u8, events: Seq<Event>)
    ensures
        actions(trigger, Phase::ReadingPrefix, events).contains(Action::Broadcast)
            <==> route_matched(trigger, events),
        actions(trigger, Phase::ReadingPrefix, events).contains(Action::Respond) <==> (
        route_matched(trigger, events) && events.len() >= 3 && events[2] is Completed),
{
    let all = actions(trigger, Phase::ReadingPrefix, events);
    if events.len() == 0 {
        assert(all =~= seq![Action::Read(PREFIX_LEN)]);
        assert(all[0] == Action::Read(PREFIX_LEN));
    } else {
        let rest1 = events.drop_first();
        assert(events =~= seq![events[0]] + rest1);
        lemma_actions_unfold(trigger, Phase::ReadingPrefix, events[0], rest1);
        let phase1 = next_phase(trigger, Phase::ReadingPrefix, events[0]);
        let after1 = actions(trigger, phase1, rest1);
        assert(all == seq![Action::Read(PREFIX_LEN)] + after1);
        if !received_exactly(events[0], PREFIX_LEN as int) {
            lemma_closed_is_final(trigger, Outcome::ConnectionFailed, rest1);
            assert(all =~= seq![
                Action::Read(PREFIX_LEN),
                Action::Close(Outcome::ConnectionFailed),
            ]);
            lemma_no_wake_in(all);
        } else if rest1.len() == 0 {
            assert(all =~= seq![Action::Read(PREFIX_LEN), Action::Read(ROUTE_LEN)]);
            lemma_no_wake_in(all);
        } else {
            let rest2 = rest1.drop_first();
            assert(rest1 =~= seq![events[1]] + rest2);
            lemma_actions_unfold(trigger, Phase::ReadingRoute, events[1], rest2);
            let phase2 = next_phase(trigger, Phase::ReadingRoute, events[1]);
            let after2 = actions(trigger, phase2, rest2);
            if phase2 is Closed {
                lemma_closed_is_final(trigger, phase2->Closed_0, rest2);
                assert(all =~= seq![
                    Action::Read(PREFIX_LEN),
                    Action::Read(ROUTE_LEN),
                    Action::Close(phase2->Closed_0),
                ]);
                lemma_no_wake_in(all);
            } else if rest2.len() == 0 {
                assert(all =~= seq![
                    Action::Read(PREFIX_LEN),
                    Action::Read(ROUTE_LEN),
                    Action::Broadcast,
                ]);
                assert(all[2] == Action::Broadcast);
                assert forall|i: int| 0 <= i < all.len() implies all[i] != Action::Respond by {}
            } else {
                let rest3 = rest2.drop_first();
                assert(rest2 =~= seq![events[2]] + rest3);
                lemma_actions_unfold(trigger, Phase::Waking, events[2], rest3);
                let phase3 = next_phase(trigger, Phase::Waking, events[2]);
                if phase3 is Closed {
                    lemma_closed_is_final(trigger, phase3->Closed_0, rest3);
                    assert(all =~= seq![
                        Action::Read(PREFIX_LEN),
                        Action::Read(ROUTE_LEN),
                        Action::Broadcast,
                        Action::Close(phase3->Closed_0),
                    ]);
                    assert(all[2] == Action::Broadcast);
                    assert forall|i: int| 0 <= i < all.len() implies all[i]
                        != Action::Respond by {}
                } else {
                    let tail = actions(trigger, Phase::Responding, rest3);
                    assert(all =~= seq![
                        Action::Read(PREFIX_LEN),
                        Action::Read(ROUTE_LEN),
                        Action::Broadcast,
                    ] + tail);
                    assert(tail[0] == Action::Respond);
                    assert(all[2] == Action::Broadcast);
                    assert(all[3] == Action::Respond);
                }
            }
        }
    }
}

/// A list of reads and closes holds neither a broadcast nor a response.
proof fn lemma_no_wake_in(list: Seq<Action>)
    requires
        forall|i: int| 0 <= i < list.len() ==> (#[trigger] list[i]) is Read || list[i] is Close,
    ensures
        !list.contains(Action::Broadcast),
        !list.contains(Action::Respond),
{
}

/// The phase in which every connection starts, and the first action.
pub fn start() -> (first: (Phase, Action))
    ensures
        first.0 == Phase::ReadingPrefix,
        first.1 == pending(first.0),
{
    (Phase::ReadingPrefix, Action::Read(PREFIX_LEN))
}

/// The action that `phase` waits for.
pub fn action_of(phase: Phase) -> (action: Action)
    ensures
        action == pending(phase),
{
    match phase {
        Phase::ReadingPrefix => Action::Read(PREFIX_LEN),
        Phase::ReadingRoute => Action::Read(ROUTE_LEN),
        Phase::Waking => Action::Broadcast,
        Phase::Responding => Action::Respond,
        Phase::Closed(outcome) => Action::Close(outcome),
    }
}

/// Takes the report of the driver and says what phase follows and what is to
/// be done next.
pub fn step(trigger: u8, phase: Phase, event: Event) -> (next: (Phase, Action))
    ensures
        next.0 == next_phase(trigger, phase, event),
        next.1 == pending(next.0),
{
    let following = match phase {
        Phase::ReadingPrefix => match event {
            Event::Received(octets) => if octets.len() == PREFIX_LEN {
                Phase::ReadingRoute
            } else {
                Phase::Closed(Outcome::ConnectionFailed)
            },
            _ => Phase::Closed(Outcome::ConnectionFailed),
        },
        Phase::ReadingRoute => match event {
            Event::Received(octets) => if octets.len() == ROUTE_LEN {
                if octets[1] == trigger {
                    Phase::Waking
                } else {
                    Phase::Closed(Outcome::Rejected)
                }
            } else {
                Phase::Closed(Outcome::ConnectionFailed)
            },
            _ => Phase::Closed(Outcome::ConnectionFailed),
        },
        Phase::Waking => match event {
            Event::Completed => Phase::Responding,
            _ => Phase::Closed(Outcome::BroadcastFailed),
        },
        Phase::Responding => match event {
            Event::Completed => Phase::Closed(Outcome::Served),
            _ => Phase::Closed(Outcome::ConnectionFailed),
        },
        Phase::Closed(outcome) => Phase::Closed(outcome),
    };
    (following, action_of(following))
}

/// The octets of the response.
pub fn response() -> (octets: Vec<u8>)
    ensures
        octets@ == response_octets(),
{
    let octets = vec![
        'H' as u8, 'T' as u8, 'T' as u8, 'P' as u8, '/' as u8, '1' as u8, '.' as u8, '1' as u8,
        ' ' as u8, '2' as u8, '0' as u8, '0' as u8, ' ' as u8, 'O' as u8, 'K' as u8, '\r' as u8,
        '\n' as u8, '\r' as u8, '\n' as u8,
    ];
    assert(octets@ =~= response_octets());
    octets
}

} // verus!
