//! Whole runs of the tasks' decisions: what a task does over a sequence of
//! observations, when it stops, and what a client is sent over a run.
use vstd::prelude::*;
use crate::mux::{
    forward_decision, negotiation_spec, serial_decision, SpecForwardAction, SpecForwardEvent,
    SpecSerialAction, SpecSerialEvent, SpecTtyMsg, BREAK_HOLD_MS,
};
use crate::telnet::commands::{DO, IAC, OPTION_BINARY, OPTION_ECHO, OPTION_SGA, WILL};
use crate::telnet::{encoding, escape, lemma_escape_concat, option_to_byte, SpecTelnetEvent};

verus! {

// ---------------------------------------------------------------------------
// Copying the serial line's bytes to one client.

/// The observation makes a copying task stop.
pub open spec fn forward_ends(event: SpecForwardEvent) -> bool {
    event is Closed || event is WriteFailed
}

/// What a copying task does over a sequence of observations: one decision
/// each, up to and including the first stop.
pub open spec fn forward_run(events: Seq<SpecForwardEvent>) -> Seq<SpecForwardAction>
    decreases events.len(),
{
    if events.len() == 0 {
        Seq::empty()
    } else {
        let action = forward_decision(events[0]);
        if action is Stop {
            seq![action]
        } else {
            seq![action] + forward_run(events.drop_first())
        }
    }
}

/// The bytes written, write by write.
pub open spec fn writes_of(actions: Seq<SpecForwardAction>) -> Seq<Seq<u8>>
    decreases actions.len(),
{
    if actions.len() == 0 {
        Seq::empty()
    } else {
        match actions[0] {
            SpecForwardAction::Write(d) => seq![d] + writes_of(actions.drop_first()),
            _ => writes_of(actions.drop_first()),
        }
    }
}

/// The lag reports, in order.
pub open spec fn lag_reports_of(actions: Seq<SpecForwardAction>) -> Seq<u64>
    decreases actions.len(),
{
    if actions.len() == 0 {
        Seq::empty()
    } else {
        match actions[0] {
            SpecForwardAction::ReportLag(n) => seq![n] + lag_reports_of(actions.drop_first()),
            _ => lag_reports_of(actions.drop_first()),
        }
    }
}

/// The serial line's messages that arrived, in order.
pub open spec fn received_of(events: Seq<SpecForwardEvent>) -> Seq<Seq<u8>>
    decreases events.len(),
{
    if events.len() == 0 {
        Seq::empty()
    } else {
        match events[0] {
            SpecForwardEvent::Received(d) => seq![d] + received_of(events.drop_first()),
            _ => received_of(events.drop_first()),
        }
    }
}

/// The numbers of missed messages that were reported to the task, in order.
pub open spec fn lags_of(events: Seq<SpecForwardEvent>) -> Seq<u64>
    decreases events.len(),
{
    if events.len() == 0 {
        Seq::empty()
    } else {
        match events[0] {
            SpecForwardEvent::Lagged(n) => seq![n] + lags_of(events.drop_first()),
            _ => lags_of(events.drop_first()),
        }
    }
}

/// While neither side is gone, a copying task never stops, writes exactly
/// the messages that arrived, each unchanged and in order (missed messages
/// are never written), and reports every lag.
pub proof fn lemma_forward_run_copies(events: Seq<SpecForwardEvent>)
    requires
        forall|i: int| 0 <= i < events.len() ==> !forward_ends(#[trigger] events[i]),
    ensures
        forward_run(events).len() == events.len(),
        forall|i: int| 0 <= i < forward_run(events).len() ==> !(#[trigger] forward_run(events)[i] is Stop),
        writes_of(forward_run(events)) == received_of(events),
        lag_reports_of(forward_run(events)) == lags_of(events),
    decreases events.len(),
{
    if events.len() > 0 {
        let rest = events.drop_first();
        assert(!forward_ends(events[0]));
        assert forall|i: int| 0 <= i < rest.len() implies !forward_ends(#[trigger] rest[i]) by {
            assert(rest[i] == events[i + 1]);
        }
        lemma_forward_run_copies(rest);
        let a = forward_decision(events[0]);
        let run = seq![a] + forward_run(rest);
        assert(forward_run(events) == run);
        assert(run.drop_first() =~= forward_run(rest));
        assert(run[0] == a);
        assert forall|i: int| 0 <= i < run.len() implies !(#[trigger] run[i] is Stop) by {
            if i > 0 {
                assert(run[i] == forward_run(rest)[i - 1]);
            }
        }
    }
}

/// A copying task stops exactly at the first observation that one side is
/// gone: it does what it did before that, then stops.
pub proof fn lemma_forward_run_stops(events: Seq<SpecForwardEvent>, i: int)
    requires
        0 <= i < events.len(),
        forward_ends(events[i]),
        forall|j: int| 0 <= j < i ==> !forward_ends(#[trigger] events[j]),
    ensures
        forward_run(events) == forward_run(events.take(i)) + seq![SpecForwardAction::Stop],
    decreases i,
{
    if i == 0 {
        assert(events.take(0) =~= Seq::<SpecForwardEvent>::empty());
        assert(forward_run(events.take(0)) + seq![SpecForwardAction::Stop] =~= seq![
            SpecForwardAction::Stop,
        ]);
    } else {
        let rest = events.drop_first();
        assert(!forward_ends(events[0]));
        assert(rest[i - 1] == events[i]);
        assert forall|j: int| 0 <= j < i - 1 implies !forward_ends(#[trigger] rest[j]) by {
            assert(rest[j] == events[j + 1]);
        }
        lemma_forward_run_stops(rest, i - 1);
        let pre = events.take(i);
        assert(pre[0] == events[0]);
        assert(pre.drop_first() =~= rest.take(i - 1));
        assert(forward_run(events) =~= forward_run(pre) + seq![SpecForwardAction::Stop]);
    }
}

// ---------------------------------------------------------------------------
// What a telnet client is sent over a run.

/// The bytes that the encoder writes for a sequence of events, in order.
pub open spec fn encodings(events: Seq<SpecTelnetEvent>) -> Seq<u8>
    decreases events.len(),
{
    if events.len() == 0 {
        Seq::empty()
    } else {
        encoding(events[0]) + encodings(events.drop_first())
    }
}

/// Messages, concatenated.
pub open spec fn flatten(ms: Seq<Seq<u8>>) -> Seq<u8>
    decreases ms.len(),
{
    if ms.len() == 0 {
        Seq::empty()
    } else {
        ms[0] + flatten(ms.drop_first())
    }
}

/// One data event per message.
pub open spec fn data_events(ms: Seq<Seq<u8>>) -> Seq<SpecTelnetEvent> {
    ms.map_values(|m: Seq<u8>| SpecTelnetEvent::Data(m))
}

/// The negotiation as a client receives it: will echo, will suppress
/// go-ahead, do suppress go-ahead, will binary, do binary.
pub open spec fn negotiation_bytes() -> Seq<u8> {
    seq![
        IAC, WILL, OPTION_ECHO,
        IAC, WILL, OPTION_SGA,
        IAC, DO, OPTION_SGA,
        IAC, WILL, OPTION_BINARY,
        IAC, DO, OPTION_BINARY,
    ]
}

proof fn lemma_encodings_concat(a: Seq<SpecTelnetEvent>, b: Seq<SpecTelnetEvent>)
    ensures
        encodings(a + b) == encodings(a) + encodings(b),
    decreases a.len(),
{
    if a.len() == 0 {
        assert(a + b =~= b);
        assert(encodings(a) + encodings(b) =~= encodings(b));
    } else {
        lemma_encodings_concat(a.drop_first(), b);
        assert((a + b).drop_first() =~= a.drop_first() + b);
        assert((a + b)[0] == a[0]);
        assert(encodings(a + b) =~= encodings(a) + encodings(b));
    }
}

proof fn lemma_encodings_data(ms: Seq<Seq<u8>>)
    ensures
        encodings(data_events(ms)) == escape(flatten(ms)),
    decreases ms.len(),
{
    if ms.len() == 0 {
        assert(data_events(ms) =~= Seq::<SpecTelnetEvent>::empty());
        assert(escape(Seq::<u8>::empty()) =~= Seq::<u8>::empty());
    } else {
        let rest = ms.drop_first();
        lemma_encodings_data(rest);
        assert(data_events(ms).drop_first() =~= data_events(rest));
        assert(data_events(ms)[0] == SpecTelnetEvent::Data(ms[0]));
        lemma_escape_concat(ms[0], flatten(rest));
    }
}

proof fn lemma_negotiation_encoding()
    ensures
        encodings(negotiation_spec()) == negotiation_bytes(),
{
    let n = negotiation_spec();
    reveal_with_fuel(encodings, 6);
    assert(n.drop_first().drop_first().drop_first().drop_first().drop_first() =~= Seq::<
        SpecTelnetEvent,
    >::empty());
    assert(option_to_byte(crate::telnet::TelnetByteOption::Echo) == OPTION_ECHO);
    assert(encodings(n) =~= negotiation_bytes());
}

/// Over a run in which neither side is gone, a telnet client receives the
/// negotiation first, then the serial line's messages in order with every
/// `IAC` doubled, and nothing else.
pub proof fn lemma_client_stream(events: Seq<SpecForwardEvent>)
    requires
        forall|i: int| 0 <= i < events.len() ==> !forward_ends(#[trigger] events[i]),
    ensures
        encodings(negotiation_spec() + data_events(writes_of(forward_run(events))))
            == negotiation_bytes() + escape(flatten(received_of(events))),
{
    lemma_forward_run_copies(events);
    lemma_encodings_concat(negotiation_spec(), data_events(writes_of(forward_run(events))));
    lemma_negotiation_encoding();
    lemma_encodings_data(received_of(events));
}

/// Over a run in which neither side is gone, a pseudo-terminal is written
/// exactly the serial line's messages, concatenated in order.
pub proof fn lemma_pty_stream(events: Seq<SpecForwardEvent>)
    requires
        forall|i: int| 0 <= i < events.len() ==> !forward_ends(#[trigger] events[i]),
    ensures
        flatten(writes_of(forward_run(events))) == flatten(received_of(events)),
{
    lemma_forward_run_copies(events);
}

// ---------------------------------------------------------------------------
// The task that owns the serial line.

/// The observation makes the serial task stop: the line closed, a read
/// failed, or handing bytes over or writing failed.
pub open spec fn serial_ends(event: SpecSerialEvent) -> bool {
    ||| event matches SpecSerialEvent::Read(d) && d.len() == 0
    ||| event is ReadFailed
    ||| event is SendFailed
}

/// What the serial task does over a sequence of observations: one decision
/// each, up to and including the first stop.
pub open spec fn serial_run(events: Seq<SpecSerialEvent>) -> Seq<SpecSerialAction>
    decreases events.len(),
{
    if events.len() == 0 {
        Seq::empty()
    } else {
        let action = serial_decision(events[0]);
        if action is Stop {
            seq![action]
        } else {
            seq![action] + serial_run(events.drop_first())
        }
    }
}

/// The bytes handed to the clients, hand-over by hand-over.
pub open spec fn broadcasts_of(actions: Seq<SpecSerialAction>) -> Seq<Seq<u8>>
    decreases actions.len(),
{
    if actions.len() == 0 {
        Seq::empty()
    } else {
        match actions[0] {
            SpecSerialAction::Broadcast(d) => seq![d] + broadcasts_of(actions.drop_first()),
            _ => broadcasts_of(actions.drop_first()),
        }
    }
}

/// What is done to the line, in order: data written, breaks held.
pub open spec fn line_ops_of(actions: Seq<SpecSerialAction>) -> Seq<SpecTtyMsg>
    decreases actions.len(),
{
    if actions.len() == 0 {
        Seq::empty()
    } else {
        match actions[0] {
            SpecSerialAction::Write(d) => seq![SpecTtyMsg::Data(d)] + line_ops_of(
                actions.drop_first(),
            ),
            SpecSerialAction::HoldBreak(_) => seq![SpecTtyMsg::Break] + line_ops_of(
                actions.drop_first(),
            ),
            _ => line_ops_of(actions.drop_first()),
        }
    }
}

/// The bytes read from the line, read by read.
pub open spec fn reads_of(events: Seq<SpecSerialEvent>) -> Seq<Seq<u8>>
    decreases events.len(),
{
    if events.len() == 0 {
        Seq::empty()
    } else {
        match events[0] {
            SpecSerialEvent::Read(d) => seq![d] + reads_of(events.drop_first()),
            _ => reads_of(events.drop_first()),
        }
    }
}

/// The clients' messages for the line, in order.
pub open spec fn messages_of(events: Seq<SpecSerialEvent>) -> Seq<SpecTtyMsg>
    decreases events.len(),
{
    if events.len() == 0 {
        Seq::empty()
    } else {
        match events[0] {
            SpecSerialEvent::Received(Some(m)) => seq![m] + messages_of(events.drop_first()),
            _ => messages_of(events.drop_first()),
        }
    }
}

/// While the line works, the serial task never stops (not even when the
/// clients' channel gives nothing), hands every read to the clients as one
/// message, unchanged and in order, carries out the clients' messages on
/// the line in order, and holds every break for `BREAK_HOLD_MS`.
pub proof fn lemma_serial_run_forwards(events: Seq<SpecSerialEvent>)
    requires
        forall|i: int| 0 <= i < events.len() ==> !serial_ends(#[trigger] events[i]),
    ensures
        serial_run(events).len() == events.len(),
        forall|i: int| 0 <= i < serial_run(events).len() ==> !(#[trigger] serial_run(events)[i] is Stop),
        broadcasts_of(serial_run(events)) == reads_of(events),
        line_ops_of(serial_run(events)) == messages_of(events),
        forall|i: int|
            0 <= i < serial_run(events).len() ==> ((#[trigger] serial_run(events)[i]) matches SpecSerialAction::HoldBreak(
                ms,
            ) ==> ms == BREAK_HOLD_MS),
    decreases events.len(),
{
    if events.len() > 0 {
        let rest = events.drop_first();
        assert(!serial_ends(events[0]));
        assert forall|i: int| 0 <= i < rest.len() implies !serial_ends(#[trigger] rest[i]) by {
            assert(rest[i] == events[i + 1]);
        }
        lemma_serial_run_forwards(rest);
        let a = serial_decision(events[0]);
        let run = seq![a] + serial_run(rest);
        assert(serial_run(events) == run);
        assert(run.drop_first() =~= serial_run(rest));
        assert(run[0] == a);
        assert forall|i: int| 0 <= i < run.len() implies !(#[trigger] run[i] is Stop) && (
        run[i] matches SpecSerialAction::HoldBreak(ms) ==> ms == BREAK_HOLD_MS) by {
            if i > 0 {
                assert(run[i] == serial_run(rest)[i - 1]);
            }
        }
    }
}

/// The serial task stops exactly at the first observation that the line
/// closed, a read failed, or handing over or writing failed: it does what it
/// did before that, then stops.
pub proof fn lemma_serial_run_stops(events: Seq<SpecSerialEvent>, i: int)
    requires
        0 <= i < events.len(),
        serial_ends(events[i]),
        forall|j: int| 0 <= j < i ==> !serial_ends(#[trigger] events[j]),
    ensures
        serial_run(events) == serial_run(events.take(i)) + seq![SpecSerialAction::Stop],
    decreases i,
{
    if i == 0 {
        assert(events.take(0) =~= Seq::<SpecSerialEvent>::empty());
        assert(serial_run(events.take(0)) + seq![SpecSerialAction::Stop] =~= seq![
            SpecSerialAction::Stop,
        ]);
    } else {
        let rest = events.drop_first();
        assert(!serial_ends(events[0]));
        assert(rest[i - 1] == events[i]);
        assert forall|j: int| 0 <= j < i - 1 implies !serial_ends(#[trigger] rest[j]) by {
            assert(rest[j] == events[j + 1]);
        }
        lemma_serial_run_stops(rest, i - 1);
        let pre = events.take(i);
        assert(pre[0] == events[0]);
        assert(pre.drop_first() =~= rest.take(i - 1));
        assert(serial_run(events) =~= serial_run(pre) + seq![SpecSerialAction::Stop]);
    }
}

} // verus!
