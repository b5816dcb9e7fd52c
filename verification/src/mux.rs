//! The decisions of the tasks that copy bytes between the serial line and
//! its clients (pseudo-terminals and telnet connections). The tasks
//! themselves (reading, writing, waiting) are not here: each decision takes
//! what a task observed and says what it does next.
use vstd::prelude::*;
use crate::buffer::bytes_to_vec;
use crate::pty::{PtyByteEvent, SpecPtyEvent};
use crate::telnet::{SpecTelnetEvent, TelnetByteEvent, TelnetByteOption};

verus! {

/// How long a break on the serial line is held, in milliseconds.
pub const BREAK_HOLD_MS: u64 = 250;

/// The byte that, sent right after a break, asks the kernel (magic SysRq
/// `g`) to enter its debugger.
pub const SYSRQ_KGDB: u8 = 0x67;

/// A message for the task that owns the serial line.
#[derive(Debug)]
pub enum TtyMsg {
    Data(Vec<u8>),
    Break,
}

/// A serial-line message with its data as a sequence of bytes.
pub enum SpecTtyMsg {
    Data(Seq<u8>),
    Break,
}

impl View for TtyMsg {
    type V = SpecTtyMsg;

    open spec fn view(&self) -> SpecTtyMsg {
        match self {
            TtyMsg::Data(d) => SpecTtyMsg::Data(d@),
            TtyMsg::Break => SpecTtyMsg::Break,
        }
    }
}

/// A sequence of messages, viewed.
pub open spec fn msgs_view(msgs: Seq<TtyMsg>) -> Seq<SpecTtyMsg> {
    msgs.map_values(|m: TtyMsg| m@)
}

/// A sequence of telnet events, viewed.
pub open spec fn telnet_events_view(events: Seq<TelnetByteEvent>) -> Seq<SpecTelnetEvent> {
    events.map_values(|e: TelnetByteEvent| e@)
}

/// What stops the kernel and enters its debugger: a break, then `g`.
pub open spec fn gdb_break_spec() -> Seq<SpecTtyMsg> {
    seq![SpecTtyMsg::Break, SpecTtyMsg::Data(seq![SYSRQ_KGDB])]
}

/// The options a telnet client is asked for on connecting: the server
/// echoes and suppresses go-ahead, and both sides send binary.
pub open spec fn negotiation_spec() -> Seq<SpecTelnetEvent> {
    seq![
        SpecTelnetEvent::Will(TelnetByteOption::Echo),
        SpecTelnetEvent::Will(TelnetByteOption::SuppressGoAhead),
        SpecTelnetEvent::Do(TelnetByteOption::SuppressGoAhead),
        SpecTelnetEvent::Will(TelnetByteOption::Binary),
        SpecTelnetEvent::Do(TelnetByteOption::Binary),
    ]
}

/// What the serial line is sent for an event from a telnet client: data as
/// data, a break as a break, a gdb interrupt as break and `g`; negotiation
/// is not answered.
pub open spec fn telnet_event_spec(event: SpecTelnetEvent) -> Seq<SpecTtyMsg> {
    match event {
        SpecTelnetEvent::Data(d) => seq![SpecTtyMsg::Data(d)],
        SpecTelnetEvent::GdbInterrupt => gdb_break_spec(),
        SpecTelnetEvent::Break => seq![SpecTtyMsg::Break],
        _ => Seq::empty(),
    }
}

/// What the serial line is sent for an event from a pseudo-terminal.
pub open spec fn pty_event_spec(event: SpecPtyEvent) -> Seq<SpecTtyMsg> {
    match event {
        SpecPtyEvent::Data(d) => seq![SpecTtyMsg::Data(d)],
        SpecPtyEvent::GdbInterrupt => gdb_break_spec(),
    }
}

/// The messages that stop the kernel and enter its debugger, in order.
pub fn gdb_break_messages() -> (msgs: Vec<TtyMsg>)
    ensures
        msgs_view(msgs@) == gdb_break_spec(),
{
    let mut msgs = Vec::new();
    msgs.push(TtyMsg::Break);
    let g = vec![SYSRQ_KGDB];
    assert(g@ =~= seq![SYSRQ_KGDB]);
    msgs.push(TtyMsg::Data(g));
    assert(msgs_view(msgs@) =~= gdb_break_spec());
    msgs
}

/// The negotiation a telnet client is sent on connecting, in order.
pub fn telnet_negotiation() -> (events: Vec<TelnetByteEvent>)
    ensures
        telnet_events_view(events@) == negotiation_spec(),
{
    let mut events = Vec::new();
    events.push(TelnetByteEvent::Will(TelnetByteOption::Echo));
    events.push(TelnetByteEvent::Will(TelnetByteOption::SuppressGoAhead));
    events.push(TelnetByteEvent::Do(TelnetByteOption::SuppressGoAhead));
    events.push(TelnetByteEvent::Will(TelnetByteOption::Binary));
    events.push(TelnetByteEvent::Do(TelnetByteOption::Binary));
    assert(telnet_events_view(events@) =~= negotiation_spec());
    events
}

/// What the serial line is sent when a telnet client connects: on a gdb
/// port, the debugger is entered at once; otherwise nothing.
pub fn telnet_connect_messages(interrupt_as_break: bool) -> (msgs: Vec<TtyMsg>)
    ensures
        msgs_view(msgs@) == if interrupt_as_break {
            gdb_break_spec()
        } else {
            Seq::empty()
        },
{
    if interrupt_as_break {
        gdb_break_messages()
    } else {
        let msgs = Vec::new();
        assert(msgs_view(msgs@) =~= Seq::empty());
        msgs
    }
}

/// What the serial line is sent for an event read from a telnet client.
pub fn telnet_event_messages(event: TelnetByteEvent) -> (msgs: Vec<TtyMsg>)
    ensures
        msgs_view(msgs@) == telnet_event_spec(event@),
        (event is Will || event is Wont || event is Do || event is Dont) ==> msgs@.len() == 0,
{
    match event {
        TelnetByteEvent::Data(buf) => {
            let mut msgs = Vec::new();
            msgs.push(TtyMsg::Data(bytes_to_vec(&buf)));
            assert(msgs_view(msgs@) =~= telnet_event_spec(event@));
            msgs
        },
        TelnetByteEvent::GdbInterrupt => gdb_break_messages(),
        TelnetByteEvent::Break => {
            let mut msgs = Vec::new();
            msgs.push(TtyMsg::Break);
            assert(msgs_view(msgs@) =~= telnet_event_spec(event@));
            msgs
        },
        _ => {
            let msgs = Vec::new();
            assert(msgs_view(msgs@) =~= telnet_event_spec(event@));
            msgs
        },
    }
}

/// What the serial line is sent for an event read from a pseudo-terminal.
pub fn pty_event_messages(event: PtyByteEvent) -> (msgs: Vec<TtyMsg>)
    ensures
        msgs_view(msgs@) == pty_event_spec(event@),
{
    match event {
        PtyByteEvent::Data(buf) => {
            let mut msgs = Vec::new();
            msgs.push(TtyMsg::Data(bytes_to_vec(&buf)));
            assert(msgs_view(msgs@) =~= pty_event_spec(event@));
            msgs
        },
        PtyByteEvent::GdbInterrupt => gdb_break_messages(),
    }
}

/// What the serial line is sent for each kind of telnet event: a data event's
/// bytes as one data message, a break as a break, a gdb interrupt as a break
/// and then `g`, and for negotiation nothing at all.
pub proof fn lemma_telnet_event_forwarding(event: SpecTelnetEvent)
    ensures
        event matches SpecTelnetEvent::Data(d) ==> telnet_event_spec(event) == seq![
            SpecTtyMsg::Data(d),
        ],
        event is Break ==> telnet_event_spec(event) == seq![SpecTtyMsg::Break],
        event is GdbInterrupt ==> telnet_event_spec(event) == seq![
            SpecTtyMsg::Break,
            SpecTtyMsg::Data(seq![0x67u8]),
        ],
        (event is Will || event is Wont || event is Do || event is Dont) ==> telnet_event_spec(
            event,
        ).len() == 0,
{
}

/// What the serial line is sent for each kind of pseudo-terminal event: a
/// data event's bytes as one data message, a gdb interrupt as a break and
/// then `g`.
pub proof fn lemma_pty_event_forwarding(event: SpecPtyEvent)
    ensures
        event matches SpecPtyEvent::Data(d) ==> pty_event_spec(event) == seq![SpecTtyMsg::Data(d)],
        event is GdbInterrupt ==> pty_event_spec(event) == seq![
            SpecTtyMsg::Break,
            SpecTtyMsg::Data(seq![0x67u8]),
        ],
{
}

/// What the task that owns the serial line observed.
#[derive(Debug)]
pub enum SerialEvent {
    /// A read from the line returned these bytes (none: the line closed).
    Read(Vec<u8>),
    /// A read from the line failed.
    ReadFailed,
    /// The clients' channel gave this message, or nothing.
    Received(Option<TtyMsg>),
    /// Handing read bytes to the clients, or writing to the line, failed.
    SendFailed,
}

/// What the task that owns the serial line does next.
#[derive(Debug)]
pub enum SerialAction {
    /// Hand these bytes to every client.
    Broadcast(Vec<u8>),
    /// Write these bytes to the line.
    Write(Vec<u8>),
    /// Set a break on the line, hold it this many milliseconds, clear it.
    HoldBreak(u64),
    /// Go on waiting.
    Continue,
    /// Stop: the line is gone.
    Stop,
}

/// A serial-task observation with its bytes as sequences.
pub enum SpecSerialEvent {
    Read(Seq<u8>),
    ReadFailed,
    Received(Option<SpecTtyMsg>),
    SendFailed,
}

/// A serial-task decision with its bytes as sequences.
pub enum SpecSerialAction {
    Broadcast(Seq<u8>),
    Write(Seq<u8>),
    HoldBreak(u64),
    Continue,
    Stop,
}

impl View for SerialEvent {
    type V = SpecSerialEvent;

    open spec fn view(&self) -> SpecSerialEvent {
        match self {
            SerialEvent::Read(d) => SpecSerialEvent::Read(d@),
            SerialEvent::ReadFailed => SpecSerialEvent::ReadFailed,
            SerialEvent::Received(None) => SpecSerialEvent::Received(None),
            SerialEvent::Received(Some(m)) => SpecSerialEvent::Received(Some(m@)),
            SerialEvent::SendFailed => SpecSerialEvent::SendFailed,
        }
    }
}

impl View for SerialAction {
    type V = SpecSerialAction;

    open spec fn view(&self) -> SpecSerialAction {
        match self {
            SerialAction::Broadcast(d) => SpecSerialAction::Broadcast(d@),
            SerialAction::Write(d) => SpecSerialAction::Write(d@),
            SerialAction::HoldBreak(ms) => SpecSerialAction::HoldBreak(*ms),
            SerialAction::Continue => SpecSerialAction::Continue,
            SerialAction::Stop => SpecSerialAction::Stop,
        }
    }
}

/// The serial task's decision: bytes read are handed to every client, and a
/// read of nothing (the line closed) or a failed read stops; data for the
/// line is written, a break is held for `BREAK_HOLD_MS`, and a closed
/// clients' channel changes nothing; a failed hand-over or write stops.
pub open spec fn serial_decision(event: SpecSerialEvent) -> SpecSerialAction {
    match event {
        SpecSerialEvent::Read(d) => if d.len() == 0 {
            SpecSerialAction::Stop
        } else {
            SpecSerialAction::Broadcast(d)
        },
        SpecSerialEvent::ReadFailed => SpecSerialAction::Stop,
        SpecSerialEvent::Received(None) => SpecSerialAction::Continue,
        SpecSerialEvent::Received(Some(SpecTtyMsg::Data(d))) => SpecSerialAction::Write(d),
        SpecSerialEvent::Received(Some(SpecTtyMsg::Break)) => SpecSerialAction::HoldBreak(
            BREAK_HOLD_MS,
        ),
        SpecSerialEvent::SendFailed => SpecSerialAction::Stop,
    }
}

/// The serial task's decision for what it observed.
pub fn serial_step(event: SerialEvent) -> (action: SerialAction)
    ensures
        action@ == serial_decision(event@),
{
    match event {
        SerialEvent::Read(data) => {
            if data.len() == 0 {
                SerialAction::Stop
            } else {
                SerialAction::Broadcast(data)
            }
        },
        SerialEvent::ReadFailed => SerialAction::Stop,
        SerialEvent::Received(None) => SerialAction::Continue,
        SerialEvent::Received(Some(TtyMsg::Data(data))) => SerialAction::Write(data),
        SerialEvent::Received(Some(TtyMsg::Break)) => SerialAction::HoldBreak(BREAK_HOLD_MS),
        SerialEvent::SendFailed => SerialAction::Stop,
    }
}

/// What a task that copies the serial line's bytes to one client observed.
#[derive(Debug)]
pub enum ForwardEvent {
    /// The serial line's bytes arrived.
    Received(Vec<u8>),
    /// This many messages were missed because the client fell behind.
    Lagged(u64),
    /// The serial side is gone.
    Closed,
    /// Writing to the client failed.
    WriteFailed,
}

/// What a task that copies the serial line's bytes to one client does next.
#[derive(Debug)]
pub enum ForwardAction {
    /// Write these bytes to the client.
    Write(Vec<u8>),
    /// Report that this many messages were missed, and go on.
    ReportLag(u64),
    /// Stop copying.
    Stop,
}

/// A copying-task observation with its bytes as a sequence.
pub enum SpecForwardEvent {
    Received(Seq<u8>),
    Lagged(u64),
    Closed,
    WriteFailed,
}

/// A copying-task decision with its bytes as a sequence.
pub enum SpecForwardAction {
    Write(Seq<u8>),
    ReportLag(u64),
    Stop,
}

impl View for ForwardEvent {
    type V = SpecForwardEvent;

    open spec fn view(&self) -> SpecForwardEvent {
        match self {
            ForwardEvent::Received(d) => SpecForwardEvent::Received(d@),
            ForwardEvent::Lagged(n) => SpecForwardEvent::Lagged(*n),
            ForwardEvent::Closed => SpecForwardEvent::Closed,
            ForwardEvent::WriteFailed => SpecForwardEvent::WriteFailed,
        }
    }
}

impl View for ForwardAction {
    type V = SpecForwardAction;

    open spec fn view(&self) -> SpecForwardAction {
        match self {
            ForwardAction::Write(d) => SpecForwardAction::Write(d@),
            ForwardAction::ReportLag(n) => SpecForwardAction::ReportLag(*n),
            ForwardAction::Stop => SpecForwardAction::Stop,
        }
    }
}

/// The copying task's decision: bytes are written on, missed messages
/// reported, and it stops when either side is gone.
pub open spec fn forward_decision(event: SpecForwardEvent) -> SpecForwardAction {
    match event {
        SpecForwardEvent::Received(d) => SpecForwardAction::Write(d),
        SpecForwardEvent::Lagged(n) => SpecForwardAction::ReportLag(n),
        SpecForwardEvent::Closed => SpecForwardAction::Stop,
        SpecForwardEvent::WriteFailed => SpecForwardAction::Stop,
    }
}

/// The copying task's decision for what it observed.
pub fn forward_step(event: ForwardEvent) -> (action: ForwardAction)
    ensures
        action@ == forward_decision(event@),
{
    match event {
        ForwardEvent::Received(data) => ForwardAction::Write(data),
        ForwardEvent::Lagged(n) => ForwardAction::ReportLag(n),
        ForwardEvent::Closed => ForwardAction::Stop,
        ForwardEvent::WriteFailed => ForwardAction::Stop,
    }
}

/// The serial task stops exactly when the line closed (a read of nothing), a
/// read failed, or handing bytes over or writing failed; bytes read are
/// handed over unchanged; the clients' data is written unchanged and their
/// break held for 250 ms; a closed clients' channel changes nothing.
pub proof fn lemma_serial_decisions(event: SpecSerialEvent)
    ensures
        serial_decision(event) is Stop <==> (event matches SpecSerialEvent::Read(d) && d.len() == 0
            || event is ReadFailed || event is SendFailed),
        event matches SpecSerialEvent::Read(d) ==> (d.len() > 0 ==> serial_decision(event)
            == SpecSerialAction::Broadcast(d)),
        event matches SpecSerialEvent::Received(Some(SpecTtyMsg::Data(d))) ==> serial_decision(event)
            == SpecSerialAction::Write(d),
        event matches SpecSerialEvent::Received(Some(SpecTtyMsg::Break)) ==> serial_decision(event)
            == SpecSerialAction::HoldBreak(250),
        event matches SpecSerialEvent::Received(None) ==> serial_decision(event)
            == SpecSerialAction::Continue,
{
}

/// A copying task stops exactly when the serial side is gone or a write
/// failed; bytes that arrived are written unchanged; a lag is reported with
/// its count.
pub proof fn lemma_forward_decisions(event: SpecForwardEvent)
    ensures
        forward_decision(event) is Stop <==> (event is Closed || event is WriteFailed),
        event matches SpecForwardEvent::Received(d) ==> forward_decision(event)
            == SpecForwardAction::Write(d),
        event matches SpecForwardEvent::Lagged(n) ==> forward_decision(event)
            == SpecForwardAction::ReportLag(n),
{
}

/// Whether any client endpoint was asked for: at least one pseudo-terminal,
/// gdb pseudo-terminal, telnet or gdb telnet endpoint.
pub fn has_endpoints(pty: usize, pty_gdb: usize, telnet: usize, telnet_gdb: usize) -> (any: bool)
    ensures
        any == (pty > 0 || pty_gdb > 0 || telnet > 0 || telnet_gdb > 0),
{
    pty != 0 || pty_gdb != 0 || telnet != 0 || telnet_gdb != 0
}

} // verus!
