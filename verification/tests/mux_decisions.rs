use tokio_util::bytes::Bytes;
use tty2pty_mux::mux::{
    forward_step, gdb_break_messages, has_endpoints, pty_event_messages, serial_step,
    telnet_connect_messages, telnet_event_messages, telnet_negotiation, ForwardAction,
    ForwardEvent, SerialAction, SerialEvent, TtyMsg, BREAK_HOLD_MS,
};
use tty2pty_mux::pty::PtyByteEvent;
use tty2pty_mux::telnet::{TelnetByteEvent, TelnetByteOption};

fn is_gdb_break(msgs: &[TtyMsg]) -> bool {
    msgs.len() == 2
        && matches!(msgs[0], TtyMsg::Break)
        && matches!(&msgs[1], TtyMsg::Data(d) if d == &vec![0x67u8])
}

#[test]
fn gdb_break_is_break_then_g() {
    assert!(is_gdb_break(&gdb_break_messages()));
}

#[test]
fn negotiation_order() {
    let events = telnet_negotiation();
    assert_eq!(events.len(), 5);
    assert!(matches!(events[0], TelnetByteEvent::Will(TelnetByteOption::Echo)));
    assert!(matches!(events[1], TelnetByteEvent::Will(TelnetByteOption::SuppressGoAhead)));
    assert!(matches!(events[2], TelnetByteEvent::Do(TelnetByteOption::SuppressGoAhead)));
    assert!(matches!(events[3], TelnetByteEvent::Will(TelnetByteOption::Binary)));
    assert!(matches!(events[4], TelnetByteEvent::Do(TelnetByteOption::Binary)));
}

#[test]
fn connect_enters_debugger_only_on_gdb_port() {
    assert!(is_gdb_break(&telnet_connect_messages(true)));
    assert!(telnet_connect_messages(false).is_empty());
}

#[test]
fn telnet_events_to_serial() {
    let msgs = telnet_event_messages(TelnetByteEvent::Data(Bytes::from(vec![1, 2])));
    assert_eq!(msgs.len(), 1);
    assert!(matches!(&msgs[0], TtyMsg::Data(d) if d == &vec![1u8, 2]));
    let msgs = telnet_event_messages(TelnetByteEvent::Break);
    assert_eq!(msgs.len(), 1);
    assert!(matches!(msgs[0], TtyMsg::Break));
    assert!(is_gdb_break(&telnet_event_messages(TelnetByteEvent::GdbInterrupt)));
    assert!(telnet_event_messages(TelnetByteEvent::Will(TelnetByteOption::Echo)).is_empty());
    assert!(telnet_event_messages(TelnetByteEvent::Dont(TelnetByteOption::Binary)).is_empty());
}

#[test]
fn pty_events_to_serial() {
    let msgs = pty_event_messages(PtyByteEvent::Data(Bytes::from(vec![9])));
    assert_eq!(msgs.len(), 1);
    assert!(matches!(&msgs[0], TtyMsg::Data(d) if d == &vec![9u8]));
    assert!(is_gdb_break(&pty_event_messages(PtyByteEvent::GdbInterrupt)));
}

#[test]
fn serial_task_decisions() {
    assert!(matches!(serial_step(SerialEvent::Read(vec![])), SerialAction::Stop));
    assert!(matches!(serial_step(SerialEvent::Read(vec![5])), SerialAction::Broadcast(d) if d == vec![5u8]));
    assert!(matches!(serial_step(SerialEvent::ReadFailed), SerialAction::Stop));
    assert!(matches!(serial_step(SerialEvent::Received(None)), SerialAction::Continue));
    assert!(matches!(
        serial_step(SerialEvent::Received(Some(TtyMsg::Data(vec![7])))),
        SerialAction::Write(d) if d == vec![7u8]
    ));
    assert!(matches!(
        serial_step(SerialEvent::Received(Some(TtyMsg::Break))),
        SerialAction::HoldBreak(250)
    ));
    assert_eq!(BREAK_HOLD_MS, 250);
    assert!(matches!(serial_step(SerialEvent::SendFailed), SerialAction::Stop));
}

#[test]
fn forward_task_decisions() {
    assert!(matches!(forward_step(ForwardEvent::Received(vec![1])), ForwardAction::Write(d) if d == vec![1u8]));
    assert!(matches!(forward_step(ForwardEvent::Lagged(3)), ForwardAction::ReportLag(3)));
    assert!(matches!(forward_step(ForwardEvent::Closed), ForwardAction::Stop));
    assert!(matches!(forward_step(ForwardEvent::WriteFailed), ForwardAction::Stop));
}

#[test]
fn endpoints_required() {
    assert!(!has_endpoints(0, 0, 0, 0));
    assert!(has_endpoints(1, 0, 0, 0));
    assert!(has_endpoints(0, 2, 0, 0));
    assert!(has_endpoints(0, 0, 1, 0));
    assert!(has_endpoints(0, 0, 0, 1));
}
