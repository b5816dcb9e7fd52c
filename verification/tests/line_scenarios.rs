use tokio_util::bytes::{Bytes, BytesMut};
use tty2pty_mux::mux::{pty_event_messages, telnet_event_messages, TtyMsg};
use tty2pty_mux::pty::PtyByteCodec;
use tty2pty_mux::telnet::{TelnetByteCodec, TelnetByteEvent};

#[derive(Debug, PartialEq)]
enum Line {
    Byte(u8),
    Break,
}

fn line_of(msgs: Vec<TtyMsg>) -> Vec<Line> {
    let mut out = Vec::new();
    for m in msgs {
        match m {
            TtyMsg::Data(d) => out.extend(d.into_iter().map(Line::Byte)),
            TtyMsg::Break => out.push(Line::Break),
        }
    }
    out
}

fn pty_line(flag: bool, input: &[u8]) -> Vec<Line> {
    let mut codec = PtyByteCodec::new(flag);
    let mut buf = BytesMut::from(input);
    let mut out = Vec::new();
    while let Some(event) = codec.decode(&mut buf).unwrap() {
        out.extend(line_of(pty_event_messages(event)));
    }
    out
}

fn telnet_line(flag: bool, data: &[u8]) -> Vec<Line> {
    let mut codec = TelnetByteCodec::new(flag);
    let mut buf = BytesMut::new();
    codec.encode(TelnetByteEvent::Data(Bytes::from(data.to_vec())), &mut buf).unwrap();
    let mut out = Vec::new();
    while let Some(event) = codec.decode(&mut buf).unwrap() {
        out.extend(line_of(telnet_event_messages(event)));
    }
    assert!(buf.is_empty());
    out
}

#[test]
fn gdb_pty_turns_control_c_into_break_and_g() {
    assert_eq!(
        pty_line(true, b"a\x03b"),
        vec![Line::Byte(b'a'), Line::Break, Line::Byte(b'g'), Line::Byte(b'b')]
    );
}

#[test]
fn plain_pty_passes_control_c() {
    assert_eq!(pty_line(false, b"a\x03"), vec![Line::Byte(b'a'), Line::Byte(3)]);
}

#[test]
fn gdb_telnet_turns_control_c_into_break_and_g() {
    assert_eq!(
        telnet_line(true, &[3, 255, b'x']),
        vec![Line::Break, Line::Byte(b'g'), Line::Byte(255), Line::Byte(b'x')]
    );
}

#[test]
fn plain_telnet_passes_data() {
    assert_eq!(
        telnet_line(false, &[3, 255, b'x']),
        vec![Line::Byte(3), Line::Byte(255), Line::Byte(b'x')]
    );
}
