use tokio_util::bytes::{Bytes, BytesMut};
use tty2pty_mux::telnet::commands::{BREAK, DO, DONT, IAC, WILL, WONT};
use tty2pty_mux::telnet::{encoded_len, TelnetByteCodec, TelnetByteEvent, TelnetByteOption};

fn decode_all(codec: &mut TelnetByteCodec, input: &[u8]) -> (Vec<TelnetByteEvent>, Vec<u8>) {
    let mut buf = BytesMut::from(input);
    let mut events = Vec::new();
    while let Some(event) = codec.decode(&mut buf).unwrap() {
        events.push(event);
    }
    (events, buf.to_vec())
}

fn data(event: &TelnetByteEvent) -> Vec<u8> {
    match event {
        TelnetByteEvent::Data(b) => b.to_vec(),
        other => panic!("expected data, got {:?}", other),
    }
}

fn encode(codec: &mut TelnetByteCodec, event: TelnetByteEvent) -> Vec<u8> {
    let mut buf = BytesMut::new();
    codec.encode(event, &mut buf).unwrap();
    buf.to_vec()
}

#[test]
fn option_from_byte_names_known_options() {
    assert_eq!(TelnetByteOption::from(1u8), TelnetByteOption::Echo);
    assert_eq!(TelnetByteOption::from(3u8), TelnetByteOption::SuppressGoAhead);
    assert_eq!(TelnetByteOption::from(0u8), TelnetByteOption::Binary);
    assert_eq!(TelnetByteOption::from(24u8), TelnetByteOption::Unsupported(24));
}

#[test]
fn option_to_byte_gives_codes() {
    assert_eq!(u8::from(TelnetByteOption::Echo), 1);
    assert_eq!(u8::from(TelnetByteOption::SuppressGoAhead), 3);
    assert_eq!(u8::from(TelnetByteOption::Binary), 0);
    assert_eq!(u8::from(TelnetByteOption::Unsupported(31)), 31);
}

#[test]
fn option_codes_round_trip() {
    for b in 0..=255u8 {
        assert_eq!(u8::from(TelnetByteOption::from(b)), b);
    }
    // an unsupported option with a known code does not come back as itself
    assert_eq!(TelnetByteOption::from(u8::from(TelnetByteOption::Unsupported(1))), TelnetByteOption::Echo);
}

#[test]
fn decode_empty_buffer_gives_nothing() {
    let mut codec = TelnetByteCodec::new(false);
    let mut buf = BytesMut::new();
    assert!(codec.decode(&mut buf).unwrap().is_none());
}

#[test]
fn decode_plain_data_takes_everything() {
    let mut codec = TelnetByteCodec::new(false);
    let mut buf = BytesMut::from(&b"hello"[..]);
    let event = codec.decode(&mut buf).unwrap().unwrap();
    assert_eq!(data(&event), b"hello".to_vec());
    assert!(buf.is_empty());
}

#[test]
fn decode_data_stops_at_iac() {
    let mut codec = TelnetByteCodec::new(false);
    let mut buf = BytesMut::from(&[b'a', b'b', IAC, IAC, b'c'][..]);
    let first = codec.decode(&mut buf).unwrap().unwrap();
    assert_eq!(data(&first), b"ab".to_vec());
    assert_eq!(buf.to_vec(), vec![IAC, IAC, b'c']);
    let second = codec.decode(&mut buf).unwrap().unwrap();
    assert_eq!(data(&second), vec![IAC]);
    assert_eq!(buf.to_vec(), vec![b'c']);
}

#[test]
fn decode_break() {
    let mut codec = TelnetByteCodec::new(false);
    let (events, rest) = decode_all(&mut codec, &[IAC, BREAK, b'x']);
    assert_eq!(events.len(), 2);
    assert!(matches!(events[0], TelnetByteEvent::Break));
    assert_eq!(data(&events[1]), b"x".to_vec());
    assert!(rest.is_empty());
}

#[test]
fn decode_negotiation_commands() {
    let mut codec = TelnetByteCodec::new(false);
    let input = [IAC, WILL, 1, IAC, WONT, 3, IAC, DO, 0, IAC, DONT, 42];
    let (events, rest) = decode_all(&mut codec, &input);
    assert!(rest.is_empty());
    assert_eq!(events.len(), 4);
    assert!(matches!(events[0], TelnetByteEvent::Will(TelnetByteOption::Echo)));
    assert!(matches!(events[1], TelnetByteEvent::Wont(TelnetByteOption::SuppressGoAhead)));
    assert!(matches!(events[2], TelnetByteEvent::Do(TelnetByteOption::Binary)));
    assert!(matches!(events[3], TelnetByteEvent::Dont(TelnetByteOption::Unsupported(42))));
}

#[test]
fn decode_unknown_command_reads_as_empty_data() {
    let mut codec = TelnetByteCodec::new(false);
    let mut buf = BytesMut::from(&[IAC, 241, 7, b'z'][..]);
    let event = codec.decode(&mut buf).unwrap().unwrap();
    assert_eq!(data(&event), Vec::<u8>::new());
    assert_eq!(buf.to_vec(), vec![b'z']);
}

#[test]
fn decode_incomplete_command_waits() {
    let mut codec = TelnetByteCodec::new(false);
    let mut buf = BytesMut::from(&[IAC][..]);
    assert!(codec.decode(&mut buf).unwrap().is_none());
    assert_eq!(buf.to_vec(), vec![IAC]);
    let mut buf = BytesMut::from(&[IAC, WILL][..]);
    assert!(codec.decode(&mut buf).unwrap().is_none());
    assert_eq!(buf.to_vec(), vec![IAC, WILL]);
    buf.extend_from_slice(&[3]);
    let event = codec.decode(&mut buf).unwrap().unwrap();
    assert!(matches!(event, TelnetByteEvent::Will(TelnetByteOption::SuppressGoAhead)));
}

#[test]
fn decode_interrupt_as_break() {
    let mut codec = TelnetByteCodec::new(true);
    let (events, rest) = decode_all(&mut codec, b"a\x03b");
    assert!(rest.is_empty());
    assert_eq!(events.len(), 3);
    assert_eq!(data(&events[0]), b"a".to_vec());
    assert!(matches!(events[1], TelnetByteEvent::GdbInterrupt));
    assert_eq!(data(&events[2]), b"b".to_vec());
}

#[test]
fn decode_interrupt_is_data_without_flag() {
    let mut codec = TelnetByteCodec::new(false);
    let (events, _) = decode_all(&mut codec, b"a\x03b");
    assert_eq!(events.len(), 1);
    assert_eq!(data(&events[0]), b"a\x03b".to_vec());
}

#[test]
fn encode_doubles_iac_in_data() {
    let mut codec = TelnetByteCodec::new(false);
    let out = encode(&mut codec, TelnetByteEvent::Data(Bytes::from(vec![1, IAC, 2, IAC])));
    assert_eq!(out, vec![1, IAC, IAC, 2, IAC, IAC]);
}

#[test]
fn encode_appends_to_buffer() {
    let mut codec = TelnetByteCodec::new(false);
    let mut buf = BytesMut::from(&b"ab"[..]);
    codec.encode(TelnetByteEvent::Data(Bytes::from(vec![b'c'])), &mut buf).unwrap();
    assert_eq!(buf.to_vec(), b"abc".to_vec());
}

#[test]
fn encode_negotiation() {
    let mut codec = TelnetByteCodec::new(false);
    assert_eq!(encode(&mut codec, TelnetByteEvent::Will(TelnetByteOption::Echo)), vec![IAC, WILL, 1]);
    assert_eq!(encode(&mut codec, TelnetByteEvent::Wont(TelnetByteOption::Binary)), vec![IAC, WONT, 0]);
    assert_eq!(encode(&mut codec, TelnetByteEvent::Do(TelnetByteOption::SuppressGoAhead)), vec![IAC, DO, 3]);
    assert_eq!(encode(&mut codec, TelnetByteEvent::Dont(TelnetByteOption::Unsupported(9))), vec![IAC, DONT, 9]);
}

#[test]
fn encode_break_and_interrupt_write_nothing() {
    let mut codec = TelnetByteCodec::new(true);
    assert!(encode(&mut codec, TelnetByteEvent::Break).is_empty());
    assert!(encode(&mut codec, TelnetByteEvent::GdbInterrupt).is_empty());
}

#[test]
fn data_round_trips_through_codec() {
    let payload: Vec<u8> = vec![IAC, 0, b'q', IAC, IAC, 7, 200, IAC];
    for flag in [false, true] {
        let mut codec = TelnetByteCodec::new(flag);
        let wire = encode(&mut codec, TelnetByteEvent::Data(Bytes::from(payload.clone())));
        let (events, rest) = decode_all(&mut codec, &wire);
        assert!(rest.is_empty());
        let mut back = Vec::new();
        for e in &events {
            back.extend(data(e));
        }
        assert_eq!(back, payload);
    }
}

#[test]
fn negotiation_round_trips_through_codec() {
    let mut codec = TelnetByteCodec::new(true);
    let mut wire = encode(&mut codec, TelnetByteEvent::Do(TelnetByteOption::Unsupported(IAC)));
    wire.push(b'x');
    let mut buf = BytesMut::from(&wire[..]);
    let event = codec.decode(&mut buf).unwrap().unwrap();
    assert!(matches!(event, TelnetByteEvent::Do(TelnetByteOption::Unsupported(IAC))));
    assert_eq!(buf.to_vec(), vec![b'x']);
}

#[test]
fn encoded_len_counts_doubled_iac() {
    assert_eq!(encoded_len(&TelnetByteEvent::Data(Bytes::from(vec![IAC, 1, IAC]))), Some(5));
    assert_eq!(encoded_len(&TelnetByteEvent::Will(TelnetByteOption::Echo)), Some(3));
    assert_eq!(encoded_len(&TelnetByteEvent::Break), Some(0));
    assert_eq!(encoded_len(&TelnetByteEvent::GdbInterrupt), Some(0));
}

#[test]
fn encode_checked_writes_like_encode() {
    let mut codec = TelnetByteCodec::new(false);
    let mut buf = BytesMut::from(&b"x"[..]);
    assert!(codec.encode_checked(TelnetByteEvent::Data(Bytes::from(vec![IAC, 2])), &mut buf));
    assert_eq!(buf.to_vec(), vec![b'x', IAC, IAC, 2]);
    assert!(codec.encode_checked(TelnetByteEvent::Dont(TelnetByteOption::Echo), &mut buf));
    assert_eq!(buf.to_vec(), vec![b'x', IAC, IAC, 2, IAC, DONT, 1]);
}
