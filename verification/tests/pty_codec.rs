use tokio_util::bytes::BytesMut;
use tty2pty_mux::pty::{PtyByteCodec, PtyByteEvent};

fn data(event: &PtyByteEvent) -> Vec<u8> {
    match event {
        PtyByteEvent::Data(b) => b.to_vec(),
        other => panic!("expected data, got {:?}", other),
    }
}

#[test]
fn pty_decode_empty_gives_nothing() {
    let mut codec = PtyByteCodec::new(true);
    let mut buf = BytesMut::new();
    assert!(codec.decode(&mut buf).unwrap().is_none());
}

#[test]
fn pty_decode_without_flag_takes_all() {
    let mut codec = PtyByteCodec::new(false);
    let mut buf = BytesMut::from(&b"ab\x03cd"[..]);
    let event = codec.decode(&mut buf).unwrap().unwrap();
    assert_eq!(data(&event), b"ab\x03cd".to_vec());
    assert!(buf.is_empty());
}

#[test]
fn pty_decode_with_flag_cuts_out_interrupts() {
    let mut codec = PtyByteCodec::new(true);
    let mut buf = BytesMut::from(&b"ab\x03\x03cd"[..]);
    let first = codec.decode(&mut buf).unwrap().unwrap();
    assert_eq!(data(&first), b"ab".to_vec());
    assert_eq!(buf.to_vec(), b"\x03\x03cd".to_vec());
    let second = codec.decode(&mut buf).unwrap().unwrap();
    assert!(matches!(second, PtyByteEvent::GdbInterrupt));
    assert_eq!(buf.to_vec(), b"\x03cd".to_vec());
    let third = codec.decode(&mut buf).unwrap().unwrap();
    assert!(matches!(third, PtyByteEvent::GdbInterrupt));
    let fourth = codec.decode(&mut buf).unwrap().unwrap();
    assert_eq!(data(&fourth), b"cd".to_vec());
    assert!(codec.decode(&mut buf).unwrap().is_none());
}

#[test]
fn pty_decode_loses_nothing() {
    let input: Vec<u8> = vec![3, 1, 2, 3, 3, 4, 255, 3];
    let mut codec = PtyByteCodec::new(true);
    let mut buf = BytesMut::from(&input[..]);
    let mut back = Vec::new();
    while let Some(event) = codec.decode(&mut buf).unwrap() {
        match event {
            PtyByteEvent::Data(b) => back.extend_from_slice(&b),
            PtyByteEvent::GdbInterrupt => back.push(3),
        }
    }
    assert_eq!(back, input);
}
