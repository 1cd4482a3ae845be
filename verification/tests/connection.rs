use ggnet::connection::{Connection, Packet, PACKET_MAGIC};
use ggnet::encode::{decode, encode, Cursor};
use ggnet::Error;

#[test]
fn a_packet_is_framed_with_node_constant_and_length() {
    let mut conn = Connection::new(3);
    assert_eq!(conn.id(), 3);
    conn.send(7, &[9, 8]);
    assert_eq!(
        conn.take_outgoing(),
        vec![0, 0, 0, 7, 0x12, 0x34, 0x56, 0x78, 0, 0, 0, 2, 9, 8]
    );
    assert_eq!(conn.take_outgoing(), Vec::<u8>::new());
}

#[test]
fn the_constant_is_as_published() {
    assert_eq!(PACKET_MAGIC, 0x12345678);
    assert_eq!(Packet::new(1, vec![]).magic(), 0x12345678);
}

#[test]
fn a_packet_comes_back_from_its_bytes() {
    let p = Packet::new(5, vec![1, 2, 3]);
    let mut out = Vec::new();
    encode(&mut out, &p).unwrap();
    let mut cur = Cursor::new(out);
    let back: Packet = decode(&mut cur).unwrap();
    assert_eq!(back.node, 5);
    assert_eq!(back.magic, PACKET_MAGIC);
    assert_eq!(back.data, vec![1, 2, 3]);
}

#[test]
fn packets_arrive_whole_and_in_order() {
    let mut a = Connection::new(1);
    a.send(1, &[1]);
    a.send(2, &[2, 2]);
    a.send(3, &[]);
    let bytes = a.take_outgoing();
    let mut b = Connection::new(2);
    // The bytes arrive in pieces that do not end where packets end.
    b.feed(&bytes[..5]);
    assert!(b.recv().is_none());
    b.feed(&bytes[5..20]);
    let first = b.recv().unwrap();
    assert_eq!((first.node, first.data), (1, vec![1]));
    assert!(b.recv().is_none());
    b.feed(&bytes[20..]);
    let second = b.recv().unwrap();
    assert_eq!((second.node, second.data), (2, vec![2, 2]));
    let third = b.recv_blocking().unwrap();
    assert_eq!((third.node, third.data), (3, vec![]));
    assert!(b.recv().is_none());
    assert!(b.is_alive());
    assert!(b.status().is_ok());
}

#[test]
fn a_packet_with_the_wrong_constant_kills_the_connection_and_is_not_applied() {
    let mut good = Connection::new(1);
    good.send(1, &[1]);
    let mut bytes = good.take_outgoing();
    bytes.extend_from_slice(&[0, 0, 0, 2, 0x12, 0x34, 0x56, 0x79, 0, 0, 0, 1, 5]);
    good.send(3, &[3]);
    bytes.extend_from_slice(&good.take_outgoing());
    let mut conn = Connection::new(2);
    conn.feed(&bytes);
    assert!(!conn.is_alive());
    let first = conn.recv().unwrap();
    assert_eq!(first.node, 1);
    assert!(conn.recv().is_none());
    match conn.status() {
        Err(Error::Custom(text)) => assert_eq!(text.as_str(), "Corrupt Packet"),
        _ => panic!("expected the connection to report the corrupt packet"),
    }
    // A dead connection takes nothing in.
    let mut more = Connection::new(1);
    more.send(9, &[]);
    conn.feed(&more.take_outgoing());
    assert!(conn.recv().is_none());
}

#[test]
fn a_failed_stream_is_reported_on_every_call() {
    let mut conn = Connection::new(1);
    assert!(conn.status().is_ok());
    conn.fail(Error::IOError(std::io::Error::from(std::io::ErrorKind::BrokenPipe)));
    assert!(!conn.is_alive());
    for _ in 0..3 {
        match conn.status() {
            Err(Error::IOError(e)) => assert_eq!(e.kind(), std::io::ErrorKind::BrokenPipe),
            _ => panic!("expected the recorded error"),
        }
    }
    assert!(conn.recv_blocking().is_none());
    match conn.into_error() {
        Some(Error::IOError(e)) => assert_eq!(e.kind(), std::io::ErrorKind::BrokenPipe),
        _ => panic!("expected the recorded error"),
    }
}

#[test]
fn the_last_failure_is_the_one_on_record() {
    let mut conn = Connection::new(1);
    conn.fail(Error::Custom("first".to_string()));
    conn.fail(Error::IOError(std::io::Error::from(std::io::ErrorKind::UnexpectedEof)));
    assert!(matches!(conn.status(), Err(Error::IOError(_))));
    assert!(Connection::new(2).into_error().is_none());
}

#[test]
fn connections_are_told_apart_by_their_ids() {
    let mut a = Connection::new(4);
    let b = Connection::new(4);
    let c = Connection::new(5);
    a.send(1, &[1, 2, 3]);
    assert!(a == b);
    assert!(a != c);
}

#[test]
fn errors_of_the_standard_library_become_errors_of_the_library() {
    let eof = std::io::Error::from(std::io::ErrorKind::UnexpectedEof);
    assert!(matches!(Error::from(eof), Error::IOError(_)));
    let bad = String::from_utf8(vec![0xFF]).unwrap_err();
    assert!(matches!(Error::from(bad), Error::UTFError(_)));
    let eof = std::io::Error::from(std::io::ErrorKind::UnexpectedEof);
    assert!(matches!(ggnet::encode::SerializeError::from(eof), ggnet::encode::SerializeError::IOError(_)));
    let bad = String::from_utf8(vec![0xC0]).unwrap_err();
    assert!(matches!(ggnet::encode::SerializeError::from(bad), ggnet::encode::SerializeError::UTFError(_)));
}
