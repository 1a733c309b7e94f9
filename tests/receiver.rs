use twinkled::errors::TwinkleError;
use twinkled::receiver::{dispatch, Request, Response};
use twinkled::store::Store;
use twinkled::types::Packet;

type Addr = ([u8; 4], u16);

const ADDR: Addr = ([127, 0, 0, 1], 3000);

fn packet(bytes: &[u8]) -> Packet<Addr> {
    Packet { dest: ADDR, body: bytes.to_vec(), amt: bytes.len() }
}

fn token() -> Vec<u8> {
    b"iiiijjjjkkkkllll".to_vec()
}

fn reply(status: u8, value: &[u8]) -> Vec<u8> {
    let mut r = vec![status];
    r.extend_from_slice(&token());
    r.extend_from_slice(value);
    r
}

#[test]
fn test_parse_success() {
    let cases = vec![
        (b"\x01iiiijjjjkkkkllll".to_vec(), Request::Ping),
        (b"\x02iiiijjjjkkkkllll\x00\x01a".to_vec(), Request::Get(b"a".to_vec())),
        (b"\x03iiiijjjjkkkkllll\x00\x01abc".to_vec(), Request::Put(b"a".to_vec(), b"bc".to_vec())),
        (b"\x04iiiijjjjkkkkllll\x00\x01a".to_vec(), Request::Unset(b"a".to_vec())),
    ];
    for (received, expected) in cases {
        let packet = Packet { dest: ADDR, body: received.to_vec(), amt: received.len() };
        let result = packet.parse().unwrap();
        assert_eq!(result.req, expected);
    }
}

#[test]
fn parse_keeps_token_and_address() {
    let i = packet(b"\x02iiiijjjjkkkkllll\x00\x01a").parse().unwrap();
    assert_eq!(i.uuid, token());
    assert_eq!(i.dest, ADDR);
}

#[test]
fn parse_rejects_short_datagrams() {
    for n in 0..17 {
        let body = b"\x01iiiijjjjkkkkllll"[..n].to_vec();
        let p = Packet { dest: ADDR, body, amt: n };
        assert_eq!(p.parse().unwrap_err(), TwinkleError::ParseError);
    }
}

#[test]
fn parse_token_only_is_ping_alone() {
    let i = packet(b"\x01abcdefghijklmnop").parse().unwrap();
    assert_eq!(i.req, Request::Ping);
    assert_eq!(i.uuid, b"abcdefghijklmnop".to_vec());
    for cmd in [0u8, 2, 3, 4, 5, 255] {
        let mut body = vec![cmd];
        body.extend_from_slice(&token());
        assert_eq!(packet(&body).parse().unwrap_err(), TwinkleError::ParseError);
    }
}

#[test]
fn parse_rejects_half_key_length() {
    assert_eq!(packet(b"\x02iiiijjjjkkkkllll\x00").parse().unwrap_err(), TwinkleError::ParseError);
}

#[test]
fn parse_rejects_unknown_commands() {
    for cmd in [0u8, 1, 5, 0x7f, 0xff] {
        let mut body = vec![cmd];
        body.extend_from_slice(&token());
        body.extend_from_slice(b"\x00\x01abc");
        assert_eq!(packet(&body).parse().unwrap_err(), TwinkleError::ParseError);
    }
}

#[test]
fn parse_rejects_key_past_end() {
    assert_eq!(packet(b"\x02iiiijjjjkkkkllll\x00\x05abc").parse().unwrap_err(), TwinkleError::ParseError);
    assert_eq!(packet(b"\x03iiiijjjjkkkkllll\x01\x00abc").parse().unwrap_err(), TwinkleError::ParseError);
}

#[test]
fn parse_rejects_count_beyond_buffer() {
    let body = b"\x01iiiijjjjkkkkllll".to_vec();
    let p = Packet { dest: ADDR, body, amt: 18 };
    assert_eq!(p.parse().unwrap_err(), TwinkleError::ParseError);
}

#[test]
fn parse_reads_only_received_bytes() {
    let mut body = b"\x03iiiijjjjkkkkllll\x00\x01abc".to_vec();
    body.resize(64, 0xee);
    let p = Packet { dest: ADDR, body, amt: 22 };
    assert_eq!(p.parse().unwrap().req, Request::Put(b"a".to_vec(), b"bc".to_vec()));
}

#[test]
fn parse_empty_key_and_value() {
    let i = packet(b"\x03iiiijjjjkkkkllll\x00\x00").parse().unwrap();
    assert_eq!(i.req, Request::Put(vec![], vec![]));
    let j = packet(b"\x04iiiijjjjkkkkllll\x00\x00").parse().unwrap();
    assert_eq!(j.req, Request::Unset(vec![]));
}

#[test]
fn parse_ignores_trailing_bytes_of_get_and_unset() {
    let i = packet(b"\x02iiiijjjjkkkkllll\x00\x01axyz").parse().unwrap();
    assert_eq!(i.req, Request::Get(b"a".to_vec()));
    let j = packet(b"\x04iiiijjjjkkkkllll\x00\x02abxyz").parse().unwrap();
    assert_eq!(j.req, Request::Unset(b"ab".to_vec()));
}

#[test]
fn parse_long_key() {
    let key = vec![7u8; 300];
    let mut body = vec![3u8];
    body.extend_from_slice(&token());
    body.extend_from_slice(&[1, 44]);
    body.extend_from_slice(&key);
    body.extend_from_slice(b"v");
    assert_eq!(packet(&body).parse().unwrap().req, Request::Put(key, b"v".to_vec()));
}

#[test]
fn get_miss_then_hit() {
    let mut store = Store::new();
    let (r, dest) = dispatch(packet(b"\x02iiiijjjjkkkkllll\x00\x01k"), &mut store).unwrap();
    assert_eq!(r, reply(2, b""));
    assert_eq!(dest, ADDR);
    let (r, _) = dispatch(packet(b"\x03iiiijjjjkkkkllll\x00\x01kvalue"), &mut store).unwrap();
    assert_eq!(r, reply(1, b""));
    let (r, _) = dispatch(packet(b"\x02iiiijjjjkkkkllll\x00\x01k"), &mut store).unwrap();
    assert_eq!(r, reply(1, b"value"));
}

#[test]
fn set_overwrites() {
    let mut store = Store::new();
    dispatch(packet(b"\x03iiiijjjjkkkkllll\x00\x01kone"), &mut store).unwrap();
    dispatch(packet(b"\x03iiiijjjjkkkkllll\x00\x01ktwo"), &mut store).unwrap();
    let (r, _) = dispatch(packet(b"\x02iiiijjjjkkkkllll\x00\x01k"), &mut store).unwrap();
    assert_eq!(r, reply(1, b"two"));
}

#[test]
fn unset_absent_is_success_and_no_change() {
    let mut store = Store::new();
    store.set(b"a".to_vec(), b"1".to_vec());
    let before = store.serialize().unwrap();
    let (r, _) = dispatch(packet(b"\x04iiiijjjjkkkkllll\x00\x01z"), &mut store).unwrap();
    assert_eq!(r, reply(1, b""));
    assert_eq!(store.serialize().unwrap(), before);
    assert_eq!(store.get(&b"a".to_vec()), Some(b"1".to_vec()));
    assert_eq!(store.get(&b"z".to_vec()), None);
}

#[test]
fn unset_removes() {
    let mut store = Store::new();
    dispatch(packet(b"\x03iiiijjjjkkkkllll\x00\x01kv"), &mut store).unwrap();
    let (r, _) = dispatch(packet(b"\x04iiiijjjjkkkkllll\x00\x01k"), &mut store).unwrap();
    assert_eq!(r, reply(1, b""));
    let (r, _) = dispatch(packet(b"\x02iiiijjjjkkkkllll\x00\x01k"), &mut store).unwrap();
    assert_eq!(r, reply(2, b""));
}

#[test]
fn token_echoed_for_every_request() {
    let tok = b"0123456789abcdef";
    let mut store = Store::new();
    for (cmd, rest) in [(1u8, &b""[..]), (2, &b"\x00\x01k"[..]), (3, &b"\x00\x01kv"[..]), (2, &b"\x00\x01k"[..]), (4, &b"\x00\x01k"[..])] {
        let mut body = vec![cmd];
        body.extend_from_slice(tok);
        body.extend_from_slice(rest);
        let (r, _) = dispatch(packet(&body), &mut store).unwrap();
        assert_eq!(&r[1..17], &tok[..]);
    }
}

#[test]
fn ping_replies_with_token() {
    let mut store = Store::new();
    let (r, _) = dispatch(packet(b"\x01iiiijjjjkkkkllll"), &mut store).unwrap();
    assert_eq!(r, reply(1, b""));
}

#[test]
fn set_then_get_scenario() {
    let mut store = Store::new();
    let set = packet(b"\x03iiiijjjjkkkkllll\x00\x01abc");
    let i = set.parse().unwrap();
    assert_eq!(i.req, Request::Put(b"a".to_vec(), b"bc".to_vec()));
    let (r, _) = i.respond(&mut store).unwrap();
    assert_eq!(r, reply(1, b""));
    let (r, _) = dispatch(packet(b"\x02iiiijjjjkkkkllll\x00\x01a"), &mut store).unwrap();
    assert_eq!(r, b"\x01iiiijjjjkkkkllllbc".to_vec());
}

#[test]
fn malformed_datagram_leaves_store_and_next_is_served() {
    let mut store = Store::new();
    store.set(b"a".to_vec(), b"1".to_vec());
    let before = store.serialize().unwrap();
    assert_eq!(dispatch(packet(b"\x09iiiijjjjkkkkllll\x00\x01a"), &mut store).unwrap_err(), TwinkleError::ParseError);
    assert_eq!(store.serialize().unwrap(), before);
    let (r, _) = dispatch(packet(b"\x02iiiijjjjkkkkllll\x00\x01a"), &mut store).unwrap();
    assert_eq!(r, reply(1, b"1"));
}

#[test]
fn execute_outcomes() {
    let mut store = Store::new();
    assert_eq!(Request::Get(b"k".to_vec()).execute(&mut store), Response::NotFound);
    assert_eq!(Request::Put(b"k".to_vec(), b"v".to_vec()).execute(&mut store), Response::Success(None));
    assert_eq!(Request::Get(b"k".to_vec()).execute(&mut store), Response::Success(Some(b"v".to_vec())));
    assert_eq!(Request::Ping.execute(&mut store), Response::Success(None));
    assert_eq!(Request::Unset(b"k".to_vec()).execute(&mut store), Response::Success(None));
    assert_eq!(store.get(&b"k".to_vec()), None);
}

#[test]
fn response_encoding() {
    let tok = token();
    assert_eq!(Response::NotFound.encode(&tok), reply(2, b""));
    assert_eq!(Response::Success(None).encode(&tok), reply(1, b""));
    assert_eq!(Response::Success(Some(b"xyz".to_vec())).encode(&tok), reply(1, b"xyz"));
}
