use ircd::{create_message, DecodeError, Event, EventAction, PrivMsgEvent};
use ripemd::{Digest, Ripemd256};

fn priv_msg(action: &EventAction) -> &PrivMsgEvent {
    match action {
        EventAction::PrivMsg(m) => m,
    }
}

#[test]
fn an_event_is_written_in_the_documented_form() {
    let event = create_message([9u8; 32], "ab", "c", 0x0102);
    let mut bytes = vec![0xeeu8];
    let len = event.encode(&mut bytes);
    let mut expected = vec![0xeeu8];
    expected.extend_from_slice(&[9u8; 32]);
    expected.extend_from_slice(&[0, 2, 97, 98, 1, 99]);
    expected.extend_from_slice(&[2, 1, 0, 0, 0, 0, 0, 0]);
    assert_eq!(bytes, expected);
    assert_eq!(len, 46);
}

#[test]
fn long_strings_have_long_lengths() {
    let lengths: [(usize, Vec<u8>); 4] = [
        (0xfc, vec![0xfc]),
        (0xfd, vec![0xfd, 0xfd, 0x00]),
        (0xffff, vec![0xfd, 0xff, 0xff]),
        (0x10000, vec![0xfe, 0x00, 0x00, 0x01, 0x00]),
    ];
    for (n, prefix) in lengths {
        let m = PrivMsgEvent { nick: "x".repeat(n), msg: String::new() };
        let mut bytes = Vec::new();
        let len = m.encode(&mut bytes);
        assert_eq!(len, prefix.len() + n + 1);
        assert_eq!(&bytes[..prefix.len()], prefix.as_slice());
        let (back, used) = PrivMsgEvent::decode(&bytes).ok().unwrap();
        assert_eq!(back.nick.len(), n);
        assert_eq!(used, len);
    }
}

#[test]
fn what_is_written_is_read_back() {
    let event = create_message([3u8; 32], "n\u{fc}ck", "\u{1f980} hello", u64::MAX);
    let mut bytes = Vec::new();
    let len = event.encode(&mut bytes);
    bytes.extend_from_slice(&[1, 2, 3]);
    let (back, used) = Event::decode(&bytes).ok().unwrap();
    assert_eq!(used, len);
    assert_eq!(back.previous_event_hash, [3u8; 32]);
    assert_eq!(priv_msg(&back.action).nick, "n\u{fc}ck");
    assert_eq!(priv_msg(&back.action).msg, "\u{1f980} hello");
    assert_eq!(back.timestamp, u64::MAX);
    let mut again = Vec::new();
    back.encode(&mut again);
    assert_eq!(again.as_slice(), &bytes[..len]);
}

#[test]
fn bytes_that_are_no_action_are_refused() {
    assert_eq!(EventAction::decode(&[]).err(), Some(DecodeError::UnexpectedEof));
    assert_eq!(EventAction::decode(&[1, 0, 0]).err(), Some(DecodeError::BadTypeId));
    assert_eq!(EventAction::decode(&[0, 2, 97]).err(), Some(DecodeError::UnexpectedEof));
    assert_eq!(EventAction::decode(&[0, 0xfd, 1]).err(), Some(DecodeError::UnexpectedEof));
    assert_eq!(
        EventAction::decode(&[0, 0xfd, 0xfc, 0]).err(),
        Some(DecodeError::NonMinimalVarInt)
    );
    assert_eq!(
        EventAction::decode(&[0, 0xfe, 0xff, 0xff, 0, 0]).err(),
        Some(DecodeError::NonMinimalVarInt)
    );
    assert_eq!(
        EventAction::decode(&[0, 0xff, 0xff, 0xff, 0xff, 0xff, 0, 0, 0, 0]).err(),
        Some(DecodeError::NonMinimalVarInt)
    );
    assert_eq!(
        EventAction::decode(&[0, 0xff, 0, 0, 0, 0, 1, 0, 0, 0]).err(),
        Some(DecodeError::UnexpectedEof)
    );
    assert_eq!(EventAction::decode(&[0, 1, 0xff, 0]).err(), Some(DecodeError::InvalidUtf8));
    assert_eq!(EventAction::decode(&[0, 0, 0, 5]).ok().unwrap().1, 3);
}

#[test]
fn errors_are_put_in_words() {
    for byte in [1u8, 255] {
        let error = EventAction::decode(&[byte]).err().unwrap();
        assert_eq!(error.message(), "Bad type ID byte for Event");
    }
    let error = EventAction::decode(&[]).err().unwrap();
    assert_eq!(error.message(), "failed to fill whole buffer");
    assert_eq!(DecodeError::NonMinimalVarInt.message(), "non-minimal varint");
    assert_eq!(DecodeError::InvalidUtf8.message(), "invalid UTF-8");
}

#[test]
fn a_cut_off_event_is_refused() {
    let mut bytes = Vec::new();
    let len = create_message([1u8; 32], "a", "b", 5).encode(&mut bytes);
    for n in 0..len {
        assert_eq!(Event::decode(&bytes[..n]).err(), Some(DecodeError::UnexpectedEof));
    }
    assert!(Event::decode(&bytes).is_ok());
}

#[test]
fn the_hash_is_the_digest_of_the_bytes() {
    let event = create_message([5u8; 32], "nick", "msg", 77);
    let mut bytes = Vec::new();
    event.encode(&mut bytes);
    let digest = Ripemd256::digest(&bytes);
    assert_eq!(event.hash().as_slice(), digest.as_slice());
    assert!(event.is_hashable());
    assert_ne!(event.hash(), create_message([5u8; 32], "nick", "msg", 78).hash());
    assert_eq!(event.hash(), event.duplicate().hash());
}

#[test]
fn an_event_is_shown_with_its_time() {
    let event = create_message([0u8; 32], "bob", "hello there", 0);
    assert_eq!(event.fmt(), "PRIVMSG bob: hello there (0)");
    let event = create_message([0u8; 32], "bob", "", u64::MAX);
    assert_eq!(event.fmt(), "PRIVMSG bob:  (18446744073709551615)");
}
