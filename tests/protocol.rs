use intstore::handler::{handle_submission, step, Action, Event, HandlerError, Phase};
use intstore::protocol::{parse_submission, strip_update_prefix, update_message};

#[test]
fn parses_plain_and_padded_integers() {
    assert_eq!(parse_submission(b"5"), Ok(5));
    assert_eq!(parse_submission(b"  42\r\n"), Ok(42));
    assert_eq!(parse_submission(b"\t-17 "), Ok(-17));
    assert_eq!(parse_submission(b"+8"), Ok(8));
    assert_eq!(parse_submission(b"007"), Ok(7));
}

#[test]
fn parses_the_i32_limits() {
    assert_eq!(parse_submission(b"2147483647"), Ok(i32::MAX));
    assert_eq!(parse_submission(b"-2147483648"), Ok(i32::MIN));
}

#[test]
fn rejects_non_numeric_payloads() {
    for bad in [
        &b"abc"[..],
        b"",
        b"   ",
        b"4 2",
        b"-",
        b"+",
        b"12a",
        b"2147483648",
        b"-2147483649",
        b"99999999999999999999",
        b"1.5",
    ] {
        assert!(parse_submission(bad).is_err());
    }
}

#[test]
fn non_numeric_payload_leaves_store_alone() {
    let stored = b"{\"integers\":[1]}";
    match handle_submission(b"abc", stored) {
        Err(e) => assert_eq!(e, HandlerError::ProtocolDecode),
        Ok(_) => panic!("a non-numeric payload was applied"),
    }
}

#[test]
fn corrupt_store_is_a_storage_error() {
    match handle_submission(b"3", b"{oops") {
        Err(e) => assert_eq!(e, HandlerError::StorageDecode),
        Ok(_) => panic!("a corrupt store was overwritten"),
    }
}

#[test]
fn submission_to_empty_store() {
    let a = handle_submission(b"5\n", b"").ok().unwrap();
    assert_eq!(a.value, 5);
    assert_eq!(a.document, b"{\"integers\":[5]}".to_vec());
    assert_eq!(a.message, b"Updated JSON data: {\"integers\":[5]}".to_vec());
}

#[test]
fn update_message_has_prefix() {
    assert_eq!(update_message(b"{}"), b"Updated JSON data: {}".to_vec());
}

#[test]
fn client_strips_prefix() {
    let m = update_message(b"{\"integers\":[1]}");
    assert_eq!(strip_update_prefix(&m), b"{\"integers\":[1]}".to_vec());
}

#[test]
fn client_strips_repeated_prefix() {
    let m = b"Updated JSON data: Updated JSON data: x";
    assert_eq!(strip_update_prefix(m), b"x".to_vec());
}

#[test]
fn message_without_prefix_is_kept() {
    assert_eq!(strip_update_prefix(b"Updated: 1"), b"Updated: 1".to_vec());
    assert_eq!(strip_update_prefix(b""), Vec::<u8>::new());
}

#[test]
fn connection_lifecycle() {
    let (p, a) = step(Phase::AwaitingInteger, Event::Received(b" 9 ".to_vec()));
    assert_eq!(p, Phase::Processing);
    assert!(matches!(a, Action::Append(9)));
    let (p, a) = step(p, Event::Stored(b"m".to_vec()));
    assert_eq!(p, Phase::Listening);
    assert!(matches!(a, Action::RegisterAndBroadcast(ref m) if m == b"m"));
    let (p, a) = step(p, Event::Relayed(b"n".to_vec()));
    assert_eq!(p, Phase::Listening);
    assert!(matches!(a, Action::Write(ref m) if m == b"n"));
    let (p, a) = step(p, Event::Ended);
    assert_eq!(p, Phase::Closed);
    assert!(matches!(a, Action::UnregisterAndClose));
    let (p, a) = step(p, Event::Relayed(b"late".to_vec()));
    assert_eq!(p, Phase::Closed);
    assert!(matches!(a, Action::Ignore));
}

#[test]
fn bad_payload_closes_connection() {
    let (p, a) = step(Phase::AwaitingInteger, Event::Received(b"abc".to_vec()));
    assert_eq!(p, Phase::Closed);
    assert!(matches!(a, Action::Reject(HandlerError::ProtocolDecode)));
}

#[test]
fn failed_read_and_store_close_connection() {
    let (p, a) = step(Phase::AwaitingInteger, Event::ReadFailed);
    assert_eq!(p, Phase::Closed);
    assert!(matches!(a, Action::Close));
    let (p, a) = step(Phase::Processing, Event::StoreFailed);
    assert_eq!(p, Phase::Closed);
    assert!(matches!(a, Action::Reject(HandlerError::StorageDecode)));
}

#[test]
fn parses_integers_padded_with_unicode_space() {
    assert_eq!(parse_submission(b"5\xc2\xa0"), Ok(5));
    assert_eq!(parse_submission(b"\xe3\x80\x80-3\xe2\x80\xa8"), Ok(-3));
    assert_eq!(parse_submission(b"\xc2\x85\xe1\x9a\x80 12\xe2\x80\x8a\xe2\x81\x9f"), Ok(12));
    assert_eq!(parse_submission(b"\xe2\x80\xaf7\xe2\x80\x80"), Ok(7));
}

#[test]
fn rejects_broken_or_inner_unicode_bytes() {
    assert!(parse_submission(b"\xc25").is_err());
    assert!(parse_submission(b"5\xa0").is_err());
    assert!(parse_submission(b"5\xc2\xa01").is_err());
    assert!(parse_submission(b"\xe2\x80\x8b5").is_err());
    assert!(parse_submission(b"\xc2\xa0\xc2\xa0").is_err());
}
