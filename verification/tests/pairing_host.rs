use clipcloak::pairing::{frame, frame_length, host_step, pair_reply, HostAction, HostEvent};

#[test]
fn lengths_are_little_endian() {
    assert_eq!(frame(&vec![7, 8, 9]), vec![3, 0, 0, 0, 7, 8, 9]);
    assert_eq!(frame(&vec![]), vec![0, 0, 0, 0]);
    assert_eq!(frame_length([1, 2, 3, 4]), u32::from_le_bytes([1, 2, 3, 4]));
    assert_eq!(frame_length([255, 255, 255, 255]), u32::MAX);
}

#[test]
fn a_frame_is_read_back() {
    for n in [0usize, 1, 255, 256, 65_535, 65_536, 70_000] {
        let body: Vec<u8> = (0..n).map(|i| (i % 251) as u8).collect();
        let mut stream = frame(&body);
        stream.extend_from_slice(&[1, 2, 3]);
        let len = frame_length([stream[0], stream[1], stream[2], stream[3]]) as usize;
        assert_eq!(len, n);
        assert_eq!(&stream[4..4 + len], body.as_slice());
        assert_eq!(&stream[4 + len..], &[1, 2, 3]);
    }
}

#[test]
fn a_stored_configuration_is_handed_over() {
    let r = pair_reply(Some((8731, "abc".to_string())));
    assert!(r.ok);
    assert_eq!((r.port, r.token.as_deref(), r.error), (Some(8731), Some("abc"), None));
}

#[test]
fn without_a_configuration_the_reply_says_what_to_do() {
    let r = pair_reply(None);
    assert!(!r.ok);
    assert_eq!((r.port, r.token), (None, None));
    assert_eq!(
        r.error.as_deref(),
        Some("ClipCloak isn't running \u{2014} open the tray app once to pair.")
    );
}

#[test]
fn every_message_is_answered_until_a_stream_closes() {
    assert!(matches!(host_step(HostEvent::Idle), HostAction::ReadPrefix));
    assert!(matches!(host_step(HostEvent::Prefix([2, 1, 0, 0])), HostAction::ReadMessage(258)));
    assert!(matches!(host_step(HostEvent::Message), HostAction::WriteReply));
    assert!(matches!(host_step(HostEvent::Closed), HostAction::Stop));
}
