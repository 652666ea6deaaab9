use autobahn::flags::{is_topic_match, Msg};
use bytes::Bytes;

fn subscribe_frame(topic: &str) -> Vec<u8> {
    let mut v = vec![0x01];
    v.extend_from_slice(&(topic.len() as u32).to_be_bytes());
    v.extend_from_slice(topic.as_bytes());
    v
}

#[test]
fn subscribe_frame_decodes_to_subscribe() {
    let frame = Bytes::from(vec![0x01, 0, 0, 0, 9, b's', b'e', b'n', b's', b'o', b'r', b's', b'/', b'x']);
    assert_eq!(
        Msg::parse_message(frame),
        Some(Msg::SUBSCRIBE("sensors/x".to_string()))
    );
}

#[test]
fn unsubscribe_frame_decodes_to_unsubscribe() {
    let frame = Bytes::from(vec![0x02, 0, 0, 0, 1, b'a']);
    assert_eq!(Msg::parse_message(frame), Some(Msg::UNSUBSCRIBE("a".to_string())));
}

#[test]
fn publish_frame_decodes_topic_and_payload() {
    let frame = Bytes::from(vec![0x03, 0, 0, 0, 2, b'a', b'b', 0, 0, 0, 3, 1, 2, 3]);
    assert_eq!(
        Msg::parse_message(frame),
        Some(Msg::PUBLISH("ab".to_string(), Bytes::from(vec![1, 2, 3])))
    );
}

#[test]
fn publish_payload_is_cut_at_its_length() {
    // Two bytes follow the payload; they are not part of it.
    let frame = Bytes::from(vec![0x03, 0, 0, 0, 1, b't', 0, 0, 0, 2, 7, 8, 9, 9]);
    assert_eq!(
        Msg::parse_message(frame),
        Some(Msg::PUBLISH("t".to_string(), Bytes::from(vec![7, 8])))
    );
}

#[test]
fn multibyte_topic_decodes() {
    let topic = "caf\u{e9}/\u{1f600}";
    assert_eq!(
        Msg::parse_message(Bytes::from(subscribe_frame(topic))),
        Some(Msg::SUBSCRIBE(topic.to_string()))
    );
}

#[test]
fn empty_topic_decodes() {
    assert_eq!(
        Msg::parse_message(Bytes::from(vec![0x01, 0, 0, 0, 0])),
        Some(Msg::SUBSCRIBE(String::new()))
    );
}

#[test]
fn empty_buffer_is_rejected() {
    assert_eq!(Msg::parse_message(Bytes::new()), None);
}

#[test]
fn flag_alone_is_rejected() {
    assert_eq!(Msg::parse_message(Bytes::from(vec![0x01])), None);
    assert_eq!(Msg::parse_message(Bytes::from(vec![0x01, 0, 0, 0])), None);
}

#[test]
fn truncated_topic_is_rejected() {
    assert_eq!(Msg::parse_message(Bytes::from(vec![0x01, 0, 0, 0, 3, b'a', b'b'])), None);
}

#[test]
fn every_proper_prefix_of_a_frame_is_rejected() {
    let whole = Msg::build_message(Msg::PUBLISH("topic".to_string(), Bytes::from(vec![4, 5, 6])));
    for k in 0..whole.len() {
        assert_eq!(Msg::parse_message(whole.slice(0..k)), None, "prefix of length {}", k);
    }
    assert!(Msg::parse_message(whole).is_some());
}

#[test]
fn truncated_payload_is_rejected() {
    assert_eq!(
        Msg::parse_message(Bytes::from(vec![0x03, 0, 0, 0, 1, b't', 0, 0, 0, 2, 7])),
        None
    );
    assert_eq!(
        Msg::parse_message(Bytes::from(vec![0x03, 0, 0, 0, 1, b't', 0, 0])),
        None
    );
}

#[test]
fn unknown_flag_is_rejected() {
    assert_eq!(Msg::parse_message(Bytes::from(vec![0x00, 0, 0, 0, 1, b'a'])), None);
    assert_eq!(Msg::parse_message(Bytes::from(vec![0x04, 0, 0, 0, 1, b'a'])), None);
    assert_eq!(Msg::parse_message(Bytes::from(vec![0xff, 0, 0, 0, 1, b'a'])), None);
}

#[test]
fn invalid_utf8_topic_is_rejected() {
    assert_eq!(Msg::parse_message(Bytes::from(vec![0x01, 0, 0, 0, 2, 0xc3, 0x28])), None);
    assert_eq!(Msg::parse_message(Bytes::from(vec![0x01, 0, 0, 0, 1, 0xff])), None);
}

#[test]
fn huge_declared_length_is_rejected() {
    assert_eq!(
        Msg::parse_message(Bytes::from(vec![0x01, 0xff, 0xff, 0xff, 0xff, b'a'])),
        None
    );
}

#[test]
fn length_prefix_is_big_endian() {
    let mut frame = vec![0x01, 0, 0, 1, 2];
    frame.extend(std::iter::repeat(b'z').take(258));
    match Msg::parse_message(Bytes::from(frame)) {
        Some(Msg::SUBSCRIBE(topic)) => assert_eq!(topic.len(), 258),
        other => panic!("unexpected {:?}", other),
    }
}

#[test]
fn subscribe_encodes_flag_length_topic() {
    let frame = Msg::build_message(Msg::SUBSCRIBE("ab".to_string()));
    assert_eq!(&frame[..], &[0x01, 0, 0, 0, 2, b'a', b'b'][..]);
}

#[test]
fn unsubscribe_encodes_flag_length_topic() {
    let frame = Msg::build_message(Msg::UNSUBSCRIBE("ab".to_string()));
    assert_eq!(&frame[..], &[0x02, 0, 0, 0, 2, b'a', b'b'][..]);
}

#[test]
fn publish_encodes_flag_topic_and_payload() {
    let frame = Msg::build_message(Msg::PUBLISH("t".to_string(), Bytes::from(vec![9, 8])));
    assert_eq!(&frame[..], &[0x03, 0, 0, 0, 1, b't', 0, 0, 0, 2, 9, 8][..]);
}

#[test]
fn long_topic_length_uses_all_four_bytes() {
    let topic: String = std::iter::repeat('q').take(70_000).collect();
    let frame = Msg::build_message(Msg::SUBSCRIBE(topic));
    // 70 000 = 0x00011170
    assert_eq!(&frame[..5], &[0x01, 0x00, 0x01, 0x11, 0x70][..]);
    assert_eq!(frame.len(), 5 + 70_000);
}

#[test]
fn round_trip_subscribe() {
    let msg = Msg::SUBSCRIBE("robot/pose".to_string());
    assert_eq!(Msg::parse_message(Msg::build_message(msg.clone())), Some(msg));
}

#[test]
fn round_trip_unsubscribe() {
    let msg = Msg::UNSUBSCRIBE("robot/pose".to_string());
    assert_eq!(Msg::parse_message(Msg::build_message(msg.clone())), Some(msg));
}

#[test]
fn round_trip_publish() {
    let payload: Vec<u8> = (0..=255).collect();
    let msg = Msg::PUBLISH("lidar/\u{3b1}".to_string(), Bytes::from(payload));
    assert_eq!(Msg::parse_message(Msg::build_message(msg.clone())), Some(msg));
}

#[test]
fn round_trip_publish_with_empty_payload() {
    let msg = Msg::PUBLISH("t".to_string(), Bytes::new());
    assert_eq!(Msg::parse_message(Msg::build_message(msg.clone())), Some(msg));
}

#[test]
fn get_flag_numbers_the_kinds() {
    assert_eq!(Msg::get_flag(&Msg::SUBSCRIBE(String::new())), 0x01);
    assert_eq!(Msg::get_flag(&Msg::UNSUBSCRIBE(String::new())), 0x02);
    assert_eq!(Msg::get_flag(&Msg::PUBLISH(String::new(), Bytes::new())), 0x03);
}

#[test]
fn topic_match_is_a_prefix_test() {
    let msg = Bytes::from(&b"sensors/x and more"[..]);
    assert!(is_topic_match("sensors/x", &msg));
    assert!(is_topic_match("", &msg));
    assert!(!is_topic_match("sensors/y", &msg));
    assert!(!is_topic_match("sensors/x and more and more", &msg));
}

#[test]
fn checked_encoding_gives_the_same_frame() {
    let msg = Msg::PUBLISH("t".to_string(), Bytes::from(vec![9, 8]));
    assert!(msg.is_encodable());
    let frame = Msg::try_build_message(msg.clone());
    assert_eq!(frame, Some(Msg::build_message(msg)));
    assert_eq!(
        Msg::try_build_message(Msg::SUBSCRIBE("ab".to_string())),
        Some(Bytes::from(vec![0x01, 0, 0, 0, 2, b'a', b'b']))
    );
}
