use autobahn::flags::Msg;
use autobahn::lidar::{LidarWorkingMode, MessageType};
use bytes::Bytes;

#[test]
fn working_modes_are_numbered_from_one() {
    assert_eq!(LidarWorkingMode::NORMAL.code(), 1);
    assert_eq!(LidarWorkingMode::STANDBY.code(), 2);
}

#[test]
fn working_mode_codes_are_read_back() {
    assert_eq!(LidarWorkingMode::from_code(1), Some(LidarWorkingMode::NORMAL));
    assert_eq!(LidarWorkingMode::from_code(2), Some(LidarWorkingMode::STANDBY));
    assert_eq!(LidarWorkingMode::from_code(0), None);
    assert_eq!(LidarWorkingMode::from_code(3), None);
}

#[test]
fn message_types_are_numbered_from_zero() {
    assert_eq!(MessageType::NONE.code(), 0);
    assert_eq!(MessageType::IMU.code(), 1);
    assert_eq!(MessageType::POINTCLOUD.code(), 2);
    assert_eq!(MessageType::RANGE.code(), 3);
    assert_eq!(MessageType::AUXILIARY.code(), 4);
    assert_eq!(MessageType::VERSION.code(), 5);
    assert_eq!(MessageType::TIMESYNC.code(), 6);
}

#[test]
fn message_type_codes_are_read_back() {
    for code in 0..7 {
        assert_eq!(MessageType::from_code(code).map(|k| k.code()), Some(code));
    }
    assert_eq!(MessageType::from_code(7), None);
    assert_eq!(MessageType::from_code(u32::MAX), None);
}

#[test]
fn short_messages_are_encodable() {
    assert!(Msg::SUBSCRIBE("a".to_string()).is_encodable());
    assert!(Msg::UNSUBSCRIBE(String::new()).is_encodable());
    assert!(Msg::PUBLISH("a".to_string(), Bytes::from(vec![0; 1000])).is_encodable());
}
