use floorcast::errors::ProtocolError;
use floorcast::replay::{
    relative_offset, replay_due, replay_offsets, shallow_parse_data, ReplayFloorMessanger,
};

#[test]
fn shallow_parse_reads_the_timestamp_prefix() {
    let r = shallow_parse_data(String::from("1000:X")).unwrap();
    assert_eq!(r.0, 1000);
    assert_eq!(r.1, "1000:X");
}

#[test]
fn shallow_parse_hands_back_the_full_line() {
    let line = String::from("1500:1,2,3;4,5,6");
    let r = shallow_parse_data(line.clone()).unwrap();
    assert_eq!(r.0, 1500);
    assert_eq!(r.1, line);
}

#[test]
fn shallow_parse_without_colon_reads_the_whole_line() {
    let r = shallow_parse_data(String::from("123")).unwrap();
    assert_eq!(r.0, 123);
    assert_eq!(r.1, "123");
}

#[test]
fn shallow_parse_rejects_malformed_prefixes() {
    assert_eq!(
        shallow_parse_data(String::from("abc:X")),
        Err(ProtocolError::MalformedRecord)
    );
    assert_eq!(
        shallow_parse_data(String::from(":X")),
        Err(ProtocolError::MalformedRecord)
    );
    assert_eq!(
        shallow_parse_data(String::from("")),
        Err(ProtocolError::MalformedRecord)
    );
    assert_eq!(
        shallow_parse_data(String::from("12 34:X")),
        Err(ProtocolError::MalformedRecord)
    );
}

#[test]
fn two_record_log_replays_at_original_cadence() {
    let first = shallow_parse_data(String::from("1000:X")).unwrap();
    let second = shallow_parse_data(String::from("1500:Y")).unwrap();
    let offsets = replay_offsets(&vec![first.0, second.0]);
    assert_eq!(offsets, vec![0, 500]);
    assert!(replay_due(0, offsets[0]), "X is due immediately");
    assert!(!replay_due(499, offsets[1]), "Y is not due before 500ms");
    assert!(replay_due(500, offsets[1]), "Y is due at 500ms");
}

#[test]
fn out_of_order_timestamps_replay_immediately() {
    assert_eq!(relative_offset(1000, 900), 0);
    assert_eq!(relative_offset(1000, 1000), 0);
    let offsets = replay_offsets(&vec![1000, 900, 1000, 1700]);
    assert_eq!(offsets, vec![0, 0, 0, 700]);
}

#[test]
fn replay_messanger_keeps_its_log_path() {
    let m = ReplayFloorMessanger::new(String::from("capture.dat"));
    assert_eq!(m.filename, "capture.dat");
}
