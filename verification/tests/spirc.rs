use librespot::protocol::spirc::{
    Capability, CapabilityType, DeviceState, Frame, MessageType, PlayStatus, State, TrackRef,
};

#[test]
fn frame_with_state_roundtrip() {
    let mut t = TrackRef::new();
    t.set_gid(vec![1, 2, 3]);
    t.set_uri("spotify:track:x".to_string());
    let mut st = State::new();
    st.set_context_uri("spotify:album:y".to_string());
    st.set_index(2);
    st.set_status(PlayStatus::kPlayStatusPlay);
    st.set_shuffle(true);
    st.set_track(vec![t]);
    let mut f = Frame::new();
    f.set_version(1);
    f.set_ident("device".to_string());
    f.set_seq_nr(42);
    f.set_typ(MessageType::kMessageTypeNotify);
    f.set_state(st);
    f.set_recipient(vec!["a".to_string(), "b".to_string()]);
    f.set_state_update_id(-5);
    let bytes = f.write_to_bytes();
    assert_eq!(f.compute_size() as usize, bytes.len());
    let back = Frame::parse_from_bytes(&bytes).unwrap();
    assert_eq!(back.get_version(), 1);
    assert_eq!(back.get_ident(), "device");
    assert_eq!(back.get_seq_nr(), 42);
    assert_eq!(back.get_typ(), MessageType::kMessageTypeNotify);
    assert_eq!(back.get_recipient(), &["a".to_string(), "b".to_string()]);
    assert_eq!(back.get_state_update_id(), -5);
    assert!(back.has_state());
    let s = back.get_state();
    assert_eq!(s.get_context_uri(), "spotify:album:y");
    assert_eq!(s.get_index(), 2);
    assert_eq!(s.get_status(), PlayStatus::kPlayStatusPlay);
    assert!(s.get_shuffle());
    assert!(!s.has_repeat());
    assert_eq!(s.get_track().len(), 1);
    assert_eq!(s.get_track()[0].get_gid(), &[1, 2, 3]);
    assert_eq!(s.get_track()[0].get_uri(), "spotify:track:x");
    assert!(!back.has_goodbye());
}

#[test]
fn frame_field_encodings() {
    let mut f = Frame::new();
    f.set_version(300);
    assert_eq!(f.write_to_bytes(), vec![0x08, 0xac, 0x02]);
    let mut f = Frame::new();
    f.set_state_update_id(-1);
    assert_eq!(
        f.write_to_bytes(),
        vec![0x88, 0x01, 0xff, 0xff, 0xff, 0xff, 0xff, 0xff, 0xff, 0xff, 0xff, 0x01]
    );
}

#[test]
fn capabilities_roundtrip() {
    let mut c = Capability::new();
    c.set_typ(CapabilityType::kVolumeSteps);
    c.set_intValue(vec![64, -3]);
    c.set_stringValue(vec!["audio/mp3".to_string()]);
    let mut d = DeviceState::new();
    d.set_is_active(true);
    d.set_volume(65535);
    d.set_name("speaker".to_string());
    d.set_capabilities(vec![c]);
    let back = DeviceState::parse_from_bytes(&d.write_to_bytes()).unwrap();
    assert!(back.get_is_active());
    assert_eq!(back.get_volume(), 65535);
    assert_eq!(back.get_name(), "speaker");
    let caps = back.get_capabilities();
    assert_eq!(caps.len(), 1);
    assert_eq!(caps[0].get_typ(), CapabilityType::kVolumeSteps);
    assert_eq!(caps[0].get_intValue(), &[64, -3]);
    assert_eq!(caps[0].get_stringValue(), &["audio/mp3".to_string()]);
}

#[test]
fn unknown_fields_are_kept() {
    // Field 99 (a varint) is unknown to a Frame: it is kept and written back.
    let bytes = vec![0x08, 0x01, 0x98, 0x06, 0x07];
    let f = Frame::parse_from_bytes(&bytes).unwrap();
    assert_eq!(f.get_version(), 1);
    assert_eq!(f.write_to_bytes(), bytes);
}

#[test]
fn malformed_frames_are_refused() {
    // A length that runs past the end.
    assert!(Frame::parse_from_bytes(&[0x12, 0x05, b'a']).is_err());
    // A wire type that does not match the field.
    assert!(Frame::parse_from_bytes(&[0x0a, 0x01]).is_err());
    // An enumeration number of no value.
    assert!(Frame::parse_from_bytes(&[0x28, 0x7f]).is_err());
    // A truncated varint.
    assert!(Frame::parse_from_bytes(&[0x08, 0x80]).is_err());
}

#[test]
fn enum_values() {
    assert_eq!(MessageType::kMessageTypeHello.value(), 1);
    assert_eq!(MessageType::from_i32(0), None);
    assert_eq!(PlayStatus::from_i32(2), Some(PlayStatus::kPlayStatusPause));
    assert_eq!(PlayStatus::values().len(), 4);
}

#[test]
fn copies_keep_unknown_fields() {
    let bytes = vec![0x08, 0x01, 0x98, 0x06, 0x07, 0x9a, 0x06, 0x02, 0xaa, 0xbb];
    let f = Frame::parse_from_bytes(&bytes).unwrap();
    let copy = f.clone();
    assert_eq!(copy, f);
    assert_eq!(copy.write_to_bytes(), bytes);
}

#[test]
fn unknown_fields_are_written_by_number_and_kind() {
    // field 99 length-delimited, field 100 varint, field 99 varint, field 99 fixed64,
    // field 99 fixed32
    let mut bytes = vec![0x9a, 0x06, 0x01, 0xaa, 0xa0, 0x06, 0x05, 0x98, 0x06, 0x07];
    bytes.extend_from_slice(&[0x99, 0x06, 1, 2, 3, 4, 5, 6, 7, 8, 0x9d, 0x06, 9, 10, 11, 12]);
    let f = Frame::parse_from_bytes(&bytes).unwrap();
    // the values of 99 stand together: fixed32, fixed64, varint, length-delimited; then 100
    let mut expected = vec![0x9d, 0x06, 9, 10, 11, 12, 0x99, 0x06, 1, 2, 3, 4, 5, 6, 7, 8];
    expected.extend_from_slice(&[0x98, 0x06, 0x07, 0x9a, 0x06, 0x01, 0xaa, 0xa0, 0x06, 0x05]);
    assert_eq!(f.write_to_bytes(), expected);
    assert_eq!(f.compute_size() as usize, expected.len());
    // read back, they are written the same way again
    let g = Frame::parse_from_bytes(&expected).unwrap();
    assert_eq!(g.write_to_bytes(), expected);
}
