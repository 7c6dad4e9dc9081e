use librespot::protocol::mercury::{Header, MercuryMultiGetRequest, MercuryReply, MercuryReply_CachePolicy, MercuryRequest};

#[test]
fn request_roundtrip() {
    let mut r = MercuryRequest::new();
    r.set_uri("hm://metadata/track".to_string());
    r.set_body(vec![1, 2, 3]);
    let bytes = r.write_to_bytes();
    assert_eq!(bytes, vec![0x0a, 19, b'h', b'm', b':', b'/', b'/', b'm', b'e', b't', b'a', b'd', b'a', b't', b'a', b'/', b't', b'r', b'a', b'c', b'k', 0x1a, 3, 1, 2, 3]);
    let back = MercuryRequest::parse_from_bytes(&bytes).unwrap();
    assert_eq!(back.get_uri(), "hm://metadata/track");
    assert_eq!(back.get_body(), &[1, 2, 3]);
    assert!(!back.has_content_type());
}

#[test]
fn header_status_code() {
    let mut h = Header::new();
    h.set_status_code(404);
    let bytes = h.write_to_bytes();
    let back = Header::parse_from_bytes(&bytes).unwrap();
    assert_eq!(back.get_status_code(), 404);
    assert_eq!(h.compute_size() as usize, bytes.len());
}

#[test]
fn cache_policy_values() {
    assert_eq!(MercuryReply_CachePolicy::CACHE_PRIVATE.value(), 2);
    assert_eq!(MercuryReply_CachePolicy::from_i32(3), Some(MercuryReply_CachePolicy::CACHE_PUBLIC));
    assert_eq!(MercuryReply_CachePolicy::from_i32(7), None);
    let r = MercuryReply::new();
    assert_eq!(r.write_to_bytes(), Vec::<u8>::new());
}

#[test]
fn failed_merge_keeps_the_fields_read_before_the_error() {
    let mut r = MercuryReply::new();
    // status_code (sint32) 1, then field ttl with the length-delimited wire type
    assert!(r.merge_from_bytes(&[0x08, 0x02, 0x22, 0x00]).is_err());
    assert_eq!(r.get_status_code(), 1);
    assert!(r.has_status_code());
    assert!(!r.has_ttl());
}

#[test]
fn merge_into_a_message_replaces_set_fields_and_keeps_the_others() {
    let mut r = MercuryRequest::new();
    r.set_uri("a".to_string());
    r.set_body(vec![9]);
    assert!(r.merge_from_bytes(&[0x0a, 1, b'b']).is_ok());
    assert_eq!(r.get_uri(), "b");
    assert_eq!(r.get_body(), &[9]);
    assert!(r.merge_from_bytes(&[]).is_ok());
    assert_eq!(r.get_uri(), "b");
    // a truncated body leaves the uri read before it, and the body set and empty
    assert!(r.merge_from_bytes(&[0x0a, 1, b'c', 0x1a, 5, 1]).is_err());
    assert_eq!(r.get_uri(), "c");
    assert!(r.has_body());
    assert_eq!(r.get_body(), &[] as &[u8]);
}

#[test]
fn failed_string_read_leaves_the_field_set_and_empty() {
    let mut r = MercuryRequest::new();
    r.set_uri("old".to_string());
    assert!(r.merge_from_bytes(&[0x0a, 0x05, 0x61]).is_err());
    assert!(r.has_uri());
    assert_eq!(r.get_uri(), "");
    // a wrong wire type fails before the field is touched
    let mut r = MercuryRequest::new();
    r.set_uri("old".to_string());
    assert!(r.merge_from_bytes(&[0x08, 0x01]).is_err());
    assert_eq!(r.get_uri(), "old");
}

#[test]
fn failed_embedded_message_keeps_what_was_merged_into_it() {
    let mut m = MercuryMultiGetRequest::new();
    assert!(m.merge_from_bytes(&[0x0a, 0x05, 0x0a, 0x01, b'x', 0x1a, 0x09]).is_err());
    assert_eq!(m.get_request().len(), 1);
    assert_eq!(m.get_request()[0].get_uri(), "x");
    assert!(m.get_request()[0].has_body());
    assert!(m.get_request()[0].get_body().is_empty());
    // a length that cannot be read leaves an empty element
    let mut m = MercuryMultiGetRequest::new();
    assert!(m.merge_from_bytes(&[0x0a, 0x80]).is_err());
    assert_eq!(m.get_request().len(), 1);
    assert!(!m.get_request()[0].has_uri());
}

#[test]
fn embedded_message_cut_short_by_the_end_of_the_input_is_read_to_the_end() {
    // the length of the embedded request says 5, but only 3 bytes follow: the request is
    // read up to the end of the input
    let m = MercuryMultiGetRequest::parse_from_bytes(&[0x0a, 0x05, 0x0a, 0x01, b'x']).unwrap();
    assert_eq!(m.get_request().len(), 1);
    assert_eq!(m.get_request()[0].get_uri(), "x");
    // a value inside it that runs past the end is still an error
    assert!(MercuryMultiGetRequest::parse_from_bytes(&[0x0a, 0x05, 0x0a, 0x04, b'x']).is_err());
    // inside an embedded message whose bytes are all there, a length past its end is an error
    assert!(MercuryMultiGetRequest::parse_from_bytes(&[0x0a, 0x02, 0x0a, 0x01, b'x']).is_err());
}
