use librespot::config::{read_config, split_track_file, token_expired};

#[test]
fn config_cookies_are_read() {
    let text = "sp_t=\"abc\"\nsp_dc=dc-value\r\nother=1\nsp_key=key\n";
    let (t, d, k) = read_config(text);
    assert_eq!(t, "abc");
    assert_eq!(d, "dc-value");
    assert_eq!(k, "key");
}

#[test]
fn later_lines_win_and_missing_cookies_are_empty() {
    let (t, d, k) = read_config("sp_dc=one\nsp_dc=two");
    assert_eq!(t, "");
    assert_eq!(d, "two");
    assert_eq!(k, "");
}

#[test]
fn only_the_first_cookie_is_trimmed_of_quotes() {
    let (t, d, _) = read_config("sp_t=\"\"x\"y\"\"\nsp_dc=\"q\"");
    assert_eq!(t, "x\"y");
    assert_eq!(d, "\"q\"");
    let (t, _, _) = read_config("sp_t=\"\"\"");
    assert_eq!(t, "");
}

#[test]
fn a_carriage_return_is_kept_without_a_line_feed() {
    let (_, _, k) = read_config("sp_key=k\r");
    assert_eq!(k, "k\r");
    let (_, _, k) = read_config("");
    assert_eq!(k, "");
}

#[test]
fn key_request_splits_at_stars() {
    assert_eq!(split_track_file("track*file"), Some(("track".to_string(), "file".to_string())));
    assert_eq!(split_track_file("a*b*c"), Some(("a".to_string(), "b".to_string())));
    assert_eq!(split_track_file("*"), Some((String::new(), String::new())));
    assert_eq!(split_track_file("nostar"), None);
}

#[test]
fn tokens_expire_at_their_time() {
    assert!(token_expired(1000, 1000));
    assert!(token_expired(1001, 1000));
    assert!(!token_expired(999, 1000));
}
