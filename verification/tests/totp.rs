use librespot::totp::key_server_totp;

#[test]
fn key_server_code_is_the_sha512_totp_of_the_secret() {
    for &t in &[0u64, 59, 1_111_111_109, 2_000_000_000] {
        let code = key_server_totp(t);
        let expected = totp_lite::totp_custom::<totp_lite::Sha512>(
            30,
            6,
            b"GU2TANZRGQ2TQNJTGQ4DONBZHE2TSMRSGQ4DMMZQGMZDSMZUG4",
            t,
        );
        assert_eq!(code, expected);
        assert_eq!(code.len(), 6);
        assert!(code.chars().all(|c| c.is_ascii_digit()));
    }
}

#[test]
fn key_server_code_changes_with_the_time_step() {
    assert_eq!(key_server_totp(30), key_server_totp(59));
    assert_ne!(key_server_totp(0), key_server_totp(1_000_000_000));
}
