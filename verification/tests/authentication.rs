use crypto::aes;
use crypto::buffer::{RefReadBuffer, RefWriteBuffer};
use crypto::digest::Digest;
use crypto::hmac::Hmac;
use crypto::mac::Mac;
use crypto::symmetriccipher::SynchronousStreamCipher;
use librespot::authentication::discovery::{add_user_from_params, param, request_params, AddUserError};
use crypto::pbkdf2::pbkdf2;
use crypto::sha1::Sha1;
use librespot::authentication::{
    discovery_login, facebook_login, read_blob_fields, unmix, Credentials, StoredCredentials,
};
use librespot::protocol::authentication::AuthenticationType;
use rustc_serialize::base64::{ToBase64, STANDARD};

fn sha1(data: &[u8]) -> Vec<u8> {
    let mut out = [0u8; 20];
    let mut h = Sha1::new();
    h.input(data);
    h.result(&mut out);
    out.to_vec()
}

fn blob_key(username: &str, device_id: &str) -> Vec<u8> {
    let secret = sha1(device_id.as_bytes());
    let mut mac = Hmac::new(Sha1::new(), &secret);
    let mut derived = [0u8; 20];
    pbkdf2(&mut mac, username.as_bytes(), 0x100, &mut derived);
    let mut key = sha1(&derived);
    key.extend_from_slice(&[0, 0, 0, 20]);
    key
}

/// Builds the encrypted blob that a controller would send for `plain`.
fn make_blob(username: &str, device_id: &str, plain: &[u8]) -> String {
    let mut mixed = plain.to_vec();
    for j in 16..mixed.len() {
        mixed[j] ^= mixed[j - 16];
    }
    let key = blob_key(username, device_id);
    let mut out = vec![0u8; mixed.len()];
    let mut cipher = aes::ecb_encryptor(aes::KeySize::KeySize192, &key, crypto::blockmodes::NoPadding);
    cipher
        .encrypt(&mut RefReadBuffer::new(&mixed), &mut RefWriteBuffer::new(&mut out), true)
        .unwrap();
    out.to_base64(STANDARD)
}

fn plain_blob(kind: u8, data: &[u8]) -> Vec<u8> {
    let mut p = vec![0x49, 3, b'a', b'b', b'c', 0x50, kind, 0x51, data.len() as u8];
    p.extend_from_slice(data);
    while p.len() % 16 != 0 {
        p.push(0);
    }
    p
}

#[test]
fn with_password_keeps_user_and_password() {
    let c = Credentials::with_password("alice".to_string(), "s3cret".to_string());
    assert_eq!(c.username, "alice");
    assert_eq!(c.auth_type, AuthenticationType::AUTHENTICATION_USER_PASS);
    assert_eq!(c.auth_data, b"s3cret".to_vec());
}

#[test]
fn blob_of_stored_credentials_is_read_back() {
    let plain = plain_blob(1, b"token-bytes");
    let blob = make_blob("bob", "device-1", &plain);
    let c = Credentials::with_blob("bob".to_string(), &blob, "device-1");
    assert_eq!(c.username, "bob");
    assert_eq!(c.auth_type, AuthenticationType::AUTHENTICATION_STORED_SPOTIFY_CREDENTIALS);
    assert_eq!(c.auth_data, b"token-bytes".to_vec());
    let again = Credentials::try_with_blob("bob".to_string(), &blob, "device-1").unwrap();
    assert_eq!(again.auth_data, b"token-bytes".to_vec());
}

#[test]
fn blob_under_another_device_is_not_read() {
    let plain = plain_blob(1, b"token-bytes");
    let blob = make_blob("bob", "device-1", &plain);
    // Under the wrong key the contents are noise: either no valid fields or other bytes.
    match Credentials::try_with_blob("bob".to_string(), &blob, "device-2") {
        None => {}
        Some(c) => assert_ne!(c.auth_data, b"token-bytes".to_vec()),
    }
}

#[test]
fn blob_that_is_no_base64_is_refused() {
    assert!(Credentials::try_with_blob("bob".to_string(), "not base64 !!", "d").is_none());
}

#[test]
fn blob_shorter_than_a_block_is_refused() {
    let short = vec![1u8, 2, 3, 4].to_base64(STANDARD);
    assert!(Credentials::try_with_blob("bob".to_string(), &short, "d").is_none());
    let ragged = vec![7u8; 20].to_base64(STANDARD);
    assert!(Credentials::try_with_blob("bob".to_string(), &ragged, "d").is_none());
}

#[test]
fn blob_fields_of_two_byte_numbers() {
    // A first byte with its high bit set: 0x81 0x01 is 1 + 1 * 128 = 129, no known kind.
    let b = vec![0, 0, 0, 0x81, 0x01, 0, 1, 9];
    assert!(read_blob_fields(&b).is_none());
    // Kind 4 in one byte, then two bytes of data.
    let b = vec![0, 1, 7, 0, 4, 0, 2, 5, 6];
    let (t, d) = read_blob_fields(&b).unwrap();
    assert_eq!(t, AuthenticationType::AUTHENTICATION_FACEBOOK_TOKEN);
    assert_eq!(d, vec![5, 6]);
    // Data shorter than its length.
    let b = vec![0, 0, 0, 2, 0, 3, 5, 6];
    assert!(read_blob_fields(&b).is_none());
}

#[test]
fn unmix_xors_with_the_byte_sixteen_before() {
    let mut d: Vec<u8> = (0u8..20).collect();
    unmix(&mut d);
    for j in 0..16 {
        assert_eq!(d[j], j as u8);
    }
    for j in 16..20 {
        assert_eq!(d[j], (j as u8) ^ ((j - 16) as u8));
    }
}

#[test]
fn stored_credentials_roundtrip() {
    let c = Credentials::with_password("carol".to_string(), "pw".to_string());
    let s = StoredCredentials::from_credentials(c);
    assert_eq!(s.auth_type, 0);
    assert_eq!(s.auth_data, "cHc=");
    let back = Credentials::try_from_stored(s).unwrap();
    assert_eq!(back.username, "carol");
    assert_eq!(back.auth_type, AuthenticationType::AUTHENTICATION_USER_PASS);
    assert_eq!(back.auth_data, b"pw".to_vec());
}

#[test]
fn stored_credentials_of_unknown_kind_are_refused() {
    let s = StoredCredentials { username: "d".to_string(), auth_type: 9, auth_data: "cHc=".to_string() };
    assert!(Credentials::try_from_stored(s).is_none());
    let s = StoredCredentials { username: "d".to_string(), auth_type: 0, auth_data: "?!".to_string() };
    assert!(Credentials::try_from_stored(s).is_none());
    let s = StoredCredentials { username: "d".to_string(), auth_type: 3, auth_data: "AAE=".to_string() };
    let c = Credentials::from_stored(s);
    assert_eq!(c.auth_type, AuthenticationType::AUTHENTICATION_SPOTIFY_TOKEN);
    assert_eq!(c.auth_data, vec![0, 1]);
}

#[test]
fn logins_not_built_in_fail() {
    assert!(discovery_login("name", "id").is_err());
    assert!(facebook_login().is_err());
}

#[test]
fn authentication_type_numbers() {
    assert_eq!(AuthenticationType::AUTHENTICATION_FACEBOOK_TOKEN.value(), 4);
    assert_eq!(AuthenticationType::from_i32(2), Some(AuthenticationType::AUTHENTICATION_STORED_FACEBOOK_CREDENTIALS));
    assert_eq!(AuthenticationType::from_i32(5), None);
    assert_eq!(AuthenticationType::values().len(), 5);
}

/// The outer blob of an `addUser` request that carries `text`, for the shared key `shared`.
fn add_user_envelope(shared: &[u8], text: &[u8]) -> Vec<u8> {
    let base = sha1(shared);
    let mut h = Hmac::new(Sha1::new(), &base[..16]);
    h.input(b"checksum");
    let ck = h.result().code().to_vec();
    let mut h = Hmac::new(Sha1::new(), &base[..16]);
    h.input(b"encryption");
    let ek = h.result().code().to_vec();
    let iv = [5u8; 16];
    let mut enc = vec![0u8; text.len()];
    let mut c = aes::ctr(aes::KeySize::KeySize128, &ek[..16], &iv);
    c.process(text, &mut enc);
    let mut h = Hmac::new(Sha1::new(), &ck);
    h.input(&enc);
    let mac = h.result().code().to_vec();
    let mut blob = iv.to_vec();
    blob.extend_from_slice(&enc);
    blob.extend_from_slice(&mac);
    blob
}

#[test]
fn add_user_request_parameters_give_the_credentials() {
    let inner = make_blob("bob", "dev", &plain_blob(1, b"tok"));
    // client key 3 and private key 2 share the key 3^2 = 9
    let outer = add_user_envelope(&[9], inner.as_bytes()).to_base64(STANDARD);
    let client_key = [3u8].to_base64(STANDARD);
    assert_eq!(client_key, "Aw==");
    let c = add_user_from_params("bob".to_string(), &outer, &client_key, &[2], "dev").unwrap();
    assert_eq!(c.username, "bob");
    assert_eq!(c.auth_type, AuthenticationType::AUTHENTICATION_STORED_SPOTIFY_CREDENTIALS);
    assert_eq!(c.auth_data, b"tok".to_vec());
    // the same blob under another client key fails its checksum
    let other = [4u8].to_base64(STANDARD);
    match add_user_from_params("bob".to_string(), &outer, &other, &[2], "dev") {
        Err(AddUserError::BadChecksum) => {}
        _ => panic!("expected BadChecksum"),
    }
}

#[test]
fn add_user_request_parameters_not_in_base64_are_refused() {
    match add_user_from_params("bob".to_string(), "not base64 !!", "Aw==", &[2], "dev") {
        Err(AddUserError::NotBase64) => {}
        _ => panic!("expected NotBase64"),
    }
    let blob = add_user_envelope(&[9], b"x").to_base64(STANDARD);
    match add_user_from_params("bob".to_string(), &blob, "%%", &[2], "dev") {
        Err(AddUserError::NotBase64) => {}
        _ => panic!("expected NotBase64"),
    }
}

#[test]
fn request_parameters_of_query_and_body() {
    let params = request_params(b"action=addUser&userName=a%20b", b"blob=x%2By&userName=c");
    assert_eq!(
        params,
        vec![
            ("action".to_string(), "addUser".to_string()),
            ("userName".to_string(), "a b".to_string()),
            ("blob".to_string(), "x+y".to_string()),
            ("userName".to_string(), "c".to_string()),
        ]
    );
    assert_eq!(param(&params, "action"), Some("addUser".to_string()));
    assert_eq!(param(&params, "userName"), Some("c".to_string()));
    assert_eq!(param(&params, "blob"), Some("x+y".to_string()));
    assert_eq!(param(&params, "clientKey"), None);
    assert_eq!(request_params(b"", b""), vec![]);
}

#[test]
fn stored_secret_is_standard_padded_base64() {
    let cases: [(&[u8], &str); 5] = [
        (b"", ""),
        (b"s3cret", "czNjcmV0"),
        (b"s3cre", "czNjcmU="),
        (&[0xff, 0xfe, 0x3f, 77], "//4/TQ=="),
        (&[0xfb; 60], "+/v7+/v7+/v7+/v7+/v7+/v7+/v7+/v7+/v7+/v7+/v7+/v7+/v7+/v7+/v7+/v7+/v7+/v7+/v7+/v7"),
    ];
    for (secret, text) in cases.iter() {
        let c = Credentials { username: "e".to_string(), auth_type: AuthenticationType::AUTHENTICATION_USER_PASS, auth_data: secret.to_vec() };
        let s = StoredCredentials::from_credentials(c);
        assert_eq!(s.auth_data, *text);
        assert_eq!(Credentials::try_from_stored(s).unwrap().auth_data, secret.to_vec());
    }
}
