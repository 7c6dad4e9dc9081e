use crypto::digest::Digest;
use crypto::hmac::Hmac;
use crypto::mac::Mac;
use crypto::sha1::Sha1;
use crypto::symmetriccipher::SynchronousStreamCipher;
use librespot::authentication::discovery::{
    add_user_credentials, add_user_reply, get_info, decrypt_add_user_blob, dh_public_key, dh_shared_key, public_key_text, route,
    AddUserError, DiscoveryRoute, Method,
};
use librespot::authentication::facebook::{facebook_credentials, login_path, LoginServer, Status};
use librespot::protocol::authentication::AuthenticationType;

fn hmac(key: &[u8], data: &[u8]) -> Vec<u8> {
    let mut h = Hmac::new(Sha1::new(), key);
    h.input(data);
    h.result().code().to_vec()
}

/// The blob of an `addUser` request that carries `text`, for the shared key `shared`.
fn add_user_blob(shared: &[u8], text: &[u8]) -> Vec<u8> {
    let mut digest = [0u8; 20];
    let mut h = Sha1::new();
    h.input(shared);
    h.result(&mut digest);
    let base = &digest[..16];
    let ck = hmac(base, b"checksum");
    let ek = hmac(base, b"encryption");
    let iv = [7u8; 16];
    let mut enc = vec![0u8; text.len()];
    let mut c = crypto::aes::ctr(crypto::aes::KeySize::KeySize128, &ek[..16], &iv);
    c.process(text, &mut enc);
    let mac = hmac(&ck, &enc);
    let mut blob = iv.to_vec();
    blob.extend_from_slice(&enc);
    blob.extend_from_slice(&mac);
    blob
}

#[test]
fn public_key_is_the_generator_to_the_private_key() {
    assert_eq!(dh_public_key(&[1]), vec![2]);
    assert_eq!(dh_public_key(&[10]), vec![4, 0]);
    assert_eq!(dh_public_key(&[0]), vec![1]);
    assert_eq!(public_key_text(&[1]), "Ag==");
}

#[test]
fn shared_key_is_the_client_key_to_the_private_key() {
    assert_eq!(dh_shared_key(&[3], &[2]), vec![9]);
    assert_eq!(dh_shared_key(&[0x01, 0x00], &[2]), vec![0x01, 0x00, 0x00]);
}

#[test]
fn add_user_blob_decrypts_to_its_text() {
    let shared = [1u8, 2, 3, 4, 5];
    let blob = add_user_blob(&shared, b"hello blob");
    assert_eq!(decrypt_add_user_blob(&shared, &blob).unwrap(), "hello blob");
}

#[test]
fn add_user_blob_errors() {
    let shared = [1u8, 2, 3];
    assert_eq!(decrypt_add_user_blob(&shared, &[0u8; 35]), Err(AddUserError::TooShort));
    let mut blob = add_user_blob(&shared, b"some text");
    let last = blob.len() - 1;
    blob[last] ^= 1;
    assert_eq!(decrypt_add_user_blob(&shared, &blob), Err(AddUserError::BadChecksum));
    let blob = add_user_blob(&shared, &[0xff, 0xfe]);
    assert_eq!(decrypt_add_user_blob(&shared, &blob), Err(AddUserError::NotUtf8));
    let blob = add_user_blob(&shared, b"bm90IGEgYmxvYg==");
    match add_user_credentials("u".to_string(), &shared, &blob, "dev") {
        Err(AddUserError::BadBlob) => {}
        _ => panic!("expected BadBlob"),
    }
}

#[test]
fn discovery_routes() {
    assert_eq!(route(Method::Get, Some("getInfo")), DiscoveryRoute::GetInfo);
    assert_eq!(route(Method::Post, Some("addUser")), DiscoveryRoute::AddUser);
    assert_eq!(route(Method::Post, Some("getInfo")), DiscoveryRoute::NotFound);
    assert_eq!(route(Method::Get, Some("addUser")), DiscoveryRoute::NotFound);
    assert_eq!(route(Method::Get, None), DiscoveryRoute::NotFound);
    assert_eq!(route(Method::Other, Some("getInfo")), DiscoveryRoute::NotFound);
}

#[test]
fn facebook_login_server_answers() {
    let server = LoginServer { csrf: "abc".to_string() };
    let path = vec!["login".to_string(), "facebook_login_sso.json".to_string()];
    let (status, token) = server.handle(Method::Get, &path, Some("tok"), Some("abc"));
    assert_eq!(status, Status::Accepted);
    assert_eq!(token, Some("tok".to_string()));
    let (status, token) = server.handle(Method::Get, &path, Some("tok"), Some("xyz"));
    assert_eq!(status, Status::Forbidden);
    assert_eq!(token, None);
    let (status, _) = server.handle(Method::Post, &path, Some("tok"), Some("abc"));
    assert_eq!(status, Status::NotFound);
    let other = vec!["login".to_string()];
    let (status, _) = server.handle(Method::Get, &other, None, None);
    assert_eq!(status, Status::NotFound);
    assert!(login_path(&path));
    assert!(!login_path(&other));
}

#[test]
fn facebook_credentials_carry_the_token() {
    let c = facebook_credentials("1234".to_string(), "tok");
    assert_eq!(c.username, "1234");
    assert_eq!(c.auth_type, AuthenticationType::AUTHENTICATION_FACEBOOK_TOKEN);
    assert_eq!(c.auth_data, b"tok".to_vec());
}

#[test]
fn device_info_describes_the_device() {
    let info = get_info("dev-id", "Kitchen", &[1]);
    assert_eq!(info.status, 101);
    assert_eq!(info.status_string, "ERROR-OK");
    assert_eq!(info.device_id, "dev-id");
    assert_eq!(info.remote_name, "Kitchen");
    assert_eq!(info.public_key, "Ag==");
    assert_eq!(info.version, "2.1.0");
    assert_eq!(info.account_req, "PREMIUM");
    assert_eq!(info.active_user, "");
    let reply = add_user_reply();
    assert_eq!(reply.status, 101);
    assert_eq!(reply.spotify_error, 0);
    assert_eq!(reply.status_string, "ERROR-OK");
}
