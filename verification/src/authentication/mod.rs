//! The credentials that a client presents when it logs in, how they are recovered from the
//! encrypted blob that a Spotify Connect controller hands over, and how they are kept on disk.
use vstd::prelude::*;
use vstd::slice::slice_to_vec;
use vstd::utf8::encode_utf8;
use crate::crypt::{
    aes192_ecb_decrypt, aes192_ecb_decryption, base64_decode, base64_decoding, base64_encode,
    base64_encoding, pbkdf2_hmac_sha1, pbkdf2_sha1, sha1, sha1_digest,
};
use crate::endian::{be32_bytes, put_be_u32};
use crate::protocol::authentication::AuthenticationType;

pub mod discovery;
pub mod facebook;


verus! {

/// What a client presents to log in: a user name, the kind of secret, and the secret.
#[derive(Debug, Clone)]
pub struct Credentials {
    pub username: String,
    pub auth_type: AuthenticationType,
    pub auth_data: Vec<u8>,
}

/// Credentials as they are kept in a file: the kind of secret by its number, the secret in
/// base64.
#[derive(Debug, Clone)]
pub struct StoredCredentials {
    pub username: String,
    pub auth_type: i32,
    pub auth_data: String,
}

// ---------------------------------------------------------------------------
// The blob
// ---------------------------------------------------------------------------

/// The byte at `pos`, and the position after it.
pub open spec fn blob_u8(b: Seq<u8>, pos: int) -> Option<(u8, int)> {
    if 0 <= pos < b.len() {
        Some((b[pos], pos + 1))
    } else {
        None
    }
}

/// A number of one or two bytes at `pos`: a first byte below 0x80 is the number; otherwise
/// its low seven bits are the low bits and the next byte gives the bits from the eighth on.
pub open spec fn blob_int(b: Seq<u8>, pos: int) -> Option<(u32, int)> {
    match blob_u8(b, pos) {
        None => None,
        Some((lo, p)) => if lo < 0x80 {
            Some((lo as u32, p))
        } else {
            match blob_u8(b, p) {
                None => None,
                Some((hi, q)) => Some((((lo - 0x80) + hi * 0x80) as u32, q)),
            }
        },
    }
}

/// How a blob writes a number below 2^15: one byte below 0x80; otherwise the remainder of
/// the number by 0x80 with the high bit set, then the quotient.
pub open spec fn blob_int_bytes(n: nat) -> Seq<u8> {
    if n < 0x80 {
        seq![n as u8]
    } else {
        seq![(n % 0x80 + 0x80) as u8, (n / 0x80) as u8]
    }
}

/// A number below 2^15 written as a blob writes it reads back as that number, wherever it
/// stands and whatever follows it.
pub proof fn lemma_blob_int_roundtrip(b: Seq<u8>, pos: int, n: nat, rest: Seq<u8>)
    requires
        n < 0x8000,
        0 <= pos <= b.len(),
        b.skip(pos) == blob_int_bytes(n) + rest,
    ensures
        blob_int(b, pos) == Some((n as u32, pos + blob_int_bytes(n).len())),
        b.skip(pos + blob_int_bytes(n).len()) == rest,
{
    let w = blob_int_bytes(n);
    assert(b[pos] == b.skip(pos)[0]);
    assert(b.skip(pos)[0] == w[0]);
    if n >= 0x80 {
        assert(b[pos + 1] == b.skip(pos)[1]);
        assert(b.skip(pos)[1] == w[1]);
        assert((n % 0x80 + 0x80) as u8 - 0x80 + (n / 0x80) as u8 * 0x80 == n);
    }
    assert(b.skip(pos + w.len()) =~= b.skip(pos).skip(w.len() as int));
    assert((w + rest).skip(w.len() as int) =~= rest);
}

/// Bytes that stand at `pos` are the bytes there, and what follows them stands after them.
proof fn lemma_skip_prefix(b: Seq<u8>, pos: int, x: Seq<u8>, rest: Seq<u8>)
    requires
        0 <= pos <= b.len(),
        b.skip(pos) == x + rest,
    ensures
        b.subrange(pos, pos + x.len()) == x,
        b.skip(pos + x.len()) == rest,
{
    assert(b.subrange(pos, pos + x.len()) =~= (x + rest).subrange(0, x.len() as int));
    assert((x + rest).subrange(0, x.len() as int) =~= x);
    assert(b.skip(pos + x.len()) =~= (x + rest).skip(x.len() as int));
    assert((x + rest).skip(x.len() as int) =~= rest);
}

/// A string of bytes at `pos`, preceded by its length as a number of `blob_int`.
pub open spec fn blob_bytes(b: Seq<u8>, pos: int) -> Option<(Seq<u8>, int)> {
    match blob_int(b, pos) {
        None => None,
        Some((n, p)) => if p + n <= b.len() {
            Some((b.subrange(p, p + n), p + n))
        } else {
            None
        },
    }
}

/// The kind of secret and the secret that a decrypted blob holds: a byte, a string of bytes,
/// a byte, the kind as a number, a byte, then the secret as a string of bytes. `None` where the
/// blob ends early or the kind is of no known number.
pub open spec fn blob_fields(b: Seq<u8>) -> Option<(AuthenticationType, Seq<u8>)> {
    match blob_u8(b, 0) {
        None => None,
        Some((_, p1)) => match blob_bytes(b, p1) {
            None => None,
            Some((_, p2)) => match blob_u8(b, p2) {
                None => None,
                Some((_, p3)) => match blob_int(b, p3) {
                    None => None,
                    Some((t, p4)) => match AuthenticationType::spec_from_i32(t as i32) {
                        None => None,
                        Some(kind) => match blob_u8(b, p4) {
                            None => None,
                            Some((_, p5)) => match blob_bytes(b, p5) {
                                None => None,
                                Some((data, _)) => Some((kind, data)),
                            },
                        },
                    },
                },
            },
        },
    }
}

/// A decrypted blob as a controller writes it: a byte, the user name after its length, a
/// byte, the number of the kind of secret, a byte, then the secret after its length.
pub open spec fn blob_written(a: u8, user: Seq<u8>, b: u8, kind: AuthenticationType, c: u8, data: Seq<u8>) -> Seq<u8> {
    seq![a] + (blob_int_bytes(user.len()) + (user + (seq![b] + (blob_int_bytes(kind.spec_value() as nat) + (
    seq![c] + (blob_int_bytes(data.len()) + data))))))
}

/// Reading the fields of a blob as a controller writes it gives the kind and the secret that
/// were written, whatever follows them.
#[verifier::rlimit(100)]
pub proof fn lemma_blob_fields_roundtrip(
    a: u8,
    user: Seq<u8>,
    b: u8,
    kind: AuthenticationType,
    c: u8,
    data: Seq<u8>,
    rest: Seq<u8>,
)
    requires
        user.len() < 0x8000,
        data.len() < 0x8000,
    ensures
        blob_fields(blob_written(a, user, b, kind, c, data) + rest) == Some((kind, data)),
{
    kind.lemma_value_roundtrip();
    assert(0 <= kind.spec_value() <= 4) by {
        match kind {
            AuthenticationType::AUTHENTICATION_USER_PASS => {},
            AuthenticationType::AUTHENTICATION_STORED_SPOTIFY_CREDENTIALS => {},
            AuthenticationType::AUTHENTICATION_STORED_FACEBOOK_CREDENTIALS => {},
            AuthenticationType::AUTHENTICATION_SPOTIFY_TOKEN => {},
            AuthenticationType::AUTHENTICATION_FACEBOOK_TOKEN => {},
        }
    }
    let tv = kind.spec_value() as nat;
    let x6 = blob_int_bytes(data.len()) + data;
    let x5 = seq![c] + x6;
    let x4 = blob_int_bytes(tv) + x5;
    let x3 = seq![b] + x4;
    let x2 = user + x3;
    let x1 = blob_int_bytes(user.len()) + x2;
    let t7 = data + rest;
    let t6 = blob_int_bytes(data.len()) + t7;
    let t5 = seq![c] + t6;
    let t4 = blob_int_bytes(tv) + t5;
    let t3 = seq![b] + t4;
    let t2 = user + t3;
    let t1 = blob_int_bytes(user.len()) + t2;
    let s = blob_written(a, user, b, kind, c, data) + rest;
    assert(x6 + rest =~= t6);
    assert(x5 + rest =~= t5);
    assert(x4 + rest =~= t4);
    assert(x3 + rest =~= t3);
    assert(x2 + rest =~= t2);
    assert(x1 + rest =~= t1);
    assert(s =~= seq![a] + t1);
    assert(s.skip(0) =~= s);
    lemma_skip_prefix(s, 0, seq![a], t1);
    let p1 = 1int;
    lemma_blob_int_roundtrip(s, p1, user.len(), t2);
    let q1 = p1 + blob_int_bytes(user.len()).len();
    lemma_skip_prefix(s, q1, user, t3);
    let p2 = q1 + user.len();
    lemma_skip_prefix(s, p2, seq![b], t4);
    let p3 = p2 + 1;
    lemma_blob_int_roundtrip(s, p3, tv, t5);
    let p4 = p3 + blob_int_bytes(tv).len();
    lemma_skip_prefix(s, p4, seq![c], t6);
    let p5 = p4 + 1;
    lemma_blob_int_roundtrip(s, p5, data.len(), t7);
    let q5 = p5 + blob_int_bytes(data.len()).len();
    lemma_skip_prefix(s, q5, data, rest);
    assert(s[0] == seq![a][0]);
    assert(s[p2] == seq![b][0]);
    assert(s[p4] == seq![c][0]);
    assert(blob_bytes(s, p1) == Some((user, p2)));
    assert((tv as u32) as i32 == kind.spec_value());
    assert(blob_bytes(s, p5) == Some((data, q5 + data.len())));
}

/// The decrypted blocks with the chaining undone: from the seventeenth byte on, each byte is
/// XORed with the byte sixteen places before it in the decrypted blocks.
pub open spec fn unmixed(d: Seq<u8>) -> Seq<u8> {
    Seq::new(d.len(), |j: int| if j >= 16 { d[j] ^ d[j - 16] } else { d[j] })
}

/// The 24-byte key of a user's blob on a device: the SHA-1 digest of 256 rounds of PBKDF2
/// keyed by the digest of the device id over the user name, then the number 20 in four bytes.
pub open spec fn blob_key(username: Seq<char>, device_id: Seq<char>) -> Seq<u8> {
    sha1_digest(pbkdf2_hmac_sha1(sha1_digest(encode_utf8(device_id)), encode_utf8(username), 0x100, 20))
        + be32_bytes(20)
}

/// What the encrypted blob `blob` of a user on a device holds, or `None` where it is no
/// base64, is not made of whole 16-byte blocks (or of none), or its contents cannot be read.
pub open spec fn blob_contents(username: Seq<char>, blob: Seq<char>, device_id: Seq<char>) -> Option<(AuthenticationType, Seq<u8>)> {
    match base64_decoding(blob) {
        None => None,
        Some(e) => if e.len() >= 16 && e.len() % 16 == 0 {
            blob_fields(unmixed(aes192_ecb_decryption(blob_key(username, device_id), e)))
        } else {
            None
        },
    }
}

/// Reads the byte at `pos`.
fn read_u8(b: &[u8], pos: usize) -> (r: Option<(u8, usize)>)
    ensures
        match r {
            Some((v, p)) => blob_u8(b@, pos as int) == Some((v, p as int)),
            None => blob_u8(b@, pos as int) is None,
        },
{
    if pos < b.len() {
        Some((b[pos], pos + 1))
    } else {
        None
    }
}

/// Reads a number of one or two bytes at `pos`.
fn read_int(b: &[u8], pos: usize) -> (r: Option<(u32, usize)>)
    ensures
        match r {
            Some((v, p)) => blob_int(b@, pos as int) == Some((v, p as int)),
            None => blob_int(b@, pos as int) is None,
        },
{
    let (lo, p) = match read_u8(b, pos) {
        Some(x) => x,
        None => return None,
    };
    let lo = lo as u32;
    assert(lo < 0x100 ==> ((lo & 0x80 == 0) <==> lo < 0x80)) by (bit_vector);
    if lo & 0x80 == 0 {
        return Some((lo, p));
    }
    let (hi, q) = match read_u8(b, p) {
        Some(x) => x,
        None => return None,
    };
    let hi = hi as u32;
    assert(lo < 0x100 && hi < 0x100 && lo & 0x80 != 0 ==> lo >= 0x80 && (lo & 0x7f) | (hi << 7) == (lo - 0x80) + hi * 0x80) by (bit_vector);
    Some(((lo & 0x7f) | (hi << 7), q))
}

/// Reads a string of bytes at `pos`, preceded by its length.
fn read_bytes(b: &[u8], pos: usize) -> (r: Option<(Vec<u8>, usize)>)
    ensures
        match r {
            Some((v, p)) => blob_bytes(b@, pos as int) == Some((v@, p as int)),
            None => blob_bytes(b@, pos as int) is None,
        },
{
    let (n, p) = match read_int(b, pos) {
        Some(x) => x,
        None => return None,
    };
    if n as usize > b.len() - p {
        return None;
    }
    let end = p + n as usize;
    let v = slice_to_vec(vstd::slice::slice_subrange(b, p, end));
    Some((v, end))
}

/// The kind of secret and the secret that a decrypted blob holds.
pub fn read_blob_fields(b: &[u8]) -> (r: Option<(AuthenticationType, Vec<u8>)>)
    ensures
        match r {
            Some((t, d)) => blob_fields(b@) == Some((t, d@)),
            None => blob_fields(b@) is None,
        },
{
    let (_, p1) = match read_u8(b, 0) {
        Some(x) => x,
        None => return None,
    };
    let (_, p2) = match read_bytes(b, p1) {
        Some(x) => x,
        None => return None,
    };
    let (_, p3) = match read_u8(b, p2) {
        Some(x) => x,
        None => return None,
    };
    let (t, p4) = match read_int(b, p3) {
        Some(x) => x,
        None => return None,
    };
    let kind = match AuthenticationType::from_i32(t as i32) {
        Some(k) => k,
        None => return None,
    };
    let (_, p5) = match read_u8(b, p4) {
        Some(x) => x,
        None => return None,
    };
    let (data, _) = match read_bytes(b, p5) {
        Some(x) => x,
        None => return None,
    };
    Some((kind, data))
}

/// Undoes the chaining of the decrypted blocks in place, from the last byte down to the
/// seventeenth.
pub fn unmix(data: &mut Vec<u8>)
    requires
        old(data)@.len() >= 16,
    ensures
        final(data)@ == unmixed(old(data)@),
{
    let ghost d = data@;
    let l = data.len();
    let mut i: usize = 0;
    while i < l - 16
        invariant
            l == data@.len(),
            l == d.len(),
            l >= 16,
            i <= l - 16,
            forall|j: int| 0 <= j < l - i ==> #[trigger] data@[j] == d[j],
            forall|j: int| l - i <= j < l ==> #[trigger] data@[j] == d[j] ^ d[j - 16],
        decreases l - 16 - i,
    {
        let a = data[l - i - 17];
        let b = data[l - i - 1];
        data.set(l - i - 1, b ^ a);
        i = i + 1;
    }
    assert(data@ =~= unmixed(d));
}

/// The key that the blob of `username` on the device `device_id` is encrypted with.
pub fn derive_blob_key(username: &str, device_id: &str) -> (r: Vec<u8>)
    ensures
        r@ == blob_key(username@, device_id@),
        r@.len() == 24,
{
    let secret = sha1(device_id.as_bytes());
    let derived = pbkdf2_sha1(secret.as_slice(), username.as_bytes(), 0x100, 20);
    let mut key = sha1(derived.as_slice());
    put_be_u32(&mut key, 20);
    key
}

/// Decrypts the blocks of a blob and undoes their chaining.
fn decrypt_blob(username: &str, encrypted: &[u8], device_id: &str) -> (r: Vec<u8>)
    requires
        encrypted@.len() >= 16,
        encrypted@.len() % 16 == 0,
    ensures
        r@ == unmixed(aes192_ecb_decryption(blob_key(username@, device_id@), encrypted@)),
{
    let key = derive_blob_key(username, device_id);
    let mut data = aes192_ecb_decrypt(key.as_slice(), encrypted);
    unmix(&mut data);
    data
}

impl Credentials {
    /// Credentials of a user name and a password.
    pub fn with_password(username: String, password: String) -> (r: Credentials)
        ensures
            r.username@ == username@,
            r.auth_type == AuthenticationType::AUTHENTICATION_USER_PASS,
            r.auth_data@ == encode_utf8(password@),
    {
        let auth_data = slice_to_vec(password.as_str().as_bytes());
        Credentials {
            username: username,
            auth_type: AuthenticationType::AUTHENTICATION_USER_PASS,
            auth_data: auth_data,
        }
    }

    /// The credentials that the encrypted blob of `username` on the device `device_id` holds.
    /// The blob is base64 of whole AES-192 blocks; see `blob_contents`.
    pub fn with_blob(username: String, encrypted_blob: &str, device_id: &str) -> (r: Credentials)
        requires
            blob_contents(username@, encrypted_blob@, device_id@) is Some,
        ensures
            r.username@ == username@,
            blob_contents(username@, encrypted_blob@, device_id@) == Some((r.auth_type, r.auth_data@)),
    {
        let encrypted = match base64_decode(encrypted_blob) {
            Some(e) => e,
            None => {
                proof {
                    assert(false);
                }
                Vec::new()
            },
        };
        let blob = decrypt_blob(username.as_str(), encrypted.as_slice(), device_id);
        let (auth_type, auth_data) = match read_blob_fields(blob.as_slice()) {
            Some(x) => x,
            None => {
                proof {
                    assert(false);
                }
                (AuthenticationType::AUTHENTICATION_USER_PASS, Vec::new())
            },
        };
        Credentials { username: username, auth_type: auth_type, auth_data: auth_data }
    }

    /// The credentials that the encrypted blob holds, or `None` where `with_blob` has none to
    /// give (see `blob_contents`).
    pub fn try_with_blob(username: String, encrypted_blob: &str, device_id: &str) -> (r: Option<Credentials>)
        ensures
            match r {
                Some(c) => c.username@ == username@ && blob_contents(username@, encrypted_blob@, device_id@)
                    == Some((c.auth_type, c.auth_data@)),
                None => blob_contents(username@, encrypted_blob@, device_id@) is None,
            },
    {
        let encrypted = match base64_decode(encrypted_blob) {
            Some(e) => e,
            None => return None,
        };
        if encrypted.len() < 16 || encrypted.len() % 16 != 0 {
            return None;
        }
        let blob = decrypt_blob(username.as_str(), encrypted.as_slice(), device_id);
        match read_blob_fields(blob.as_slice()) {
            Some(_) => Some(Credentials::with_blob(username, encrypted_blob, device_id)),
            None => None,
        }
    }
}

// ---------------------------------------------------------------------------
// Keeping credentials
// ---------------------------------------------------------------------------

/// The stored form of credentials: the kind by its number, the secret in base64.
pub open spec fn stored_fields(auth_type: AuthenticationType, auth_data: Seq<u8>) -> (i32, Seq<char>) {
    (auth_type.spec_value(), base64_encoding(auth_data))
}

/// The kind and the secret that a stored form gives back, or `None` where the number is of no
/// kind or the text is no base64.
pub open spec fn credentials_fields(auth_type: i32, auth_data: Seq<char>) -> Option<(AuthenticationType, Seq<u8>)> {
    match (AuthenticationType::spec_from_i32(auth_type), base64_decoding(auth_data)) {
        (Some(t), Some(d)) => Some((t, d)),
        _ => None,
    }
}

impl StoredCredentials {
    /// The stored form of `c`, from which `from_stored` gives `c` back.
    pub fn from_credentials(c: Credentials) -> (r: StoredCredentials)
        ensures
            r.username@ == c.username@,
            (r.auth_type, r.auth_data@) == stored_fields(c.auth_type, c.auth_data@),
            credentials_fields(r.auth_type, r.auth_data@) == Some((c.auth_type, c.auth_data@)),
    {
        let auth_data = base64_encode(c.auth_data.as_slice());
        proof {
            lemma_stored_roundtrip(c.auth_type, c.auth_data@);
        }
        StoredCredentials { username: c.username, auth_type: c.auth_type.value(), auth_data: auth_data }
    }
}

impl Credentials {
    /// The credentials that a stored form holds. Its number must stand for a kind and its text
    /// must be base64.
    pub fn from_stored(s: StoredCredentials) -> (r: Credentials)
        requires
            credentials_fields(s.auth_type, s.auth_data@) is Some,
        ensures
            r.username@ == s.username@,
            credentials_fields(s.auth_type, s.auth_data@) == Some((r.auth_type, r.auth_data@)),
    {
        let auth_type = match AuthenticationType::from_i32(s.auth_type) {
            Some(t) => t,
            None => {
                proof {
                    assert(false);
                }
                AuthenticationType::AUTHENTICATION_USER_PASS
            },
        };
        let auth_data = match base64_decode(s.auth_data.as_str()) {
            Some(d) => d,
            None => {
                proof {
                    assert(false);
                }
                Vec::new()
            },
        };
        Credentials { username: s.username, auth_type: auth_type, auth_data: auth_data }
    }

    /// The credentials that a stored form holds, or `None` where `from_stored` has none to give.
    pub fn try_from_stored(s: StoredCredentials) -> (r: Option<Credentials>)
        ensures
            match r {
                Some(c) => c.username@ == s.username@ && credentials_fields(s.auth_type, s.auth_data@)
                    == Some((c.auth_type, c.auth_data@)),
                None => credentials_fields(s.auth_type, s.auth_data@) is None,
            },
    {
        if AuthenticationType::from_i32(s.auth_type).is_none() {
            return None;
        }
        if base64_decode(s.auth_data.as_str()).is_none() {
            return None;
        }
        Some(Credentials::from_stored(s))
    }
}

/// Storing credentials and reading them back gives the same credentials, wherever the base64
/// text of the secret decodes to the secret.
pub proof fn lemma_stored_roundtrip(auth_type: AuthenticationType, auth_data: Seq<u8>)
    ensures
        base64_decoding(base64_encoding(auth_data)) == Some(auth_data) ==> credentials_fields(
            stored_fields(auth_type, auth_data).0,
            stored_fields(auth_type, auth_data).1,
        ) == Some((auth_type, auth_data)),
{
    auth_type.lemma_value_roundtrip();
}

/// Logging in through Spotify Connect discovery is not built into this library: it always
/// answers that no credentials were obtained.
pub fn discovery_login(device_name: &str, device_id: &str) -> (r: Result<Credentials, ()>)
    ensures
        r is Err,
{
    Err(())
}

/// Logging in through Facebook is not built into this library: it always answers that no
/// credentials were obtained.
pub fn facebook_login() -> (r: Result<Credentials, ()>)
    ensures
        r is Err,
{
    Err(())
}

} // verus!
