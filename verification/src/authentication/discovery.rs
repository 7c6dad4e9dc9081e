//! Spotify Connect discovery: the key exchange with a controller, the decryption of the blob
//! that it sends for a user, and which request gets which answer.
use vstd::prelude::*;
use vstd::arithmetic::power::pow;
use vstd::slice::{slice_subrange, slice_to_vec};
use vstd::utf8::{decode_utf8, is_ascii_chars, valid_utf8};
use num::BigUint;
use crate::authentication::{blob_contents, Credentials};
use crate::protocol::authentication::AuthenticationType;
use crate::crypt::{
    aes128_ctr, aes128_ctr_stream, base64_decode, base64_decoding, base64_encode, base64_encoding, hmac_sha1, hmac_sha1_code, sha1,
    sha1_digest,
};
use crate::wire::string_from_utf8;

verus! {

/// The number that big-endian bytes stand for.
pub open spec fn be_value(b: Seq<u8>) -> nat
    decreases b.len(),
{
    if b.len() == 0 {
        0
    } else {
        be_value(b.drop_last()) * 256 + b.last() as nat
    }
}

/// The shortest big-endian bytes of `n`: one zero byte for zero.
pub open spec fn minimal_be_bytes(n: nat) -> Seq<u8>
    decreases n,
{
    if n < 256 {
        seq![n as u8]
    } else {
        minimal_be_bytes(n / 256).push((n % 256) as u8)
    }
}

/// `base` to the power `exponent`, modulo `modulus`, each given by big-endian bytes.
pub open spec fn mod_pow(base: Seq<u8>, exponent: Seq<u8>, modulus: Seq<u8>) -> Seq<u8> {
    minimal_be_bytes((pow(be_value(base) as int, be_value(exponent)) % (be_value(modulus) as int)) as nat)
}

/// `num::BigUint::modpow` on numbers read with `from_bytes_be`, written back with
/// `to_bytes_be`. The crate panics on a zero modulus.
#[verifier::external_body]
pub(crate) fn mod_pow_be(base: &[u8], exponent: &[u8], modulus: &[u8]) -> (r: Vec<u8>)
    requires
        be_value(modulus@) > 0,
    ensures
        r@ == mod_pow(base@, exponent@, modulus@),
{
    let b = BigUint::from_bytes_be(base);
    let e = BigUint::from_bytes_be(exponent);
    let m = BigUint::from_bytes_be(modulus);
    b.modpow(&e, &m).to_bytes_be()
}

/// The generator of the Diffie-Hellman group of the protocol.
pub open spec fn dh_generator() -> Seq<u8> {
    seq![2u8]
}

/// The 768-bit prime of the Diffie-Hellman group of the protocol (the first Oakley group).
pub open spec fn dh_prime() -> Seq<u8> {
    seq![
        0xffu8, 0xff, 0xff, 0xff, 0xff, 0xff, 0xff, 0xff, 0xc9, 0x0f, 0xda, 0xa2, 0x21, 0x68, 0xc2, 0x34,
        0xc4, 0xc6, 0x62, 0x8b, 0x80, 0xdc, 0x1c, 0xd1, 0x29, 0x02, 0x4e, 0x08, 0x8a, 0x67, 0xcc, 0x74,
        0x02, 0x0b, 0xbe, 0xa6, 0x3b, 0x13, 0x9b, 0x22, 0x51, 0x4a, 0x08, 0x79, 0x8e, 0x34, 0x04, 0xdd,
        0xef, 0x95, 0x19, 0xb3, 0xcd, 0x3a, 0x43, 0x1b, 0x30, 0x2b, 0x0a, 0x6d, 0xf2, 0x5f, 0x14, 0x37,
        0x4f, 0xe1, 0x35, 0x6d, 0x6d, 0x51, 0xc2, 0x45, 0xe4, 0x85, 0xb5, 0x76, 0x62, 0x5e, 0x7e, 0xc6,
        0xf4, 0x4c, 0x42, 0xe9, 0xa6, 0x3a, 0x36, 0x20, 0xff, 0xff, 0xff, 0xff, 0xff, 0xff, 0xff, 0xff,
    ]
}

/// The big-endian bytes of a list of 32-bit words, word after word.
pub open spec fn words_be_bytes(w: Seq<u32>) -> Seq<u8>
    decreases w.len(),
{
    if w.len() == 0 {
        Seq::empty()
    } else {
        seq![
            (w[0] / 0x1000000) as u8,
            ((w[0] / 0x10000) % 0x100) as u8,
            ((w[0] / 0x100) % 0x100) as u8,
            (w[0] % 0x100) as u8,
        ] + words_be_bytes(w.subrange(1, w.len() as int))
    }
}

/// The prime is the one of the first Oakley group (RFC 2409, 6.1), 2^768 - 2^704 - 1 +
/// 2^64 * (floor(2^638 * pi) + 149686), which the RFC writes as these 32-bit words: it has 96
/// bytes, and its highest and lowest 64 bits are all ones. The generator of the group is 2.
pub proof fn lemma_dh_prime_is_oakley_group_one()
    ensures
        be_value(dh_generator()) == 2,
        dh_prime() == words_be_bytes(seq![0xFFFFFFFFu32, 0xFFFFFFFF, 0xC90FDAA2, 0x2168C234, 0xC4C6628B, 0x80DC1CD1, 0x29024E08, 0x8A67CC74, 0x020BBEA6, 0x3B139B22, 0x514A0879, 0x8E3404DD, 0xEF9519B3, 0xCD3A431B, 0x302B0A6D, 0xF25F1437, 0x4FE1356D, 0x6D51C245, 0xE485B576, 0x625E7EC6, 0xF44C42E9, 0xA63A3620, 0xFFFFFFFF, 0xFFFFFFFF]),
        dh_prime().len() == 96,
        forall|i: int| (0 <= i < 8 || 88 <= i < 96) ==> #[trigger] dh_prime()[i] == 0xffu8,
{
    let w = seq![0xFFFFFFFFu32, 0xFFFFFFFF, 0xC90FDAA2, 0x2168C234, 0xC4C6628B, 0x80DC1CD1, 0x29024E08, 0x8A67CC74, 0x020BBEA6, 0x3B139B22, 0x514A0879, 0x8E3404DD, 0xEF9519B3, 0xCD3A431B, 0x302B0A6D, 0xF25F1437, 0x4FE1356D, 0x6D51C245, 0xE485B576, 0x625E7EC6, 0xF44C42E9, 0xA63A3620, 0xFFFFFFFF, 0xFFFFFFFF];
    let p = dh_prime();
    assert(dh_generator().drop_last() =~= Seq::<u8>::empty());
    reveal_with_fuel(be_value, 2);
    assert(w.subrange(24, 24) =~= Seq::<u32>::empty());
    assert(p.subrange(96, 96) =~= Seq::<u8>::empty());
    assert(words_be_bytes(w.subrange(24, 24)) == p.subrange(96, 96));
    assert(words_be_bytes(w.subrange(23, 24)) == p.subrange(92, 96)) by {
        assert(w.subrange(23, 24).subrange(1, 1) =~= w.subrange(24, 24));
        assert(words_be_bytes(w.subrange(23, 24)) =~= p.subrange(92, 96));
    }
    assert(words_be_bytes(w.subrange(22, 24)) == p.subrange(88, 96)) by {
        assert(w.subrange(22, 24).subrange(1, 2) =~= w.subrange(23, 24));
        assert(words_be_bytes(w.subrange(22, 24)) =~= p.subrange(88, 96));
    }
    assert(words_be_bytes(w.subrange(21, 24)) == p.subrange(84, 96)) by {
        assert(w.subrange(21, 24).subrange(1, 3) =~= w.subrange(22, 24));
        assert(words_be_bytes(w.subrange(21, 24)) =~= p.subrange(84, 96));
    }
    assert(words_be_bytes(w.subrange(20, 24)) == p.subrange(80, 96)) by {
        assert(w.subrange(20, 24).subrange(1, 4) =~= w.subrange(21, 24));
        assert(words_be_bytes(w.subrange(20, 24)) =~= p.subrange(80, 96));
    }
    assert(words_be_bytes(w.subrange(19, 24)) == p.subrange(76, 96)) by {
        assert(w.subrange(19, 24).subrange(1, 5) =~= w.subrange(20, 24));
        assert(words_be_bytes(w.subrange(19, 24)) =~= p.subrange(76, 96));
    }
    assert(words_be_bytes(w.subrange(18, 24)) == p.subrange(72, 96)) by {
        assert(w.subrange(18, 24).subrange(1, 6) =~= w.subrange(19, 24));
        assert(words_be_bytes(w.subrange(18, 24)) =~= p.subrange(72, 96));
    }
    assert(words_be_bytes(w.subrange(17, 24)) == p.subrange(68, 96)) by {
        assert(w.subrange(17, 24).subrange(1, 7) =~= w.subrange(18, 24));
        assert(words_be_bytes(w.subrange(17, 24)) =~= p.subrange(68, 96));
    }
    assert(words_be_bytes(w.subrange(16, 24)) == p.subrange(64, 96)) by {
        assert(w.subrange(16, 24).subrange(1, 8) =~= w.subrange(17, 24));
        assert(words_be_bytes(w.subrange(16, 24)) =~= p.subrange(64, 96));
    }
    assert(words_be_bytes(w.subrange(15, 24)) == p.subrange(60, 96)) by {
        assert(w.subrange(15, 24).subrange(1, 9) =~= w.subrange(16, 24));
        assert(words_be_bytes(w.subrange(15, 24)) =~= p.subrange(60, 96));
    }
    assert(words_be_bytes(w.subrange(14, 24)) == p.subrange(56, 96)) by {
        assert(w.subrange(14, 24).subrange(1, 10) =~= w.subrange(15, 24));
        assert(words_be_bytes(w.subrange(14, 24)) =~= p.subrange(56, 96));
    }
    assert(words_be_bytes(w.subrange(13, 24)) == p.subrange(52, 96)) by {
        assert(w.subrange(13, 24).subrange(1, 11) =~= w.subrange(14, 24));
        assert(words_be_bytes(w.subrange(13, 24)) =~= p.subrange(52, 96));
    }
    assert(words_be_bytes(w.subrange(12, 24)) == p.subrange(48, 96)) by {
        assert(w.subrange(12, 24).subrange(1, 12) =~= w.subrange(13, 24));
        assert(words_be_bytes(w.subrange(12, 24)) =~= p.subrange(48, 96));
    }
    assert(words_be_bytes(w.subrange(11, 24)) == p.subrange(44, 96)) by {
        assert(w.subrange(11, 24).subrange(1, 13) =~= w.subrange(12, 24));
        assert(words_be_bytes(w.subrange(11, 24)) =~= p.subrange(44, 96));
    }
    assert(words_be_bytes(w.subrange(10, 24)) == p.subrange(40, 96)) by {
        assert(w.subrange(10, 24).subrange(1, 14) =~= w.subrange(11, 24));
        assert(words_be_bytes(w.subrange(10, 24)) =~= p.subrange(40, 96));
    }
    assert(words_be_bytes(w.subrange(9, 24)) == p.subrange(36, 96)) by {
        assert(w.subrange(9, 24).subrange(1, 15) =~= w.subrange(10, 24));
        assert(words_be_bytes(w.subrange(9, 24)) =~= p.subrange(36, 96));
    }
    assert(words_be_bytes(w.subrange(8, 24)) == p.subrange(32, 96)) by {
        assert(w.subrange(8, 24).subrange(1, 16) =~= w.subrange(9, 24));
        assert(words_be_bytes(w.subrange(8, 24)) =~= p.subrange(32, 96));
    }
    assert(words_be_bytes(w.subrange(7, 24)) == p.subrange(28, 96)) by {
        assert(w.subrange(7, 24).subrange(1, 17) =~= w.subrange(8, 24));
        assert(words_be_bytes(w.subrange(7, 24)) =~= p.subrange(28, 96));
    }
    assert(words_be_bytes(w.subrange(6, 24)) == p.subrange(24, 96)) by {
        assert(w.subrange(6, 24).subrange(1, 18) =~= w.subrange(7, 24));
        assert(words_be_bytes(w.subrange(6, 24)) =~= p.subrange(24, 96));
    }
    assert(words_be_bytes(w.subrange(5, 24)) == p.subrange(20, 96)) by {
        assert(w.subrange(5, 24).subrange(1, 19) =~= w.subrange(6, 24));
        assert(words_be_bytes(w.subrange(5, 24)) =~= p.subrange(20, 96));
    }
    assert(words_be_bytes(w.subrange(4, 24)) == p.subrange(16, 96)) by {
        assert(w.subrange(4, 24).subrange(1, 20) =~= w.subrange(5, 24));
        assert(words_be_bytes(w.subrange(4, 24)) =~= p.subrange(16, 96));
    }
    assert(words_be_bytes(w.subrange(3, 24)) == p.subrange(12, 96)) by {
        assert(w.subrange(3, 24).subrange(1, 21) =~= w.subrange(4, 24));
        assert(words_be_bytes(w.subrange(3, 24)) =~= p.subrange(12, 96));
    }
    assert(words_be_bytes(w.subrange(2, 24)) == p.subrange(8, 96)) by {
        assert(w.subrange(2, 24).subrange(1, 22) =~= w.subrange(3, 24));
        assert(words_be_bytes(w.subrange(2, 24)) =~= p.subrange(8, 96));
    }
    assert(words_be_bytes(w.subrange(1, 24)) == p.subrange(4, 96)) by {
        assert(w.subrange(1, 24).subrange(1, 23) =~= w.subrange(2, 24));
        assert(words_be_bytes(w.subrange(1, 24)) =~= p.subrange(4, 96));
    }
    assert(words_be_bytes(w.subrange(0, 24)) == p.subrange(0, 96)) by {
        assert(w.subrange(0, 24).subrange(1, 24) =~= w.subrange(1, 24));
        assert(words_be_bytes(w.subrange(0, 24)) =~= p.subrange(0, 96));
    }
    assert(w.subrange(0, 24) =~= w);
    assert(p.subrange(0, 96) =~= p);
}

/// The prime of the group, as bytes to compute with.
fn dh_prime_vec() -> (r: Vec<u8>)
    ensures
        r@ == dh_prime(),
{
    let r = vec![
        0xffu8, 0xff, 0xff, 0xff, 0xff, 0xff, 0xff, 0xff, 0xc9, 0x0f, 0xda, 0xa2, 0x21, 0x68, 0xc2, 0x34,
        0xc4, 0xc6, 0x62, 0x8b, 0x80, 0xdc, 0x1c, 0xd1, 0x29, 0x02, 0x4e, 0x08, 0x8a, 0x67, 0xcc, 0x74,
        0x02, 0x0b, 0xbe, 0xa6, 0x3b, 0x13, 0x9b, 0x22, 0x51, 0x4a, 0x08, 0x79, 0x8e, 0x34, 0x04, 0xdd,
        0xef, 0x95, 0x19, 0xb3, 0xcd, 0x3a, 0x43, 0x1b, 0x30, 0x2b, 0x0a, 0x6d, 0xf2, 0x5f, 0x14, 0x37,
        0x4f, 0xe1, 0x35, 0x6d, 0x6d, 0x51, 0xc2, 0x45, 0xe4, 0x85, 0xb5, 0x76, 0x62, 0x5e, 0x7e, 0xc6,
        0xf4, 0x4c, 0x42, 0xe9, 0xa6, 0x3a, 0x36, 0x20, 0xff, 0xff, 0xff, 0xff, 0xff, 0xff, 0xff, 0xff,
    ];
    assert(r@ =~= dh_prime());
    r
}

/// The first byte of a big-endian number that is not zero keeps the number above zero.
proof fn lemma_be_value_positive(b: Seq<u8>, i: int)
    requires
        0 <= i < b.len(),
        b[i] > 0,
    ensures
        be_value(b) > 0,
    decreases b.len(),
{
    if i < b.len() - 1 {
        lemma_be_value_positive(b.drop_last(), i);
    }
}

/// The public key of the device for the private key `private_key`: the generator to the power
/// of the private key, modulo the prime.
pub fn dh_public_key(private_key: &[u8]) -> (r: Vec<u8>)
    ensures
        r@ == mod_pow(dh_generator(), private_key@, dh_prime()),
{
    let prime = dh_prime_vec();
    proof {
        lemma_be_value_positive(prime@, 0);
    }
    let generator = vec![2u8];
    assert(generator@ =~= dh_generator());
    mod_pow_be(generator.as_slice(), private_key, prime.as_slice())
}

/// The key that the device shares with a controller that sent `client_key`.
pub fn dh_shared_key(client_key: &[u8], private_key: &[u8]) -> (r: Vec<u8>)
    ensures
        r@ == mod_pow(client_key@, private_key@, dh_prime()),
{
    let prime = dh_prime_vec();
    proof {
        lemma_be_value_positive(prime@, 0);
    }
    mod_pow_be(client_key, private_key, prime.as_slice())
}

/// The public key as the device announces it: base64 of its bytes.
pub fn public_key_text(private_key: &[u8]) -> (r: String)
    ensures
        r@ == base64_encoding(mod_pow(dh_generator(), private_key@, dh_prime())),
{
    let key = dh_public_key(private_key);
    base64_encode(key.as_slice())
}

/// Why the blob of an `addUser` request was refused.
#[derive(Clone, Copy, Debug, PartialEq, Eq)]
pub enum AddUserError {
    /// Shorter than a counter block and a checksum.
    TooShort,
    /// The checksum does not match the encrypted bytes.
    BadChecksum,
    /// The decrypted bytes are not UTF-8.
    NotUtf8,
    /// The decrypted text holds no credentials.
    BadBlob,
    /// The blob or the client key is not base64.
    NotBase64,
}

/// The first 16 bytes of the digest of the shared key.
pub open spec fn base_key(shared_key: Seq<u8>) -> Seq<u8> {
    sha1_digest(shared_key).subrange(0, 16)
}

/// The key of the checksum: HMAC-SHA1 of the word "checksum" under the base key.
pub open spec fn checksum_key(shared_key: Seq<u8>) -> Seq<u8> {
    hmac_sha1_code(base_key(shared_key), "checksum"@.map_values(|c: char| c as u8))
}

/// The key of the encryption: HMAC-SHA1 of the word "encryption" under the base key.
pub open spec fn encryption_key(shared_key: Seq<u8>) -> Seq<u8> {
    hmac_sha1_code(base_key(shared_key), "encryption"@.map_values(|c: char| c as u8))
}

/// The decrypted bytes of a blob: 16 bytes of counter block, the encrypted bytes, then the
/// 20-byte HMAC-SHA1 of the encrypted bytes under the checksum key. The encrypted bytes are
/// AES-128 in counter mode under the first 16 bytes of the encryption key.
pub open spec fn add_user_plaintext(shared_key: Seq<u8>, blob: Seq<u8>) -> Result<Seq<u8>, AddUserError> {
    if blob.len() < 36 {
        Err(AddUserError::TooShort)
    } else {
        let iv = blob.subrange(0, 16);
        let encrypted = blob.subrange(16, blob.len() - 20);
        let cksum = blob.subrange(blob.len() - 20, blob.len() as int);
        if hmac_sha1_code(checksum_key(shared_key), encrypted) != cksum {
            Err(AddUserError::BadChecksum)
        } else {
            Ok(aes128_ctr_stream(encryption_key(shared_key).subrange(0, 16), iv, encrypted))
        }
    }
}

/// The bytes of an ASCII word.
fn ascii_bytes(s: &str) -> (r: Vec<u8>)
    requires
        is_ascii_chars(s@),
    ensures
        r@ == s@.map_values(|c: char| c as u8),
{
    proof {
        vstd::string::is_ascii_spec_bytes(s);
    }
    assert(vstd::string::is_ascii(s));
    let v = slice_to_vec(s.as_bytes());
    assert(v@ =~= s@.map_values(|c: char| c as u8));
    v
}

/// The text that the blob of an `addUser` request decrypts to.
pub fn decrypt_add_user_blob(shared_key: &[u8], blob: &[u8]) -> (r: Result<String, AddUserError>)
    ensures
        match add_user_plaintext(shared_key@, blob@) {
            Err(e) => r == Err::<String, AddUserError>(e),
            Ok(p) => if valid_utf8(p) {
                r matches Ok(s) && s@ == decode_utf8(p)
            } else {
                r == Err::<String, AddUserError>(AddUserError::NotUtf8)
            },
        },
{
    let len = blob.len();
    if len < 36 {
        return Err(AddUserError::TooShort);
    }
    let iv = slice_subrange(blob, 0, 16);
    let encrypted = slice_subrange(blob, 16, len - 20);
    let cksum = slice_subrange(blob, len - 20, len);
    let digest = sha1(shared_key);
    let base = slice_subrange(digest.as_slice(), 0, 16);
    proof {
        reveal_strlit("checksum");
        reveal_strlit("encryption");
    }
    let checksum_word = ascii_bytes("checksum");
    let encryption_word = ascii_bytes("encryption");
    let ck = hmac_sha1(base, checksum_word.as_slice());
    let ek = hmac_sha1(base, encryption_word.as_slice());
    let mac = hmac_sha1(ck.as_slice(), encrypted);
    let mut same = true;
    let mut i: usize = 0;
    assert(mac@.subrange(0, 0) =~= cksum@.subrange(0, 0));
    while i < 20
        invariant
            i <= 20,
            mac@.len() == 20,
            cksum@.len() == 20,
            same <==> mac@.subrange(0, i as int) == cksum@.subrange(0, i as int),
        decreases 20 - i,
    {
        if mac[i] != cksum[i] {
            same = false;
        }
        proof {
            assert(mac@.subrange(0, i + 1) =~= mac@.subrange(0, i as int).push(mac@[i as int]));
            assert(cksum@.subrange(0, i + 1) =~= cksum@.subrange(0, i as int).push(cksum@[i as int]));
            if mac@.subrange(0, i + 1) == cksum@.subrange(0, i + 1) {
                assert(mac@.subrange(0, i + 1)[i as int] == cksum@.subrange(0, i + 1)[i as int]);
                assert(mac@.subrange(0, i as int) =~= mac@.subrange(0, i + 1).drop_last());
                assert(cksum@.subrange(0, i as int) =~= cksum@.subrange(0, i + 1).drop_last());
            }
        }
        i = i + 1;
    }
    assert(mac@.subrange(0, 20) =~= mac@);
    assert(cksum@.subrange(0, 20) =~= cksum@);
    if !same {
        return Err(AddUserError::BadChecksum);
    }
    let ek16 = slice_subrange(ek.as_slice(), 0, 16);
    let plain = aes128_ctr(ek16, iv, encrypted);
    match string_from_utf8(plain) {
        Some(s) => Ok(s),
        None => Err(AddUserError::NotUtf8),
    }
}

/// The kind of secret and the secret that an `addUser` blob for `username` carries, decrypted
/// with the key shared with the controller, or why there are none.
pub open spec fn add_user_outcome(username: Seq<char>, shared_key: Seq<u8>, blob: Seq<u8>, device_id: Seq<char>) -> Result<(AuthenticationType, Seq<u8>), AddUserError> {
    match add_user_plaintext(shared_key, blob) {
        Err(e) => Err(e),
        Ok(p) => if !valid_utf8(p) {
            Err(AddUserError::NotUtf8)
        } else {
            match blob_contents(username, decode_utf8(p), device_id) {
                None => Err(AddUserError::BadBlob),
                Some((t, d)) => Ok((t, d)),
            }
        },
    }
}

/// The credentials that an `addUser` request for `username` carries, decrypted with the key
/// shared with the controller.
pub fn add_user_credentials(username: String, shared_key: &[u8], blob: &[u8], device_id: &str) -> (r: Result<Credentials, AddUserError>)
    ensures
        match add_user_outcome(username@, shared_key@, blob@, device_id@) {
            Err(e) => r == Err::<Credentials, AddUserError>(e),
            Ok((t, d)) => r matches Ok(c) && c.username@ == username@ && c.auth_type == t && c.auth_data@ == d,
        },
{
    let text = match decrypt_add_user_blob(shared_key, blob) {
        Ok(t) => t,
        Err(e) => return Err(e),
    };
    match Credentials::try_with_blob(username, text.as_str(), device_id) {
        Some(c) => Ok(c),
        None => Err(AddUserError::BadBlob),
    }
}

/// The method of an HTTP request, as far as discovery tells them apart.
#[derive(Clone, Copy, Debug, PartialEq, Eq)]
pub enum Method {
    Get,
    Post,
    Other,
}

/// What a discovery request asks for.
#[derive(Clone, Copy, Debug, PartialEq, Eq)]
pub enum DiscoveryRoute {
    /// `GET` with `action=getInfo`: the device's description and public key.
    GetInfo,
    /// `POST` with `action=addUser`: credentials for the device.
    AddUser,
    /// Anything else.
    NotFound,
}

/// Which answer a request of method `method` with the parameter `action` gets.
pub fn route(method: Method, action: Option<&str>) -> (r: DiscoveryRoute)
    ensures
        r == (match (method, action) {
            (Method::Get, Some(a)) => if a@ == "getInfo"@ {
                DiscoveryRoute::GetInfo
            } else {
                DiscoveryRoute::NotFound
            },
            (Method::Post, Some(a)) => if a@ == "addUser"@ {
                DiscoveryRoute::AddUser
            } else {
                DiscoveryRoute::NotFound
            },
            _ => DiscoveryRoute::NotFound,
        }),
{
    match (method, action) {
        (Method::Get, Some(a)) => {
            if a.to_owned() == "getInfo".to_owned() {
                DiscoveryRoute::GetInfo
            } else {
                DiscoveryRoute::NotFound
            }
        },
        (Method::Post, Some(a)) => {
            if a.to_owned() == "addUser".to_owned() {
                DiscoveryRoute::AddUser
            } else {
                DiscoveryRoute::NotFound
            }
        },
        _ => DiscoveryRoute::NotFound,
    }
}

/// What a device answers to `getInfo`: its description and the public key of its key exchange.
pub struct DeviceInfo {
    pub status: u32,
    pub status_string: String,
    pub spotify_error: u32,
    pub version: String,
    pub device_id: String,
    pub remote_name: String,
    pub active_user: String,
    pub public_key: String,
    pub device_type: String,
    pub library_version: String,
    pub account_req: String,
    pub brand_display_name: String,
    pub model_display_name: String,
}

/// What a device answers to an `addUser` that it took.
pub struct AddUserReply {
    pub status: u32,
    pub spotify_error: u32,
    pub status_string: String,
}

/// The answer of the device `device_name` of id `device_id`, whose private key is
/// `private_key`, to `getInfo`: status 101 ("ERROR-OK"), no error, version 2.1.0, no active
/// user, an unknown kind of device that asks for a premium account, branded and modelled
/// `librespot` in version 0.1.0, and the public key in base64.
pub fn get_info(device_id: &str, device_name: &str, private_key: &[u8]) -> (r: DeviceInfo)
    ensures
        r.status == 101,
        r.status_string@ == "ERROR-OK"@,
        r.spotify_error == 0,
        r.version@ == "2.1.0"@,
        r.device_id@ == device_id@,
        r.remote_name@ == device_name@,
        r.active_user@ == ""@,
        r.public_key@ == base64_encoding(mod_pow(dh_generator(), private_key@, dh_prime())),
        r.device_type@ == "UNKNOWN"@,
        r.library_version@ == "0.1.0"@,
        r.account_req@ == "PREMIUM"@,
        r.brand_display_name@ == "librespot"@,
        r.model_display_name@ == "librespot"@,
{
    DeviceInfo {
        status: 101,
        status_string: "ERROR-OK".to_owned(),
        spotify_error: 0,
        version: "2.1.0".to_owned(),
        device_id: device_id.to_owned(),
        remote_name: device_name.to_owned(),
        active_user: "".to_owned(),
        public_key: public_key_text(private_key),
        device_type: "UNKNOWN".to_owned(),
        library_version: "0.1.0".to_owned(),
        account_req: "PREMIUM".to_owned(),
        brand_display_name: "librespot".to_owned(),
        model_display_name: "librespot".to_owned(),
    }
}

/// The answer to an `addUser` that the device took: status 101 ("ERROR-OK"), no error.
pub fn add_user_reply() -> (r: AddUserReply)
    ensures
        r.status == 101,
        r.spotify_error == 0,
        r.status_string@ == "ERROR-OK"@,
{
    AddUserReply { status: 101, spotify_error: 0, status_string: "ERROR-OK".to_owned() }
}

/// The credentials that an `addUser` request carries in its parameters: `blob_b64`, the
/// encrypted blob in base64, and `client_key_b64`, the controller's public key in base64, from
/// which the key shared with the device of private key `private_key` is computed.
pub fn add_user_from_params(username: String, blob_b64: &str, client_key_b64: &str, private_key: &[u8], device_id: &str) -> (r: Result<Credentials, AddUserError>)
    ensures
        match (base64_decoding(blob_b64@), base64_decoding(client_key_b64@)) {
            (Some(blob), Some(client_key)) => match add_user_outcome(
                username@,
                mod_pow(client_key, private_key@, dh_prime()),
                blob,
                device_id@,
            ) {
                Err(e) => r == Err::<Credentials, AddUserError>(e),
                Ok((t, d)) => r matches Ok(c) && c.username@ == username@ && c.auth_type == t && c.auth_data@ == d,
            },
            _ => r == Err::<Credentials, AddUserError>(AddUserError::NotBase64),
        },
{
    let blob = match base64_decode(blob_b64) {
        Some(b) => b,
        None => return Err(AddUserError::NotBase64),
    };
    let client_key = match base64_decode(client_key_b64) {
        Some(k) => k,
        None => return Err(AddUserError::NotBase64),
    };
    let shared = dh_shared_key(client_key.as_slice(), private_key);
    add_user_credentials(username, shared.as_slice(), blob.as_slice(), device_id)
}

/// The name and value pairs that `application/x-www-form-urlencoded` text holds, decoded.
pub uninterp spec fn form_pairs(input: Seq<u8>) -> Seq<(Seq<char>, Seq<char>)>;

/// `url::form_urlencoded::parse(..).into_owned()`: the decoded pairs of `input`, in order.
#[verifier::external_body]
pub(crate) fn form_urlencoded_pairs(input: &[u8]) -> (r: Vec<(String, String)>)
    ensures
        r@.map_values(|p: (String, String)| (p.0@, p.1@)) == form_pairs(input@),
{
    url::form_urlencoded::parse(input).into_owned().collect()
}

/// The parameters of a request: those of its query, then those of its body.
pub fn request_params(query: &[u8], body: &[u8]) -> (r: Vec<(String, String)>)
    ensures
        r@.map_values(|p: (String, String)| (p.0@, p.1@)) == form_pairs(query@) + form_pairs(body@),
{
    let mut params = form_urlencoded_pairs(query);
    let mut rest = form_urlencoded_pairs(body);
    let ghost a = params@;
    let ghost b = rest@;
    params.append(&mut rest);
    assert(params@.map_values(|p: (String, String)| (p.0@, p.1@)) =~= a.map_values(
        |p: (String, String)| (p.0@, p.1@),
    ) + b.map_values(|p: (String, String)| (p.0@, p.1@)));
    params
}

/// The value of the last parameter named `name`: a later parameter of a name replaces an
/// earlier one.
pub open spec fn param_value(params: Seq<(Seq<char>, Seq<char>)>, name: Seq<char>) -> Option<Seq<char>>
    decreases params.len(),
{
    if params.len() == 0 {
        None
    } else if params.last().0 == name {
        Some(params.last().1)
    } else {
        param_value(params.drop_last(), name)
    }
}

/// The value of the parameter `name` of a request.
pub fn param(params: &[(String, String)], name: &str) -> (r: Option<String>)
    ensures
        match param_value(params@.map_values(|p: (String, String)| (p.0@, p.1@)), name@) {
            Some(v) => r matches Some(s) && s@ == v,
            None => r is None,
        },
{
    let ghost m = params@.map_values(|p: (String, String)| (p.0@, p.1@));
    let wanted = name.to_owned();
    let mut i = params.len();
    assert(m.take(i as int) =~= m);
    while i > 0
        invariant
            i <= params@.len(),
            m == params@.map_values(|p: (String, String)| (p.0@, p.1@)),
            wanted@ == name@,
            param_value(m, name@) == param_value(m.take(i as int), name@),
        decreases i,
    {
        let ghost t = m.take(i as int);
        assert(t.drop_last() =~= m.take(i - 1));
        assert(t.last() == m[i - 1]);
        if params[i - 1].0 == wanted {
            return Some(params[i - 1].1.clone());
        }
        i = i - 1;
    }
    assert(m.take(0) =~= Seq::<(Seq<char>, Seq<char>)>::empty());
    None
}

} // verus!
