//! The digests, ciphers and encodings that the login and the audio path rely on.
//!
//! Each of them is computed by `rust-crypto` or `rustc-serialize`; the library names what they
//! return and states what their documentation and source show: the lengths of the results.
use vstd::prelude::*;
use crypto::aes;
use crypto::digest::Digest;
use crypto::hmac::Hmac;
use crypto::mac::Mac;
use crypto::pbkdf2::pbkdf2;
use crypto::sha1::Sha1;
use rustc_serialize::base64::{self, FromBase64, ToBase64};

verus! {

/// The SHA-1 digest of `data`.
pub uninterp spec fn sha1_digest(data: Seq<u8>) -> Seq<u8>;

/// The HMAC-SHA1 code of `data` under `key`.
pub uninterp spec fn hmac_sha1_code(key: Seq<u8>, data: Seq<u8>) -> Seq<u8>;

/// The first `len` bytes of PBKDF2 with HMAC-SHA1, keyed by `password`, over `salt`, with
/// `rounds` iterations.
pub uninterp spec fn pbkdf2_hmac_sha1(password: Seq<u8>, salt: Seq<u8>, rounds: u32, len: usize) -> Seq<u8>;

/// `data` decrypted block by block with AES-192 under `key`, without padding.
pub uninterp spec fn aes192_ecb_decryption(key: Seq<u8>, data: Seq<u8>) -> Seq<u8>;

/// `data` XORed with the AES-128 counter-mode key stream of `key`, starting at counter `iv`.
pub uninterp spec fn aes128_ctr_stream(key: Seq<u8>, iv: Seq<u8>, data: Seq<u8>) -> Seq<u8>;

/// The bytes that the base64 text `text` stands for, or `None` where it is not base64.
pub uninterp spec fn base64_decoding(text: Seq<char>) -> Option<Seq<u8>>;

/// The base64 digit of value `v`, below 64, in the standard alphabet.
pub open spec fn base64_digit(v: int) -> char {
    "ABCDEFGHIJKLMNOPQRSTUVWXYZabcdefghijklmnopqrstuvwxyz0123456789+/"@[v]
}

/// The standard base64 text of `data`: each three bytes, read as a 24-bit big-endian number,
/// give four digits of six bits each; a last one or two bytes, followed by zero bits, give two
/// or three digits and `=` up to four characters. No line breaks.
pub open spec fn base64_encoding(data: Seq<u8>) -> Seq<char>
    decreases data.len(),
{
    if data.len() == 0 {
        Seq::empty()
    } else {
        let a = data[0] as int;
        let b = if data.len() > 1 { data[1] as int } else { 0 };
        let c = if data.len() > 2 { data[2] as int } else { 0 };
        let d1 = base64_digit(a / 4);
        let d2 = base64_digit((a % 4) * 16 + b / 16);
        let d3 = base64_digit((b % 16) * 4 + c / 64);
        let d4 = base64_digit(c % 64);
        if data.len() == 1 {
            seq![d1, d2, '=', '=']
        } else if data.len() == 2 {
            seq![d1, d2, d3, '=']
        } else {
            seq![d1, d2, d3, d4] + base64_encoding(data.skip(3))
        }
    }
}

/// `crypto::sha1::Sha1`: the SHA-1 digest of `data`, which is 20 bytes long.
#[verifier::external_body]
pub(crate) fn sha1(data: &[u8]) -> (r: Vec<u8>)
    ensures
        r@ == sha1_digest(data@),
        r@.len() == 20,
{
    let mut out = [0u8; 20];
    let mut h = Sha1::new();
    h.input(data);
    h.result(&mut out);
    out.to_vec()
}

/// `crypto::hmac::Hmac` over `crypto::sha1::Sha1`: the code of `data` under `key`, which is
/// 20 bytes long.
#[verifier::external_body]
pub(crate) fn hmac_sha1(key: &[u8], data: &[u8]) -> (r: Vec<u8>)
    ensures
        r@ == hmac_sha1_code(key@, data@),
        r@.len() == 20,
{
    let mut h = Hmac::new(Sha1::new(), key);
    h.input(data);
    h.result().code().to_vec()
}

/// `crypto::pbkdf2::pbkdf2` with HMAC-SHA1 keyed by `password`: fills `len` bytes. The crate
/// asserts that `rounds` is positive and that the number of 20-byte blocks fits in a `u32`.
#[verifier::external_body]
pub(crate) fn pbkdf2_sha1(password: &[u8], salt: &[u8], rounds: u32, len: usize) -> (r: Vec<u8>)
    requires
        rounds > 0,
        len <= u32::MAX,
    ensures
        r@ == pbkdf2_hmac_sha1(password@, salt@, rounds, len),
        r@.len() == len,
{
    let mut mac = Hmac::new(Sha1::new(), password);
    let mut out = vec![0u8; len];
    pbkdf2(&mut mac, salt, rounds, &mut out);
    out
}

/// `crypto::aes::ecb_decryptor` with a 24-byte key and `NoPadding`, run to the end of `data`:
/// on whole 16-byte blocks it decrypts every block into an output of the same length.
#[verifier::external_body]
pub(crate) fn aes192_ecb_decrypt(key: &[u8], data: &[u8]) -> (r: Vec<u8>)
    requires
        key@.len() == 24,
        data@.len() % 16 == 0,
    ensures
        r@ == aes192_ecb_decryption(key@, data@),
        r@.len() == data@.len(),
{
    let mut out = vec![0u8; data.len()];
    let mut cipher = aes::ecb_decryptor(aes::KeySize::KeySize192, key, crypto::blockmodes::NoPadding);
    let mut input = crypto::buffer::RefReadBuffer::new(data);
    let mut output = crypto::buffer::RefWriteBuffer::new(&mut out);
    cipher.decrypt(&mut input, &mut output, true).unwrap();
    out
}

/// `crypto::aes::ctr` with a 16-byte key and a 16-byte counter block, applied to `data`: the
/// output has the length of the input.
#[verifier::external_body]
pub(crate) fn aes128_ctr(key: &[u8], iv: &[u8], data: &[u8]) -> (r: Vec<u8>)
    requires
        key@.len() == 16,
        iv@.len() == 16,
    ensures
        r@ == aes128_ctr_stream(key@, iv@, data@),
        r@.len() == data@.len(),
{
    let mut out = vec![0u8; data.len()];
    let mut cipher = aes::ctr(aes::KeySize::KeySize128, key, iv);
    cipher.process(data, &mut out);
    out
}

/// `crypto::aes::ctr` with a 16-byte key and a 16-byte counter block, run over `offset` bytes
/// and then applied to `data`. The cipher XORs each byte with the next byte of its key stream,
/// so the output is what the cipher gives for `data` when `data` follows any `offset` bytes of
/// input, and the output has the length of the input.
#[verifier::external_body]
pub(crate) fn aes128_ctr_from(key: &[u8], iv: &[u8], offset: usize, data: &[u8]) -> (r: Vec<u8>)
    requires
        key@.len() == 16,
        iv@.len() == 16,
    ensures
        r@.len() == data@.len(),
        forall|a: Seq<u8>|
            a.len() == offset ==> r@ == #[trigger] aes128_ctr_stream(key@, iv@, a + data@).skip(offset as int)
                && offset + r@.len() == aes128_ctr_stream(key@, iv@, a + data@).len(),
{
    let skipped = vec![0u8; offset];
    let mut sink = vec![0u8; offset];
    let mut out = vec![0u8; data.len()];
    let mut cipher = aes::ctr(aes::KeySize::KeySize128, key, iv);
    cipher.process(&skipped, &mut sink);
    cipher.process(data, &mut out);
    out
}

/// `rustc_serialize::base64::FromBase64` on a `str`: the bytes, or `None` where the crate
/// reports an error.
#[verifier::external_body]
pub(crate) fn base64_decode(text: &str) -> (r: Option<Vec<u8>>)
    ensures
        match r {
            Some(v) => base64_decoding(text@) == Some(v@),
            None => base64_decoding(text@) is None,
        },
{
    match text.from_base64() {
        Ok(v) => Some(v),
        Err(_) => None,
    }
}

/// `rustc_serialize::base64::ToBase64` with the `STANDARD` configuration: the standard
/// alphabet, padding, and no line breaks, as it sets no line length. `FromBase64` reads such a
/// text back as the bytes it encodes.
#[verifier::external_body]
pub(crate) fn base64_encode(data: &[u8]) -> (r: String)
    ensures
        r@ == base64_encoding(data@),
        base64_decoding(r@) == Some(data@),
{
    data.to_base64(base64::STANDARD)
}

} // verus!
