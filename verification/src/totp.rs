//! The one-time code that the key server asks for: TOTP over HMAC-SHA512 of its fixed secret.
use vstd::prelude::*;

verus! {

/// The TOTP code of `digits` decimal digits for the time `time` (seconds since the epoch) in
/// steps of `step` seconds, keyed by `secret`, over HMAC-SHA512.
pub uninterp spec fn totp_sha512(step: u64, digits: u32, secret: Seq<u8>, time: u64) -> Seq<char>;

/// `totp_lite::totp_custom::<Sha512>`: the code, written with exactly `digits` decimal digits
/// (padded with leading zeros; a code of no digit is the single digit `0`). The crate divides
/// by `step` and raises ten to `digits` in a `u64`, so `step` must be positive and `digits` at
/// most 19.
#[verifier::external_body]
pub(crate) fn totp_sha512_code(step: u64, digits: u32, secret: &[u8], time: u64) -> (r: String)
    requires
        step > 0,
        digits <= 19,
    ensures
        r@ == totp_sha512(step, digits, secret@, time),
        digits > 0 ==> r@.len() == digits,
        forall|i: int| 0 <= i < r@.len() ==> '0' <= #[trigger] r@[i] <= '9',
{
    totp_lite::totp_custom::<totp_lite::Sha512>(step, digits, secret, time)
}

/// The number of seconds of a step of the key server's codes.
pub const TOTP_STEP: u64 = 30;

/// The secret of the key server's codes.
pub open spec fn key_server_secret() -> Seq<u8> {
    "GU2TANZRGQ2TQNJTGQ4DONBZHE2TSMRSGQ4DMMZQGMZDSMZUG4"@.map_values(|c: char| c as u8)
}

/// The key server's six-digit code for the time `seconds` (seconds since the epoch).
pub fn key_server_totp(seconds: u64) -> (r: String)
    ensures
        r@ == totp_sha512(TOTP_STEP, 6, key_server_secret(), seconds),
        r@.len() == 6,
{
    let text = "GU2TANZRGQ2TQNJTGQ4DONBZHE2TSMRSGQ4DMMZQGMZDSMZUG4";
    proof {
        reveal_strlit("GU2TANZRGQ2TQNJTGQ4DONBZHE2TSMRSGQ4DMMZQGMZDSMZUG4");
        vstd::string::is_ascii_spec_bytes(text);
    }
    assert(vstd::string::is_ascii(text));
    let secret = vstd::slice::slice_to_vec(text.as_bytes());
    assert(secret@ =~= key_server_secret());
    totp_sha512_code(TOTP_STEP, 6, secret.as_slice(), seconds)
}

} // verus!
