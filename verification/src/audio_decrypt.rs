//! Decrypting the audio of a file with its key.
use vstd::prelude::*;
use vstd::slice::{slice_subrange, slice_to_vec};
use crate::audio_key::AudioKey;
use crate::crypt::{aes128_ctr, aes128_ctr_from, aes128_ctr_stream};

verus! {

/// The counter block that the decryption of every file of audio starts from.
pub open spec fn audio_aesiv() -> Seq<u8> {
    seq![0x72u8, 0xe0, 0x67, 0xfb, 0xdd, 0xcb, 0xcf, 0x77, 0xeb, 0xe8, 0xbc, 0x64, 0x3f, 0x63, 0x0d, 0x93]
}

/// How many bytes at the start of a decrypted file are skipped.
pub const HEADER_LEN: usize = 0xa7;

/// The decrypted audio of a file encrypted as `encrypted` under `key`: the AES-128 counter-mode
/// stream from the fixed counter block, without its first `HEADER_LEN` bytes.
pub open spec fn decrypted_audio(key: Seq<u8>, encrypted: Seq<u8>) -> Seq<u8> {
    aes128_ctr_stream(key, audio_aesiv(), encrypted).subrange(HEADER_LEN as int, encrypted.len() as int)
}

/// Decrypts the files of audio of one key.
pub struct AudioDecrypt {
    pub key: AudioKey,
}

impl AudioDecrypt {
    /// A decryption under `key`.
    pub fn new(key: AudioKey) -> (r: AudioDecrypt)
        ensures
            r.key@ == key@,
    {
        AudioDecrypt { key: key }
    }

    /// The decrypted audio of the whole encrypted file `encrypted`, which must hold at least
    /// the skipped header.
    pub fn decrypt(&self, encrypted: &[u8]) -> (r: Vec<u8>)
        requires
            encrypted@.len() >= HEADER_LEN,
        ensures
            r@ == decrypted_audio(self.key@, encrypted@),
    {
        let iv: [u8; 16] = [0x72, 0xe0, 0x67, 0xfb, 0xdd, 0xcb, 0xcf, 0x77, 0xeb, 0xe8, 0xbc, 0x64, 0x3f, 0x63, 0x0d, 0x93];
        assert(iv@ =~= audio_aesiv());
        let all = aes128_ctr(self.key.as_slice(), iv.as_slice(), encrypted);
        slice_to_vec(slice_subrange(all.as_slice(), HEADER_LEN, all.len()))
    }

    /// The decrypted audio from the position `offset` on (counted after the skipped header) of
    /// a file whose encrypted bytes from there on begin with `encrypted`: what decrypting the
    /// whole file gives at those positions, whatever comes before.
    pub fn decrypt_from(&self, offset: usize, encrypted: &[u8]) -> (r: Vec<u8>)
        requires
            offset <= usize::MAX - HEADER_LEN,
        ensures
            r@.len() == encrypted@.len(),
            forall|head: Seq<u8>|
                head.len() == HEADER_LEN + offset ==> #[trigger] decrypted_audio(self.key@, head + encrypted@).skip(
                    offset as int,
                ) == r@,
    {
        let iv: [u8; 16] = [0x72, 0xe0, 0x67, 0xfb, 0xdd, 0xcb, 0xcf, 0x77, 0xeb, 0xe8, 0xbc, 0x64, 0x3f, 0x63, 0x0d, 0x93];
        assert(iv@ =~= audio_aesiv());
        let r = aes128_ctr_from(self.key.as_slice(), iv.as_slice(), HEADER_LEN + offset, encrypted);
        assert forall|head: Seq<u8>| head.len() == HEADER_LEN + offset implies #[trigger] decrypted_audio(
            self.key@,
            head + encrypted@,
        ).skip(offset as int) == r@ by {
            let whole = aes128_ctr_stream(self.key@, audio_aesiv(), head + encrypted@);
            assert(r@ == whole.skip(head.len() as int));
            assert(decrypted_audio(self.key@, head + encrypted@).skip(offset as int) =~= r@);
        }
        r
    }
}

} // verus!
