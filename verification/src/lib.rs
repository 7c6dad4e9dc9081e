use vstd::prelude::*;

pub mod album_cover;
pub mod apresolve;
pub mod audio_backend;
pub mod audio_decrypt;
pub mod audio_file;
pub mod audio_file2;
pub mod audio_key;
pub mod authentication;
pub mod config;
pub mod crypt;
pub mod endian;
pub mod protocol;
pub mod totp;
pub mod util;
pub mod wire;

verus! {

} // verus!
