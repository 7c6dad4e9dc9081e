//! Identifiers of tracks and of the files that hold their audio.
use vstd::prelude::*;

verus! {

/// The 16-byte identifier of a track.
#[derive(Debug, Hash, PartialEq, Eq, Copy, Clone)]
pub struct SpotifyId(pub [u8; 16]);

/// The 20-byte identifier of a file of audio or of an image.
#[derive(Debug, Hash, PartialEq, Eq, Copy, Clone)]
pub struct FileId(pub [u8; 20]);

impl SpotifyId {
    /// The identifier of the 16 bytes `raw`.
    pub fn from_raw(raw: [u8; 16]) -> (r: SpotifyId)
        ensures
            r.0@ == raw@,
    {
        SpotifyId(raw)
    }

    /// The 16 bytes of the identifier, most significant first.
    pub fn to_raw(&self) -> (r: [u8; 16])
        ensures
            r@ == self.0@,
    {
        self.0
    }
}

/// Whether two byte strings are equal, byte by byte.
pub fn same_bytes(a: &[u8], b: &[u8]) -> (r: bool)
    ensures
        r == (a@ == b@),
{
    if a.len() != b.len() {
        return false;
    }
    let mut i: usize = 0;
    while i < a.len()
        invariant
            i <= a@.len(),
            a@.len() == b@.len(),
            forall|j: int| 0 <= j < i ==> a@[j] == b@[j],
        decreases a@.len() - i,
    {
        if a[i] != b[i] {
            return false;
        }
        i = i + 1;
    }
    assert(a@ =~= b@);
    true
}

} // verus!
