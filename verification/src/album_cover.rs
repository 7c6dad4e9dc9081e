//! Asking for the image of an album cover.
use vstd::prelude::*;
use crate::endian::{be16_bytes, put_be_u16};
use crate::util::FileId;

verus! {

/// The packet (command 0x19) that asks on channel `channel_id` for the image `file`: the
/// channel, two zero bytes, then the file id.
pub open spec fn cover_request_packet(channel_id: u16, file: Seq<u8>) -> Seq<u8> {
    be16_bytes(channel_id) + be16_bytes(0) + file
}

/// The packet that asks for the image `file` on channel `channel_id`.
pub fn cover_request(channel_id: u16, file: &FileId) -> (r: Vec<u8>)
    ensures
        r@ == cover_request_packet(channel_id, file.0@),
{
    let mut packet: Vec<u8> = Vec::new();
    put_be_u16(&mut packet, channel_id);
    put_be_u16(&mut packet, 0);
    let ghost before = packet@;
    let mut i: usize = 0;
    while i < 20
        invariant
            i <= 20,
            packet@ == before + file.0@.subrange(0, i as int),
        decreases 20 - i,
    {
        packet.push(file.0[i]);
        assert(file.0@.subrange(0, i + 1) =~= file.0@.subrange(0, i as int).push(file.0@[i as int]));
        i = i + 1;
    }
    assert(file.0@.subrange(0, 20) =~= file.0@);
    packet
}

} // verus!
