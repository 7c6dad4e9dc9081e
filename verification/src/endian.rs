//! Big-endian integers in byte strings, as the packets of the protocol carry them.
use vstd::prelude::*;
use byteorder::{BigEndian, ByteOrder, WriteBytesExt};

verus! {

/// The four bytes of `v`, most significant first.
pub open spec fn be32_bytes(v: u32) -> Seq<u8> {
    seq![
        (v / 0x100_0000) as u8,
        ((v / 0x1_0000) % 0x100) as u8,
        ((v / 0x100) % 0x100) as u8,
        (v % 0x100) as u8,
    ]
}

/// The two bytes of `v`, most significant first.
pub open spec fn be16_bytes(v: u16) -> Seq<u8> {
    seq![(v / 0x100) as u8, (v % 0x100) as u8]
}

/// The number that the first four bytes of `b` stand for, most significant first.
pub open spec fn be32_value(b: Seq<u8>) -> u32 {
    (b[0] * 0x100_0000int + b[1] * 0x1_0000int + b[2] * 0x100int + b[3]) as u32
}

/// Reading back the four bytes of a number gives the number.
pub proof fn lemma_be32_roundtrip(v: u32)
    ensures
        be32_value(be32_bytes(v)) == v,
        be32_bytes(v).len() == 4,
{
    let b = be32_bytes(v);
    assert(b[0] * 0x100_0000int + b[1] * 0x1_0000int + b[2] * 0x100int + b[3] == v) by (nonlinear_arith)
        requires
            b[0] == v / 0x100_0000,
            b[1] == (v / 0x1_0000) % 0x100,
            b[2] == (v / 0x100) % 0x100,
            b[3] == v % 0x100,
            0 <= v <= u32::MAX,
    ;
}

/// Four bytes read back as a number give those bytes again.
pub proof fn lemma_be32_bytes_of_value(b: Seq<u8>)
    requires
        b.len() == 4,
    ensures
        be32_bytes(be32_value(b)) == b,
{
    let v = b[0] * 0x100_0000int + b[1] * 0x1_0000int + b[2] * 0x100int + b[3];
    assert(0 <= v <= u32::MAX) by (nonlinear_arith)
        requires
            v == b[0] * 0x100_0000int + b[1] * 0x1_0000int + b[2] * 0x100int + b[3],
            0 <= b[0] < 256,
            0 <= b[1] < 256,
            0 <= b[2] < 256,
            0 <= b[3] < 256,
    ;
    assert(v / 0x100_0000 == b[0] && (v / 0x1_0000) % 0x100 == b[1] && (v / 0x100) % 0x100 == b[2]
        && v % 0x100 == b[3]) by (nonlinear_arith)
        requires
            v == b[0] * 0x100_0000int + b[1] * 0x1_0000int + b[2] * 0x100int + b[3],
            0 <= b[0] < 256,
            0 <= b[1] < 256,
            0 <= b[2] < 256,
            0 <= b[3] < 256,
    ;
    assert(be32_bytes(be32_value(b)) =~= b);
}

/// Appends the four bytes of `v`, most significant first, with
/// `byteorder::WriteBytesExt::write_u32::<BigEndian>`. Writing to a `Vec` cannot fail, so the
/// contract states the bytes that are appended.
#[verifier::external_body]
pub(crate) fn put_be_u32(out: &mut Vec<u8>, v: u32)
    ensures
        final(out)@ == old(out)@ + be32_bytes(v),
{
    out.write_u32::<BigEndian>(v).unwrap();
}

/// Appends the two bytes of `v`, most significant first, with
/// `byteorder::WriteBytesExt::write_u16::<BigEndian>`. Writing to a `Vec` cannot fail.
#[verifier::external_body]
pub(crate) fn put_be_u16(out: &mut Vec<u8>, v: u16)
    ensures
        final(out)@ == old(out)@ + be16_bytes(v),
{
    out.write_u16::<BigEndian>(v).unwrap();
}

/// The number that the first four bytes of `buf` stand for, with
/// `byteorder::BigEndian::read_u32`, which panics on fewer than four bytes.
#[verifier::external_body]
pub(crate) fn get_be_u32(buf: &[u8]) -> (r: u32)
    requires
        buf@.len() >= 4,
    ensures
        r == be32_value(buf@),
{
    BigEndian::read_u32(buf)
}

} // verus!
