//! The protobuf wire format: varints, tags, length-delimited values,
//! zigzag integers and unknown fields, read from and written to bytes.
//!
//! The primitives that the protobuf runtime provides (varint and tag
//! reading and writing, zigzag integers, little-endian fixed values, varint
//! sizes) are called through small trusted wrappers; everything built on top
//! of them is verified here against spec functions over byte sequences.
use vstd::prelude::*;
use vstd::utf8::*;

verus! {

broadcast use vstd::seq_lib::group_seq_properties;

// ---------------------------------------------------------------------------
// Varints
// ---------------------------------------------------------------------------

/// The bytes of the varint encoding of `v` from group `i` on: seven bits per
/// byte, least significant group first, high bit set on every byte but the last.
pub open spec fn varint_bytes_from(v: u64, i: nat) -> Seq<u8>
    decreases 10 - i,
{
    let r = v >> ((7 * i) as u64);
    if r < 0x80 || i >= 9 {
        seq![r as u8]
    } else {
        seq![((r & 0x7f) | 0x80) as u8] + varint_bytes_from(v, i + 1)
    }
}

/// The varint encoding of `v`.
pub open spec fn varint_bytes(v: u64) -> Seq<u8> {
    varint_bytes_from(v, 0)
}

/// Reading a varint whose first `i` bytes gave `acc`: at most ten bytes are
/// read, each adds its low seven bits at position `7 * i`, and a byte below
/// 0x80 ends the varint.
pub open spec fn varint_parse_from(s: Seq<u8>, i: nat, acc: u64) -> Option<(u64, nat)>
    decreases 10 - i,
{
    if i >= 10 || i >= s.len() {
        None
    } else {
        let b = s[i as int];
        let acc2 = acc | (((b & 0x7f) as u64) << ((7 * i) as u64));
        if b < 0x80 {
            Some((acc2, i + 1))
        } else {
            varint_parse_from(s, i + 1, acc2)
        }
    }
}

proof fn lemma_varint_parse_from_len(s: Seq<u8>, i: nat, acc: u64)
    ensures
        varint_parse_from(s, i, acc) matches Some((_v, n)) ==> i < n <= s.len() && n <= 10,
    decreases 10 - i,
{
    if i >= 10 || i >= s.len() {
    } else if s[i as int] < 0x80 {
    } else {
        let acc2 = acc | (((s[i as int] & 0x7f) as u64) << ((7 * i) as u64));
        lemma_varint_parse_from_len(s, i + 1, acc2);
    }
}

/// A varint that was read took at least one and at most ten bytes of `s`.
pub proof fn lemma_varint_parse_len(s: Seq<u8>)
    ensures
        varint_parse(s) matches Some((_v, n)) ==> 1 <= n <= s.len() && n <= 10,
{
    lemma_varint_parse_from_len(s, 0, 0);
}

/// A varint read from the front of `s`: its value and the number of bytes it took.
pub open spec fn varint_parse(s: Seq<u8>) -> Option<(u64, nat)> {
    varint_parse_from(s, 0, 0)
}

proof fn lemma_varint_step(v: u64, sh: u64)
    requires
        sh <= 56,
    ensures
        (v & (((1u64 << sh) - 1) as u64)) | (((((((v >> sh) & 0x7f) | 0x80) as u8) & 0x7f) as u64)
            << sh) == v & (((1u64 << ((sh + 7) as u64)) - 1) as u64),
        (((((v >> sh) & 0x7f) | 0x80) as u8) >= 0x80),
{
    assert((v & (((1u64 << sh) - 1) as u64)) | (((((((v >> sh) & 0x7f) | 0x80) as u8) & 0x7f)
        as u64) << sh) == v & (((1u64 << ((sh + 7) as u64)) - 1) as u64)) by (bit_vector)
        requires
            sh <= 56,
    ;
    assert(((((v >> sh) & 0x7f) | 0x80) as u8) >= 0x80) by (bit_vector);
}

proof fn lemma_varint_last(v: u64, sh: u64)
    requires
        sh <= 63,
        (v >> sh) < 0x80,
    ensures
        (v & (((1u64 << sh) - 1) as u64)) | (((((v >> sh) as u8) & 0x7f) as u64) << sh) == v,
        ((v >> sh) as u8) < 0x80,
{
    assert((v & (((1u64 << sh) - 1) as u64)) | (((((v >> sh) as u8) & 0x7f) as u64) << sh) == v)
        by (bit_vector)
        requires
            sh <= 63,
            (v >> sh) < 0x80,
    ;
    assert(((v >> sh) as u8) < 0x80) by (bit_vector)
        requires
            (v >> sh) < 0x80,
    ;
}

proof fn lemma_varint_roundtrip_from(v: u64, i: nat, rest: Seq<u8>, pre: Seq<u8>)
    requires
        i <= 9,
        pre.len() == i,
    ensures
        varint_parse_from(
            pre + varint_bytes_from(v, i) + rest,
            i,
            v & (((1u64 << ((7 * i) as u64)) - 1) as u64),
        ) == Some((v, i + varint_bytes_from(v, i).len())),
        1 <= varint_bytes_from(v, i).len() <= 10 - i,
    decreases 10 - i,
{
    let sh = (7 * i) as u64;
    let s = pre + varint_bytes_from(v, i) + rest;
    let acc = v & (((1u64 << sh) - 1) as u64);
    let r = v >> sh;
    assert(9 <= 63);
    if r < 0x80 || i >= 9 {
        if i >= 9 {
            assert(v >> 63u64 < 0x80) by (bit_vector);
        }
        lemma_varint_last(v, sh);
        assert(s[i as int] == r as u8);
    } else {
        lemma_varint_step(v, sh);
        assert(s[i as int] == ((r & 0x7f) | 0x80) as u8);
        let pre2 = pre + seq![((r & 0x7f) | 0x80) as u8];
        assert(s == pre2 + varint_bytes_from(v, i + 1) + rest);
        assert(((7 * (i + 1)) as u64) == sh + 7);
        lemma_varint_roundtrip_from(v, i + 1, rest, pre2);
    }
}

/// Reading back a written varint gives the value and the length of its
/// encoding, whatever follows it.
pub proof fn lemma_varint_roundtrip(v: u64, rest: Seq<u8>)
    ensures
        varint_parse(varint_bytes(v) + rest) == Some((v, varint_bytes(v).len())),
        1 <= varint_bytes(v).len() <= 10,
{
    assert(v & (((1u64 << 0u64) - 1) as u64) == 0) by (bit_vector);
    assert(((7 * 0nat) as u64) == 0u64);
    let pre = Seq::<u8>::empty();
    assert(pre + varint_bytes_from(v, 0) + rest == varint_bytes(v) + rest);
    lemma_varint_roundtrip_from(v, 0, rest, pre);
}

/// The number that bytes stand for as base-128 digits, least significant first, each digit
/// the low seven bits of a byte.
pub open spec fn base128_value(s: Seq<u8>) -> nat
    decreases s.len(),
{
    if s.len() == 0 {
        0
    } else {
        (s[0] % 128) as nat + 128 * base128_value(s.skip(1))
    }
}

proof fn lemma_varint_bytes_from_value(v: u64, i: nat)
    requires
        i <= 9,
    ensures
        base128_value(varint_bytes_from(v, i)) == (v >> ((7 * i) as u64)) as nat,
        1 <= varint_bytes_from(v, i).len() <= 10 - i,
        forall|j: int| 0 <= j < varint_bytes_from(v, i).len() - 1 ==> #[trigger] varint_bytes_from(v, i)[j] >= 0x80,
        varint_bytes_from(v, i)[varint_bytes_from(v, i).len() - 1] < 0x80,
    decreases 10 - i,
{
    let sh = (7 * i) as u64;
    let r = v >> sh;
    let w = varint_bytes_from(v, i);
    if r < 0x80 || i >= 9 {
        if i >= 9 {
            assert(v >> 63u64 < 0x80) by (bit_vector);
        }
        assert(r < 0x80);
        assert(w.skip(1) =~= Seq::<u8>::empty());
        assert(base128_value(Seq::<u8>::empty()) == 0);
        assert((r as u8) as nat == r as nat);
        assert(w[0] == r as u8);
        assert(base128_value(w) == (w[0] % 128) as nat + 128 * base128_value(w.skip(1)));
    } else {
        lemma_varint_bytes_from_value(v, i + 1);
        let b = ((r & 0x7f) | 0x80) as u8;
        let tail = varint_bytes_from(v, i + 1);
        assert(w == seq![b] + tail);
        assert(w.skip(1) =~= tail);
        assert(((7 * (i + 1)) as u64) == sh + 7);
        assert(b % 128 == r % 128 && b >= 0x80) by (bit_vector)
            requires
                b == ((r & 0x7f) | 0x80) as u8,
        ;
        assert((v >> sh) >> 7u64 == v >> ((sh + 7) as u64)) by (bit_vector)
            requires
                sh <= 56,
        ;
        assert(r == (r >> 7u64) * 128 + r % 128) by (bit_vector);
        assert forall|j: int| 0 <= j < w.len() - 1 implies #[trigger] w[j] >= 0x80 by {
            if j > 0 {
                assert(w[j] == tail[j - 1]);
            }
        }
        assert(w[w.len() - 1] == tail[tail.len() - 1]);
        assert(w[0] == b);
        assert(base128_value(w) == (b % 128) as nat + 128 * base128_value(tail));
        assert(base128_value(tail) == (r >> 7u64) as nat);
    }
}

/// The varint of a number is its digits in base 128, least significant first: the low seven
/// bits of the bytes give the number, every byte but the last has its high bit set, the last
/// has it clear, and there are one to ten bytes.
pub proof fn lemma_varint_bytes_value(v: u64)
    ensures
        base128_value(varint_bytes(v)) == v as nat,
        1 <= varint_bytes(v).len() <= 10,
        forall|j: int| 0 <= j < varint_bytes(v).len() - 1 ==> #[trigger] varint_bytes(v)[j] >= 0x80,
        varint_bytes(v)[varint_bytes(v).len() - 1] < 0x80,
{
    lemma_varint_bytes_from_value(v, 0);
    assert(((7 * 0nat) as u64) == 0u64);
    assert(v >> 0u64 == v) by (bit_vector);
}


// ---------------------------------------------------------------------------
// Tags
// ---------------------------------------------------------------------------

/// The largest field number that a tag can carry.
pub const FIELD_NUMBER_MAX: u32 = 0x1fffffff;

/// The wire types.
pub const WIRE_VARINT: u32 = 0;
pub const WIRE_FIXED64: u32 = 1;
pub const WIRE_LENGTH_DELIMITED: u32 = 2;
pub const WIRE_START_GROUP: u32 = 3;
pub const WIRE_END_GROUP: u32 = 4;
pub const WIRE_FIXED32: u32 = 5;

/// A field number that a tag can be made from.
pub open spec fn valid_field_number(f: u32) -> bool {
    1 <= f <= FIELD_NUMBER_MAX
}

/// The 32-bit value of the tag of field `f` with wire type `wt`.
pub open spec fn tag_value(f: u32, wt: u32) -> u32 {
    (f << 3u32) | wt
}

/// The encoding of a tag: the varint of its value.
pub open spec fn tag_bytes(f: u32, wt: u32) -> Seq<u8> {
    varint_bytes(tag_value(f, wt) as u64)
}

/// The tag of field `f` with wire type `wt` stands for the number `8 * f + wt`.
pub proof fn lemma_tag_value(f: u32, wt: u32)
    requires
        valid_field_number(f),
        wt < 8,
    ensures
        tag_value(f, wt) as int == 8 * f + wt,
{
    assert((f << 3u32) | wt == f * 8 + wt) by (bit_vector)
        requires
            f <= 0x1fffffff,
            wt < 8,
    ;
}

/// A tag read from the front of `s`: the varint, truncated to 32 bits, holds
/// a wire type in its low three bits (0 to 5) and a nonzero field number above.
pub open spec fn tag_parse(s: Seq<u8>) -> Option<(u32, u32, nat)> {
    match varint_parse(s) {
        Some((v, n)) => {
            let t = v as u32;
            let wt = t & 7u32;
            let f = t >> 3u32;
            if wt <= 5 && f != 0 {
                Some((f, wt, n))
            } else {
                None
            }
        },
        None => None,
    }
}

/// A tag that was read took at least one byte of `s`.
pub proof fn lemma_tag_parse_len(s: Seq<u8>)
    ensures
        tag_parse(s) matches Some((_f, _wt, n)) ==> 1 <= n <= s.len(),
{
    lemma_varint_parse_len(s);
}

/// Reading back a written tag gives its field number and wire type.
pub proof fn lemma_tag_roundtrip(f: u32, wt: u32, rest: Seq<u8>)
    requires
        valid_field_number(f),
        wt <= 5,
    ensures
        tag_parse(tag_bytes(f, wt) + rest) == Some((f, wt, tag_bytes(f, wt).len())),
        1 <= tag_bytes(f, wt).len() <= 5,
{
    let t = tag_value(f, wt);
    lemma_varint_roundtrip(t as u64, rest);
    assert((((t as u64) as u32) & 7u32) == wt && (((t as u64) as u32) >> 3u32) == f) by (bit_vector)
        requires
            t == ((f << 3u32) | wt),
            1 <= f <= 0x1fffffff,
            wt <= 5,
    ;
    lemma_varint_len_u32(t);
}

/// The encoding of a value below 2^32 takes at most five bytes.
pub proof fn lemma_varint_len_u32(t: u32)
    ensures
        varint_bytes(t as u64).len() <= 5,
{
    let v = t as u64;
    assert(v >> 35u64 == 0) by (bit_vector)
        requires
            v == t as u64,
    ;
    assert(((7 * 5nat) as u64) == 35u64);
    lemma_varint_len_small(v, 0, 5);
}

proof fn lemma_varint_len_small(v: u64, i: nat, k: nat)
    requires
        i < k <= 9,
        v >> ((7 * k) as u64) == 0,
    ensures
        varint_bytes_from(v, i).len() <= k - i,
    decreases 10 - i,
{
    let sh = (7 * i) as u64;
    let r = v >> sh;
    if r < 0x80 || i >= 9 {
    } else {
        if i + 1 == k {
            assert(((7 * k) as u64) == sh + 7);
            assert(v >> sh < 0x80) by (bit_vector)
                requires
                    v >> ((sh + 7) as u64) == 0,
                    sh <= 56,
            ;
        } else {
            lemma_varint_len_small(v, i + 1, k);
        }
    }
}

// ---------------------------------------------------------------------------
// Zigzag integers
// ---------------------------------------------------------------------------

/// The zigzag encoding of a 32-bit signed integer, as protobuf's runtime computes it.
pub open spec fn zigzag_encode32(n: i32) -> u32 {
    ((n << 1i32) ^ (n >> 31i32)) as u32
}

/// The zigzag decoding of a 32-bit value, as protobuf's runtime computes it.
pub open spec fn zigzag_decode32(n: u32) -> i32 {
    ((n >> 1u32) as i32) ^ (-((n & 1u32) as i32)) as i32
}

/// The zigzag number of `n` is `2 * n` for `n` of zero or more and `-2 * n - 1` below zero: the
/// numbers near zero, of either sign, get the small numbers.
pub proof fn lemma_zigzag_value(n: i32)
    ensures
        n >= 0 ==> zigzag_encode32(n) as int == 2 * n,
        n < 0 ==> zigzag_encode32(n) as int == -2 * n - 1,
{
    if n >= 0 {
        assert(((n << 1i32) ^ (n >> 31i32)) as u32 == (n as u32) * 2) by (bit_vector)
            requires
                n >= 0,
        ;
    } else {
        assert(((n << 1i32) ^ (n >> 31i32)) as u32 == (!(n as u32)) * 2 + 1) by (bit_vector)
            requires
                n < 0,
        ;
        assert(!(n as u32) == (-(n as int) - 1) as u32) by (bit_vector)
            requires
                n < 0,
        ;
    }
}

/// Zigzag decoding undoes zigzag encoding.
pub proof fn lemma_zigzag_roundtrip(n: i32)
    ensures
        zigzag_decode32(zigzag_encode32(n)) == n,
{
    assert((((((n << 1i32) ^ (n >> 31i32)) as u32) >> 1u32) as i32) ^ (-(((((n << 1i32) ^ (n
        >> 31i32)) as u32) & 1u32) as i32)) as i32 == n) by (bit_vector);
}


// ---------------------------------------------------------------------------
// Little-endian fixed values
// ---------------------------------------------------------------------------

/// The four little-endian bytes of `v`.
pub open spec fn le32_bytes(v: u32) -> Seq<u8> {
    seq![v as u8, (v >> 8u32) as u8, (v >> 16u32) as u8, (v >> 24u32) as u8]
}

/// The four bytes of `v` are its digits in base 256, least significant first.
pub proof fn lemma_le32_value(v: u32)
    ensures
        v as int == le32_bytes(v)[0] + 0x100 * le32_bytes(v)[1] + 0x10000 * le32_bytes(v)[2] + 0x1000000
            * le32_bytes(v)[3],
{
    assert(v == (v as u8) as u32 + ((v >> 8u32) as u8) as u32 * 0x100 + ((v >> 16u32) as u8) as u32 * 0x10000
        + ((v >> 24u32) as u8) as u32 * 0x1000000) by (bit_vector);
}

/// A little-endian 32-bit value read from the front of `s`.
pub open spec fn le32_parse(s: Seq<u8>) -> Option<(u32, nat)> {
    if s.len() >= 4 {
        Some(
            (
                (s[0] as u32) | ((s[1] as u32) << 8u32) | ((s[2] as u32) << 16u32) | ((s[3] as u32)
                    << 24u32),
                4,
            ),
        )
    } else {
        None
    }
}

/// The eight little-endian bytes of `v`.
pub open spec fn le64_bytes(v: u64) -> Seq<u8> {
    seq![
        v as u8,
        (v >> 8u64) as u8,
        (v >> 16u64) as u8,
        (v >> 24u64) as u8,
        (v >> 32u64) as u8,
        (v >> 40u64) as u8,
        (v >> 48u64) as u8,
        (v >> 56u64) as u8,
    ]
}

/// The eight bytes of `v` are its digits in base 256, least significant first.
pub proof fn lemma_le64_value(v: u64)
    ensures
        v as int == le64_bytes(v)[0] + 0x100 * le64_bytes(v)[1] + 0x10000 * le64_bytes(v)[2] + 0x1000000
            * le64_bytes(v)[3] + 0x100000000 * le64_bytes(v)[4] + 0x10000000000 * le64_bytes(v)[5]
            + 0x1000000000000 * le64_bytes(v)[6] + 0x100000000000000 * le64_bytes(v)[7],
{
    assert(v == (v as u8) as u64 + ((v >> 8u64) as u8) as u64 * 0x100 + ((v >> 16u64) as u8) as u64 * 0x10000
        + ((v >> 24u64) as u8) as u64 * 0x1000000 + ((v >> 32u64) as u8) as u64 * 0x100000000 + ((v
        >> 40u64) as u8) as u64 * 0x10000000000 + ((v >> 48u64) as u8) as u64 * 0x1000000000000 + ((v
        >> 56u64) as u8) as u64 * 0x100000000000000) by (bit_vector);
}

/// A little-endian 64-bit value read from the front of `s`.
pub open spec fn le64_parse(s: Seq<u8>) -> Option<(u64, nat)> {
    if s.len() >= 8 {
        Some(
            (
                (s[0] as u64) | ((s[1] as u64) << 8u64) | ((s[2] as u64) << 16u64) | ((s[3] as u64)
                    << 24u64) | ((s[4] as u64) << 32u64) | ((s[5] as u64) << 40u64) | ((s[6] as u64)
                    << 48u64) | ((s[7] as u64) << 56u64),
                8,
            ),
        )
    } else {
        None
    }
}

/// Reading back four written little-endian bytes gives the value.
pub proof fn lemma_le32_roundtrip(v: u32, rest: Seq<u8>)
    ensures
        le32_parse(le32_bytes(v) + rest) == Some((v, 4nat)),
{
    let s = le32_bytes(v) + rest;
    assert(s[0] == v as u8 && s[1] == (v >> 8u32) as u8 && s[2] == (v >> 16u32) as u8 && s[3] == (v
        >> 24u32) as u8);
    assert(((v as u8) as u32) | ((((v >> 8u32) as u8) as u32) << 8u32) | ((((v >> 16u32) as u8)
        as u32) << 16u32) | ((((v >> 24u32) as u8) as u32) << 24u32) == v) by (bit_vector);
}

/// Reading back eight written little-endian bytes gives the value.
pub proof fn lemma_le64_roundtrip(v: u64, rest: Seq<u8>)
    ensures
        le64_parse(le64_bytes(v) + rest) == Some((v, 8nat)),
{
    let s = le64_bytes(v) + rest;
    assert(s[0] == v as u8 && s[1] == (v >> 8u64) as u8 && s[2] == (v >> 16u64) as u8 && s[3] == (v
        >> 24u64) as u8 && s[4] == (v >> 32u64) as u8 && s[5] == (v >> 40u64) as u8 && s[6] == (v
        >> 48u64) as u8 && s[7] == (v >> 56u64) as u8);
    assert(((v as u8) as u64) | ((((v >> 8u64) as u8) as u64) << 8u64) | ((((v >> 16u64) as u8)
        as u64) << 16u64) | ((((v >> 24u64) as u8) as u64) << 24u64) | ((((v >> 32u64) as u8)
        as u64) << 32u64) | ((((v >> 40u64) as u8) as u64) << 40u64) | ((((v >> 48u64) as u8)
        as u64) << 48u64) | ((((v >> 56u64) as u8) as u64) << 56u64) == v) by (bit_vector);
}

// ---------------------------------------------------------------------------
// Length-delimited values
// ---------------------------------------------------------------------------

/// A byte string read from the front of `s`: a varint length, truncated to
/// 32 bits, followed by that many bytes.
pub open spec fn bytes_parse(s: Seq<u8>) -> Option<(Seq<u8>, nat)> {
    match varint_parse(s) {
        Some((v, n)) => {
            let len = (v as u32) as nat;
            if n + len <= s.len() {
                Some((s.subrange(n as int, (n + len) as int), n + len))
            } else {
                None
            }
        },
        None => None,
    }
}

/// A byte string with its length in front, the length written as a 32-bit varint.
pub open spec fn bytes_value_bytes(b: Seq<u8>) -> Seq<u8> {
    varint_bytes(((b.len() as u32) as u64)) + b
}

/// A byte string whose length fits the 32-bit length prefix.
pub open spec fn fits_u32(b: Seq<u8>) -> bool {
    b.len() <= u32::MAX
}

/// Reading back a written byte string gives the bytes.
pub proof fn lemma_bytes_roundtrip(b: Seq<u8>, rest: Seq<u8>)
    requires
        fits_u32(b),
    ensures
        bytes_parse(bytes_value_bytes(b) + rest) == Some((b, bytes_value_bytes(b).len())),
{
    let l = varint_bytes(((b.len() as u32) as u64));
    lemma_varint_roundtrip(((b.len() as u32) as u64), b + rest);
    assert(bytes_value_bytes(b) + rest == l + (b + rest));
    assert((bytes_value_bytes(b) + rest).subrange(l.len() as int, (l.len() + b.len()) as int) == b);
}

/// The bounds of an embedded message at the front of `s`: a varint length
/// (all 64 bits of it), then that many bytes.
pub open spec fn message_window(s: Seq<u8>) -> Option<(nat, nat)> {
    match varint_parse(s) {
        Some((v, n)) => {
            if n + v <= s.len() {
                Some((n, (n + v) as nat))
            } else {
                None
            }
        },
        None => None,
    }
}

/// Reading back the length in front of an embedded message gives its bounds.
pub proof fn lemma_message_window(b: Seq<u8>, rest: Seq<u8>)
    requires
        fits_u32(b),
    ensures
        message_window(bytes_value_bytes(b) + rest) == Some(
            (
                varint_bytes(((b.len() as u32) as u64)).len(),
                bytes_value_bytes(b).len(),
            ),
        ),
        (bytes_value_bytes(b) + rest).subrange(
            varint_bytes(((b.len() as u32) as u64)).len() as int,
            bytes_value_bytes(b).len() as int,
        ) == b,
{
    lemma_bytes_roundtrip(b, rest);
    lemma_varint_roundtrip(((b.len() as u32) as u64), b + rest);
    assert(bytes_value_bytes(b) + rest == varint_bytes(((b.len() as u32) as u64)) + (b + rest));
    assert(((b.len() as u32) as u64) == b.len());
}

/// How far past the end of `len` bytes read from the start of a stream the runtime lets the
/// length of an embedded value reach: to the largest position a `u64` holds.
pub open spec fn top_limit(len: nat) -> nat {
    if len <= u64::MAX {
        (u64::MAX - len) as nat
    } else {
        0
    }
}

/// The bounds of an embedded message or packed list at the front of `s`, where its length may
/// reach `lim` bytes past the end of `s`: the start of its bytes, their end within `s`, and how
/// far its length reaches past the end of `s`. The runtime reads such a value up to the end of
/// `s` where its length reaches further; a length past `lim` is an error.
pub open spec fn embedded_window(s: Seq<u8>, lim: nat) -> Option<(nat, nat, nat)> {
    match varint_parse(s) {
        Some((v, n)) => {
            if n + v <= s.len() {
                Some((n, (n + v) as nat, 0))
            } else if n + v <= s.len() + lim {
                Some((n, s.len(), (n + v - s.len()) as nat))
            } else {
                None
            }
        },
        None => None,
    }
}

/// The bounds of a written embedded value are those of its bytes, whatever the limit.
pub proof fn lemma_embedded_window(b: Seq<u8>, rest: Seq<u8>, lim: nat)
    requires
        fits_u32(b),
    ensures
        embedded_window(bytes_value_bytes(b) + rest, lim) == Some(
            (
                varint_bytes(((b.len() as u32) as u64)).len(),
                bytes_value_bytes(b).len(),
                0nat,
            ),
        ),
{
    lemma_message_window(b, rest);
}

// ---------------------------------------------------------------------------
// Strings
// ---------------------------------------------------------------------------

/// A string read from the front of `s`: a byte string that must be valid UTF-8.
pub open spec fn string_parse(s: Seq<u8>) -> Option<(Seq<char>, nat)> {
    match bytes_parse(s) {
        Some((b, n)) => if valid_utf8(b) {
            Some((decode_utf8(b), n))
        } else {
            None
        },
        None => None,
    }
}

/// A string written as its UTF-8 bytes with their length in front.
pub open spec fn string_value_bytes(c: Seq<char>) -> Seq<u8> {
    bytes_value_bytes(encode_utf8(c))
}

/// Reading back a written string gives the string.
pub proof fn lemma_string_roundtrip(c: Seq<char>, rest: Seq<u8>)
    requires
        fits_u32(encode_utf8(c)),
    ensures
        string_parse(string_value_bytes(c) + rest) == Some((c, string_value_bytes(c).len())),
{
    lemma_bytes_roundtrip(encode_utf8(c), rest);
    encode_utf8_valid_utf8(c);
    encode_utf8_decode_utf8(c);
}

// ---------------------------------------------------------------------------
// Unknown fields
// ---------------------------------------------------------------------------

/// The value of a field that a message does not know, kept as it was read.
#[derive(Clone, Debug, PartialEq, Eq)]
pub enum UnknownValue {
    Fixed32(u32),
    Fixed64(u64),
    Varint(u64),
    LengthDelimited(Vec<u8>),
}

/// A field that a message does not know: its number and its value.
#[derive(Clone, Debug, PartialEq, Eq)]
pub struct UnknownField {
    pub number: u32,
    pub value: UnknownValue,
}

/// The model of an unknown value.
pub enum UnknownValueModel {
    Fixed32(u32),
    Fixed64(u64),
    Varint(u64),
    LengthDelimited(Seq<u8>),
}

/// The model of an unknown field.
pub struct UnknownFieldModel {
    pub number: u32,
    pub value: UnknownValueModel,
}

impl View for UnknownValue {
    type V = UnknownValueModel;

    open spec fn view(&self) -> UnknownValueModel {
        match self {
            UnknownValue::Fixed32(v) => UnknownValueModel::Fixed32(*v),
            UnknownValue::Fixed64(v) => UnknownValueModel::Fixed64(*v),
            UnknownValue::Varint(v) => UnknownValueModel::Varint(*v),
            UnknownValue::LengthDelimited(b) => UnknownValueModel::LengthDelimited(b@),
        }
    }
}

impl View for UnknownField {
    type V = UnknownFieldModel;

    open spec fn view(&self) -> UnknownFieldModel {
        UnknownFieldModel { number: self.number, value: self.value@ }
    }
}

/// The models of a list of unknown fields.
pub open spec fn unknown_models(v: Seq<UnknownField>) -> Seq<UnknownFieldModel> {
    v.map_values(|u: UnknownField| u@)
}

/// The wire type that an unknown value is written with.
pub open spec fn unknown_wire_type(v: UnknownValueModel) -> u32 {
    match v {
        UnknownValueModel::Fixed32(_) => WIRE_FIXED32,
        UnknownValueModel::Fixed64(_) => WIRE_FIXED64,
        UnknownValueModel::Varint(_) => WIRE_VARINT,
        UnknownValueModel::LengthDelimited(_) => WIRE_LENGTH_DELIMITED,
    }
}

/// The bytes of an unknown value, without its tag.
pub open spec fn unknown_value_bytes(v: UnknownValueModel) -> Seq<u8> {
    match v {
        UnknownValueModel::Fixed32(x) => le32_bytes(x),
        UnknownValueModel::Fixed64(x) => le64_bytes(x),
        UnknownValueModel::Varint(x) => varint_bytes(x),
        UnknownValueModel::LengthDelimited(b) => bytes_value_bytes(b),
    }
}

/// The bytes of an unknown field: its tag, then its value.
pub open spec fn unknown_field_bytes(u: UnknownFieldModel) -> Seq<u8> {
    tag_bytes(u.number, unknown_wire_type(u.value)) + unknown_value_bytes(u.value)
}

/// An unknown field that can be written: a valid number, and a
/// length-delimited value whose length fits 32 bits.
pub open spec fn unknown_field_wf(u: UnknownFieldModel) -> bool {
    &&& valid_field_number(u.number)
    &&& (u.value matches UnknownValueModel::LengthDelimited(b) ==> fits_u32(b))
}

/// A value of wire type `wt` read from the front of `s`, as the runtime reads
/// unknown fields; groups and group ends are not values.
pub open spec fn unknown_value_parse(wt: u32, s: Seq<u8>) -> Option<(UnknownValueModel, nat)> {
    if wt == WIRE_VARINT {
        match varint_parse(s) {
            Some((v, n)) => Some((UnknownValueModel::Varint(v), n)),
            None => None,
        }
    } else if wt == WIRE_FIXED64 {
        match le64_parse(s) {
            Some((v, n)) => Some((UnknownValueModel::Fixed64(v), n)),
            None => None,
        }
    } else if wt == WIRE_FIXED32 {
        match le32_parse(s) {
            Some((v, n)) => Some((UnknownValueModel::Fixed32(v), n)),
            None => None,
        }
    } else if wt == WIRE_LENGTH_DELIMITED {
        match bytes_parse(s) {
            Some((b, n)) => Some((UnknownValueModel::LengthDelimited(b), n)),
            None => None,
        }
    } else {
        None
    }
}

/// An unknown value that was read took no more than `s`.
pub proof fn lemma_unknown_value_parse_len(wt: u32, s: Seq<u8>)
    ensures
        unknown_value_parse(wt, s) matches Some((_v, n)) ==> n <= s.len(),
{
    lemma_varint_parse_len(s);
}

/// Skipping a group whose start tag has been read: fields are read and
/// dropped until a group-end tag; a nested group is an error.
pub open spec fn skip_group_parse(s: Seq<u8>) -> Option<nat>
    decreases s.len(),
{
    match tag_parse(s) {
        Some((_f, wt, n)) => {
            if wt == WIRE_END_GROUP {
                Some(n)
            } else {
                match unknown_value_parse(wt, s.skip(n as int)) {
                    Some((_v, k)) => {
                        if 0 < n && n + k <= s.len() {
                            match skip_group_parse(s.skip((n + k) as int)) {
                                Some(j) => Some(n + k + j),
                                None => None,
                            }
                        } else {
                            None
                        }
                    },
                    None => None,
                }
            }
        },
        None => None,
    }
}

proof fn lemma_skip_group_parse_len(s: Seq<u8>)
    ensures
        skip_group_parse(s) matches Some(n) ==> n <= s.len(),
    decreases s.len(),
{
    lemma_tag_parse_len(s);
    match tag_parse(s) {
        Some((_f, wt, n)) => {
            if wt != WIRE_END_GROUP {
                lemma_unknown_value_parse_len(wt, s.skip(n as int));
                match unknown_value_parse(wt, s.skip(n as int)) {
                    Some((_v, k)) => {
                        if 0 < n && n + k <= s.len() {
                            lemma_skip_group_parse_len(s.skip((n + k) as int));
                        }
                    },
                    None => {},
                }
            }
        },
        None => {},
    }
}

/// An unknown field that was read, or a group that was skipped, took no more than `s`.
pub proof fn lemma_unknown_parse_len(f: u32, wt: u32, s: Seq<u8>)
    ensures
        unknown_parse(f, wt, s) matches Some((_u, n)) ==> n <= s.len(),
{
    lemma_skip_group_parse_len(s);
    lemma_unknown_value_parse_len(wt, s);
}

/// A field of number `f` that a message does not know, whose tag with wire
/// type `wt` has been read: a group is skipped (`None`), any other value is kept.
pub open spec fn unknown_parse(f: u32, wt: u32, s: Seq<u8>) -> Option<(Option<UnknownFieldModel>, nat)> {
    if wt == WIRE_START_GROUP {
        match skip_group_parse(s) {
            Some(n) => Some((None, n)),
            None => None,
        }
    } else {
        match unknown_value_parse(wt, s) {
            Some((v, n)) => Some((Some(UnknownFieldModel { number: f, value: v }), n)),
            None => None,
        }
    }
}

/// Reading back a written unknown field gives its tag, then the field.
pub proof fn lemma_unknown_roundtrip(u: UnknownFieldModel, rest: Seq<u8>)
    requires
        unknown_field_wf(u),
    ensures
        tag_parse(unknown_field_bytes(u) + rest) == Some(
            (u.number, unknown_wire_type(u.value), tag_bytes(u.number, unknown_wire_type(u.value)).len()),
        ),
        unknown_parse(
            u.number,
            unknown_wire_type(u.value),
            (unknown_field_bytes(u) + rest).skip(tag_bytes(u.number, unknown_wire_type(u.value)).len() as int),
        ) == Some((Some(u), unknown_value_bytes(u.value).len())),
{
    let wt = unknown_wire_type(u.value);
    let t = tag_bytes(u.number, wt);
    let vb = unknown_value_bytes(u.value);
    assert(unknown_field_bytes(u) + rest == t + (vb + rest));
    lemma_tag_roundtrip(u.number, wt, vb + rest);
    assert((unknown_field_bytes(u) + rest).skip(t.len() as int) == vb + rest);
    match u.value {
        UnknownValueModel::Fixed32(x) => lemma_le32_roundtrip(x, rest),
        UnknownValueModel::Fixed64(x) => lemma_le64_roundtrip(x, rest),
        UnknownValueModel::Varint(x) => lemma_varint_roundtrip(x, rest),
        UnknownValueModel::LengthDelimited(b) => lemma_bytes_roundtrip(b, rest),
    }
}



// ---------------------------------------------------------------------------
// Field encodings
// ---------------------------------------------------------------------------

/// The model of an optional value.
pub open spec fn opt_view<T: View>(o: Option<T>) -> Option<T::V> {
    match o {
        Some(x) => Some(x@),
        None => None,
    }
}

/// A string field's value, or the empty string when it is unset.
pub open spec fn chars_or_empty(o: Option<Seq<char>>) -> Seq<char> {
    match o {
        Some(c) => c,
        None => Seq::empty(),
    }
}

/// A bytes field's value, or no bytes when it is unset.
pub open spec fn bytes_or_empty(o: Option<Seq<u8>>) -> Seq<u8> {
    match o {
        Some(b) => b,
        None => Seq::empty(),
    }
}

/// An optional field of wire type varint: its tag and value when set, nothing otherwise.
pub open spec fn opt_varint_field_bytes(f: u32, v: Option<u64>) -> Seq<u8> {
    match v {
        Some(x) => tag_bytes(f, WIRE_VARINT) + varint_bytes(x),
        None => Seq::empty(),
    }
}

/// An optional length-delimited field: its tag and bytes when set, nothing otherwise.
pub open spec fn opt_length_delimited_field_bytes(f: u32, v: Option<Seq<u8>>) -> Seq<u8> {
    match v {
        Some(b) => tag_bytes(f, WIRE_LENGTH_DELIMITED) + bytes_value_bytes(b),
        None => Seq::empty(),
    }
}

/// A repeated field of wire type varint, one tagged value per element, in order.
pub open spec fn varint_list_bytes(f: u32, v: Seq<u64>) -> Seq<u8>
    decreases v.len(),
{
    if v.len() == 0 {
        Seq::empty()
    } else {
        tag_bytes(f, WIRE_VARINT) + varint_bytes(v[0]) + varint_list_bytes(
            f,
            v.subrange(1, v.len() as int),
        )
    }
}

/// A repeated length-delimited field, one tagged byte string per element, in order.
pub open spec fn length_delimited_list_bytes(f: u32, v: Seq<Seq<u8>>) -> Seq<u8>
    decreases v.len(),
{
    if v.len() == 0 {
        Seq::empty()
    } else {
        tag_bytes(f, WIRE_LENGTH_DELIMITED) + bytes_value_bytes(v[0]) + length_delimited_list_bytes(
            f,
            v.subrange(1, v.len() as int),
        )
    }
}

/// A list of unknown fields, each with its tag, in order.
pub open spec fn unknown_list_bytes(v: Seq<UnknownFieldModel>) -> Seq<u8>
    decreases v.len(),
{
    if v.len() == 0 {
        Seq::empty()
    } else {
        unknown_field_bytes(v[0]) + unknown_list_bytes(v.subrange(1, v.len() as int))
    }
}

/// The models of a list of strings.
pub open spec fn string_models(v: Seq<String>) -> Seq<Seq<char>> {
    v.map_values(|x: String| x@)
}

/// The UTF-8 encodings of a list of strings.
pub open spec fn utf8_encodings(v: Seq<Seq<char>>) -> Seq<Seq<u8>> {
    v.map_values(|c: Seq<char>| encode_utf8(c))
}

/// Every byte string of a list fits a 32-bit length.
pub open spec fn all_fit_u32(v: Seq<Seq<u8>>) -> bool {
    forall|i: int| 0 <= i < v.len() ==> fits_u32(#[trigger] v[i])
}

/// The varints that a list of `int64`s is written as.
pub open spec fn int64_varints(v: Seq<i64>) -> Seq<u64> {
    v.map_values(|x: i64| x as u64)
}

/// The varint that an `int32` is written as: the value sign-extended to 64 bits.
pub open spec fn int32_varint(x: i32) -> u64 {
    x as u64
}

/// The `int32` that a varint is read as: its low 32 bits.
pub open spec fn varint_int32(v: u64) -> i32 {
    (v as u32) as i32
}

/// The varint that a `bool` is written as.
pub open spec fn bool_varint(x: bool) -> u64 {
    if x {
        1
    } else {
        0
    }
}

/// The `bool` that a varint is read as: whether its low 32 bits are nonzero.
pub open spec fn varint_bool(v: u64) -> bool {
    (v as u32) != 0
}

/// Reading back the varints of integers and booleans gives them back.
pub proof fn lemma_varint_casts(a: i32, b: i64, c: u32, d: bool, e: i32)
    ensures
        varint_int32(int32_varint(a)) == a,
        ((b as u64) as i64) == b,
        ((c as u64) as u32) == c,
        varint_bool(bool_varint(d)) == d,
        (((zigzag_encode32(e) as u64) as u32)) == zigzag_encode32(e),
{
    assert(((a as u64) as u32) as i32 == a) by (bit_vector);
    assert(((b as u64) as i64) == b) by (bit_vector);
}

/// A varint list is a tagged varint followed by the rest of the list.
pub proof fn lemma_varint_list_cons(f: u32, v: Seq<u64>)
    requires
        v.len() > 0,
    ensures
        varint_list_bytes(f, v) == tag_bytes(f, WIRE_VARINT) + (varint_bytes(v[0]) + varint_list_bytes(
            f,
            v.subrange(1, v.len() as int),
        )),
{
    assert(varint_list_bytes(f, v) =~= tag_bytes(f, WIRE_VARINT) + (varint_bytes(v[0])
        + varint_list_bytes(f, v.subrange(1, v.len() as int))));
}

/// A length-delimited list is a tagged byte string followed by the rest of the list.
pub proof fn lemma_length_delimited_list_cons(f: u32, v: Seq<Seq<u8>>)
    requires
        v.len() > 0,
    ensures
        length_delimited_list_bytes(f, v) == tag_bytes(f, WIRE_LENGTH_DELIMITED) + (bytes_value_bytes(
            v[0],
        ) + length_delimited_list_bytes(f, v.subrange(1, v.len() as int))),
{
    assert(length_delimited_list_bytes(f, v) =~= tag_bytes(f, WIRE_LENGTH_DELIMITED) + (
    bytes_value_bytes(v[0]) + length_delimited_list_bytes(f, v.subrange(1, v.len() as int))));
}

/// An unknown list is the first field followed by the rest of the list.
pub proof fn lemma_unknown_list_cons(v: Seq<UnknownFieldModel>)
    requires
        v.len() > 0,
    ensures
        unknown_list_bytes(v) == unknown_field_bytes(v[0]) + unknown_list_bytes(
            v.subrange(1, v.len() as int),
        ),
{
}

/// Concatenation is associative.
pub proof fn lemma_concat_assoc(a: Seq<u8>, b: Seq<u8>, c: Seq<u8>)
    ensures
        (a + b) + c == a + (b + c),
{
    assert((a + b) + c =~= a + (b + c));
}

/// Appending a tag `t` and a value `b` in front of `next`.
pub proof fn lemma_write_chunk(before: Seq<u8>, t: Seq<u8>, b: Seq<u8>, next: Seq<u8>)
    ensures
        before + ((t + b) + next) == ((before + t) + b) + next,
{
    assert(before + ((t + b) + next) =~= ((before + t) + b) + next);
}

/// Appending nothing in front of `next`.
pub proof fn lemma_empty_chunk(before: Seq<u8>, next: Seq<u8>)
    ensures
        before + (Seq::<u8>::empty() + next) == before + next,
{
    assert(Seq::<u8>::empty() + next =~= next);
}

/// Appending the first tagged element of a list in front of the rest.
pub proof fn lemma_write_list_step(before: Seq<u8>, t: Seq<u8>, b: Seq<u8>, tail: Seq<u8>, next: Seq<u8>)
    ensures
        before + ((t + (b + tail)) + next) == ((before + t) + b) + (tail + next),
{
    assert(before + ((t + (b + tail)) + next) =~= ((before + t) + b) + (tail + next));
}

/// Reading `n` bytes of tag, then `k` bytes of value, from `t + (b + rest)`
/// leaves `rest`.
pub proof fn lemma_skip_chunk(t: Seq<u8>, b: Seq<u8>, rest: Seq<u8>)
    ensures
        (t + (b + rest)).skip(t.len() as int) == b + rest,
        (t + (b + rest)).skip((t.len() + b.len()) as int) == rest,
        (t + (b + rest)).len() > 0 <== t.len() > 0,
{
    assert((t + (b + rest)).skip(t.len() as int) =~= b + rest);
    assert((t + (b + rest)).skip((t.len() + b.len()) as int) =~= rest);
}

/// Varints packed into one byte string, read until its end, each as an `int64`.
pub open spec fn packed_int64_parse(s: Seq<u8>) -> Option<Seq<i64>>
    decreases s.len(),
{
    if s.len() == 0 {
        Some(Seq::empty())
    } else {
        match varint_parse(s) {
            Some((v, n)) => if 0 < n <= s.len() {
                match packed_int64_parse(s.skip(n as int)) {
                    Some(rest) => Some(seq![v as i64] + rest),
                    None => None,
                }
            } else {
                None
            },
            None => None,
        }
    }
}

/// The varints packed into `s` that are read, each as an `int64`, before the first one that
/// cannot be read; all of them where `s` is a valid packed list.
pub open spec fn packed_int64_partial(s: Seq<u8>) -> Seq<i64>
    decreases s.len(),
{
    if s.len() == 0 {
        Seq::empty()
    } else {
        match varint_parse(s) {
            Some((v, n)) => if 0 < n <= s.len() {
                seq![v as i64] + packed_int64_partial(s.skip(n as int))
            } else {
                Seq::empty()
            },
            None => Seq::empty(),
        }
    }
}

/// Reads varints packed into `s` until its end, each as an `int64`: the values read before
/// the first one that cannot be read, and whether all of `s` was read.
pub fn read_packed_int64(s: &[u8]) -> (r: (Vec<i64>, bool))
    ensures
        r.0@ == packed_int64_partial(s@),
        match packed_int64_parse(s@) {
            Some(v) => r.1 && r.0@ == v,
            None => !r.1,
        },
{
    let mut out: Vec<i64> = Vec::new();
    let mut pos: usize = 0;
    while pos < s.len()
        invariant
            pos <= s.len(),
            packed_int64_parse(s@) == match packed_int64_parse(s@.skip(pos as int)) {
                Some(rest) => Some(out@ + rest),
                None => None::<Seq<i64>>,
            },
            packed_int64_partial(s@) == out@ + packed_int64_partial(s@.skip(pos as int)),
        decreases s.len() - pos,
    {
        let rest = &s[pos..s.len()];
        assert(rest@ == s@.skip(pos as int));
        proof {
            lemma_varint_parse_len(rest@);
        }
        match pb_read_raw_varint64(rest) {
            None => {
                assert(out@ + Seq::<i64>::empty() =~= out@);
                return (out, false);
            },
            Some((v, n)) => {
                assert(varint_parse(rest@) == Some((v, n as nat)));
                if n == 0 || n > rest.len() {
                    assert(out@ + Seq::<i64>::empty() =~= out@);
                    return (out, false);
                }
                let ghost old_out = out@;
                assert(rest@.skip(n as int) =~= s@.skip((pos + n) as int));
                assert(packed_int64_parse(rest@) == match packed_int64_parse(rest@.skip(n as int)) {
                    Some(r2) => Some(seq![v as i64] + r2),
                    None => None::<Seq<i64>>,
                });
                out.push(v as i64);
                proof {
                    match packed_int64_parse(s@.skip((pos + n) as int)) {
                        Some(r2) => {
                            assert(old_out + (seq![v as i64] + r2) =~= out@ + r2);
                        },
                        None => {},
                    }
                    assert(old_out + (seq![v as i64] + packed_int64_partial(s@.skip((pos + n) as int)))
                        =~= out@ + packed_int64_partial(s@.skip((pos + n) as int)));
                }
                pos = pos + n;
            },
        }
    }
    assert(s@.skip(pos as int) =~= Seq::<u8>::empty());
    assert(out@ + Seq::<i64>::empty() =~= out@);
    (out, true)
}

// ---------------------------------------------------------------------------
// Calls into the protobuf runtime and std
// ---------------------------------------------------------------------------

/// `protobuf::CodedInputStream::read_raw_varint64` on a stream over `s`: the
/// varint at the front of `s` and the number of bytes it took.
#[verifier::external_body]
pub(crate) fn pb_read_raw_varint64(s: &[u8]) -> (r: Option<(u64, usize)>)
    ensures
        match varint_parse(s@) {
            Some((v, n)) => r == Some((v, n as usize)),
            None => r is None,
        },
{
    let mut is = protobuf::CodedInputStream::from_bytes(s);
    match is.read_raw_varint64() {
        Ok(v) => Some((v, is.pos() as usize)),
        Err(_) => None,
    }
}

/// `protobuf::CodedInputStream::read_tag_unpack` on a stream over `s`: the
/// field number and wire type of the tag at the front of `s`, and its length.
#[verifier::external_body]
pub(crate) fn pb_read_tag_unpack(s: &[u8]) -> (r: Option<(u32, u32, usize)>)
    ensures
        match tag_parse(s@) {
            Some((f, wt, n)) => r == Some((f, wt, n as usize)),
            None => r is None,
        },
{
    let mut is = protobuf::CodedInputStream::from_bytes(s);
    match is.read_tag_unpack() {
        Ok((f, wt)) => Some((f, wt as u32, is.pos() as usize)),
        Err(_) => None,
    }
}

/// `protobuf::CodedInputStream::read_sint32` on a stream over `s`: a varint,
/// truncated to 32 bits and zigzag-decoded, and its length.
#[verifier::external_body]
pub(crate) fn pb_read_sint32(s: &[u8]) -> (r: Option<(i32, usize)>)
    ensures
        match varint_parse(s@) {
            Some((v, n)) => r == Some((zigzag_decode32(v as u32), n as usize)),
            None => r is None,
        },
{
    let mut is = protobuf::CodedInputStream::from_bytes(s);
    match is.read_sint32() {
        Ok(v) => Some((v, is.pos() as usize)),
        Err(_) => None,
    }
}

/// `protobuf::CodedInputStream::read_fixed32` on a stream over `s`: four
/// little-endian bytes.
#[verifier::external_body]
pub(crate) fn pb_read_fixed32(s: &[u8]) -> (r: Option<(u32, usize)>)
    ensures
        match le32_parse(s@) {
            Some((v, n)) => r == Some((v, n as usize)),
            None => r is None,
        },
{
    let mut is = protobuf::CodedInputStream::from_bytes(s);
    match is.read_fixed32() {
        Ok(v) => Some((v, is.pos() as usize)),
        Err(_) => None,
    }
}

/// `protobuf::CodedInputStream::read_fixed64` on a stream over `s`: eight
/// little-endian bytes.
#[verifier::external_body]
pub(crate) fn pb_read_fixed64(s: &[u8]) -> (r: Option<(u64, usize)>)
    ensures
        match le64_parse(s@) {
            Some((v, n)) => r == Some((v, n as usize)),
            None => r is None,
        },
{
    let mut is = protobuf::CodedInputStream::from_bytes(s);
    match is.read_fixed64() {
        Ok(v) => Some((v, is.pos() as usize)),
        Err(_) => None,
    }
}

/// `protobuf::CodedOutputStream::write_raw_varint64` on a stream that
/// appends to `out`: the varint encoding of `v` is appended.
#[verifier::external_body]
pub(crate) fn pb_write_raw_varint64(out: &mut Vec<u8>, v: u64)
    ensures
        final(out)@ == old(out)@ + varint_bytes(v),
{
    let mut os = protobuf::CodedOutputStream::vec(out);
    os.write_raw_varint64(v).unwrap();
    os.flush().unwrap();
}

/// `protobuf::CodedOutputStream::write_tag` on a stream that appends to
/// `out`: the varint of the tag value is appended.
#[verifier::external_body]
pub(crate) fn pb_write_tag(out: &mut Vec<u8>, f: u32, wt: u32)
    requires
        valid_field_number(f),
        wt <= 5,
    ensures
        final(out)@ == old(out)@ + tag_bytes(f, wt),
{
    let wire_type = protobuf::wire_format::WireType::new(wt).unwrap();
    let mut os = protobuf::CodedOutputStream::vec(out);
    os.write_tag(f, wire_type).unwrap();
    os.flush().unwrap();
}

/// `protobuf::CodedOutputStream::write_sint32_no_tag` on a stream that
/// appends to `out`: the varint of the zigzag encoding of `v` is appended.
#[verifier::external_body]
pub(crate) fn pb_write_sint32_no_tag(out: &mut Vec<u8>, v: i32)
    ensures
        final(out)@ == old(out)@ + varint_bytes(zigzag_encode32(v) as u64),
{
    let mut os = protobuf::CodedOutputStream::vec(out);
    os.write_sint32_no_tag(v).unwrap();
    os.flush().unwrap();
}

/// `protobuf::CodedOutputStream::write_fixed32_no_tag` on a stream that
/// appends to `out`: four little-endian bytes are appended.
#[verifier::external_body]
pub(crate) fn pb_write_fixed32_no_tag(out: &mut Vec<u8>, v: u32)
    ensures
        final(out)@ == old(out)@ + le32_bytes(v),
{
    let mut os = protobuf::CodedOutputStream::vec(out);
    os.write_fixed32_no_tag(v).unwrap();
    os.flush().unwrap();
}

/// `protobuf::CodedOutputStream::write_fixed64_no_tag` on a stream that
/// appends to `out`: eight little-endian bytes are appended.
#[verifier::external_body]
pub(crate) fn pb_write_fixed64_no_tag(out: &mut Vec<u8>, v: u64)
    ensures
        final(out)@ == old(out)@ + le64_bytes(v),
{
    let mut os = protobuf::CodedOutputStream::vec(out);
    os.write_fixed64_no_tag(v).unwrap();
    os.flush().unwrap();
}

/// `String::from_utf8`: the string that `v` encodes, if `v` is valid UTF-8.
#[verifier::external_body]
pub(crate) fn string_from_utf8(v: Vec<u8>) -> (r: Option<String>)
    ensures
        r is Some <==> valid_utf8(v@),
        r matches Some(s) ==> s@ == decode_utf8(v@),
{
    String::from_utf8(v).ok()
}


// ---------------------------------------------------------------------------
// Reading
// ---------------------------------------------------------------------------

/// The error of a read that the bytes do not allow.
#[derive(Clone, Copy, Debug, PartialEq, Eq)]
pub struct DecodeError;

/// Reads a byte string (length, then bytes) from the front of `s`.
pub fn read_bytes(s: &[u8]) -> (r: Option<(Vec<u8>, usize)>)
    ensures
        match bytes_parse(s@) {
            Some((b, n)) => r matches Some((v, k)) && v@ == b && k == n,
            None => r is None,
        },
{
    proof {
        lemma_varint_parse_len(s@);
    }
    match pb_read_raw_varint64(s) {
        None => None,
        Some((v, n)) => {
            let len = (v as u32) as usize;
            if len <= s.len() - n {
                let v = vstd::slice::slice_to_vec(&s[n..n + len]);
                Some((v, n + len))
            } else {
                None
            }
        },
    }
}

/// Reads a UTF-8 string (length, then bytes) from the front of `s`.
pub fn read_string(s: &[u8]) -> (r: Option<(String, usize)>)
    ensures
        match string_parse(s@) {
            Some((c, n)) => r matches Some((v, k)) && v@ == c && k == n,
            None => r is None,
        },
{
    match read_bytes(s) {
        None => None,
        Some((b, n)) => match string_from_utf8(b) {
            Some(st) => Some((st, n)),
            None => None,
        },
    }
}

/// Reads the bounds of an embedded message or packed list at the front of `s`, whose length may
/// reach `lim` bytes past the end of `s`.
pub fn read_embedded_window(s: &[u8], lim: u64) -> (r: Option<(usize, usize, u64)>)
    ensures
        match embedded_window(s@, lim as nat) {
            Some((a, e, x)) => r == Some((a as usize, e as usize, x as u64)) && 0 < a <= e <= s.len(),
            None => r is None,
        },
{
    proof {
        lemma_varint_parse_len(s@);
    }
    match pb_read_raw_varint64(s) {
        None => None,
        Some((v, n)) => {
            let room = (s.len() - n) as u64;
            if v <= room {
                Some((n, n + v as usize, 0))
            } else if v - room <= lim {
                Some((n, s.len(), v - room))
            } else {
                None
            }
        },
    }
}

/// Reads a value of wire type `wt` from the front of `s`, as an unknown field.
pub fn read_unknown_value(wt: u32, s: &[u8]) -> (r: Option<(UnknownValue, usize)>)
    ensures
        match unknown_value_parse(wt, s@) {
            Some((v, n)) => r matches Some((x, k)) && x@ == v && k == n,
            None => r is None,
        },
{
    proof {
        lemma_varint_parse_len(s@);
    }
    if wt == WIRE_VARINT {
        match pb_read_raw_varint64(s) {
            Some((v, n)) => Some((UnknownValue::Varint(v), n)),
            None => None,
        }
    } else if wt == WIRE_FIXED64 {
        match pb_read_fixed64(s) {
            Some((v, n)) => Some((UnknownValue::Fixed64(v), n)),
            None => None,
        }
    } else if wt == WIRE_FIXED32 {
        match pb_read_fixed32(s) {
            Some((v, n)) => Some((UnknownValue::Fixed32(v), n)),
            None => None,
        }
    } else if wt == WIRE_LENGTH_DELIMITED {
        match read_bytes(s) {
            Some((b, n)) => Some((UnknownValue::LengthDelimited(b), n)),
            None => None,
        }
    } else {
        None
    }
}

/// Skips a group whose start tag has been read; returns the bytes it took.
#[verifier::rlimit(40)]
pub fn skip_group(s: &[u8]) -> (r: Option<usize>)
    ensures
        match skip_group_parse(s@) {
            Some(n) => r == Some(n as usize),
            None => r is None,
        },
{
    let mut pos: usize = 0;
    loop
        invariant
            pos <= s.len(),
            skip_group_parse(s@) == match skip_group_parse(s@.skip(pos as int)) {
                Some(j) => Some((pos + j) as nat),
                None => None::<nat>,
            },
        decreases s.len() - pos,
    {
        let rest = &s[pos..s.len()];
        assert(rest@ == s@.skip(pos as int));
        proof {
            lemma_tag_parse_len(rest@);
        }
        match pb_read_tag_unpack(rest) {
            None => {
                return None;
            },
            Some((_f, wt, n)) => {
                if wt == WIRE_END_GROUP {
                    return Some(pos + n);
                }
                let rest2 = &rest[n..rest.len()];
                assert(rest2@ == rest@.skip(n as int));
                proof {
                    lemma_unknown_value_parse_len(wt, rest2@);
                }
                match read_unknown_value(wt, rest2) {
                    None => {
                        return None;
                    },
                    Some((_v, k)) => {
                        assert(0 < n);
                        assert(rest@.skip((n + k) as int) == s@.skip((pos + n + k) as int));
                        pos = pos + n + k;
                    },
                }
            },
        }
    }
}

/// Reads a field of number `f` that a message does not know, whose tag with
/// wire type `wt` has been read: a group is skipped, any other value is kept.
pub fn read_unknown(f: u32, wt: u32, s: &[u8]) -> (r: Option<(Option<UnknownField>, usize)>)
    ensures
        match unknown_parse(f, wt, s@) {
            Some((None, n)) => r == Some((None::<UnknownField>, n as usize)),
            Some((Some(u), n)) => r matches Some((Some(x), k)) && x@ == u && k == n,
            None => r is None,
        },
{
    if wt == WIRE_START_GROUP {
        match skip_group(s) {
            Some(n) => Some((None, n)),
            None => None,
        }
    } else {
        match read_unknown_value(wt, s) {
            Some((v, n)) => Some((Some(UnknownField { number: f, value: v }), n)),
            None => None,
        }
    }
}

// ---------------------------------------------------------------------------
// How the unknown fields of a message are kept
// ---------------------------------------------------------------------------

/// The place of an unknown value's kind among the values of one field number, as the runtime
/// keeps and writes them: fixed32, then fixed64, then varint, then length-delimited.
pub open spec fn unknown_rank(v: UnknownValueModel) -> nat {
    match v {
        UnknownValueModel::Fixed32(_) => 0,
        UnknownValueModel::Fixed64(_) => 1,
        UnknownValueModel::Varint(_) => 2,
        UnknownValueModel::LengthDelimited(_) => 3,
    }
}

/// The unknown fields are kept as the runtime keeps them: the values of one number stand
/// together, by kind, each kind in the order its values were read.
#[verifier::opaque]
pub open spec fn unknown_grouped(s: Seq<UnknownFieldModel>) -> bool {
    &&& forall|i: int, j: int, k: int|
        0 <= i < j < k < s.len() && #[trigger] s[i].number == #[trigger] s[k].number ==> #[trigger] s[j].number
            == s[i].number
    &&& forall|i: int, j: int|
        0 <= i < j < s.len() && #[trigger] s[i].number == #[trigger] s[j].number ==> unknown_rank(s[i].value)
            <= unknown_rank(s[j].value)
}

/// Whether an unknown field of number `n` is kept.
pub open spec fn has_unknown_number(s: Seq<UnknownFieldModel>, n: u32) -> bool {
    exists|j: int| 0 <= j < s.len() && #[trigger] s[j].number == n
}

/// The unknown fields `s` once `u` has been read: `u` goes after the values of its number of
/// the same or an earlier kind, before those of a later kind; a new number goes last.
pub open spec fn grouped_insert(s: Seq<UnknownFieldModel>, u: UnknownFieldModel) -> Seq<UnknownFieldModel>
    decreases s.len(),
{
    if s.len() == 0 {
        seq![u]
    } else if s.last().number == u.number && unknown_rank(s.last().value) <= unknown_rank(u.value) {
        s.push(u)
    } else if !has_unknown_number(s, u.number) {
        s.push(u)
    } else {
        grouped_insert(s.drop_last(), u).push(s.last())
    }
}

/// Where the fields already stand together and `u` can go last, reading `u` puts it last.
pub proof fn lemma_grouped_insert_last(s: Seq<UnknownFieldModel>, u: UnknownFieldModel)
    requires
        unknown_grouped(s.push(u)),
    ensures
        grouped_insert(s, u) == s.push(u),
{
    reveal(unknown_grouped);
    let t = s.push(u);
    if s.len() > 0 {
        let l = s.len() - 1;
        assert(t[l] == s.last());
        assert(t[s.len() as int] == u);
        if s.last().number == u.number {
            assert(unknown_rank(t[l].value) <= unknown_rank(t[s.len() as int].value));
        } else if has_unknown_number(s, u.number) {
            let j = choose|j: int| 0 <= j < s.len() && #[trigger] s[j].number == u.number;
            assert(t[j] == s[j]);
            assert(t[j].number == t[s.len() as int].number);
            assert(t[l].number == t[j].number);
        }
    }
}

/// No unknown fields stand together as the runtime keeps them.
pub proof fn lemma_grouped_empty()
    ensures
        unknown_grouped(Seq::<UnknownFieldModel>::empty()),
{
    reveal(unknown_grouped);
}

/// The fields before a given place stand together as all of them do.
pub proof fn lemma_grouped_take(s: Seq<UnknownFieldModel>, k: int)
    requires
        unknown_grouped(s),
        0 <= k <= s.len(),
    ensures
        unknown_grouped(s.take(k)),
{
    reveal(unknown_grouped);
    let t = s.take(k);
    assert forall|i: int, j: int, l: int|
        0 <= i < j < l < t.len() && #[trigger] t[i].number == #[trigger] t[l].number implies #[trigger] t[j].number
            == t[i].number by {
        assert(t[i] == s[i] && t[j] == s[j] && t[l] == s[l]);
    }
    assert forall|i: int, j: int|
        0 <= i < j < t.len() && #[trigger] t[i].number == #[trigger] t[j].number implies unknown_rank(t[i].value)
            <= unknown_rank(t[j].value) by {
        assert(t[i] == s[i] && t[j] == s[j]);
    }
}

/// Whether `x` is of number `n` and of a kind that comes no later than rank `r`.
fn stays_before(x: &UnknownField, n: u32, r: u8) -> (b: bool)
    requires
        r <= 3,
    ensures
        b == (x@.number == n && unknown_rank(x@.value) <= r as nat),
{
    let rx: u8 = match &x.value {
        UnknownValue::Fixed32(_) => 0,
        UnknownValue::Fixed64(_) => 1,
        UnknownValue::Varint(_) => 2,
        UnknownValue::LengthDelimited(_) => 3,
    };
    x.number == n && rx <= r
}

/// Keeps the unknown field `u` that was just read among the unknown fields `v`, where the
/// runtime keeps it.
pub fn insert_unknown(v: &mut Vec<UnknownField>, u: UnknownField)
    ensures
        unknown_models(final(v)@) == grouped_insert(unknown_models(old(v)@), u@),
{
    let ghost m = unknown_models(v@);
    let r: u8 = match &u.value {
        UnknownValue::Fixed32(_) => 0,
        UnknownValue::Fixed64(_) => 1,
        UnknownValue::Varint(_) => 2,
        UnknownValue::LengthDelimited(_) => 3,
    };
    let mut i: usize = v.len();
    assert(m.take(i as int) =~= m);
    assert(m.skip(i as int) =~= Seq::<UnknownFieldModel>::empty());
    assert(m + Seq::<UnknownFieldModel>::empty() =~= m);
    loop
        invariant
            i <= v@.len(),
            m == unknown_models(v@),
            m == unknown_models(old(v)@),
            r as nat == unknown_rank(u@.value),
            grouped_insert(m, u@) == grouped_insert(m.take(i as int), u@) + m.skip(i as int),
        ensures
            i <= v@.len(),
            m == unknown_models(v@),
            m == unknown_models(old(v)@),
            grouped_insert(m, u@) == grouped_insert(m.take(i as int), u@) + m.skip(i as int),
            grouped_insert(m.take(i as int), u@) == m.take(i as int).push(u@),
        decreases i,
    {
        let ghost t = m.take(i as int);
        if i == 0 {
            assert(t.push(u@) =~= seq![u@]);
            break;
        }
        assert(t.last() == m[i - 1]);
        assert(v@[i - 1]@ == m[i - 1]);
        if stays_before(&v[i - 1], u.number, r) {
            break;
        }
        let mut found = false;
        let mut j: usize = 0;
        while j < i
            invariant
                j <= i,
                i <= v@.len(),
                m == unknown_models(v@),
                t == m.take(i as int),
                !found ==> forall|k: int| 0 <= k < j ==> #[trigger] m[k].number != u.number,
                found ==> has_unknown_number(t, u@.number),
            decreases i - j,
        {
            if v[j].number == u.number {
                assert(t[j as int] == m[j as int]);
                assert(v@[j as int]@ == m[j as int]);
                assert(t[j as int].number == u@.number);
                found = true;
            } else {
                assert(v@[j as int]@ == m[j as int]);
            }
            j = j + 1;
        }
        if !found {
            assert(!has_unknown_number(t, u@.number)) by {
                if has_unknown_number(t, u@.number) {
                    let k = choose|k: int| 0 <= k < t.len() && #[trigger] t[k].number == u@.number;
                    assert(t[k] == m[k]);
                }
            }
            break;
        }
        assert(t.drop_last() =~= m.take(i - 1));
        assert(m.skip(i - 1) =~= seq![m[i - 1]] + m.skip(i as int));
        assert(grouped_insert(t, u@) == grouped_insert(m.take(i - 1), u@).push(m[i - 1]));
        assert(grouped_insert(m.take(i - 1), u@).push(m[i - 1]) + m.skip(i as int) =~= grouped_insert(
            m.take(i - 1),
            u@,
        ) + m.skip(i - 1));
        i = i - 1;
    }
    let ghost t = m.take(i as int);
    v.insert(i, u);
    assert(unknown_models(v@) =~= t.push(u@) + m.skip(i as int));
}

// ---------------------------------------------------------------------------
// Writing
// ---------------------------------------------------------------------------

/// Appends a byte string with its length in front.
pub fn write_bytes_value(out: &mut Vec<u8>, b: &[u8])
    requires
        fits_u32(b@),
    ensures
        final(out)@ == old(out)@ + bytes_value_bytes(b@),
{
    pb_write_raw_varint64(out, (b.len() as u32) as u64);
    let ghost mid = out@;
    let mut i: usize = 0;
    while i < b.len()
        invariant
            i <= b.len(),
            out@ == mid + b@.subrange(0, i as int),
        decreases b.len() - i,
    {
        out.push(b[i]);
        i = i + 1;
        assert(b@.subrange(0, i as int) == b@.subrange(0, (i - 1) as int).push(b@[(i - 1) as int]));
    }
    assert(b@.subrange(0, b.len() as int) == b@);
}

/// Appends a string as its UTF-8 bytes with their length in front.
pub fn write_string_value(out: &mut Vec<u8>, st: &str)
    requires
        fits_u32(encode_utf8(st@)),
    ensures
        final(out)@ == old(out)@ + string_value_bytes(st@),
{
    write_bytes_value(out, st.as_bytes());
}

/// Appends an unknown field: its tag, then its value.
pub fn write_unknown(out: &mut Vec<u8>, u: &UnknownField)
    requires
        unknown_field_wf(u@),
    ensures
        final(out)@ == old(out)@ + unknown_field_bytes(u@),
{
    let ghost o = out@;
    match &u.value {
        UnknownValue::Fixed32(x) => {
            pb_write_tag(out, u.number, WIRE_FIXED32);
            pb_write_fixed32_no_tag(out, *x);
        },
        UnknownValue::Fixed64(x) => {
            pb_write_tag(out, u.number, WIRE_FIXED64);
            pb_write_fixed64_no_tag(out, *x);
        },
        UnknownValue::Varint(x) => {
            pb_write_tag(out, u.number, WIRE_VARINT);
            pb_write_raw_varint64(out, *x);
        },
        UnknownValue::LengthDelimited(b) => {
            pb_write_tag(out, u.number, WIRE_LENGTH_DELIMITED);
            write_bytes_value(out, b.as_slice());
        },
    }
    assert(out@ == o + unknown_field_bytes(u@));
}

// ---------------------------------------------------------------------------
// Copies
// ---------------------------------------------------------------------------

impl UnknownField {
    /// A copy of the field.
    pub fn clone_field(&self) -> (r: UnknownField)
        ensures
            r@ == self@,
    {
        let value = match &self.value {
            UnknownValue::Fixed32(v) => UnknownValue::Fixed32(*v),
            UnknownValue::Fixed64(v) => UnknownValue::Fixed64(*v),
            UnknownValue::Varint(v) => UnknownValue::Varint(*v),
            UnknownValue::LengthDelimited(b) => UnknownValue::LengthDelimited(vstd::slice::slice_to_vec(b.as_slice())),
        };
        UnknownField { number: self.number, value: value }
    }
}

/// A copy of a list of fields of unknown numbers.
pub fn clone_unknown_fields(v: &Vec<UnknownField>) -> (r: Vec<UnknownField>)
    ensures
        unknown_models(r@) == unknown_models(v@),
{
    let mut out: Vec<UnknownField> = Vec::new();
    let mut i: usize = 0;
    while i < v.len()
        invariant
            i <= v@.len(),
            out@.len() == i,
            forall|j: int| 0 <= j < i ==> #[trigger] out@[j]@ == v@[j]@,
        decreases v@.len() - i,
    {
        out.push(v[i].clone_field());
        i = i + 1;
    }
    assert(unknown_models(out@) =~= unknown_models(v@));
    out
}

/// A copy of an optional string.
pub fn clone_opt_string(v: &Option<String>) -> (r: Option<String>)
    ensures
        opt_view(r) == opt_view(*v),
{
    match v {
        Some(s) => Some(s.clone()),
        None => None,
    }
}

/// A copy of optional bytes.
pub fn clone_opt_bytes(v: &Option<Vec<u8>>) -> (r: Option<Vec<u8>>)
    ensures
        opt_view(r) == opt_view(*v),
{
    match v {
        Some(b) => Some(vstd::slice::slice_to_vec(b.as_slice())),
        None => None,
    }
}

/// A copy of a list of strings.
pub fn clone_strings(v: &Vec<String>) -> (r: Vec<String>)
    ensures
        string_models(r@) == string_models(v@),
{
    let mut out: Vec<String> = Vec::new();
    let mut i: usize = 0;
    while i < v.len()
        invariant
            i <= v@.len(),
            out@.len() == i,
            forall|j: int| 0 <= j < i ==> #[trigger] out@[j]@ == v@[j]@,
        decreases v@.len() - i,
    {
        out.push(v[i].clone());
        i = i + 1;
    }
    assert(string_models(out@) =~= string_models(v@));
    out
}

} // verus!
