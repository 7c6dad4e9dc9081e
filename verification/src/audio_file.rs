//! Downloading a whole file of audio chunk by chunk while a reader may read or seek in it.
//!
//! A bitmap of `bit_set` records which chunks are complete. This module decides, for each
//! header, piece of data and end of stream, what is recorded, where the download goes next and
//! when it is done; its owner writes the file, wakes the reader and answers the stream.
use vstd::prelude::*;
use bit_set::BitSet;
use crate::audio_file2::CHUNK_SIZE;
use crate::endian::{be32_value, get_be_u32};

verus! {

#[verifier::external_type_specification]
#[verifier::external_body]
#[verifier::reject_recursive_types(B)]
pub struct ExBitSet<B>(BitSet<B>);

/// The numbers that a bitmap holds.
pub uninterp spec fn bitset_items(s: BitSet) -> Set<usize>;

/// `BitSet::new`: an empty bitmap.
#[verifier::external_body]
pub(crate) fn bitset_new() -> (r: BitSet)
    ensures
        bitset_items(r) == Set::<usize>::empty(),
{
    BitSet::new()
}

/// `BitSet::reserve_len`: makes room for numbers below `len`; the numbers held stay.
#[verifier::external_body]
pub(crate) fn bitset_reserve_len(s: &mut BitSet, len: usize)
    ensures
        bitset_items(*final(s)) == bitset_items(*old(s)),
{
    s.reserve_len(len)
}

/// `BitSet::insert`: adds `value`, and tells whether it was missing. The crate grows its bits
/// to `value + 1`, so `value` must be below the largest `usize`.
#[verifier::external_body]
pub(crate) fn bitset_insert(s: &mut BitSet, value: usize) -> (r: bool)
    requires
        value < usize::MAX,
    ensures
        bitset_items(*final(s)) == bitset_items(*old(s)).insert(value),
        r == !bitset_items(*old(s)).contains(value),
{
    s.insert(value)
}

/// `BitSet::contains`: whether `value` is held.
#[verifier::external_body]
pub(crate) fn bitset_contains(s: &BitSet, value: usize) -> (r: bool)
    ensures
        r == bitset_items(*s).contains(value),
{
    s.contains(value)
}

/// `BitSet::len`: how many numbers are held (the crate counts the bits that are set).
#[verifier::external_body]
pub(crate) fn bitset_len(s: &BitSet) -> (r: usize)
    ensures
        r == bitset_items(*s).len(),
{
    s.len()
}

/// The numbers below `n`.
pub open spec fn below(n: usize) -> Set<usize> {
    Set::new(|i: usize| i < n)
}

/// There are `n` numbers below `n`.
proof fn lemma_below_len(n: usize)
    ensures
        below(n).finite(),
        below(n).len() == n,
    decreases n,
{
    if n == 0 {
        assert(below(0) =~= Set::<usize>::empty());
    } else {
        let m = (n - 1) as usize;
        lemma_below_len(m);
        assert(below(n) =~= below(m).insert(m));
    }
}

/// A finite set that holds every number below `n` holds at least `n` numbers.
proof fn lemma_holds_below(items: Set<usize>, n: usize)
    requires
        items.finite(),
        forall|j: usize| j < n ==> #[trigger] items.contains(j),
    ensures
        items.len() >= n,
{
    lemma_below_len(n);
    assert(below(n).subset_of(items));
    vstd::set_lib::lemma_len_subset(below(n), items);
}

/// The number of chunks of a file of `size` bytes: the last one may be shorter.
pub open spec fn chunk_count_of(size: u64) -> int {
    (size + CHUNK_SIZE - 1) / (CHUNK_SIZE as int)
}

/// The size of the file and its number of chunks, from the header (of id 0x3) that gives the
/// size in words of four bytes.
pub fn file_size(header_data: &[u8]) -> (r: (u64, usize))
    requires
        header_data@.len() >= 4,
    ensures
        r.0 == be32_value(header_data@) * 4,
        r.1 == chunk_count_of(r.0),
{
    let words = get_be_u32(header_data);
    let size: u64 = words as u64 * 4;
    let count = ((size + (CHUNK_SIZE as u64) - 1) / (CHUNK_SIZE as u64)) as usize;
    (size, count)
}

/// What the download does after a chunk was recorded.
#[derive(Clone, Copy, Debug, PartialEq, Eq)]
pub enum ChunkStep {
    /// Every chunk is complete: hand the file over and stop.
    Done,
    /// Fetch the chunk of this index next: the first one missing after the recorded one, going
    /// round to the start.
    Next(usize),
}

/// The first index missing from `items`, counting on from `from` and going round below
/// `count`: `k` is how far from `from` it lies.
pub open spec fn first_missing_after(items: Set<usize>, from: int, count: int, k: int) -> bool {
    &&& 0 <= k < count
    &&& !items.contains(((from + k) % count) as usize)
    &&& forall|j: int| 0 <= j < k ==> items.contains(#[trigger] ((from + j) % count) as usize)
}

/// Records the chunk `index` as complete in `bitmap`, then says whether every one of the
/// `count` chunks is complete, or which one to fetch next.
pub fn record_chunk(bitmap: &mut BitSet, index: usize, count: usize) -> (r: ChunkStep)
    requires
        index < usize::MAX,
        bitset_items(*old(bitmap)).finite(),
    ensures
        bitset_items(*final(bitmap)) == bitset_items(*old(bitmap)).insert(index),
        bitset_items(*final(bitmap)).finite(),
        r is Done <==> bitset_items(*final(bitmap)).len() >= count,
        r matches ChunkStep::Next(n) ==> n < count && exists|k: int| first_missing_after(bitset_items(*final(bitmap)),
            (index + 1) % (count as int), count as int, k) && #[trigger] (((index + 1) % (count as int) + k) % (count as int)) == n,
{
    bitset_insert(bitmap, index);
    let ghost items = bitset_items(*bitmap);
    if bitset_len(bitmap) >= count {
        return ChunkStep::Done;
    }
    let start = (index + 1) % count;
    let mut next = start;
    let ghost mut steps: int = 0;
    assert(start == (start + 0) % (count as int)) by {
        vstd::arithmetic::div_mod::lemma_small_mod(start as nat, count as nat);
    }
    while bitset_contains(bitmap, next)
        invariant
            bitset_items(*bitmap) == items,
            items.finite(),
            items.len() < count,
            start < count,
            next < count,
            0 <= steps < count,
            next == (start + steps) % (count as int),
            forall|j: int| 0 <= j < steps ==> items.contains(#[trigger] ((start + j) % (count as int)) as usize),
        decreases count - steps,
    {
        proof {
            assert forall|j: int| 0 <= j < steps + 1 implies items.contains(#[trigger] ((start + j) % (count as int)) as usize) by {
                if j == steps {
                } 
            }
            if steps + 1 >= count {
                assert forall|v: usize| v < count implies #[trigger] items.contains(v) by {
                    let j: int = if v >= start { v - start } else { v + count - start };
                    assert(0 <= j < count);
                    if v >= start {
                        vstd::arithmetic::div_mod::lemma_small_mod(v as nat, count as nat);
                    } else {
                        vstd::arithmetic::div_mod::lemma_mod_add_multiples_vanish(v as int, count as int);
                        vstd::arithmetic::div_mod::lemma_small_mod(v as nat, count as nat);
                    }
                    assert((start + j) % (count as int) == v);
                    assert(items.contains(((start + j) % (count as int)) as usize));
                }
                lemma_holds_below(items, count);
            }
            vstd::arithmetic::div_mod::lemma_add_mod_noop(start + steps, 1, count as int);
            vstd::arithmetic::div_mod::lemma_small_mod(1, count as nat);
            vstd::arithmetic::div_mod::lemma_mod_bound(start + steps, count as int);
        }
        next = (next + 1) % count;
        proof {
            steps = steps + 1;
        }
    }
    assert(first_missing_after(items, start as int, count as int, steps));
    ChunkStep::Next(next)
}

/// What the reader asked for since the last piece of data: nothing, a seek to an offset, or
/// nothing ever again (it went away).
#[derive(Clone, Copy, Debug, PartialEq, Eq)]
pub enum SeekRequest {
    Empty,
    Seek(u64),
    Disconnected,
}

/// What the download does with a piece of data, once it is written.
#[derive(Clone, Copy, Debug, PartialEq, Eq)]
pub enum DataAction {
    /// Every chunk is complete: hand the file over and close the stream.
    Done,
    /// Close the stream.
    Close,
    /// Go on reading.
    Continue,
    /// Go on reading from this offset.
    Seek(usize),
}

/// Whether a piece of `len` bytes at `offset` ends in a chunk after the one it starts in, so
/// that the chunk it starts in is complete.
pub open spec fn crosses_chunk(offset: usize, len: usize) -> bool {
    (offset + len) % (CHUNK_SIZE as int) < len
}

/// The download's answer to `data_len` bytes of data at `offset`, of a file of `count`
/// chunks, with `seek` what the reader asked for meanwhile. The chunks must be few enough that
/// the offset of each fits in a `usize`.
pub fn on_data(bitmap: &mut BitSet, count: usize, offset: usize, data_len: usize, seek: SeekRequest) -> (r: DataAction)
    requires
        bitset_items(*old(bitmap)).finite(),
        offset + data_len <= usize::MAX,
        count <= usize::MAX / CHUNK_SIZE,
    ensures
        bitset_items(*final(bitmap)).finite(),
        crosses_chunk(offset, data_len) ==> bitset_items(*final(bitmap)) == bitset_items(*old(bitmap)).insert(
            (offset / CHUNK_SIZE) as usize,
        ),
        !crosses_chunk(offset, data_len) ==> bitset_items(*final(bitmap)) == bitset_items(*old(bitmap)),
        r is Done <==> crosses_chunk(offset, data_len) && bitset_items(*final(bitmap)).len() >= count,
        !(r is Done) ==> match seek {
            SeekRequest::Seek(o) => r == DataAction::Seek(((o as usize) / CHUNK_SIZE * CHUNK_SIZE) as usize),
            SeekRequest::Disconnected => r == DataAction::Close,
            SeekRequest::Empty => if crosses_chunk(offset, data_len) {
                r matches DataAction::Seek(p) && p % CHUNK_SIZE == 0 && p / CHUNK_SIZE < count
                    && exists|k: int| first_missing_after(bitset_items(*final(bitmap)),
                    ((offset / CHUNK_SIZE) + 1) % (count as int), count as int, k)
                    && #[trigger] ((((offset / CHUNK_SIZE) + 1) % (count as int) + k) % (count as int)) == p / CHUNK_SIZE
            } else {
                r == DataAction::Continue
            },
        },
{
    let end = offset + data_len;
    let mut next: Option<usize> = None;
    if end % CHUNK_SIZE < data_len {
        let index = offset / CHUNK_SIZE;
        match record_chunk(bitmap, index, count) {
            ChunkStep::Done => return DataAction::Done,
            ChunkStep::Next(n) => {
                next = Some(n);
            },
        }
    }
    match seek {
        SeekRequest::Seek(o) => {
            let target = o as usize;
            assert(target / CHUNK_SIZE * CHUNK_SIZE <= target) by (nonlinear_arith);
            DataAction::Seek(target / CHUNK_SIZE * CHUNK_SIZE)
        },
        SeekRequest::Disconnected => DataAction::Close,
        SeekRequest::Empty => match next {
            Some(n) => {
                assert(n * CHUNK_SIZE <= usize::MAX) by (nonlinear_arith)
                    requires
                        n < count,
                        count <= usize::MAX / CHUNK_SIZE,
                ;
                assert(((n * 0x20000) as usize) % 0x20000 == 0 && ((n * 0x20000) as usize) / 0x20000 == n) by (nonlinear_arith) requires n * 0x20000 <= usize::MAX;
                DataAction::Seek(n * CHUNK_SIZE)
            },
            None => DataAction::Continue,
        },
    }
}

/// What the download does at the end of the stream.
#[derive(Clone, Copy, Debug, PartialEq, Eq)]
pub enum EofAction {
    /// Every chunk is complete: hand the file over and close the stream.
    Done,
    /// Go on reading from this offset.
    Seek(usize),
}

/// The download's answer to the end of the stream: the last chunk is complete. A file of no
/// chunk has no end of stream to answer.
pub fn on_eof(bitmap: &mut BitSet, count: usize) -> (r: EofAction)
    requires
        bitset_items(*old(bitmap)).finite(),
        count >= 1,
        count <= usize::MAX / CHUNK_SIZE,
    ensures
        bitset_items(*final(bitmap)).finite(),
        bitset_items(*final(bitmap)) == bitset_items(*old(bitmap)).insert((count - 1) as usize),
        r is Done <==> bitset_items(*final(bitmap)).len() >= count,
        r matches EofAction::Seek(p) ==> p % CHUNK_SIZE == 0 && p / CHUNK_SIZE < count
            && exists|k: int| first_missing_after(bitset_items(*final(bitmap)), (count as int) % (count as int), count as int, k)
            && #[trigger] (((count as int) % (count as int) + k) % (count as int)) == p / CHUNK_SIZE,
{
    let index = count - 1;
    match record_chunk(bitmap, index, count) {
        ChunkStep::Done => EofAction::Done,
        ChunkStep::Next(n) => {
            assert(n * CHUNK_SIZE <= usize::MAX) by (nonlinear_arith)
                requires
                    n < count,
                    count <= usize::MAX / CHUNK_SIZE,
            ;
            assert(((n * 0x20000) as usize) % 0x20000 == 0 && ((n * 0x20000) as usize) / 0x20000 == n) by (nonlinear_arith) requires n * 0x20000 <= usize::MAX;
            EofAction::Seek(n * CHUNK_SIZE)
        },
    }
}

/// The chunk that a read at `position` falls in, and how many of `out_len` bytes it may read
/// without leaving that chunk.
pub fn read_window(position: u64, out_len: usize) -> (r: (u64, usize))
    ensures
        r.0 == position / (CHUNK_SIZE as u64),
        r.1 == if out_len < CHUNK_SIZE - position % (CHUNK_SIZE as u64) {
            out_len as int
        } else {
            CHUNK_SIZE - position % (CHUNK_SIZE as u64)
        },
{
    let index = position / (CHUNK_SIZE as u64);
    let offset = (position % (CHUNK_SIZE as u64)) as usize;
    let room = CHUNK_SIZE - offset;
    let len = if out_len < room {
        out_len
    } else {
        room
    };
    (index, len)
}

/// A new bitmap of no complete chunk.
pub fn new_bitmap() -> (r: BitSet)
    ensures
        bitset_items(r) == Set::<usize>::empty(),
        bitset_items(r).finite(),
{
    bitset_new()
}

/// Makes room in the bitmap for the `count` chunks of the file; no chunk is recorded.
pub fn reserve_chunks(bitmap: &mut BitSet, count: usize)
    ensures
        bitset_items(*final(bitmap)) == bitset_items(*old(bitmap)),
{
    bitset_reserve_len(bitmap, count)
}

/// Whether the chunk `index` is complete, so that a reader may read it.
pub fn chunk_ready(bitmap: &BitSet, index: usize) -> (r: bool)
    ensures
        r == bitset_items(*bitmap).contains(index),
{
    bitset_contains(bitmap, index)
}

} // verus!
