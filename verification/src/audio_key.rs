//! The keys that decrypt the audio of a track: which requests go out, which are joined to one
//! in flight, and what an answer of the server settles.
//!
//! The manager decides and keeps, for each key in flight, the waiters of the requests for it
//! (the completers of their futures, say); its owner sends the packets and completes or fails
//! the waiters that an answer hands back.
use vstd::prelude::*;
use crate::endian::{be16_bytes, be32_bytes, be32_value, get_be_u32, put_be_u16, put_be_u32};
use crate::util::{same_bytes, FileId, SpotifyId};

verus! {

/// A key that decrypts the audio of a file.
pub type AudioKey = [u8; 16];

/// The answer that the server gives when it has no key for a file.
#[derive(Debug, Hash, PartialEq, Eq, Copy, Clone)]
pub struct AudioKeyError;

/// What a key is asked for: a track and one of its files.
#[derive(Debug, Hash, PartialEq, Eq, Copy, Clone)]
pub struct AudioKeyId(pub SpotifyId, pub FileId);

/// The model of a key id: the track's bytes and the file's bytes.
pub open spec fn id_model(id: AudioKeyId) -> (Seq<u8>, Seq<u8>) {
    (id.0.0@, id.1.0@)
}

/// The model of the manager: the number of the next request, and the requests in flight, oldest
/// first, each with its number, its key id and the waiters for the key in the order they came.
pub struct AudioKeyManagerModel<W> {
    pub next_seq: u32,
    pub pending: Seq<(u32, (Seq<u8>, Seq<u8>), Seq<W>)>,
}

impl<W> AudioKeyManagerModel<W> {
    /// No two requests in flight share a number or a key id, and each number was given out
    /// before the next one.
    pub open spec fn wf(self) -> bool {
        &&& self.next_seq >= 1
        &&& forall|i: int| 0 <= i < self.pending.len() ==> #[trigger] self.pending[i].0 < self.next_seq
        &&& forall|i: int, j: int| 0 <= i < j < self.pending.len() ==> #[trigger] self.pending[i].0 != #[trigger] self.pending[j].0
        &&& forall|i: int, j: int| 0 <= i < j < self.pending.len() ==> #[trigger] self.pending[i].1 != #[trigger] self.pending[j].1
    }

    /// Whether a request for `id` is in flight.
    pub open spec fn has_id(self, id: (Seq<u8>, Seq<u8>)) -> bool {
        exists|i: int| 0 <= i < self.pending.len() && #[trigger] self.pending[i].1 == id
    }

    /// Whether a request numbered `seq` is in flight.
    pub open spec fn has_seq(self, seq: u32) -> bool {
        exists|i: int| 0 <= i < self.pending.len() && #[trigger] self.pending[i].0 == seq
    }
}

/// The packet that asks for the key of `file` of `track` under the number `seq`: the file id,
/// the track id, the number in four bytes and two zero bytes.
pub open spec fn key_request_packet(track: Seq<u8>, file: Seq<u8>, seq: u32) -> Seq<u8> {
    file + track + be32_bytes(seq) + be16_bytes(0)
}

/// What asking for a key needs done.
pub enum KeyRequest {
    /// Send `packet` (of command 0xc) and wait for the answer numbered `seq`.
    Send { seq: u32, packet: Vec<u8> },
    /// A request for the same key is in flight: wait for its answer.
    Join,
}

/// What an answer of the server settles, with the waiters of the key, in the order they came.
pub enum KeyAnswer<W> {
    /// The key of `id` arrived: complete every waiter with it.
    Complete(AudioKeyId, AudioKey, Vec<W>),
    /// The server has no key for `id`: fail every waiter.
    Fail(AudioKeyId, Vec<W>),
    /// The answer for `id` was of another command: drop every waiter.
    Drop(AudioKeyId, Vec<W>),
    /// No request in flight has the answer's number.
    Ignored,
}

/// Decides which key requests go out and what the answers settle, and keeps the waiters of
/// each key in flight.
pub struct AudioKeyManager<W> {
    next_seq: u32,
    pending: Vec<(u32, AudioKeyId, Vec<W>)>,
}

impl<W> View for AudioKeyManager<W> {
    type V = AudioKeyManagerModel<W>;

    closed spec fn view(&self) -> AudioKeyManagerModel<W> {
        AudioKeyManagerModel {
            next_seq: self.next_seq,
            pending: self.pending@.map_values(|e: (u32, AudioKeyId, Vec<W>)| (e.0, id_model(e.1), e.2@)),
        }
    }
}

/// Whether two key ids are the same track and file.
fn same_id(a: &AudioKeyId, b: &AudioKeyId) -> (r: bool)
    ensures
        r == (id_model(*a) == id_model(*b)),
{
    let t = same_bytes(a.0.0.as_slice(), b.0.0.as_slice());
    let f = same_bytes(a.1.0.as_slice(), b.1.0.as_slice());
    t && f
}

impl<W> AudioKeyManager<W> {
    /// A manager with no request in flight, whose first request is numbered 1.
    pub fn new() -> (r: AudioKeyManager<W>)
        ensures
            r@.next_seq == 1,
            r@.pending == Seq::<(u32, (Seq<u8>, Seq<u8>), Seq<W>)>::empty(),
            r@.wf(),
    {
        let r = AudioKeyManager { next_seq: 1, pending: Vec::new() };
        assert(r@.pending =~= Seq::<(u32, (Seq<u8>, Seq<u8>), Seq<W>)>::empty());
        r
    }

    /// The number that the next request gets.
    pub fn next_seq(&self) -> (r: u32)
        ensures
            r == self@.next_seq,
    {
        self.next_seq
    }

    /// Whether a request numbered `seq` is in flight.
    pub fn is_pending(&self, seq: u32) -> (r: bool)
        ensures
            r == self@.has_seq(seq),
    {
        let mut i: usize = 0;
        while i < self.pending.len()
            invariant
                i <= self.pending@.len(),
                forall|j: int| 0 <= j < i ==> self@.pending[j].0 != seq,
            decreases self.pending@.len() - i,
        {
            if self.pending[i].0 == seq {
                assert(self@.pending[i as int].0 == seq);
                return true;
            }
            i = i + 1;
        }
        false
    }

    /// The packet that asks for a key.
    fn key_request(track: SpotifyId, file: FileId, seq: u32) -> (r: Vec<u8>)
        ensures
            r@ == key_request_packet(track.0@, file.0@, seq),
    {
        let mut data: Vec<u8> = Vec::new();
        let mut i: usize = 0;
        while i < 20
            invariant
                i <= 20,
                data@ == file.0@.subrange(0, i as int),
            decreases 20 - i,
        {
            data.push(file.0[i]);
            assert(file.0@.subrange(0, i + 1) =~= file.0@.subrange(0, i as int).push(file.0@[i as int]));
            i = i + 1;
        }
        let raw = track.to_raw();
        let mut j: usize = 0;
        while j < 16
            invariant
                j <= 16,
                raw@ == track.0@,
                data@ == file.0@ + raw@.subrange(0, j as int),
            decreases 16 - j,
        {
            data.push(raw[j]);
            assert(raw@.subrange(0, j + 1) =~= raw@.subrange(0, j as int).push(raw@[j as int]));
            j = j + 1;
        }
        put_be_u32(&mut data, seq);
        put_be_u16(&mut data, 0);
        assert(file.0@.subrange(0, 20) =~= file.0@);
        assert(raw@.subrange(0, 16) =~= raw@);
        data
    }

    /// Asks for the key of `file` of `track` for `waiter`: adds the waiter to the request in
    /// flight for the same key, or numbers a new request, with `waiter` as its one waiter, and
    /// gives the packet to send. A new number must stay below the largest `u32`.
    pub fn request(&mut self, track: SpotifyId, file: FileId, waiter: W) -> (r: KeyRequest)
        requires
            old(self)@.wf(),
            !old(self)@.has_id((track.0@, file.0@)) ==> old(self)@.next_seq < u32::MAX,
        ensures
            final(self)@.wf(),
            forall|i: int| 0 <= i < old(self)@.pending.len() && #[trigger] old(self)@.pending[i].1 == (track.0@, file.0@)
                ==> r is Join && final(self)@.next_seq == old(self)@.next_seq && final(self)@.pending
                == old(self)@.pending.update(
                i,
                (old(self)@.pending[i].0, old(self)@.pending[i].1, old(self)@.pending[i].2.push(waiter)),
            ),
            !old(self)@.has_id((track.0@, file.0@)) ==> (r matches KeyRequest::Send { seq, packet }
                && seq == old(self)@.next_seq
                && packet@ == key_request_packet(track.0@, file.0@, seq)
                && final(self)@.next_seq == old(self)@.next_seq + 1
                && final(self)@.pending == old(self)@.pending.push((seq, (track.0@, file.0@), seq![waiter]))),
    {
        let id = AudioKeyId(track, file);
        let ghost m = self@;
        let mut i: usize = 0;
        while i < self.pending.len()
            invariant
                i <= self.pending@.len(),
                self@ == m,
                old(self)@ == m,
                m.wf(),
                !m.has_id((track.0@, file.0@)) ==> m.next_seq < u32::MAX,
                id_model(id) == (track.0@, file.0@),
                forall|j: int| 0 <= j < i ==> #[trigger] m.pending[j].1 != id_model(id),
            decreases self.pending@.len() - i,
        {
            if same_id(&self.pending[i].1, &id) {
                assert(m.pending[i as int].1 == id_model(id));
                let mut entry = self.pending.remove(i);
                entry.2.push(waiter);
                self.pending.insert(i, entry);
                let ghost e = m.pending[i as int];
                assert(self@.pending =~= m.pending.update(i as int, (e.0, e.1, e.2.push(waiter))));
                assert forall|k: int| 0 <= k < m.pending.len() && #[trigger] m.pending[k].1 == (track.0@, file.0@)
                    implies k == i by {
                    if k < i {
                        assert(m.pending[k].1 != m.pending[i as int].1);
                    } else if k > i {
                        assert(m.pending[i as int].1 != m.pending[k].1);
                    }
                }
                return KeyRequest::Join;
            }
            i = i + 1;
        }
        assert(!m.has_id((track.0@, file.0@)));
        let seq = self.next_seq;
        self.next_seq = self.next_seq + 1;
        let packet = AudioKeyManager::<W>::key_request(track, file, seq);
        let mut waiters: Vec<W> = Vec::new();
        waiters.push(waiter);
        self.pending.push((seq, id, waiters));
        assert(self@.pending =~= m.pending.push((seq, (track.0@, file.0@), seq![waiter])));
        KeyRequest::Send { seq, packet }
    }

    /// Settles the answer of command `cmd` carrying `data`: its first four bytes are the
    /// number of a request; an answer of command 0xd carries the key in the 16 bytes after it.
    pub fn handle(&mut self, cmd: u8, data: &[u8]) -> (r: KeyAnswer<W>)
        requires
            old(self)@.wf(),
            data@.len() >= 4,
            cmd == 0xd && old(self)@.has_seq(be32_value(data@)) ==> data@.len() >= 20,
        ensures
            final(self)@.wf(),
            final(self)@.next_seq == old(self)@.next_seq,
            !old(self)@.has_seq(be32_value(data@)) ==> r is Ignored && final(self)@ == old(self)@,
            forall|i: int| 0 <= i < old(self)@.pending.len() && #[trigger] old(self)@.pending[i].0 == be32_value(data@)
                ==> final(self)@.pending == old(self)@.pending.remove(i) && match r {
                    KeyAnswer::Complete(id, key, waiters) => cmd == 0xd && id_model(id) == old(self)@.pending[i].1
                        && key@ == data@.subrange(4, 20) && waiters@ == old(self)@.pending[i].2,
                    KeyAnswer::Fail(id, waiters) => cmd == 0xe && id_model(id) == old(self)@.pending[i].1
                        && waiters@ == old(self)@.pending[i].2,
                    KeyAnswer::Drop(id, waiters) => cmd != 0xd && cmd != 0xe && id_model(id) == old(self)@.pending[i].1
                        && waiters@ == old(self)@.pending[i].2,
                    KeyAnswer::Ignored => false,
                },
    {
        let seq = get_be_u32(data);
        let ghost m = self@;
        let mut i: usize = 0;
        while i < self.pending.len()
            invariant
                i <= self.pending@.len(),
                self@ == m,
                old(self)@ == m,
                m.wf(),
                seq == be32_value(data@),
                data@.len() >= 4,
                cmd == 0xd && m.has_seq(seq) ==> data@.len() >= 20,
                forall|j: int| 0 <= j < i ==> #[trigger] m.pending[j].0 != seq,
            decreases self.pending@.len() - i,
        {
            if self.pending[i].0 == seq {
                assert(m.pending[i as int].0 == seq);
                let (_, id, waiters) = self.pending.remove(i);
                assert(self@.pending =~= m.pending.remove(i as int));
                assert forall|k: int| 0 <= k < m.pending.len() && #[trigger] m.pending[k].0 == seq implies k == i by {
                    if k != i as int {
                        if k < i {
                            assert(m.pending[k].0 != m.pending[i as int].0);
                        } else {
                            assert(m.pending[i as int].0 != m.pending[k].0);
                        }
                    }
                }
                if cmd == 0xd {
                    let key: AudioKey = [
                        data[4], data[5], data[6], data[7], data[8], data[9], data[10], data[11],
                        data[12], data[13], data[14], data[15], data[16], data[17], data[18], data[19],
                    ];
                    assert(key@ =~= data@.subrange(4, 20));
                    return KeyAnswer::Complete(id, key, waiters);
                } else if cmd == 0xe {
                    return KeyAnswer::Fail(id, waiters);
                } else {
                    return KeyAnswer::Drop(id, waiters);
                }
            }
            i = i + 1;
        }
        KeyAnswer::Ignored
    }
}

/// Once a request for a key was sent, the key is in flight: asking for it again joins that
/// request instead of sending another packet.
pub proof fn lemma_sent_request_in_flight<W>(m: AudioKeyManagerModel<W>, id: (Seq<u8>, Seq<u8>), waiter: W)
    ensures
        (AudioKeyManagerModel { next_seq: (m.next_seq + 1) as u32, pending: m.pending.push((m.next_seq, id, seq![waiter])) }).has_id(id),
{
    let after = AudioKeyManagerModel { next_seq: (m.next_seq + 1) as u32, pending: m.pending.push((m.next_seq, id, seq![waiter])) };
    assert(after.pending[m.pending.len() as int].1 == id);
}

/// An answer settles its request once: after the request numbered `seq` is removed, no request
/// with that number is left in flight, so a second answer with the number is ignored.
pub proof fn lemma_answer_settles_once<W>(m: AudioKeyManagerModel<W>, i: int)
    requires
        m.wf(),
        0 <= i < m.pending.len(),
    ensures
        !(AudioKeyManagerModel { next_seq: m.next_seq, pending: m.pending.remove(i) }).has_seq(m.pending[i].0),
{
    let after = AudioKeyManagerModel { next_seq: m.next_seq, pending: m.pending.remove(i) };
    if after.has_seq(m.pending[i].0) {
        let k = choose|k: int| 0 <= k < after.pending.len() && #[trigger] after.pending[k].0 == m.pending[i].0;
        if k < i {
            assert(m.pending[k].0 != m.pending[i].0);
        } else {
            assert(after.pending[k] == m.pending[k + 1]);
            assert(m.pending[i].0 != m.pending[k + 1].0);
        }
    }
}

} // verus!
