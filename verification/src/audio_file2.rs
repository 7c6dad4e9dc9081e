//! Streaming a file of audio chunk by chunk: the packet that asks for a chunk, and how the
//! answers of a handler move the stream on.
//!
//! The channel and the handler's callbacks live with the session; this module decides what the
//! stream does with each answer.
use vstd::prelude::*;
use crate::endian::{be16_bytes, be32_bytes, put_be_u16, put_be_u32};
use crate::util::FileId;

verus! {

/// The size of a chunk of a file, in bytes.
pub const CHUNK_SIZE: usize = 0x20000;

/// What a handler answers to a header, to data or to the end of the stream.
pub enum Response<H> {
    /// Go on reading where the stream is.
    Continue(H),
    /// Go on reading from the given offset.
    Seek(H, usize),
    /// Stop.
    Close,
}

/// What the stream does next.
pub enum StreamResponse<T> {
    /// Keep the channel open.
    Continue(T),
    /// Open a new channel for the next chunk.
    Spawn(T),
    /// Close the channel and stop.
    Close,
}

/// A file being streamed: its handler, its id, and the offset of the next byte to read.
pub struct AudioFile<H> {
    pub handler: H,
    pub file_id: FileId,
    pub offset: usize,
}

/// The packet (command 0x8) that asks on channel `channel_id` for the chunk of `file` at
/// `offset`: the channel, the bytes 0 and 1, two zero bytes, the numbers 0, 0x9c40 and 0x20000
/// in four bytes each, the file id, then the offsets of the chunk's start and end in words of
/// four bytes.
pub open spec fn chunk_request_packet(channel_id: u16, file: Seq<u8>, offset: usize) -> Seq<u8> {
    be16_bytes(channel_id) + seq![0u8, 1u8] + be16_bytes(0) + be32_bytes(0) + be32_bytes(0x9c40)
        + be32_bytes(0x20000) + file + be32_bytes((offset as u32) / 4)
        + be32_bytes(((offset + CHUNK_SIZE) as u32) / 4)
}

impl<H> AudioFile<H> {
    /// A stream of the file `file_id` from `offset`, answered by `handler`.
    pub fn new(file_id: FileId, offset: usize, handler: H) -> (r: AudioFile<H>)
        ensures
            r.file_id == file_id,
            r.offset == offset,
            r.handler == handler,
    {
        AudioFile { handler: handler, file_id: file_id, offset: offset }
    }

    /// The packet that asks for the chunk at the stream's offset once the channel
    /// `channel_id` is open. The end of the chunk must be an offset that a `usize` holds.
    pub fn request_packet(&self, channel_id: u16) -> (r: Vec<u8>)
        requires
            self.offset + CHUNK_SIZE <= usize::MAX,
        ensures
            r@ == chunk_request_packet(channel_id, self.file_id.0@, self.offset),
    {
        let mut data: Vec<u8> = Vec::new();
        put_be_u16(&mut data, channel_id);
        data.push(0);
        data.push(1);
        put_be_u16(&mut data, 0);
        put_be_u32(&mut data, 0);
        put_be_u32(&mut data, 0x9c40);
        put_be_u32(&mut data, 0x20000);
        let ghost before = data@;
        let mut i: usize = 0;
        while i < 20
            invariant
                i <= 20,
                data@ == before + self.file_id.0@.subrange(0, i as int),
            decreases 20 - i,
        {
            data.push(self.file_id.0[i]);
            assert(self.file_id.0@.subrange(0, i + 1) =~= self.file_id.0@.subrange(0, i as int).push(self.file_id.0@[i as int]));
            i = i + 1;
        }
        assert(self.file_id.0@.subrange(0, 20) =~= self.file_id.0@);
        put_be_u32(&mut data, (self.offset as u32) / 4);
        put_be_u32(&mut data, ((self.offset + CHUNK_SIZE) as u32) / 4);
        assert(data@ =~= chunk_request_packet(channel_id, self.file_id.0@, self.offset));
        data
    }

    /// Moves the stream on after the handler answered a header.
    pub fn after_header(self, r: Response<H>) -> (s: StreamResponse<AudioFile<H>>)
        ensures
            match r {
                Response::Continue(h) => s matches StreamResponse::Continue(f) && f.handler == h
                    && f.offset == self.offset && f.file_id == self.file_id,
                Response::Seek(h, o) => s matches StreamResponse::Spawn(f) && f.handler == h && f.offset == o
                    && f.file_id == self.file_id,
                Response::Close => s is Close,
            },
    {
        match r {
            Response::Continue(h) => StreamResponse::Continue(AudioFile { handler: h, file_id: self.file_id, offset: self.offset }),
            Response::Seek(h, o) => StreamResponse::Spawn(AudioFile { handler: h, file_id: self.file_id, offset: o }),
            Response::Close => StreamResponse::Close,
        }
    }

    /// Moves the stream on after the handler answered `data_len` bytes of data: going on
    /// advances the offset past them. The new offset must be one that a `usize` holds.
    pub fn after_data(self, data_len: usize, r: Response<H>) -> (s: StreamResponse<AudioFile<H>>)
        requires
            r is Continue ==> self.offset + data_len <= usize::MAX,
        ensures
            match r {
                Response::Continue(h) => s matches StreamResponse::Continue(f) && f.handler == h
                    && f.offset == self.offset + data_len && f.file_id == self.file_id,
                Response::Seek(h, o) => s matches StreamResponse::Spawn(f) && f.handler == h && f.offset == o
                    && f.file_id == self.file_id,
                Response::Close => s is Close,
            },
    {
        match r {
            Response::Continue(h) => StreamResponse::Continue(
                AudioFile { handler: h, file_id: self.file_id, offset: self.offset + data_len },
            ),
            Response::Seek(h, o) => StreamResponse::Spawn(AudioFile { handler: h, file_id: self.file_id, offset: o }),
            Response::Close => StreamResponse::Close,
        }
    }

    /// Moves the stream on after the handler answered the end of the stream (on an error of the
    /// channel): only a seek goes on.
    pub fn after_eof(self, r: Response<H>) -> (s: StreamResponse<AudioFile<H>>)
        ensures
            match r {
                Response::Seek(h, o) => s matches StreamResponse::Spawn(f) && f.handler == h && f.offset == o
                    && f.file_id == self.file_id,
                _ => s is Close,
            },
    {
        match r {
            Response::Seek(h, o) => StreamResponse::Spawn(AudioFile { handler: h, file_id: self.file_id, offset: o }),
            _ => StreamResponse::Close,
        }
    }

    /// The end of a chunk: a new channel asks for the next one.
    pub fn after_close(self) -> (s: StreamResponse<AudioFile<H>>)
        ensures
            s matches StreamResponse::Spawn(f) && f.handler == self.handler && f.offset == self.offset
                && f.file_id == self.file_id,
    {
        StreamResponse::Spawn(self)
    }
}

} // verus!
