use bit_set::BitSet;
use crypto::symmetriccipher::SynchronousStreamCipher;
use librespot::album_cover::cover_request;
use librespot::audio_decrypt::AudioDecrypt;
use librespot::audio_file::{
    chunk_ready, file_size, new_bitmap, on_data, on_eof, read_window, record_chunk, reserve_chunks, ChunkStep,
    DataAction, EofAction, SeekRequest,
};
use librespot::audio_file2::{AudioFile, Response, StreamResponse, CHUNK_SIZE};
use librespot::audio_key::{AudioKeyManager, KeyAnswer, KeyRequest};
use librespot::util::{same_bytes, FileId, SpotifyId};

fn ids() -> (SpotifyId, FileId) {
    let mut t = [0u8; 16];
    for i in 0..16 {
        t[i] = i as u8;
    }
    let mut f = [0u8; 20];
    for i in 0..20 {
        f[i] = 100 + i as u8;
    }
    (SpotifyId::from_raw(t), FileId(f))
}

#[test]
fn key_request_is_sent_once_and_answered() {
    let (track, file) = ids();
    let mut m = AudioKeyManager::new();
    assert_eq!(m.next_seq(), 1);
    let packet = match m.request(track, file, "first") {
        KeyRequest::Send { seq, packet } => {
            assert_eq!(seq, 1);
            packet
        }
        KeyRequest::Join => panic!("first request must be sent"),
    };
    let mut expected = file.0.to_vec();
    expected.extend_from_slice(&track.to_raw());
    expected.extend_from_slice(&[0, 0, 0, 1, 0, 0]);
    assert_eq!(packet, expected);
    assert!(matches!(m.request(track, file, "second"), KeyRequest::Join));
    assert!(matches!(m.request(track, file, "third"), KeyRequest::Join));
    assert_eq!(m.next_seq(), 2);
    assert!(m.is_pending(1));
    let mut answer = vec![0, 0, 0, 1];
    answer.extend_from_slice(&[9u8; 16]);
    match m.handle(0xd, &answer) {
        KeyAnswer::Complete(id, key, waiters) => {
            assert_eq!(id.0, track);
            assert_eq!(id.1, file);
            assert_eq!(key, [9u8; 16]);
            assert_eq!(waiters, vec!["first", "second", "third"]);
        }
        _ => panic!("expected the key"),
    }
    assert!(!m.is_pending(1));
    assert!(matches!(m.handle(0xd, &answer), KeyAnswer::Ignored));
}

#[test]
fn key_request_failures_and_other_answers() {
    let (track, file) = ids();
    let mut m = AudioKeyManager::new();
    let _ = m.request(track, file, 1u32);
    let other = FileId([1u8; 20]);
    match m.request(track, other, 2u32) {
        KeyRequest::Send { seq, .. } => assert_eq!(seq, 2),
        KeyRequest::Join => panic!("another file is another key"),
    }
    assert!(matches!(m.request(track, file, 3u32), KeyRequest::Join));
    match m.handle(0xe, &[0, 0, 0, 1]) {
        KeyAnswer::Fail(id, waiters) => {
            assert_eq!(id.1, file);
            assert_eq!(waiters, vec![1, 3]);
        }
        _ => panic!("expected a failure"),
    }
    match m.handle(0x7, &[0, 0, 0, 2]) {
        KeyAnswer::Drop(id, waiters) => {
            assert_eq!(id.1, other);
            assert_eq!(waiters, vec![2]);
        }
        _ => panic!("expected the waiters to be dropped"),
    }
    assert!(matches!(m.handle(0xe, &[0, 0, 0, 3]), KeyAnswer::Ignored));
    assert_eq!(m.next_seq(), 3);
}

#[test]
fn chunk_request_packet_bytes() {
    let (_, file) = ids();
    let f = AudioFile::new(file, 0x40000, ());
    let p = f.request_packet(0x0102);
    let mut expected = vec![1, 2, 0, 1, 0, 0, 0, 0, 0, 0, 0, 0, 0x9c, 0x40, 0, 2, 0, 0];
    expected.extend_from_slice(&file.0);
    expected.extend_from_slice(&[0, 1, 0, 0, 0, 1, 0x80, 0]);
    assert_eq!(p, expected);
}

#[test]
fn stream_moves_on_with_the_handler() {
    let (_, file) = ids();
    let f = AudioFile::new(file, 10, 1u32);
    match f.after_data(5, Response::Continue(2u32)) {
        StreamResponse::Continue(g) => {
            assert_eq!(g.offset, 15);
            assert_eq!(g.handler, 2);
        }
        _ => panic!("expected to continue"),
    }
    let f = AudioFile::new(file, 10, 1u32);
    match f.after_header(Response::Seek(3u32, 99)) {
        StreamResponse::Spawn(g) => assert_eq!(g.offset, 99),
        _ => panic!("expected a new channel"),
    }
    let f = AudioFile::new(file, 10, 1u32);
    assert!(matches!(f.after_eof(Response::Continue(4u32)), StreamResponse::Close));
    let f = AudioFile::new(file, 10, 1u32);
    assert!(matches!(f.after_header(Response::Close), StreamResponse::Close));
    let f = AudioFile::new(file, 10, 1u32);
    match f.after_close() {
        StreamResponse::Spawn(g) => assert_eq!(g.offset, 10),
        _ => panic!("expected a new channel"),
    }
}

#[test]
fn cover_request_bytes() {
    let (_, file) = ids();
    let p = cover_request(0x0a0b, &file);
    let mut expected = vec![0x0a, 0x0b, 0, 0];
    expected.extend_from_slice(&file.0);
    assert_eq!(p, expected);
}

#[test]
fn file_size_and_chunks() {
    assert_eq!(file_size(&[0, 0, 0x80, 0]), (0x20000, 1));
    assert_eq!(file_size(&[0, 0, 0x80, 1]), (0x20004, 2));
    assert_eq!(file_size(&[0, 0, 0, 0]), (0, 0));
}

#[test]
fn chunks_are_fetched_round_the_file() {
    let mut b: BitSet = new_bitmap();
    reserve_chunks(&mut b, 4);
    assert_eq!(record_chunk(&mut b, 1, 4), ChunkStep::Next(2));
    assert_eq!(record_chunk(&mut b, 2, 4), ChunkStep::Next(3));
    assert_eq!(record_chunk(&mut b, 3, 4), ChunkStep::Next(0));
    assert!(chunk_ready(&b, 3));
    assert!(!chunk_ready(&b, 0));
    assert_eq!(record_chunk(&mut b, 0, 4), ChunkStep::Done);
}

#[test]
fn data_crossing_a_chunk_records_it() {
    let mut b = new_bitmap();
    // Inside the first chunk: nothing recorded.
    assert_eq!(on_data(&mut b, 3, 0, 100, SeekRequest::Empty), DataAction::Continue);
    assert!(!chunk_ready(&b, 0));
    // The last bytes of the first chunk: recorded, the next chunk is the second.
    assert_eq!(on_data(&mut b, 3, CHUNK_SIZE - 100, 100, SeekRequest::Empty), DataAction::Seek(CHUNK_SIZE));
    assert!(chunk_ready(&b, 0));
    // A seek of the reader wins, rounded down to its chunk.
    assert_eq!(on_data(&mut b, 3, 2 * CHUNK_SIZE - 10, 10, SeekRequest::Seek(0x20005)), DataAction::Seek(CHUNK_SIZE));
    assert_eq!(on_data(&mut b, 3, 10, 10, SeekRequest::Disconnected), DataAction::Close);
    assert_eq!(on_eof(&mut b, 3), EofAction::Done);
}

#[test]
fn end_of_stream_records_the_last_chunk() {
    let mut b = new_bitmap();
    assert_eq!(on_eof(&mut b, 3), EofAction::Seek(0));
    assert!(chunk_ready(&b, 2));
}

#[test]
fn reads_stay_in_their_chunk() {
    assert_eq!(read_window(0, 10), (0, 10));
    assert_eq!(read_window(0x20000 - 4, 10), (0, 4));
    assert_eq!(read_window(0x20000 + 3, 1 << 20), (1, 0x20000 - 3));
}

#[test]
fn audio_is_the_counter_stream_after_its_header() {
    let key = [3u8; 16];
    let iv = [0x72u8, 0xe0, 0x67, 0xfb, 0xdd, 0xcb, 0xcf, 0x77, 0xeb, 0xe8, 0xbc, 0x64, 0x3f, 0x63, 0x0d, 0x93];
    let plain: Vec<u8> = (0..400u32).map(|i| (i * 7) as u8).collect();
    let mut enc = vec![0u8; plain.len()];
    let mut c = crypto::aes::ctr(crypto::aes::KeySize::KeySize128, &key, &iv);
    c.process(&plain, &mut enc);
    let d = AudioDecrypt::new(key);
    assert_eq!(d.decrypt(&enc), plain[0xa7..].to_vec());
}

#[test]
fn ids_and_bytes() {
    let (track, _) = ids();
    assert_eq!(track.to_raw()[15], 15);
    assert!(same_bytes(&[1, 2], &[1, 2]));
    assert!(!same_bytes(&[1, 2], &[1, 3]));
    assert!(!same_bytes(&[1], &[1, 2]));
}

#[test]
fn audio_decrypted_from_an_offset_is_that_part_of_the_whole() {
    let key = [5u8; 16];
    let iv = [0x72u8, 0xe0, 0x67, 0xfb, 0xdd, 0xcb, 0xcf, 0x77, 0xeb, 0xe8, 0xbc, 0x64, 0x3f, 0x63, 0x0d, 0x93];
    let plain: Vec<u8> = (0..500u32).map(|i| (i * 13 + 1) as u8).collect();
    let mut enc = vec![0u8; plain.len()];
    let mut c = crypto::aes::ctr(crypto::aes::KeySize::KeySize128, &key, &iv);
    c.process(&plain, &mut enc);
    let d = AudioDecrypt::new(key);
    let whole = d.decrypt(&enc);
    for &offset in &[0usize, 1, 15, 16, 17, 100, 333] {
        let part = d.decrypt_from(offset, &enc[0xa7 + offset..]);
        assert_eq!(part, whole[offset..].to_vec());
        assert_eq!(part, plain[0xa7 + offset..].to_vec());
    }
    // reading in pieces, each from where the last ended, gives the whole
    let mut pieces = Vec::new();
    let mut pos = 0;
    for len in [10usize, 30, 7, 200] {
        pieces.extend(d.decrypt_from(pos, &enc[0xa7 + pos..0xa7 + pos + len]));
        pos += len;
    }
    assert_eq!(pieces, whole[..pos].to_vec());
}
