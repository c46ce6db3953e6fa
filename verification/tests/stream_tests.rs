use sx_protocol::digest::checksum32;
use sx_protocol::stream::{reconstruct_chunks, ChunkMetadata, Frame, FrameKind, FrameReader, FrameWriter};

fn chunk(id: &str, index: u32, count: u32, offset: u64, payload: &[u8]) -> Frame {
    Frame {
        kind: FrameKind::Chunk,
        metadata: Some(ChunkMetadata {
            message_id: id.to_string(),
            chunk_index: index,
            chunk_count: count,
            segment_id: 0,
            offset,
            length: payload.len() as u32,
            checksum: checksum32(payload),
        }),
        payload: payload.to_vec(),
    }
}

#[test]
fn stream_roundtrip_and_chunk_reconstruction() {
    let mut writer = FrameWriter::new();
    let c1 = b"hello ".to_vec();
    let c2 = b"world".to_vec();
    writer.push(chunk("msg-1", 0, 2, 0, &c1));
    writer.push(chunk("msg-1", 1, 2, 6, &c2));
    let bytes = writer.finish().unwrap();
    let mut reader = FrameReader::new(&bytes).unwrap();
    let mut frames = Vec::new();
    while let Some(frame) = reader.next_frame().unwrap() {
        frames.push(frame);
    }
    let rebuilt = reconstruct_chunks(&frames).unwrap();
    let found = rebuilt.iter().find(|(k, _)| k == "msg-1").unwrap();
    assert_eq!(found.1, b"hello world".to_vec());
}

#[test]
fn chunks_out_of_order_are_reassembled_per_message() {
    let frames = vec![
        chunk("b", 1, 2, 2, b"cd"),
        chunk("a", 0, 1, 0, b"x"),
        chunk("b", 0, 2, 0, b"ab"),
    ];
    let rebuilt = reconstruct_chunks(&frames).unwrap();
    assert_eq!(rebuilt, vec![("a".to_string(), b"x".to_vec()), ("b".to_string(), b"abcd".to_vec())]);
}

#[test]
fn corrupted_frame_checksum_is_rejected() {
    let mut writer = FrameWriter::new();
    writer.push(chunk("m", 0, 1, 0, b"payload"));
    let mut bytes = writer.finish().unwrap();
    let n = bytes.len();
    bytes[n - 1] ^= 0xff;
    let mut reader = FrameReader::new(&bytes).unwrap();
    assert!(reader.next_frame().is_err());
}

#[test]
fn reader_yields_written_frames_in_order_then_none() {
    let mut w = FrameWriter::new();
    let kinds = [FrameKind::Message, FrameKind::Delta];
    for (i, k) in kinds.iter().enumerate() {
        w.push(Frame { kind: *k, metadata: None, payload: vec![i as u8; 3] });
    }
    let bytes = w.finish().unwrap();
    let mut r = FrameReader::new(&bytes).unwrap();
    assert_eq!(r.next_frame().unwrap().unwrap().payload, vec![0u8; 3]);
    assert_eq!(r.next_frame().unwrap().unwrap().payload, vec![1u8; 3]);
    assert!(r.next_frame().unwrap().is_none());
    assert!(r.next_frame().unwrap().is_none());
}
