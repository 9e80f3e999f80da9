use harmonic::chunk::{chunk_file, FileSync, ReceiverAction, ReceiverState, DEFAULT_MAX_CHUNK_BYTES};

fn reassemble(chunks: &[FileSync]) -> Vec<u8> {
    let mut out = Vec::new();
    for c in chunks {
        out.extend_from_slice(&c.chunk);
    }
    out
}

#[test]
fn twenty_thousand_bytes_make_three_chunks() {
    let content: Vec<u8> = (0..20000u32).map(|i| (i % 251) as u8).collect();
    let chunks = chunk_file(7, &b"big.bin".to_vec(), &content, DEFAULT_MAX_CHUNK_BYTES);
    assert_eq!(chunks.len(), 3);
    assert_eq!(chunks[0].offset, 0);
    assert_eq!(chunks[1].offset, 8192);
    assert_eq!(chunks[2].offset, 16384);
    assert_eq!(chunks[0].chunk.len(), 8192);
    assert_eq!(chunks[1].chunk.len(), 8192);
    assert_eq!(chunks[2].chunk.len(), 3616);
    assert!(!chunks[0].is_final);
    assert!(!chunks[1].is_final);
    assert!(chunks[2].is_final);
}

#[test]
fn round_trip_at_several_chunk_sizes() {
    let content: Vec<u8> = (0..20000u32).map(|i| (i.wrapping_mul(31) % 256) as u8).collect();
    for size in [1usize, 8192, content.len()] {
        let chunks = chunk_file(1, &b"f".to_vec(), &content, size);
        assert_eq!(reassemble(&chunks), content, "chunk size {}", size);
        // offsets are contiguous and only the last chunk is final
        let mut expected_offset: i64 = 0;
        for (i, c) in chunks.iter().enumerate() {
            assert_eq!(c.offset, expected_offset);
            assert!(c.chunk.len() <= size);
            assert_eq!(c.is_final, i == chunks.len() - 1);
            expected_offset += c.chunk.len() as i64;
        }
    }
}

#[test]
fn empty_file_still_sends_one_final_chunk() {
    let chunks = chunk_file(1, &b"empty".to_vec(), &Vec::new(), 8192);
    assert_eq!(chunks.len(), 1);
    assert_eq!(chunks[0].offset, 0);
    assert!(chunks[0].chunk.is_empty());
    assert!(chunks[0].is_final);
}

#[test]
fn chunks_carry_session_and_path() {
    let content = vec![9u8; 10];
    let chunks = chunk_file(42, &b"p/q.txt".to_vec(), &content, 4);
    assert_eq!(chunks.len(), 3);
    for c in &chunks {
        assert_eq!(c.sync_uuid, 42);
        assert_eq!(c.path, b"p/q.txt".to_vec());
    }
}

#[test]
fn receiver_accepts_a_well_formed_transfer() {
    let content: Vec<u8> = (0..10u8).collect();
    let chunks = chunk_file(1, &b"f.txt".to_vec(), &content, 4);
    let mut rx = ReceiverState::new();
    let mut written = Vec::new();
    for (i, c) in chunks.iter().enumerate() {
        let action = rx.accept(c);
        if i == 0 {
            assert_eq!(action, ReceiverAction::StartWrite);
        } else {
            assert_eq!(action, ReceiverAction::AppendWrite);
        }
        written.extend_from_slice(&c.chunk);
    }
    assert_eq!(written, content);
    // the final chunk closed the destination
    assert!(rx.current_path.is_none());
    assert_eq!(rx.expected_offset, 0);
}

#[test]
fn receiver_rejects_a_gap_in_offsets() {
    let mut rx = ReceiverState::new();
    let first = FileSync {
        sync_uuid: 1,
        path: b"f".to_vec(),
        chunk: vec![0u8; 4],
        offset: 0,
        is_final: false,
    };
    assert_eq!(rx.accept(&first), ReceiverAction::StartWrite);
    let gap = FileSync {
        sync_uuid: 1,
        path: b"f".to_vec(),
        chunk: vec![0u8; 4],
        offset: 8,
        is_final: false,
    };
    assert_eq!(rx.accept(&gap), ReceiverAction::Reject);
    // state unchanged: the expected continuation is still accepted
    let next = FileSync {
        sync_uuid: 1,
        path: b"f".to_vec(),
        chunk: vec![0u8; 4],
        offset: 4,
        is_final: true,
    };
    assert_eq!(rx.accept(&next), ReceiverAction::AppendWrite);
}

#[test]
fn receiver_rejects_path_change_before_final_mark() {
    let mut rx = ReceiverState::new();
    let first = FileSync {
        sync_uuid: 1,
        path: b"f".to_vec(),
        chunk: vec![1u8; 4],
        offset: 0,
        is_final: false,
    };
    assert_eq!(rx.accept(&first), ReceiverAction::StartWrite);
    let other = FileSync {
        sync_uuid: 1,
        path: b"g".to_vec(),
        chunk: vec![2u8; 4],
        offset: 0,
        is_final: false,
    };
    assert_eq!(rx.accept(&other), ReceiverAction::Reject);
}

#[test]
fn receiver_rejects_first_chunk_with_nonzero_offset() {
    let mut rx = ReceiverState::new();
    let stray = FileSync {
        sync_uuid: 1,
        path: b"f".to_vec(),
        chunk: vec![1u8; 4],
        offset: 4,
        is_final: false,
    };
    assert_eq!(rx.accept(&stray), ReceiverAction::Reject);
}

#[test]
fn receiver_handles_two_files_in_sequence() {
    let mut rx = ReceiverState::new();
    let a = chunk_file(1, &b"a".to_vec(), &vec![1u8; 6], 4);
    let b = chunk_file(1, &b"b".to_vec(), &vec![2u8; 3], 4);
    for c in a.iter().chain(b.iter()) {
        assert_ne!(rx.accept(c), ReceiverAction::Reject);
    }
    assert!(rx.current_path.is_none());
}
