use mdworkspace::chunk::{
    block_envelope, is_complete_transfer, stream_of_bytes, terminal_envelope, ChunkEnvelope,
    CHUNK_SIZE,
};

#[test]
fn empty_file_streams_one_terminal_envelope() {
    let envs = stream_of_bytes(&[]);
    assert_eq!(envs.len(), 1);
    assert!(envs[0].terminal);
    assert_eq!(envs[0].content, "");
    assert!(is_complete_transfer(&envs));
}

#[test]
fn small_file_streams_one_block_and_a_terminal() {
    let envs = stream_of_bytes(b"hello");
    assert_eq!(envs.len(), 2);
    assert!(!envs[0].terminal);
    assert_eq!(envs[0].content, "hello");
    assert!(envs[1].terminal);
    assert_eq!(envs[1].content, "");
    assert!(is_complete_transfer(&envs));
}

#[test]
fn exact_chunk_size_is_one_block() {
    let bytes = vec![b'a'; CHUNK_SIZE];
    let envs = stream_of_bytes(&bytes);
    assert_eq!(envs.len(), 2);
    assert!(!envs[0].terminal);
    assert_eq!(envs[0].content.len(), CHUNK_SIZE);
    assert!(envs[1].terminal);
}

#[test]
fn chunk_count_is_ceiling_and_content_reconstructs() {
    let mut bytes = Vec::new();
    for i in 0..(CHUNK_SIZE + 3) {
        bytes.push(b'a' + (i % 26) as u8);
    }
    let envs = stream_of_bytes(&bytes);
    // ceil((CHUNK_SIZE + 3) / CHUNK_SIZE) = 2 blocks, then the terminal
    assert_eq!(envs.len(), 3);
    assert!(!envs[0].terminal);
    assert!(!envs[1].terminal);
    assert!(envs[2].terminal);
    assert_eq!(envs[0].content.len(), CHUNK_SIZE);
    assert_eq!(envs[1].content.len(), 3);
    let mut joined = String::new();
    for e in envs.iter().take(2) {
        joined.push_str(&e.content);
    }
    assert_eq!(joined.into_bytes(), bytes);
}

#[test]
fn invalid_bytes_are_replaced_not_fatal() {
    let envs = stream_of_bytes(&[0xFF, b'h', b'i']);
    assert_eq!(envs.len(), 2);
    assert_eq!(envs[0].content, "\u{FFFD}hi");
    assert!(is_complete_transfer(&envs));
}

#[test]
fn block_envelopes_match_incremental_reads() {
    let e = block_envelope(b"chunk of text");
    assert!(!e.terminal);
    assert_eq!(e.content, "chunk of text");
    let t = terminal_envelope();
    assert!(t.terminal);
    assert_eq!(t.content, "");
}

#[test]
fn transfer_without_terminal_is_incomplete() {
    let envs = vec![ChunkEnvelope { content: "data".to_string(), terminal: false }];
    assert!(!is_complete_transfer(&envs));
    let empty: Vec<ChunkEnvelope> = Vec::new();
    assert!(!is_complete_transfer(&empty));
}

#[test]
fn terminal_with_content_is_not_a_valid_end() {
    let envs = vec![ChunkEnvelope { content: "tail".to_string(), terminal: true }];
    assert!(!is_complete_transfer(&envs));
}

#[test]
fn early_terminal_is_not_a_valid_transfer() {
    let envs = vec![
        ChunkEnvelope { content: String::new(), terminal: true },
        ChunkEnvelope { content: String::new(), terminal: true },
    ];
    assert!(!is_complete_transfer(&envs));
}
