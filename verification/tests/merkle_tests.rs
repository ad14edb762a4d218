use tx_storage::chunker::{chunk, CHUNK_SIZE};
use tx_storage::hashing::{blake2_256, bytes_eq, combine};
use tx_storage::merkle::{commit, prove, verify};

fn payload_of(len: usize) -> Vec<u8> {
    let mut v = Vec::new();
    for i in 0..len {
        v.push((i % 251) as u8);
    }
    v
}

#[test]
fn blake2_wrapper_matches_reference() {
    let data: Vec<u8> = vec![1, 2, 3, 4, 5];
    let ours = blake2_256(&data);
    let reference = sp_crypto_hashing::blake2_256(&data).to_vec();
    assert_eq!(ours, reference);
    assert_eq!(ours.len(), 32);
    assert_ne!(ours, data);
}

#[test]
fn combine_hashes_concatenation() {
    let left = blake2_256(&vec![1u8]);
    let right = blake2_256(&vec![2u8]);
    let mut cat = left.clone();
    cat.extend_from_slice(&right);
    assert_eq!(combine(&left, &right), sp_crypto_hashing::blake2_256(&cat).to_vec());
}

#[test]
fn bytes_eq_compares_contents() {
    assert!(bytes_eq(&vec![1, 2, 3], &vec![1, 2, 3]));
    assert!(!bytes_eq(&vec![1, 2, 3], &vec![1, 2, 4]));
    assert!(!bytes_eq(&vec![1, 2], &vec![1, 2, 3]));
}

#[test]
fn chunking_splits_and_restores() {
    let payload = payload_of(300);
    let chunks = chunk(&payload, CHUNK_SIZE);
    assert_eq!(chunks.len(), 2);
    assert_eq!(chunks[0].len(), 256);
    assert_eq!(chunks[1].len(), 44);
    let mut restored = Vec::new();
    for c in &chunks {
        restored.extend_from_slice(c);
    }
    assert_eq!(restored, payload);
}

#[test]
fn chunking_exact_multiple() {
    let payload = payload_of(512);
    let chunks = chunk(&payload, CHUNK_SIZE);
    assert_eq!(chunks.len(), 2);
    assert_eq!(chunks[1].len(), 256);
}

#[test]
fn chunking_empty_payload() {
    let payload: Vec<u8> = Vec::new();
    let chunks = chunk(&payload, CHUNK_SIZE);
    assert_eq!(chunks.len(), 0);
}

#[test]
fn round_trip_every_index() {
    let payload = payload_of(5 * 256 + 17);
    let chunks = chunk(&payload, CHUNK_SIZE);
    assert_eq!(chunks.len(), 6);
    let root = commit(&chunks);
    for i in 0..chunks.len() {
        let p = prove(&chunks, i as u32);
        assert_eq!(p.chunk_index, i as u32);
        assert_eq!(p.chunk_data, chunks[i]);
        assert!(verify(&p, &root));
    }
}

#[test]
fn round_trip_single_chunk() {
    let payload = payload_of(10);
    let chunks = chunk(&payload, CHUNK_SIZE);
    assert_eq!(chunks.len(), 1);
    let root = commit(&chunks);
    let p = prove(&chunks, 0);
    assert_eq!(p.proof_path.len(), 0);
    assert!(verify(&p, &root));
}

#[test]
fn tampered_chunk_data_fails() {
    let payload = payload_of(1000);
    let chunks = chunk(&payload, CHUNK_SIZE);
    let root = commit(&chunks);
    for byte in 0..5 {
        let mut p = prove(&chunks, 2);
        p.chunk_data[byte] ^= 0x01;
        assert!(!verify(&p, &root));
    }
}

#[test]
fn tampered_sibling_hash_fails() {
    let payload = payload_of(1000);
    let chunks = chunk(&payload, CHUNK_SIZE);
    let root = commit(&chunks);
    let levels = prove(&chunks, 1).proof_path.len();
    for level in 0..levels {
        let mut p = prove(&chunks, 1);
        p.proof_path[level][7] ^= 0xff;
        assert!(!verify(&p, &root));
    }
}

#[test]
fn wrong_index_fails() {
    let payload = payload_of(1000);
    let chunks = chunk(&payload, CHUNK_SIZE);
    let root = commit(&chunks);
    let mut p = prove(&chunks, 1);
    p.chunk_index = 2;
    assert!(!verify(&p, &root));
}
