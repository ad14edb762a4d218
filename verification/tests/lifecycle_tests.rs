use tx_storage::chunker::{chunk, CHUNK_SIZE};
use tx_storage::errors::StorageError;
use tx_storage::lifecycle::run_to_block;
use tx_storage::merkle::{prove, ChunkProof};
use tx_storage::records::RecordRef;
use tx_storage::select::select_record;
use tx_storage::state::{Config, StorageState};

fn test_config() -> Config {
    Config {
        max_block_transactions: 4,
        max_transaction_size: 4096,
        storage_period: 10,
        max_block_authorization_expiries: 2,
        authorization_period: 10,
    }
}

fn payload_of(len: usize) -> Vec<u8> {
    let mut v = Vec::new();
    for i in 0..len {
        v.push((i % 251) as u8);
    }
    v
}

fn randomness_of(seed: u8) -> Vec<u8> {
    let mut v = vec![0u8; 32];
    v[0] = seed;
    v
}

#[test]
fn store_assigns_sequential_refs() {
    let mut state = StorageState::new(test_config(), 1);
    let a = state.store(&payload_of(100)).unwrap();
    let b = state.store(&payload_of(200)).unwrap();
    assert_eq!(a, RecordRef { block: 1, index: 0 });
    assert_eq!(b, RecordRef { block: 1, index: 1 });
    let rec = state.get(a).unwrap();
    assert_eq!(rec.size, 100);
    assert_eq!(rec.chunk_count, 1);
    assert_eq!(rec.block, 1);
    assert_eq!(rec.expiry, 11);
}

#[test]
fn store_rejects_empty_payload() {
    let mut state = StorageState::new(test_config(), 1);
    assert_eq!(state.store(&Vec::new()), Err(StorageError::EmptyTransaction));
}

#[test]
fn store_rejects_oversized_payload() {
    let mut state = StorageState::new(test_config(), 1);
    assert_eq!(state.store(&payload_of(4097)), Err(StorageError::TransactionTooLarge));
}

#[test]
fn block_transaction_cap_enforced() {
    let mut state = StorageState::new(test_config(), 1);
    for _ in 0..4 {
        assert!(state.store(&payload_of(50)).is_ok());
    }
    assert_eq!(state.store(&payload_of(50)), Err(StorageError::TooManyTransactions));
    // The next block accepts stores again.
    run_to_block(&mut state, 2, &randomness_of(0), &Vec::new());
    assert!(state.store(&payload_of(50)).is_ok());
}

#[test]
fn record_pruned_when_period_elapses() {
    let mut state = StorageState::new(test_config(), 3);
    let rf = state.store(&payload_of(64)).unwrap();
    // Stored at block 3 with period 10: retrievable at block 12, gone at 13.
    run_to_block(&mut state, 12, &randomness_of(1), &Vec::new());
    assert!(state.get(rf).is_some());
    run_to_block(&mut state, 13, &randomness_of(1), &Vec::new());
    assert!(state.get(rf).is_none());
}

#[test]
fn renew_extends_expiry() {
    let mut state = StorageState::new(test_config(), 1);
    let rf = state.store(&payload_of(64)).unwrap();
    run_to_block(&mut state, 5, &randomness_of(2), &Vec::new());
    state.renew(rf, 10).unwrap();
    assert_eq!(state.get(rf).unwrap().expiry, 15);
    run_to_block(&mut state, 14, &randomness_of(2), &Vec::new());
    assert!(state.get(rf).is_some());
    run_to_block(&mut state, 15, &randomness_of(2), &Vec::new());
    assert!(state.get(rf).is_none());
}

#[test]
fn renew_missing_record_fails() {
    let mut state = StorageState::new(test_config(), 1);
    let absent = RecordRef { block: 9, index: 0 };
    assert_eq!(state.renew(absent, 10), Err(StorageError::RecordNotFound));
}

#[test]
fn select_is_deterministic() {
    let mut state = StorageState::new(test_config(), 1);
    state.store(&payload_of(700)).unwrap();
    state.store(&payload_of(900)).unwrap();
    let r = randomness_of(7);
    let first = select_record(&r, &state.records);
    let second = select_record(&r, &state.records);
    assert_eq!(first, second);
    assert!(first.is_some());
}

#[test]
fn select_reaches_every_candidate() {
    let mut state = StorageState::new(test_config(), 1);
    state.store(&payload_of(700)).unwrap();
    state.store(&payload_of(900)).unwrap();
    state.store(&payload_of(30)).unwrap();
    let mut hit = [false; 3];
    for seed in 0..3 {
        let r = randomness_of(seed);
        let (target, _) = select_record(&r, &state.records).unwrap();
        hit[target.index as usize] = true;
    }
    assert!(hit[0] && hit[1] && hit[2]);
}

#[test]
fn select_empty_candidates_gives_none() {
    let state = StorageState::new(test_config(), 1);
    assert_eq!(select_record(&randomness_of(0), &state.records), None);
}

#[test]
fn authorization_exhaustion() {
    let mut state = StorageState::new(test_config(), 1);
    let entry = state.authorize(true, 1, 1000, 5).unwrap();
    assert_eq!(entry.remaining_count, 1);
    assert!(state.consume(entry.id, 1, 100).is_ok());
    assert_eq!(state.consume(entry.id, 1, 100), Err(StorageError::InsufficientAuthorization));
}

#[test]
fn authorization_byte_budget_enforced() {
    let mut state = StorageState::new(test_config(), 1);
    let entry = state.authorize(true, 5, 100, 5).unwrap();
    assert_eq!(state.consume(entry.id, 1, 200), Err(StorageError::InsufficientAuthorization));
    assert!(state.consume(entry.id, 1, 100).is_ok());
    // The byte budget is used up though four stores remain.
    assert_eq!(state.consume(entry.id, 1, 1), Err(StorageError::InsufficientAuthorization));
}

#[test]
fn authorize_requires_privilege() {
    let mut state = StorageState::new(test_config(), 1);
    assert_eq!(state.authorize(false, 1, 100, 5), Err(StorageError::Unauthorized));
}

#[test]
fn authorize_rejects_distant_expiry() {
    let mut state = StorageState::new(test_config(), 1);
    assert_eq!(state.authorize(true, 1, 100, 12), Err(StorageError::InvalidAuthorizationExpiry));
    assert_eq!(state.authorize(true, 1, 100, 0), Err(StorageError::InvalidAuthorizationExpiry));
    assert!(state.authorize(true, 1, 100, 11).is_ok());
}

#[test]
fn authorize_expiry_slot_cap() {
    let mut state = StorageState::new(test_config(), 1);
    assert!(state.authorize(true, 1, 100, 5).is_ok());
    assert!(state.authorize(true, 1, 100, 5).is_ok());
    assert_eq!(
        state.authorize(true, 1, 100, 5),
        Err(StorageError::BlockAuthorizationCapacityReached)
    );
    assert!(state.authorize(true, 1, 100, 6).is_ok());
}

#[test]
fn authorization_expires_at_its_block() {
    let mut state = StorageState::new(test_config(), 1);
    let entry = state.authorize(true, 3, 1000, 4).unwrap();
    run_to_block(&mut state, 4, &randomness_of(0), &Vec::new());
    // Usable during its expiry block, gone afterwards.
    assert!(state.consume(entry.id, 1, 10).is_ok());
    run_to_block(&mut state, 5, &randomness_of(0), &Vec::new());
    assert_eq!(state.consume(entry.id, 1, 10), Err(StorageError::InsufficientAuthorization));
}

#[test]
fn store_with_authorization_consumes() {
    let mut state = StorageState::new(test_config(), 1);
    let entry = state.authorize(true, 1, 500, 5).unwrap();
    let rf = state.store_with_authorization(&payload_of(300), entry.id).unwrap();
    assert_eq!(rf, RecordRef { block: 1, index: 0 });
    assert_eq!(
        state.store_with_authorization(&payload_of(10), entry.id),
        Err(StorageError::InsufficientAuthorization)
    );
}

#[test]
fn check_proof_without_obligation_fails() {
    let mut state = StorageState::new(test_config(), 1);
    let dummy = ChunkProof { chunk_index: 0, chunk_data: vec![1, 2, 3], proof_path: Vec::new() };
    assert_eq!(state.check_proof(&dummy), Err(StorageError::UnexpectedProof));
}

#[test]
fn end_to_end_proof_of_storage() {
    let mut state = StorageState::new(test_config(), 1);
    let payload = payload_of(300);
    let rf = state.store(&payload).unwrap();
    let r = randomness_of(9);
    run_to_block(&mut state, 2, &r, &Vec::new());
    // The only candidate must be selected.
    let ob = state.obligation.unwrap();
    assert_eq!(ob.target, rf);
    assert!(!ob.satisfied);
    let chunks = chunk(&payload, CHUNK_SIZE);
    assert!((ob.chunk_index as usize) < chunks.len());
    // A proof for the wrong chunk index is rejected.
    let wrong_index = (ob.chunk_index + 1) % chunks.len() as u32;
    if wrong_index != ob.chunk_index {
        let bad = prove(&chunks, wrong_index);
        assert_eq!(state.check_proof(&bad), Err(StorageError::InvalidProof));
    }
    // A corrupted proof for the right chunk is rejected.
    let mut corrupt = prove(&chunks, ob.chunk_index);
    corrupt.chunk_data[0] ^= 1;
    assert_eq!(state.check_proof(&corrupt), Err(StorageError::InvalidProof));
    // The correct proof is accepted, once.
    let good = prove(&chunks, ob.chunk_index);
    assert_eq!(state.check_proof(&good), Ok(()));
    assert_eq!(state.check_proof(&good), Err(StorageError::UnexpectedProof));
    // At block 11 the record has been pruned and nothing is selected.
    run_to_block(&mut state, 11, &r, &Vec::new());
    assert!(state.get(rf).is_none());
    assert!(state.obligation.is_none());
}

#[test]
fn run_to_block_submits_supplied_proofs() {
    let mut state = StorageState::new(test_config(), 1);
    let payload = payload_of(600);
    let rf = state.store(&payload).unwrap();
    let r = randomness_of(3);
    run_to_block(&mut state, 2, &r, &Vec::new());
    let ob = state.obligation.unwrap();
    assert_eq!(ob.target, rf);
    let chunks = chunk(&payload, CHUNK_SIZE);
    let proofs = vec![Some(prove(&chunks, ob.chunk_index))];
    run_to_block(&mut state, 3, &r, &proofs);
    // The next block selected a fresh, unsatisfied obligation.
    let next_ob = state.obligation.unwrap();
    assert!(!next_ob.satisfied);
    assert_eq!(next_ob.target, rf);
}
