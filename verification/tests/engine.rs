use phantom::coherence::{CoherenceEngine, CoherenceError, MesiState};
use phantom::kv::TokenId;

#[test]
fn engine_constructs_and_invariants_pass_on_empty() {
    let engine = CoherenceEngine::<2>::new_heap(8, 4, 2);
    assert!(engine.check_invariants().is_ok());
}

fn make_kv_data(n_blocks: usize) -> Vec<Vec<u8>> {
    (0..n_blocks).map(|i| vec![i as u8; 8]).collect()
}

#[test]
fn register_creates_exclusive_entry() {
    let mut e = CoherenceEngine::<2>::new_heap(8, 4, 5);
    let tokens: Vec<TokenId> = vec![0, 1, 2, 3];
    let data = make_kv_data(2);
    let slices: Vec<&[u8]> = data.iter().map(|v| v.as_slice()).collect();
    let id = e.register(&tokens, &slices, 0).expect("register must succeed");
    assert!(e.check_invariants().is_ok());
    assert_eq!(e.artifacts[&id.0].state, MesiState::Exclusive);
    assert_eq!(e.artifacts[&id.0].owner, Some(0));
    assert_eq!(e.artifacts[&id.0].blocks.len(), 2);
}

#[test]
fn register_duplicate_returns_already_exists() {
    let mut e = CoherenceEngine::<2>::new_heap(8, 4, 5);
    let tokens: Vec<TokenId> = vec![0, 1, 2, 3];
    let data = make_kv_data(2);
    let slices: Vec<&[u8]> = data.iter().map(|v| v.as_slice()).collect();
    e.register(&tokens, &slices, 0).unwrap();
    let err = e.register(&tokens, &slices, 1);
    assert!(matches!(err, Err(CoherenceError::AlreadyExists)));
}

#[test]
fn acquire_invalid_transitions_to_exclusive() {
    let mut e = CoherenceEngine::<2>::new_heap(8, 4, 5);
    let tokens: Vec<TokenId> = vec![0, 1, 2, 3];
    let data = make_kv_data(2);
    let slices: Vec<&[u8]> = data.iter().map(|v| v.as_slice()).collect();
    let id = e.register(&tokens, &slices, 0).unwrap();
    e.invalidate(id).unwrap();
    e.acquire(id, 1).expect("acquire on Invalid must succeed");
    assert_eq!(e.artifacts[&id.0].state, MesiState::Exclusive);
    assert_eq!(e.artifacts[&id.0].owner, Some(1));
    assert!(e.check_invariants().is_ok());
}

#[test]
fn acquire_on_exclusive_returns_wrong_state() {
    let mut e = CoherenceEngine::<2>::new_heap(8, 4, 5);
    let tokens: Vec<TokenId> = vec![0, 1, 2, 3];
    let data = make_kv_data(2);
    let slices: Vec<&[u8]> = data.iter().map(|v| v.as_slice()).collect();
    let id = e.register(&tokens, &slices, 0).unwrap();
    let err = e.acquire(id, 1);
    assert!(matches!(err, Err(CoherenceError::WrongState)));
}

#[test]
fn read_from_exclusive_demotes_to_shared() {
    let mut e = CoherenceEngine::<2>::new_heap(8, 4, 5);
    let tokens: Vec<TokenId> = vec![0, 1, 2, 3];
    let data = make_kv_data(2);
    let slices: Vec<&[u8]> = data.iter().map(|v| v.as_slice()).collect();
    let id = e.register(&tokens, &slices, 0).unwrap();
    let blocks = e.read(id, 1).expect("read from Exclusive must succeed");
    assert_eq!(blocks.len(), 2);
    assert_eq!(e.artifacts[&id.0].state, MesiState::Shared);
    assert_eq!(e.artifacts[&id.0].owner, None);
    assert!(e.artifacts[&id.0].sharers.contains(&1));
    assert_eq!(e.artifacts[&id.0].seen[&1], 0);
    assert!(e.check_invariants().is_ok());
}

#[test]
fn read_from_shared_adds_second_sharer() {
    let mut e = CoherenceEngine::<2>::new_heap(8, 4, 5);
    let tokens: Vec<TokenId> = vec![0, 1, 2, 3];
    let data = make_kv_data(2);
    let slices: Vec<&[u8]> = data.iter().map(|v| v.as_slice()).collect();
    let id = e.register(&tokens, &slices, 0).unwrap();
    e.read(id, 1).unwrap();
    e.read(id, 2).unwrap();
    assert!(e.artifacts[&id.0].sharers.contains(&1));
    assert!(e.artifacts[&id.0].sharers.contains(&2));
    assert!(e.check_invariants().is_ok());
}

#[test]
fn read_from_modified_returns_wrong_state() {
    let mut e = CoherenceEngine::<2>::new_heap(8, 4, 5);
    let tokens: Vec<TokenId> = vec![0, 1, 2, 3];
    let data = make_kv_data(2);
    let slices: Vec<&[u8]> = data.iter().map(|v| v.as_slice()).collect();
    let id = e.register(&tokens, &slices, 0).unwrap();
    e.artifacts.get_mut(&id.0).unwrap().state = MesiState::Modified;
    let err = e.read(id, 1);
    assert!(matches!(err, Err(CoherenceError::WrongState)));
}

#[test]
fn read_from_invalid_returns_wrong_state() {
    let mut e = CoherenceEngine::<2>::new_heap(8, 4, 5);
    let tokens: Vec<TokenId> = vec![0, 1, 2, 3];
    let data = make_kv_data(2);
    let slices: Vec<&[u8]> = data.iter().map(|v| v.as_slice()).collect();
    let id = e.register(&tokens, &slices, 0).unwrap();
    e.invalidate(id).unwrap();
    let err = e.read(id, 1);
    assert!(matches!(err, Err(CoherenceError::WrongState)));
}

#[test]
fn write_from_exclusive_transitions_to_modified() {
    let mut e = CoherenceEngine::<2>::new_heap(16, 4, 5);
    let tokens: Vec<TokenId> = vec![0, 1, 2, 3];
    let data = make_kv_data(2);
    let slices: Vec<&[u8]> = data.iter().map(|v| v.as_slice()).collect();
    let id = e.register(&tokens, &slices, 0).unwrap();

    let tokens_ext: Vec<TokenId> = vec![0, 1, 2, 3, 4, 5];
    let data_ext = make_kv_data(3);
    let slices_ext: Vec<&[u8]> = data_ext.iter().map(|v| v.as_slice()).collect();
    e.write(id, 0, &tokens_ext, &slices_ext).expect("write from Exclusive must succeed");

    assert_eq!(e.artifacts[&id.0].state, MesiState::Modified);
    assert_eq!(e.artifacts[&id.0].ver, 1);
    assert_eq!(e.artifacts[&id.0].seen[&0], 1);
    assert_eq!(e.artifacts[&id.0].blocks.len(), 3);
    assert!(e.check_invariants().is_ok());
}

#[test]
fn write_wrong_owner_returns_not_owner() {
    let mut e = CoherenceEngine::<2>::new_heap(8, 4, 5);
    let tokens: Vec<TokenId> = vec![0, 1, 2, 3];
    let data = make_kv_data(2);
    let slices: Vec<&[u8]> = data.iter().map(|v| v.as_slice()).collect();
    let id = e.register(&tokens, &slices, 0).unwrap();

    let tokens_ext: Vec<TokenId> = vec![0, 1, 2, 3, 4, 5];
    let data_ext = make_kv_data(3);
    let slices_ext: Vec<&[u8]> = data_ext.iter().map(|v| v.as_slice()).collect();
    let err = e.write(id, 1, &tokens_ext, &slices_ext);
    assert!(matches!(err, Err(CoherenceError::NotOwner)));
}

#[test]
fn write_from_shared_returns_wrong_state() {
    let mut e = CoherenceEngine::<2>::new_heap(8, 4, 5);
    let tokens: Vec<TokenId> = vec![0, 1, 2, 3];
    let data = make_kv_data(2);
    let slices: Vec<&[u8]> = data.iter().map(|v| v.as_slice()).collect();
    let id = e.register(&tokens, &slices, 0).unwrap();
    e.read(id, 1).unwrap();

    let tokens_ext: Vec<TokenId> = vec![0, 1, 2, 3, 4, 5];
    let data_ext = make_kv_data(3);
    let slices_ext: Vec<&[u8]> = data_ext.iter().map(|v| v.as_slice()).collect();
    let err = e.write(id, 0, &tokens_ext, &slices_ext);
    assert!(matches!(err, Err(CoherenceError::WrongState)));
}

#[test]
fn read_stale_beyond_k_returns_error() {
    let mut e = CoherenceEngine::<2>::new_heap(8, 4, 0);
    let tokens: Vec<TokenId> = vec![0, 1, 2, 3];
    let data = make_kv_data(2);
    let slices: Vec<&[u8]> = data.iter().map(|v| v.as_slice()).collect();
    let id = e.register(&tokens, &slices, 0).unwrap();
    e.read(id, 1).unwrap();
    e.invalidate(id).unwrap();
    e.acquire(id, 0).unwrap();

    let tokens_ext: Vec<TokenId> = vec![0, 1, 2, 3, 4, 5];
    let data_ext = make_kv_data(3);
    let slices_ext: Vec<&[u8]> = data_ext.iter().map(|v| v.as_slice()).collect();
    e.write(id, 0, &tokens_ext, &slices_ext).unwrap();
    e.writeback(id).unwrap();

    let err = e.read(id, 1);
    assert!(
        matches!(err, Err(CoherenceError::KBoundExceeded)),
        "agent with seen=0 must not read past k_bound=0 when ver=1"
    );
}

#[test]
fn writeback_modified_to_exclusive() {
    let mut e = CoherenceEngine::<2>::new_heap(16, 4, 5);
    let tokens: Vec<TokenId> = vec![0, 1, 2, 3];
    let data = make_kv_data(2);
    let slices: Vec<&[u8]> = data.iter().map(|v| v.as_slice()).collect();
    let id = e.register(&tokens, &slices, 0).unwrap();

    let tokens_ext: Vec<TokenId> = vec![0, 1, 2, 3, 4, 5];
    let data_ext = make_kv_data(3);
    let slices_ext: Vec<&[u8]> = data_ext.iter().map(|v| v.as_slice()).collect();
    e.write(id, 0, &tokens_ext, &slices_ext).unwrap();
    assert_eq!(e.artifacts[&id.0].state, MesiState::Modified);

    e.writeback(id).expect("writeback must succeed from Modified");
    assert_eq!(e.artifacts[&id.0].state, MesiState::Exclusive);
    assert_eq!(e.artifacts[&id.0].owner, Some(0));
    assert!(e.check_invariants().is_ok());
}

#[test]
fn writeback_from_exclusive_returns_wrong_state() {
    let mut e = CoherenceEngine::<2>::new_heap(8, 4, 5);
    let tokens: Vec<TokenId> = vec![0, 1, 2, 3];
    let data = make_kv_data(2);
    let slices: Vec<&[u8]> = data.iter().map(|v| v.as_slice()).collect();
    let id = e.register(&tokens, &slices, 0).unwrap();
    let err = e.writeback(id);
    assert!(matches!(err, Err(CoherenceError::WrongState)));
}

#[test]
fn invalidate_exclusive_transitions_to_invalid() {
    let mut e = CoherenceEngine::<2>::new_heap(8, 4, 5);
    let tokens: Vec<TokenId> = vec![0, 1, 2, 3];
    let data = make_kv_data(2);
    let slices: Vec<&[u8]> = data.iter().map(|v| v.as_slice()).collect();
    let id = e.register(&tokens, &slices, 0).unwrap();
    e.invalidate(id).expect("invalidate from E must succeed");
    assert_eq!(e.artifacts[&id.0].state, MesiState::Invalid);
    assert_eq!(e.artifacts[&id.0].owner, None);
    assert!(e.artifacts[&id.0].blocks.is_empty());
    assert!(e.check_invariants().is_ok());
}

#[test]
fn invalidate_shared_clears_all_sharers() {
    let mut e = CoherenceEngine::<2>::new_heap(8, 4, 5);
    let tokens: Vec<TokenId> = vec![0, 1, 2, 3];
    let data = make_kv_data(2);
    let slices: Vec<&[u8]> = data.iter().map(|v| v.as_slice()).collect();
    let id = e.register(&tokens, &slices, 0).unwrap();
    e.read(id, 1).unwrap();
    e.read(id, 2).unwrap();
    assert_eq!(e.artifacts[&id.0].sharers.len(), 2);
    e.invalidate(id).expect("invalidate from S must succeed");
    assert!(e.artifacts[&id.0].sharers.is_empty());
    assert!(e.check_invariants().is_ok());
}

#[test]
fn invalidate_modified_returns_wrong_state() {
    let mut e = CoherenceEngine::<2>::new_heap(16, 4, 5);
    let tokens: Vec<TokenId> = vec![0, 1, 2, 3];
    let data = make_kv_data(2);
    let slices: Vec<&[u8]> = data.iter().map(|v| v.as_slice()).collect();
    let id = e.register(&tokens, &slices, 0).unwrap();
    let tokens_ext: Vec<TokenId> = vec![0, 1, 2, 3, 4, 5];
    let data_ext = make_kv_data(3);
    let slices_ext: Vec<&[u8]> = data_ext.iter().map(|v| v.as_slice()).collect();
    e.write(id, 0, &tokens_ext, &slices_ext).unwrap();
    let err = e.invalidate(id);
    assert!(matches!(err, Err(CoherenceError::WrongState)));
}

#[test]
fn seen_preserved_across_invalidate() {
    let mut e = CoherenceEngine::<2>::new_heap(8, 4, 0);
    let tokens: Vec<TokenId> = vec![0, 1, 2, 3];
    let data = make_kv_data(2);
    let slices: Vec<&[u8]> = data.iter().map(|v| v.as_slice()).collect();
    let id = e.register(&tokens, &slices, 0).unwrap();
    e.read(id, 1).unwrap();
    e.invalidate(id).unwrap();
    assert_eq!(e.artifacts[&id.0].seen.get(&1), Some(&0),
        "seen must not be cleared by invalidate");
}

#[test]
fn register_fork_creates_exclusive_artifact_with_shared_prefix() {
    let mut e = CoherenceEngine::<2>::new_heap(16, 4, 5);
    let tokens: Vec<TokenId> = vec![0, 1, 2, 3];
    let data = make_kv_data(2);
    let slices: Vec<&[u8]> = data.iter().map(|v| v.as_slice()).collect();
    let base_id = e.register(&tokens, &slices, 0).unwrap();

    let fork_tokens: Vec<TokenId> = vec![0, 1, 2, 3, 4, 5];
    let fork_id = e.register_fork(&fork_tokens, base_id, 1)
        .expect("register_fork must succeed");

    assert_ne!(fork_id, base_id, "fork must get a new ArtifactId");
    assert_eq!(e.artifacts[&fork_id.0].state, MesiState::Exclusive);
    assert_eq!(e.artifacts[&fork_id.0].owner, Some(1));
    let fork_blocks = e.artifacts[&fork_id.0].blocks.clone();
    let base_blocks = e.artifacts[&base_id.0].blocks.clone();
    assert_eq!(
        fork_blocks[..2],
        base_blocks[..2],
        "first 2 blocks must be shared with the base artifact"
    );
    assert!(e.check_invariants().is_ok());
}

#[test]
fn register_fork_from_invalid_returns_wrong_state() {
    let mut e = CoherenceEngine::<2>::new_heap(8, 4, 5);
    let tokens: Vec<TokenId> = vec![0, 1, 2, 3];
    let data = make_kv_data(2);
    let slices: Vec<&[u8]> = data.iter().map(|v| v.as_slice()).collect();
    let base_id = e.register(&tokens, &slices, 0).unwrap();
    e.invalidate(base_id).unwrap();

    let fork_tokens: Vec<TokenId> = vec![0, 1, 2, 3, 4, 5];
    let err = e.register_fork(&fork_tokens, base_id, 1);
    assert!(matches!(err, Err(CoherenceError::WrongState)));
}

#[test]
fn register_fork_from_modified_returns_wrong_state() {
    let mut e = CoherenceEngine::<2>::new_heap(16, 4, 5);
    let tokens: Vec<TokenId> = vec![0, 1, 2, 3];
    let data = make_kv_data(2);
    let slices: Vec<&[u8]> = data.iter().map(|v| v.as_slice()).collect();
    let base_id = e.register(&tokens, &slices, 0).unwrap();
    let tokens_ext: Vec<TokenId> = vec![0, 1, 2, 3, 4, 5];
    let data_ext = make_kv_data(3);
    let slices_ext: Vec<&[u8]> = data_ext.iter().map(|v| v.as_slice()).collect();
    e.write(base_id, 0, &tokens_ext, &slices_ext).unwrap();

    let fork_tokens: Vec<TokenId> = vec![0, 1, 2, 3, 6, 7];
    let err = e.register_fork(&fork_tokens, base_id, 1);
    assert!(matches!(err, Err(CoherenceError::WrongState)));
}

#[test]
fn register_fork_duplicate_token_hash_returns_already_exists() {
    let mut e = CoherenceEngine::<2>::new_heap(16, 4, 5);
    let tokens: Vec<TokenId> = vec![0, 1, 2, 3];
    let data = make_kv_data(2);
    let slices: Vec<&[u8]> = data.iter().map(|v| v.as_slice()).collect();
    let base_id = e.register(&tokens, &slices, 0).unwrap();

    let fork_tokens: Vec<TokenId> = vec![0, 1, 2, 3, 4, 5];
    e.register_fork(&fork_tokens, base_id, 1).unwrap();
    let err = e.register_fork(&fork_tokens, base_id, 2);
    assert!(matches!(err, Err(CoherenceError::AlreadyExists)));
}

#[test]
fn fork_artifact_stays_readable_after_source_invalidated() {
    let mut e = CoherenceEngine::<2>::new_heap(16, 4, 5);
    let base_tokens: Vec<TokenId> = vec![0, 1, 2, 3];
    let d = make_kv_data(2);
    let s: Vec<&[u8]> = d.iter().map(|v| v.as_slice()).collect();
    let base_id = e.register(&base_tokens, &s, 0).unwrap();

    let fork_tokens: Vec<TokenId> = vec![0, 1, 2, 3, 4, 5];
    let fork_id = e.register_fork(&fork_tokens, base_id, 1).unwrap();
    let data_fork = make_kv_data(3);
    let slices_fork: Vec<&[u8]> = data_fork.iter().map(|v| v.as_slice()).collect();
    e.write(fork_id, 1, &fork_tokens, &slices_fork).unwrap();
    e.writeback(fork_id).unwrap();

    e.invalidate(base_id).unwrap();
    e.check_invariants().unwrap();

    let blocks = e.read(fork_id, 2)
        .expect("fork must remain readable after source is invalidated");
    assert_eq!(blocks.len(), 3, "fork must expose all 3 blocks");
}

#[test]
fn invalidate_releases_exact_blocks_not_global_lru() {
    let mut e = CoherenceEngine::<2>::new_heap(8, 4, 5);
    let t1: Vec<TokenId> = vec![0, 1, 2, 3];
    let t2: Vec<TokenId> = vec![4, 5, 6, 7];
    let d = make_kv_data(2);
    let s: Vec<&[u8]> = d.iter().map(|v| v.as_slice()).collect();
    let id1 = e.register(&t1, &s, 0).unwrap();
    e.register(&t2, &s, 1).unwrap();
    e.invalidate(id1).unwrap();
    assert_eq!(e.kv.free_count(), 6, "invalidate must free exactly the artifact's 2 blocks");
}
