use phantom::coherence::{ArtifactId, CoherenceError, SyncEngine};
use phantom::kv::TokenId;

fn make_data(n: usize) -> Vec<Vec<u8>> {
    (0..n).map(|i| vec![i as u8; 8]).collect()
}

#[test]
fn sync_engine_constructs_heap() {
    let _e = SyncEngine::<2>::new_heap(8, 4, 5);
}

#[test]
fn stats_reflects_allocation() {
    let engine = SyncEngine::<2>::new_heap(8, 4, 5);
    let (used0, total0) = engine.stats();
    assert_eq!(used0, 0, "fresh engine has 0 used blocks");
    assert_eq!(total0, 8, "total must equal capacity");

    let tokens: Vec<TokenId> = vec![0, 1, 2, 3];
    let data: Vec<Vec<u8>> = (0..2).map(|i| vec![i as u8; 8]).collect();
    let slices: Vec<&[u8]> = data.iter().map(|v| v.as_slice()).collect();
    engine.register(&tokens, &slices, 0).unwrap();

    let (used1, total1) = engine.stats();
    assert_eq!(used1, 2, "2-block artifact must consume 2 blocks");
    assert_eq!(total1, 8);
}

#[test]
fn sync_engine_clone_shares_state() {
    let e1 = SyncEngine::<2>::new_heap(8, 4, 5);
    let e2 = e1.clone();
    let tokens: Vec<TokenId> = vec![0, 1, 2, 3];
    let data = make_data(2);
    let slices: Vec<&[u8]> = data.iter().map(|v| v.as_slice()).collect();
    let id = e1.register(&tokens, &slices, 0).unwrap();
    assert!(e2.lookup(&tokens).is_some(), "clone must share engine state");
    let _ = e2.read(id, 1).unwrap();
    e2.check_invariants().unwrap();
}

#[test]
fn sync_engine_register_fork_shares_prefix_blocks() {
    let engine = SyncEngine::<2>::new_heap(16, 4, 5);
    let base: Vec<TokenId> = vec![0, 1, 2, 3];
    let data = make_data(2);
    let slices: Vec<&[u8]> = data.iter().map(|v| v.as_slice()).collect();
    let base_id = engine.register(&base, &slices, 0).unwrap();

    let ext: Vec<TokenId> = vec![0, 1, 2, 3, 4, 5];
    let fork_id = engine.register_fork(&ext, base_id, 1).unwrap();

    let base_blocks = engine.read(base_id, 0).unwrap();
    let fork_blocks = engine.read(fork_id, 1).unwrap();
    assert_eq!(base_blocks, fork_blocks, "fork must share prefix blocks with base");
    engine.check_invariants().unwrap();
}

#[test]
fn a_shared_engine_writes_back_without_blocks() {
    let e = SyncEngine::<2>::new_heap(8, 4, 5);
    let data = make_data(1);
    let slices: Vec<&[u8]> = data.iter().map(|v| v.as_slice()).collect();
    let id = e.register(&[1, 2], &slices, 0).unwrap();
    e.write(id, 0, &[], &[]).unwrap();
    assert_eq!(e.writeback(id), Ok(()));
    assert_eq!(e.writeback(id), Err(CoherenceError::WrongState));
    assert_eq!(e.invalidate(id), Ok(()));
    assert_eq!(e.stats(), (0, 8));
    assert_eq!(e.element_stride(), 4);
}

#[test]
fn a_shared_engine_forks_without_blocks() {
    let e = SyncEngine::<2>::new_heap(8, 4, 5);
    let data = make_data(1);
    let slices: Vec<&[u8]> = data.iter().map(|v| v.as_slice()).collect();
    let id = e.register(&[1, 2], &slices, 0).unwrap();
    assert_eq!(e.register_fork(&[3, 4], id, 1), Ok(ArtifactId::from_tokens(&[3, 4])));
    assert_eq!(e.register_fork(&[1, 2], id, 1), Err(CoherenceError::AlreadyExists));
    assert_eq!(e.acquire(id, 1), Err(CoherenceError::WrongState));
    assert!(e.lookup(&[3, 4]).is_none());
    e.check_invariants().unwrap();
}
