use phantom::coherence::ArtifactId;
use phantom::coherence::CoherenceEngine;
use phantom::kv::TokenId;

#[test]
fn artifact_id_from_tokens_is_deterministic() {
    let tokens: Vec<TokenId> = vec![0, 1, 2, 3];
    let a = ArtifactId::from_tokens(&tokens);
    let b = ArtifactId::from_tokens(&tokens);
    assert_eq!(a, b);
}

#[test]
fn artifact_id_differs_for_different_tokens() {
    let a = ArtifactId::from_tokens(&[0u32, 1, 2, 3]);
    let b = ArtifactId::from_tokens(&[0u32, 1, 2, 4]);
    assert_ne!(a, b);
}

fn make_kv_data(n_blocks: usize) -> Vec<Vec<u8>> {
    (0..n_blocks).map(|i| vec![i as u8; 8]).collect()
}

#[test]
fn multi_agent_shared_artifact() {
    let mut e = CoherenceEngine::<2>::new_heap(16, 4, 5);

    let prompt: Vec<TokenId> = vec![0, 1, 2, 3];
    let data = make_kv_data(2);
    let slices: Vec<&[u8]> = data.iter().map(|v| v.as_slice()).collect();
    let id = e.register(&prompt, &slices, 0).unwrap();
    e.check_invariants().unwrap();

    let blocks1 = e.read(id, 1).expect("agent 1 read must succeed");
    e.check_invariants().unwrap();
    let blocks2 = e.read(id, 2).expect("agent 2 read must succeed");
    e.check_invariants().unwrap();
    assert_eq!(blocks1, blocks2, "both agents must see same blocks");

    e.invalidate(id).unwrap();
    e.check_invariants().unwrap();
}

#[test]
fn fork_and_extend() {
    let mut e = CoherenceEngine::<2>::new_heap(16, 4, 5);

    let base: Vec<TokenId> = vec![0, 1, 2, 3];
    let data = make_kv_data(2);
    let slices: Vec<&[u8]> = data.iter().map(|v| v.as_slice()).collect();
    let base_id = e.register(&base, &slices, 0).unwrap();
    e.check_invariants().unwrap();

    let a_tokens: Vec<TokenId> = vec![0, 1, 2, 3, 4, 5];
    let a_id = e.register_fork(&a_tokens, base_id, 1).unwrap();
    let data_a = make_kv_data(3);
    let slices_a: Vec<&[u8]> = data_a.iter().map(|v| v.as_slice()).collect();
    e.write(a_id, 1, &a_tokens, &slices_a).unwrap();
    e.writeback(a_id).unwrap();
    e.check_invariants().unwrap();

    let b_tokens: Vec<TokenId> = vec![0, 1, 2, 3, 6, 7];
    let b_id = e.register_fork(&b_tokens, base_id, 2).unwrap();
    let data_b = make_kv_data(3);
    let slices_b: Vec<&[u8]> = data_b.iter().map(|v| v.as_slice()).collect();
    e.write(b_id, 2, &b_tokens, &slices_b).unwrap();
    e.writeback(b_id).unwrap();
    e.check_invariants().unwrap();

    let ra = e.read(a_id, 3).expect("agent 3 reads A's artifact");
    let rb = e.read(b_id, 3).expect("agent 3 reads B's artifact");
    assert_eq!(ra[..2], rb[..2], "shared prefix blocks must be identical");
    assert_ne!(ra[2], rb[2], "extension blocks must differ");
    e.check_invariants().unwrap();
}
