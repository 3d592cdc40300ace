use phantom::kv::{BlockId, DualRadixTrie, TokenId};

fn block_tokens<const B: usize>(base: u32) -> Vec<TokenId> {
    (base * B as u32..(base + 1) * B as u32).collect()
}

fn seq<const B: usize>(bases: &[u32]) -> Vec<TokenId> {
    bases.iter().flat_map(|&b| block_tokens::<B>(b)).collect()
}

#[test]
fn lookup_empty_returns_zero() {
    let mut trie = DualRadixTrie::<4>::new();
    let result = trie.lookup(&seq::<4>(&[0]));
    assert_eq!(result.matched_tokens, 0);
    assert!(result.block_ids.is_empty());
}

#[test]
fn insert_then_lookup_exact() {
    let mut trie = DualRadixTrie::<4>::new();
    let tokens = seq::<4>(&[0, 1, 2]);
    let blocks = vec![BlockId(0), BlockId(1), BlockId(2)];
    trie.insert(&tokens, &blocks);
    let result = trie.lookup(&tokens);
    assert_eq!(result.matched_tokens, 12);
    assert_eq!(result.block_ids, blocks);
}

#[test]
fn lookup_partial_prefix() {
    let mut trie = DualRadixTrie::<4>::new();
    let abc = seq::<4>(&[0, 1, 2]);
    trie.insert(&abc, &[BlockId(0), BlockId(1), BlockId(2)]);
    let abd: Vec<TokenId> = [seq::<4>(&[0, 1]), seq::<4>(&[3])].concat();
    let result = trie.lookup(&abd);
    assert_eq!(result.matched_tokens, 8, "first two blocks must match");
    assert_eq!(result.block_ids, vec![BlockId(0), BlockId(1)]);
}

#[test]
fn fork_returns_existing_block_ids() {
    let mut trie = DualRadixTrie::<4>::new();
    let tokens = seq::<4>(&[0, 1]);
    let blocks = vec![BlockId(10), BlockId(11)];
    trie.insert(&tokens, &blocks);
    let forked = trie.fork(&tokens);
    assert_eq!(forked, blocks, "fork must return same block ids as insert");
}

#[test]
fn fork_then_extend_independent() {
    let mut trie = DualRadixTrie::<4>::new();
    let prefix = seq::<4>(&[0]);
    trie.insert(&prefix, &[BlockId(0)]);

    trie.fork(&prefix);
    let a_ext = [seq::<4>(&[0]), seq::<4>(&[1])].concat();
    trie.insert(&a_ext, &[BlockId(0), BlockId(1)]);

    trie.fork(&prefix);
    let b_ext = [seq::<4>(&[0]), seq::<4>(&[2])].concat();
    trie.insert(&b_ext, &[BlockId(0), BlockId(2)]);

    let a_result = trie.lookup(&a_ext);
    assert_eq!(a_result.block_ids, vec![BlockId(0), BlockId(1)]);

    let b_result = trie.lookup(&b_ext);
    assert_eq!(b_result.block_ids, vec![BlockId(0), BlockId(2)]);
}

#[test]
fn evict_lru_skips_forked_nodes() {
    let mut trie = DualRadixTrie::<4>::new();
    let tokens = seq::<4>(&[0]);
    trie.insert(&tokens, &[BlockId(0)]);
    trie.fork(&tokens);
    let freed = trie.evict_lru(10);
    assert!(freed.is_empty(), "forked node (rc=1) must not be evicted");
}

#[test]
fn evict_lru_frees_oldest_first() {
    let mut trie = DualRadixTrie::<4>::new();
    trie.insert(&seq::<4>(&[0]), &[BlockId(0)]);
    trie.insert(&seq::<4>(&[1]), &[BlockId(1)]);
    trie.insert(&seq::<4>(&[2]), &[BlockId(2)]);
    let freed = trie.evict_lru(1);
    assert_eq!(freed, vec![BlockId(0)], "oldest leaf must be evicted first");
    let result = trie.lookup(&seq::<4>(&[0]));
    assert_eq!(result.matched_tokens, 0, "evicted node must be unreachable via lookup");
    assert_eq!(trie.lookup(&seq::<4>(&[1])).matched_tokens, 4);
    assert_eq!(trie.lookup(&seq::<4>(&[2])).matched_tokens, 4);
}

#[test]
fn evict_lru_skips_interior_forked_node() {
    let mut trie = DualRadixTrie::<4>::new();
    let ab = seq::<4>(&[0, 1]);
    trie.insert(&ab, &[BlockId(10), BlockId(11)]);
    trie.fork(&seq::<4>(&[0]));
    let freed = trie.evict_lru(10);
    assert!(
        !freed.contains(&BlockId(10)),
        "interior forked node A must not be evicted even if rc guard were absent"
    );
}

#[test]
fn release_leaf_with_rc_zero_removes_node() {
    let mut trie = DualRadixTrie::<4>::new();
    trie.insert(&seq::<4>(&[0]), &[BlockId(0)]);
    trie.release(&[BlockId(0)]);
    let result = trie.lookup(&seq::<4>(&[0]));
    assert_eq!(result.matched_tokens, 0, "released node must be unreachable via lookup");
}

#[test]
fn release_leaf_with_rc_one_decrements_and_removes() {
    let mut trie = DualRadixTrie::<4>::new();
    trie.insert(&seq::<4>(&[0]), &[BlockId(0)]);
    trie.fork(&seq::<4>(&[0]));
    trie.release(&[BlockId(0)]);
    let result = trie.lookup(&seq::<4>(&[0]));
    assert_eq!(result.matched_tokens, 0, "forked node released to rc=0 must be unreachable");
}

#[test]
fn release_interior_node_stays_when_has_children() {
    let mut trie = DualRadixTrie::<4>::new();
    trie.insert(&seq::<4>(&[0, 1]), &[BlockId(0), BlockId(1)]);
    trie.fork(&seq::<4>(&[0]));
    trie.release(&[BlockId(0)]);
    let result = trie.lookup(&seq::<4>(&[0, 1]));
    assert_eq!(result.matched_tokens, 8, "interior node with children must survive release");
}

#[test]
fn release_noop_for_unknown_blockid() {
    let mut trie = DualRadixTrie::<4>::new();
    trie.release(&[BlockId(99)]);
}

#[test]
fn insert_lookup_roundtrip_for_every_length() {
    for n_blocks in 1usize..=8 {
        let mut trie = DualRadixTrie::<4>::new();
        let tokens: Vec<TokenId> = (0..(n_blocks * 4) as u32).collect();
        let block_ids: Vec<BlockId> = (0..n_blocks).map(BlockId).collect();
        trie.insert(&tokens, &block_ids);
        let result = trie.lookup(&tokens);
        assert_eq!(result.matched_tokens, n_blocks * 4);
        assert_eq!(result.block_ids, block_ids);
    }
}

#[test]
fn fork_gives_the_inserted_blocks_for_every_length() {
    for n_blocks in 1usize..=6 {
        let mut trie = DualRadixTrie::<4>::new();
        let tokens: Vec<TokenId> = (0..(n_blocks * 4) as u32).collect();
        let block_ids: Vec<BlockId> = (0..n_blocks).map(BlockId).collect();
        trie.insert(&tokens, &block_ids);
        assert_eq!(trie.fork(&tokens), block_ids);
    }
}

#[test]
fn eviction_never_takes_a_forked_block() {
    for n_blocks in 1usize..=8 {
        let mut trie = DualRadixTrie::<4>::new();
        let mut forked_ids: Vec<BlockId> = Vec::new();
        for i in 0..n_blocks {
            let tokens: Vec<TokenId> = (i as u32 * 4..i as u32 * 4 + 4).collect();
            trie.insert(&tokens, &[BlockId(i)]);
            if i % 2 == 0 {
                trie.fork(&tokens);
                forked_ids.push(BlockId(i));
            }
        }
        let freed = trie.evict_lru(n_blocks * 2);
        assert_eq!(freed.len(), n_blocks / 2);
        for fid in &forked_ids {
            assert!(!freed.contains(fid));
        }
    }
}

#[test]
fn an_incomplete_last_block_is_not_looked_up() {
    let mut trie = DualRadixTrie::<4>::new();
    trie.insert(&[1, 2, 3, 4], &[BlockId(5)]);
    let result = trie.lookup(&[1, 2, 3, 4, 1, 2, 3]);
    assert_eq!(result.matched_tokens, 4);
    assert_eq!(result.block_ids, vec![BlockId(5)]);
    assert_eq!(trie.lookup(&[1, 2, 3]).matched_tokens, 0);
}

#[test]
fn a_shorter_lookup_finds_the_beginning() {
    let mut trie = DualRadixTrie::<2>::new();
    trie.insert(&[1, 2, 3, 4, 5, 6], &[BlockId(0), BlockId(1), BlockId(2)]);
    assert_eq!(trie.lookup(&[1, 2, 3, 4]).block_ids, vec![BlockId(0), BlockId(1)]);
    assert_eq!(trie.peek(&[1, 2, 3, 4, 9, 9]).len(), 2);
}

#[test]
fn inserting_again_keeps_the_first_blocks() {
    let mut trie = DualRadixTrie::<2>::new();
    trie.insert(&[1, 2, 3, 4], &[BlockId(0), BlockId(1)]);
    trie.insert(&[1, 2, 3, 4, 5, 6], &[BlockId(7), BlockId(8), BlockId(9)]);
    assert_eq!(
        trie.lookup(&[1, 2, 3, 4, 5, 6]).block_ids,
        vec![BlockId(0), BlockId(1), BlockId(9)]
    );
}

#[test]
fn a_colliding_block_takes_the_key_over() {
    let mut trie = DualRadixTrie::<2>::new();
    trie.insert_keyed(&[1, 2], &[BlockId(0)], &[7]);
    trie.insert_keyed(&[3, 4], &[BlockId(1)], &[7]);
    assert!(trie.lookup_keyed(&[1, 2], &[7]).block_ids.is_empty());
    assert_eq!(trie.lookup_keyed(&[3, 4], &[7]).block_ids, vec![BlockId(1)]);
    // The block that lost its key is out of reach, but still there to be evicted.
    assert_eq!(trie.evict_lru(1), vec![BlockId(0)]);
    assert_eq!(trie.lookup_keyed(&[3, 4], &[7]).block_ids, vec![BlockId(1)]);
}

#[test]
fn blocks_without_collision_keep_each_other() {
    let mut trie = DualRadixTrie::<2>::new();
    trie.insert_keyed(&[1, 2, 3, 4], &[BlockId(0), BlockId(1)], &[7, 8]);
    trie.insert_keyed(&[1, 2, 5, 6], &[BlockId(0), BlockId(2)], &[7, 9]);
    assert_eq!(
        trie.lookup_keyed(&[1, 2, 3, 4], &[7, 8]).block_ids,
        vec![BlockId(0), BlockId(1)]
    );
    assert_eq!(
        trie.fork_keyed(&[1, 2, 5, 6], &[7, 9]),
        vec![BlockId(0), BlockId(2)]
    );
}

#[test]
fn a_lookup_makes_a_leaf_young() {
    let mut trie = DualRadixTrie::<2>::new();
    trie.insert(&[1, 2], &[BlockId(0)]);
    trie.insert(&[3, 4], &[BlockId(1)]);
    trie.lookup(&[1, 2]);
    assert_eq!(trie.evict_lru(1), vec![BlockId(1)]);
    assert_eq!(trie.evict_lru(5), vec![BlockId(0)]);
    assert!(trie.evict_lru(5).is_empty());
}

#[test]
fn eviction_takes_leaves_only() {
    let mut trie = DualRadixTrie::<2>::new();
    trie.insert(&[1, 2, 3, 4, 5, 6], &[BlockId(0), BlockId(1), BlockId(2)]);
    assert_eq!(trie.evict_lru(3), vec![BlockId(2)]);
    assert_eq!(trie.lookup(&[1, 2, 3, 4, 5, 6]).block_ids, vec![BlockId(0), BlockId(1)]);
}

#[test]
fn a_release_undoes_a_fork() {
    let mut trie = DualRadixTrie::<2>::new();
    trie.insert(&[1, 2, 3, 4], &[BlockId(0), BlockId(1)]);
    trie.fork(&[1, 2, 3, 4]);
    let forked = trie.fork(&[1, 2, 3, 4]);
    trie.release(&forked);
    assert_eq!(trie.lookup(&[1, 2, 3, 4]).block_ids, forked);
    assert!(trie.evict_lru(9).is_empty());
    trie.release(&forked);
    assert_eq!(trie.lookup(&[1, 2, 3, 4]).matched_tokens, 0);
}

#[test]
fn released_slots_are_used_again() {
    let mut trie = DualRadixTrie::<2>::default();
    for round in 0u32..5 {
        trie.insert(&[round, round], &[BlockId(round as usize)]);
        assert!(trie.can_fork(&[round, round]));
        trie.release(&[BlockId(round as usize)]);
        assert_eq!(trie.lookup(&[round, round]).matched_tokens, 0);
    }
}

#[test]
fn releasing_a_chain_takes_all_of_it_out() {
    let mut trie = DualRadixTrie::<2>::new();
    let tokens = [1, 2, 3, 4, 5, 6];
    trie.insert(&tokens, &[BlockId(0), BlockId(1), BlockId(2)]);
    trie.fork(&[1, 2]);
    trie.release(&[BlockId(0), BlockId(1), BlockId(2)]);
    assert_eq!(trie.lookup(&tokens).matched_tokens, 0);
    assert!(trie.evict_lru(9).is_empty());
}

#[test]
fn lookups_and_forks_change_no_lookup() {
    let mut trie = DualRadixTrie::<2>::new();
    trie.insert(&[1, 2, 3, 4], &[BlockId(0), BlockId(1)]);
    trie.insert(&[5, 6], &[BlockId(2)]);
    trie.lookup(&[1, 2]);
    trie.fork(&[5, 6]);
    trie.fork(&[9, 9]);
    assert_eq!(trie.lookup(&[1, 2, 3, 4]).block_ids, vec![BlockId(0), BlockId(1)]);
    assert_eq!(trie.lookup(&[5, 6]).block_ids, vec![BlockId(2)]);
}

#[test]
fn an_insertion_helps_others_as_far_as_they_agree() {
    let mut trie = DualRadixTrie::<2>::new();
    trie.insert_keyed(&[1, 2, 3, 4], &[BlockId(0), BlockId(1)], &[7, 8]);
    assert_eq!(trie.lookup_keyed(&[1, 2, 5, 6, 7, 8], &[7, 9, 10]).block_ids, vec![BlockId(0)]);
    let ids = [BlockId(0), BlockId(2), BlockId(3)];
    trie.insert_keyed(&[1, 2, 5, 6, 9, 9], &ids, &[7, 9, 11]);
    assert_eq!(
        trie.lookup_keyed(&[1, 2, 5, 6, 7, 8], &[7, 9, 10]).block_ids,
        vec![BlockId(0), BlockId(2)]
    );
    assert_eq!(
        trie.lookup_keyed(&[1, 2, 3, 4, 5, 6], &[7, 8, 9]).block_ids,
        vec![BlockId(0), BlockId(1)]
    );
    assert_eq!(trie.cached_blocks_keyed(&[1, 2, 5, 6, 9, 9], &[7, 9, 11]), 3);
}

#[test]
fn what_is_retained_is_not_evicted() {
    let mut trie = DualRadixTrie::<2>::new();
    trie.insert(&[1, 2], &[BlockId(0)]);
    trie.insert(&[3, 4], &[BlockId(1)]);
    assert_eq!(trie.peek(&[1, 2, 3, 4]), vec![BlockId(0)]);
    trie.retain(&[BlockId(0), BlockId(9)]);
    assert_eq!(trie.evict_lru(2), vec![BlockId(1)]);
    assert_eq!(trie.peek(&[1, 2]), vec![BlockId(0)]);
    trie.release(&[BlockId(0)]);
    assert!(trie.peek(&[1, 2]).is_empty());
}
