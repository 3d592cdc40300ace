use phantom::kv::{BlockId, CacheError, KvCache, TokenId};

fn make_kv_blocks(n: usize, stride: usize) -> Vec<Vec<u8>> {
    (0..n).map(|i| vec![i as u8; stride]).collect()
}

#[test]
fn release_returns_slab_blocks_to_free_list() {
    let mut kv = KvCache::<2>::new_heap(4, 4);
    let tokens: Vec<u32> = vec![0, 1, 2, 3];
    let data = make_kv_blocks(2, 8);
    let slices: Vec<&[u8]> = data.iter().map(|v| v.as_slice()).collect();
    kv.insert(&tokens, &slices).unwrap();
    let blocks = kv.lookup(&tokens).block_ids;
    assert_eq!(kv.free_count(), 2, "2 blocks used, 2 free");
    kv.release(&blocks);
    assert_eq!(kv.free_count(), 4, "release must return all 2 blocks to slab");
}

#[test]
fn fork_then_release_original_preserves_slab_refcount() {
    let mut kv = KvCache::<2>::new_heap(4, 4);
    let tokens: Vec<u32> = vec![0, 1, 2, 3];
    let data = make_kv_blocks(2, 8);
    let slices: Vec<&[u8]> = data.iter().map(|v| v.as_slice()).collect();
    kv.insert(&tokens, &slices).unwrap();
    let orig_blocks = kv.lookup(&tokens).block_ids;
    let forked_blocks = kv.fork(&tokens);
    assert_eq!(orig_blocks, forked_blocks);

    kv.release(&orig_blocks);
    assert_eq!(kv.free_count(), 2, "fork still holds the blocks");

    kv.release(&forked_blocks);
    assert_eq!(kv.free_count(), 4, "after releasing fork, all slots free");
}

#[test]
fn kvcache_is_sync() {
    fn assert_sync<T: Sync>() {}
    assert_sync::<KvCache<4>>();
}

#[test]
fn full_workflow() {
    let mut cache = KvCache::<2>::new_heap(8, 4);

    let prompt: Vec<TokenId> = vec![0, 1, 2, 3];
    let kv0 = vec![0x00u8; 8];
    let kv1 = vec![0x11u8; 8];
    cache
        .insert(&prompt, &[kv0.as_slice(), kv1.as_slice()])
        .expect("insert shared prompt");

    let blocks_a = cache.fork(&prompt);
    let blocks_b = cache.fork(&prompt);
    assert_eq!(blocks_a.len(), 2, "2 blocks for 4-token prompt with B=2");
    assert_eq!(blocks_a, blocks_b, "same prefix → same block ids");

    let a_full: Vec<TokenId> = vec![0, 1, 2, 3, 4, 5];
    let kv2a = vec![0xAAu8; 8];
    cache
        .insert(
            &a_full,
            &[kv0.as_slice(), kv1.as_slice(), kv2a.as_slice()],
        )
        .expect("insert agent A extension");

    let b_full: Vec<TokenId> = vec![0, 1, 2, 3, 6, 7];
    let kv2b = vec![0xBBu8; 8];
    cache
        .insert(
            &b_full,
            &[kv0.as_slice(), kv1.as_slice(), kv2b.as_slice()],
        )
        .expect("insert agent B extension");

    let a_result = cache.lookup(&a_full);
    assert_eq!(a_result.matched_tokens, 6);
    assert_eq!(a_result.block_ids.len(), 3);

    let b_result = cache.lookup(&b_full);
    assert_eq!(b_result.matched_tokens, 6);
    assert_eq!(b_result.block_ids.len(), 3);

    assert_eq!(
        a_result.block_ids[..2],
        b_result.block_ids[..2],
        "shared prefix must use same blocks"
    );
    assert_ne!(
        a_result.block_ids[2], b_result.block_ids[2],
        "each agent's extension must use a distinct block"
    );

    let free_before = cache.free_count();
    let freed = cache.evict(1);
    assert_eq!(freed, 1, "one block must be freed");
    assert_eq!(cache.free_count(), free_before + 1, "slab free list must grow by 1");
}

fn slices(data: &Vec<Vec<u8>>) -> Vec<&[u8]> {
    data.iter().map(|v| v.as_slice()).collect()
}

#[test]
fn an_insertion_without_room_leaks_nothing() {
    let mut kv = KvCache::<2>::new_heap(2, 4);
    let data = make_kv_blocks(3, 8);
    assert_eq!(
        kv.insert(&[0, 1, 2, 3, 4, 5], &slices(&data)),
        Err(CacheError::OutOfBlocks)
    );
    assert_eq!(kv.free_count(), 2);
    assert_eq!(kv.lookup(&[0, 1]).matched_tokens, 0);
    assert_eq!(kv.insert(&[0, 1, 2, 3], &slices(&data)[..2]), Ok(()));
    assert_eq!((kv.free_count(), kv.capacity()), (0, 2));
}

#[test]
fn data_that_does_not_fit_is_refused() {
    let mut kv = KvCache::<2>::new_heap(4, 4);
    let good = make_kv_blocks(2, 8);
    let short = vec![vec![0u8; 8], vec![0u8; 7]];
    let mismatch = Err(CacheError::DataSizeMismatch);
    assert_eq!(kv.insert(&[0, 1, 2], &slices(&good)), mismatch);
    assert_eq!(kv.insert(&[0, 1, 2, 3], &slices(&good)[..1]), mismatch);
    assert_eq!(kv.insert(&[0, 1, 2, 3], &slices(&short)), mismatch);
    assert_eq!(kv.free_count(), 4);
    assert_eq!(kv.insert(&[0, 1, 2, 3], &slices(&good)), Ok(()));
    // What is cached is not written again, so its data is not looked at.
    assert_eq!(kv.insert(&[0, 1, 2, 3], &slices(&short)), Ok(()));
    assert_eq!(kv.free_count(), 2);
}

#[test]
fn colliding_keys_share_no_blocks() {
    let mut kv = KvCache::<2>::new_heap(4, 4);
    let data = make_kv_blocks(1, 8);
    kv.insert_keyed(&[1, 2], &slices(&data), &[7]).unwrap();
    kv.insert_keyed(&[3, 4], &slices(&data), &[7]).unwrap();
    assert_eq!(kv.free_count(), 2);
    assert!(kv.lookup_keyed(&[1, 2], &[7]).block_ids.is_empty());
    let found = kv.lookup_keyed(&[3, 4], &[7]).block_ids;
    assert_eq!(kv.fork_keyed(&[3, 4], &[7]), found);
}

#[test]
fn eviction_frees_up_to_the_target() {
    let mut kv = KvCache::<2>::new_heap(4, 4);
    let data = make_kv_blocks(1, 8);
    for t in 0u32..3 {
        kv.insert(&[t, t], &slices(&data)).unwrap();
    }
    assert_eq!(kv.evict(2), 2);
    assert_eq!(kv.free_count(), 3);
    assert_eq!(kv.evict(2), 1);
    assert_eq!(kv.evict(2), 0);
    assert_eq!(kv.free_count(), 4);
}

#[test]
fn a_fork_is_counted() {
    let mut kv = KvCache::<2>::new_heap(4, 4);
    let data = make_kv_blocks(2, 8);
    kv.insert(&[0, 1, 2, 3], &slices(&data)).unwrap();
    assert!(kv.can_fork(&[0, 1, 2, 3]));
    let shared = kv.fork(&[0, 1, 9, 9]);
    assert_eq!(shared.len(), 1);
    assert_eq!(kv.evict(4), 1);
    assert_eq!(kv.lookup(&[0, 1, 2, 3]).block_ids, shared);
}

#[test]
fn a_stored_prefix_is_referenced_by_each_owner() {
    let mut kv = KvCache::<2>::new_heap(8, 4);
    let data = make_kv_blocks(3, 8);
    let keys = [1u64, 2, 3];
    let short = kv.store_keyed(&[1, 2, 3, 4], &slices(&data)[..2], &keys[..2], &[]).unwrap();
    let long = kv.store_keyed(&[1, 2, 3, 4, 5, 6], &slices(&data), &keys, &[]).unwrap();
    assert_eq!(long[..2], short[..]);
    assert_eq!(kv.free_count(), 5);
    kv.release(&short);
    assert_eq!(kv.free_count(), 5);
    assert_eq!(kv.lookup_keyed(&[1, 2, 3, 4, 5, 6], &keys).block_ids, long);
    kv.release(&long);
    assert_eq!(kv.free_count(), 8);
    assert!(kv.lookup_keyed(&[1, 2], &keys[..1]).block_ids.is_empty());
}

#[test]
fn storing_trades_one_list_of_blocks_for_another() {
    let mut kv = KvCache::<2>::new_heap(3, 4);
    let data = make_kv_blocks(3, 8);
    let first = kv.store_keyed(&[1, 2, 3, 4], &slices(&data)[..2], &[1, 2], &[]).unwrap();
    let next = kv.store_keyed(&[1, 2, 5, 6], &slices(&data)[..2], &[1, 5], &first).unwrap();
    assert_eq!(next[0], first[0]);
    assert_ne!(next[1], first[1]);
    assert_eq!(kv.free_count(), 1);
    assert_eq!(
        kv.store_keyed(&[7, 8, 9, 9], &slices(&data)[..2], &[7, 9], &next),
        Err(CacheError::OutOfBlocks)
    );
    assert_eq!(kv.free_count(), 1);
    assert_eq!(kv.lookup_keyed(&[1, 2, 5, 6], &[1, 5]).block_ids, next);
    kv.release(&next);
    assert_eq!(kv.free_count(), 3);
}

#[test]
fn retained_blocks_outlive_a_release() {
    let mut kv = KvCache::<2>::new_heap(4, 4);
    let data = make_kv_blocks(2, 8);
    kv.insert(&[1, 2, 3, 4], &slices(&data)).unwrap();
    let blocks = kv.lookup(&[1, 2, 3, 4]).block_ids;
    assert!(kv.can_share(&[1, 2, 3, 4]));
    kv.retain(&blocks);
    kv.release(&blocks);
    assert_eq!(kv.free_count(), 2);
    kv.release(&blocks);
    assert_eq!(kv.free_count(), 4);
    assert_eq!(kv.element_stride(), 4);
}

#[test]
fn an_insertion_takes_free_blocks_from_the_end() {
    let mut kv = KvCache::<2>::new_heap(4, 4);
    let data = make_kv_blocks(3, 8);
    kv.insert(&[1, 2, 3, 4], &slices(&data)[..2]).unwrap();
    assert_eq!(kv.lookup(&[1, 2, 3, 4]).block_ids, vec![BlockId(3), BlockId(2)]);
    kv.insert(&[1, 2, 5, 6], &slices(&data)[..2]).unwrap();
    assert_eq!(kv.lookup(&[1, 2, 5, 6]).block_ids, vec![BlockId(3), BlockId(1)]);
    assert_eq!(kv.lookup(&[1, 2, 3, 4]).block_ids, vec![BlockId(3), BlockId(2)]);
    assert_eq!(kv.free_count(), 1);
    let short: Vec<&[u8]> = vec![&data[0], &data[1][..7]];
    assert_eq!(kv.insert(&[1, 2, 7, 8], &short), Err(CacheError::DataSizeMismatch));
    assert_eq!(kv.insert(&[7, 8, 9, 9], &slices(&data)[..2]), Err(CacheError::OutOfBlocks));
    assert_eq!(kv.free_count(), 1);
    assert_eq!(kv.lookup(&[1, 2, 7, 8]).block_ids, vec![BlockId(3)]);
}
