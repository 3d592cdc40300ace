use phantom::coherence::{ArtifactId, CoherenceEngine, CoherenceError, MesiState};
use phantom::kv::tokens::block_keys;
use phantom::kv::{BlockId, CacheError};

fn data(n: usize) -> Vec<Vec<u8>> {
    (0..n).map(|i| vec![i as u8; 8]).collect()
}

fn slices(data: &Vec<Vec<u8>>) -> Vec<&[u8]> {
    data.iter().map(|v| v.as_slice()).collect()
}

#[test]
fn unknown_artifacts_are_not_found() {
    let mut e = CoherenceEngine::<2>::new_heap(8, 4, 5);
    let id = ArtifactId(9);
    let d = data(1);
    assert_eq!(e.acquire(id, 0), Err(CoherenceError::NotFound));
    assert_eq!(e.invalidate(id), Err(CoherenceError::NotFound));
    assert_eq!(e.read(id, 0), Err(CoherenceError::NotFound));
    assert_eq!(e.write(id, 0, &[1, 2], &slices(&d)), Err(CoherenceError::NotFound));
    assert_eq!(e.writeback(id), Err(CoherenceError::NotFound));
    assert_eq!(e.register_fork(&[1, 2], id, 0), Err(CoherenceError::NotFound));
}

#[test]
fn a_full_cache_refuses_to_register() {
    let mut e = CoherenceEngine::<2>::new_heap(1, 4, 5);
    let d = data(2);
    assert_eq!(
        e.register(&[1, 2, 3, 4], &slices(&d), 0),
        Err(CoherenceError::KvError(CacheError::OutOfBlocks))
    );
    assert_eq!(
        e.register(&[1, 2, 3], &slices(&d), 0),
        Err(CoherenceError::KvError(CacheError::DataSizeMismatch))
    );
    assert_eq!(e.stats(), (0, 1));
    assert!(e.lookup(&[1, 2, 3, 4]).is_none());
    assert!(e.register(&[1, 2], &slices(&d)[..1], 0).is_ok());
    assert_eq!(e.stats(), (1, 1));
}

#[test]
fn a_failed_write_leaves_the_artifact_where_it_is() {
    let mut e = CoherenceEngine::<2>::new_heap(2, 4, 5);
    let d = data(3);
    let id = e.register(&[0, 1, 2, 3], &slices(&d)[..2], 0).unwrap();
    assert_eq!(
        e.write(id, 0, &[0, 1, 2, 3, 4, 5], &slices(&d)),
        Err(CoherenceError::KvError(CacheError::OutOfBlocks))
    );
    let hit = e.lookup(&[0, 1, 2, 3]).unwrap();
    assert_eq!((hit.artifact_id, hit.matched_tokens, hit.blocks.len()), (id, 4, 2));
    assert_eq!(
        e.write(id, 0, &[0, 1, 2], &slices(&d)),
        Err(CoherenceError::KvError(CacheError::DataSizeMismatch))
    );
    assert!(e.lookup(&[0, 1, 2, 3]).is_some());
    assert_eq!(e.artifacts[&id.0].state, MesiState::Exclusive);
    assert_eq!(e.artifacts[&id.0].ver, 0);
    assert_eq!(e.read(id, 1).unwrap().len(), 2);
    assert_eq!(e.stats(), (2, 2));
}

#[test]
fn a_full_version_counter_refuses_a_write() {
    let mut e = CoherenceEngine::<2>::new_heap(4, 4, 5);
    let d = data(1);
    let id = e.register(&[0, 1], &slices(&d), 0).unwrap();
    e.artifacts.get_mut(&id.0).unwrap().ver = u64::MAX;
    assert_eq!(e.write(id, 0, &[0, 1], &slices(&d)), Err(CoherenceError::CounterFull));
    assert_eq!(e.write(id, 1, &[0, 1], &slices(&d)), Err(CoherenceError::NotOwner));
    assert_eq!(e.lookup(&[0, 1]).unwrap().artifact_id, id);
    e.artifacts.get_mut(&id.0).unwrap().ver = u64::MAX - 1;
    assert_eq!(e.write(id, 0, &[0, 1], &slices(&d)), Ok(()));
    assert_eq!(e.artifacts[&id.0].ver, u64::MAX);
}

#[test]
fn the_longest_readable_artifact_serves() {
    let mut e = CoherenceEngine::<2>::new_heap(16, 4, 5);
    let d = data(3);
    let short = e.register(&[1, 2], &slices(&d)[..1], 0).unwrap();
    let long = e.register(&[1, 2, 3, 4, 5, 6], &slices(&d), 0).unwrap();
    let hit = e.lookup(&[1, 2, 3, 4, 5, 6, 7, 8]).unwrap();
    assert_eq!((hit.artifact_id, hit.matched_tokens), (long, 6));
    assert_eq!(hit.blocks, e.artifacts[&long.0].blocks);
    let hit = e.lookup(&[1, 2, 3, 4]).unwrap();
    assert_eq!((hit.artifact_id, hit.matched_tokens), (short, 2));
    e.invalidate(long).unwrap();
    assert_eq!(e.lookup(&[1, 2, 3, 4, 5, 6]).unwrap().artifact_id, short);
    assert!(e.lookup(&[3, 4]).is_none());
}

#[test]
fn a_written_artifact_is_out_of_reach_until_written_back() {
    let mut e = CoherenceEngine::<2>::new_heap(16, 4, 5);
    let d = data(2);
    let id = e.register(&[1, 2], &slices(&d)[..1], 3).unwrap();
    e.write(id, 3, &[1, 2, 3, 4], &slices(&d)).unwrap();
    assert!(e.lookup(&[1, 2, 3, 4]).is_none());
    assert_eq!(e.read(id, 0), Err(CoherenceError::WrongState));
    e.writeback(id).unwrap();
    assert_eq!(e.lookup(&[1, 2, 3, 4]).unwrap().matched_tokens, 4);
    assert_eq!(e.artifacts[&id.0].owner, Some(3));
    assert_eq!(e.artifacts[&id.0].tokens, vec![1, 2, 3, 4]);
}

#[test]
fn reading_twice_gives_the_same() {
    let mut e = CoherenceEngine::<2>::new_heap(8, 4, 0);
    let d = data(1);
    let id = e.register(&[1, 2], &slices(&d), 0).unwrap();
    let once = e.read(id, 1).unwrap();
    assert_eq!(e.read(id, 1).unwrap(), once);
    assert_eq!(e.artifacts[&id.0].sharers.len(), 1);
}

#[test]
fn an_acquired_artifact_is_empty() {
    let mut e = CoherenceEngine::<2>::new_heap(8, 4, 5);
    let d = data(1);
    let id = e.register(&[1, 2], &slices(&d), 0).unwrap();
    e.invalidate(id).unwrap();
    assert_eq!(e.artifacts[&id.0].tokens, vec![1, 2]);
    assert_eq!(e.invalidate(id), Err(CoherenceError::WrongState));
    e.acquire(id, 4).unwrap();
    assert!(e.artifacts[&id.0].tokens.is_empty());
    assert_eq!(e.read(id, 4).unwrap(), Vec::<BlockId>::new());
}

#[test]
fn names_and_keys_can_be_given() {
    let mut e = CoherenceEngine::<2>::new_heap(8, 4, 5);
    let d = data(2);
    let a = ArtifactId(100);
    let b = ArtifactId(200);
    assert_eq!(e.register_keyed(a, &[1, 2], &[7], &slices(&d)[..1], 0), Ok(a));
    assert_eq!(
        e.register_keyed(a, &[5, 6], &[8], &slices(&d)[..1], 0),
        Err(CoherenceError::AlreadyExists)
    );
    let hit = e.lookup_keyed(&[1, 2, 3, 4], &[7, 9]).unwrap();
    assert_eq!((hit.artifact_id, hit.matched_tokens), (a, 2));
    assert_eq!(e.register_fork_keyed(b, &[1, 2, 3, 4], &[7, 9], a, 1), Ok(b));
    assert_eq!(e.artifacts[&b.0].blocks, hit.blocks);
    assert_eq!(e.artifacts[&b.0].keys, vec![7]);
    e.write_keyed(b, 1, &[1, 2, 3, 4], &[7, 9], &slices(&d)).unwrap();
    e.writeback(b).unwrap();
    assert_eq!(e.lookup_keyed(&[1, 2, 3, 4], &[7, 9]).unwrap().artifact_id, b);
}

#[test]
fn an_invalidation_of_the_source_leaves_the_fork() {
    let mut e = CoherenceEngine::<2>::new_heap(8, 4, 5);
    let d = data(2);
    let base = e.register(&[1, 2, 3, 4], &slices(&d), 0).unwrap();
    let fork = e.register_fork(&[1, 2, 3, 4, 5, 6], base, 1).unwrap();
    assert_eq!(e.stats(), (2, 8));
    e.invalidate(base).unwrap();
    assert_eq!(e.stats(), (2, 8));
    assert_eq!(e.read(fork, 2).unwrap().len(), 2);
    e.invalidate(fork).unwrap();
    assert_eq!(e.stats(), (0, 8));
}

#[test]
fn a_fork_of_nothing_has_no_blocks() {
    let mut e = CoherenceEngine::<2>::new_heap(8, 4, 5);
    let d = data(1);
    let base = e.register(&[1, 2], &slices(&d), 0).unwrap();
    let id = e.register_fork(&[8, 9], base, 1).unwrap();
    assert_eq!(id, ArtifactId::from_tokens(&[8, 9]));
    let entry = &e.artifacts[&id.0];
    assert_eq!((entry.state, entry.owner), (MesiState::Exclusive, Some(1)));
    assert!(entry.blocks.is_empty() && entry.tokens.is_empty());
    assert!(e.lookup(&[8, 9]).is_none());
    assert_eq!(e.check_invariants(), Ok(()));
    e.write(id, 1, &[8, 9], &slices(&d)).unwrap();
    e.writeback(id).unwrap();
    assert_eq!(e.lookup(&[8, 9]).unwrap().artifact_id, id);
    assert_eq!(e.stats(), (2, 8));
}

#[test]
fn an_artifact_without_blocks_is_written_back() {
    let mut e = CoherenceEngine::<2>::new_heap(8, 4, 5);
    let d = data(1);
    let id = e.register(&[1, 2], &slices(&d), 0).unwrap();
    e.write(id, 0, &[], &[]).unwrap();
    assert_eq!(e.stats(), (0, 8));
    assert_eq!(e.writeback(id), Ok(()));
    assert_eq!(e.artifacts[&id.0].state, MesiState::Exclusive);
    assert!(e.lookup(&[1, 2]).is_none());
    let none = e.register(&[], &[], 3).unwrap();
    assert_eq!(e.artifacts[&none.0].owner, Some(3));
    assert_eq!(e.read(none, 3), Ok(vec![]));
    assert_eq!(e.check_invariants(), Ok(()));
}

#[test]
fn a_broken_artifact_is_named() {
    let mut e = CoherenceEngine::<2>::new_heap(8, 4, 5);
    let d = data(1);
    let id = e.register(&[1, 2], &slices(&d), 0).unwrap();
    assert_eq!(e.check_invariants(), Ok(()));
    e.artifacts.get_mut(&id.0).unwrap().tokens.push(3);
    assert_eq!(e.check_invariants(), Err(id));
    e.artifacts.get_mut(&id.0).unwrap().tokens.pop();
    e.artifacts.get_mut(&id.0).unwrap().owner = None;
    assert_eq!(e.check_invariants(), Err(id));
}

#[test]
fn artifacts_are_filed_under_the_keys_of_their_tokens() {
    let mut e = CoherenceEngine::<2>::new_heap(16, 4, 5);
    let d = data(3);
    let base = e.register(&[1, 2, 3, 4], &slices(&d)[..2], 0).unwrap();
    let fork = e.register_fork(&[1, 2, 3, 4, 5, 6], base, 1).unwrap();
    assert_eq!(e.artifacts[&fork.0].tokens, vec![1, 2, 3, 4]);
    e.write(fork, 1, &[1, 2, 3, 4, 5, 6], &slices(&d)).unwrap();
    for entry in e.artifacts.values() {
        assert_eq!(entry.keys, block_keys::<2>(&entry.tokens));
    }
    e.writeback(fork).unwrap();
    e.invalidate(fork).unwrap();
    e.acquire(fork, 2).unwrap();
    for entry in e.artifacts.values() {
        assert_eq!(entry.keys, block_keys::<2>(&entry.tokens));
    }
}

#[test]
fn artifacts_with_their_own_blocks_do_not_disturb_each_other() {
    let mut e = CoherenceEngine::<2>::new_heap(4, 4, 5);
    let d = data(2);
    let a = e.register(&[1, 2, 3, 4], &slices(&d), 0).unwrap();
    let b = e.register(&[5, 6, 7, 8], &slices(&d), 0).unwrap();
    let fork = e.register_fork(&[1, 2, 3, 4, 9, 9], a, 1).unwrap();
    let before = e.artifacts[&b.0].blocks.clone();
    e.invalidate(a).unwrap();
    assert_eq!(e.stats(), (4, 4));
    e.invalidate(fork).unwrap();
    assert_eq!(e.stats(), (2, 4));
    assert_eq!(e.read(b, 3).unwrap(), before);
    assert_eq!(e.lookup(&[5, 6, 7, 8]).unwrap().blocks, before);
}

#[test]
fn a_prefix_that_is_registered_again_is_shared() {
    let mut e = CoherenceEngine::<2>::new_heap(8, 4, 5);
    let d = data(3);
    let a = e.register(&[0, 1, 2, 3], &slices(&d)[..2], 0).unwrap();
    let b = e.register(&[0, 1, 2, 3, 4, 5], &slices(&d), 0).unwrap();
    assert_eq!(e.artifacts[&b.0].blocks.len(), 3);
    assert_eq!(e.artifacts[&b.0].blocks[..2], e.artifacts[&a.0].blocks[..]);
    assert_eq!(e.stats(), (3, 8));
    assert_eq!(e.invalidate(a), Ok(()));
    assert_eq!(e.stats(), (3, 8));
    assert_eq!(e.read(b, 1).unwrap().len(), 3);
    assert_eq!(e.invalidate(b), Ok(()));
    assert_eq!(e.stats(), (0, 8));
}

#[test]
fn an_extension_can_go_before_what_it_extends() {
    let mut e = CoherenceEngine::<2>::new_heap(8, 4, 5);
    let d = data(3);
    let a = e.register(&[0, 1, 2, 3], &slices(&d)[..2], 0).unwrap();
    let b = e.register(&[0, 1, 2, 3, 4, 5], &slices(&d), 0).unwrap();
    e.invalidate(b).unwrap();
    assert_eq!(e.stats(), (2, 8));
    assert_eq!(e.lookup(&[0, 1, 2, 3]).unwrap().artifact_id, a);
    assert_eq!(e.read(a, 1).unwrap().len(), 2);
    e.invalidate(a).unwrap();
    assert_eq!(e.stats(), (0, 8));
}

#[test]
fn a_write_gives_back_what_it_replaces() {
    let mut e = CoherenceEngine::<2>::new_heap(8, 4, 5);
    let d = data(3);
    let id = e.register(&[0, 1, 2, 3], &slices(&d)[..2], 0).unwrap();
    let before = e.artifacts[&id.0].blocks.clone();
    e.write(id, 0, &[0, 1, 2, 3, 4, 5], &slices(&d)).unwrap();
    assert_eq!(e.stats(), (3, 8));
    assert_eq!(e.artifacts[&id.0].blocks[..2], before[..]);
    e.writeback(id).unwrap();
    e.write(id, 0, &[0, 1, 2, 3, 4, 5], &slices(&d)).unwrap();
    assert_eq!(e.stats(), (3, 8));
    e.writeback(id).unwrap();
    e.write(id, 0, &[0, 1, 8, 9], &slices(&d)[..2]).unwrap();
    assert_eq!(e.stats(), (2, 8));
    e.writeback(id).unwrap();
    e.write(id, 0, &[6, 7], &slices(&d)[..1]).unwrap();
    assert_eq!(e.stats(), (1, 8));
    e.writeback(id).unwrap();
    assert_eq!(e.lookup(&[6, 7]).unwrap().artifact_id, id);
    e.invalidate(id).unwrap();
    assert_eq!(e.stats(), (0, 8));
}

#[test]
fn a_fork_that_is_extended_gives_all_back() {
    let mut e = CoherenceEngine::<2>::new_heap(8, 4, 5);
    let d = data(3);
    let base = e.register(&[0, 1, 2, 3], &slices(&d)[..2], 0).unwrap();
    let fork = e.register_fork(&[0, 1, 2, 3, 4, 5], base, 1).unwrap();
    e.write(fork, 1, &[0, 1, 2, 3, 4, 5], &slices(&d)).unwrap();
    e.writeback(fork).unwrap();
    assert_eq!(e.stats(), (3, 8));
    e.invalidate(base).unwrap();
    assert_eq!(e.stats(), (3, 8));
    e.invalidate(fork).unwrap();
    assert_eq!(e.stats(), (0, 8));
}

#[test]
fn a_fork_that_is_written_leaves_its_source_on_its_route() {
    let mut e = CoherenceEngine::<2>::new_heap(16, 4, 5);
    let d = data(3);
    let base = e.register(&[0, 1, 2, 3], &slices(&d)[..2], 0).unwrap();
    let fork = e.register_fork(&[0, 1, 2, 3, 4, 5], base, 1).unwrap();
    e.write(fork, 1, &[0, 1, 2, 3, 4, 5], &slices(&d)).unwrap();
    let hit = e.lookup(&[0, 1, 2, 3]).unwrap();
    assert_eq!((hit.artifact_id, hit.matched_tokens), (base, 4));
    e.writeback(fork).unwrap();
    assert_eq!(e.lookup(&[0, 1, 2, 3, 4, 5]).unwrap().artifact_id, fork);
    assert_eq!(e.lookup(&[0, 1, 2, 3]).unwrap().artifact_id, base);
}

#[test]
fn artifacts_on_one_route_take_turns() {
    let mut e = CoherenceEngine::<2>::new_heap(16, 4, 5);
    let d = data(2);
    let base = e.register(&[0, 1, 2, 3], &slices(&d), 0).unwrap();
    let fork = e.register_fork(&[0, 1, 2, 3, 4, 5], base, 1).unwrap();
    assert_eq!(e.lookup(&[0, 1, 2, 3]).unwrap().artifact_id, fork);
    e.invalidate(fork).unwrap();
    assert_eq!(e.lookup(&[0, 1, 2, 3]).unwrap().artifact_id, base);
    e.invalidate(base).unwrap();
    assert!(e.lookup(&[0, 1, 2, 3]).is_none());
}

#[test]
fn colliding_keys_do_not_mix_artifacts_up() {
    let mut e = CoherenceEngine::<2>::new_heap(8, 4, 5);
    let d = data(1);
    let (a, b) = (ArtifactId(1), ArtifactId(2));
    e.register_keyed(a, &[1, 2], &[7], &slices(&d), 0).unwrap();
    e.register_keyed(b, &[3, 4], &[7], &slices(&d), 0).unwrap();
    assert_eq!(e.lookup_keyed(&[1, 2], &[7]).unwrap().artifact_id, a);
    assert_eq!(e.lookup_keyed(&[3, 4], &[7]).unwrap().artifact_id, b);
    assert!(e.lookup_keyed(&[5, 6], &[7]).is_none());
    e.invalidate(b).unwrap();
    assert_eq!(e.stats(), (1, 8));
    e.invalidate(a).unwrap();
    assert_eq!(e.stats(), (0, 8));
    assert_eq!(e.element_stride(), 4);
}
