use phantom::coherence::{AgentId, CoherenceEngine, CoherenceError, MesiState, SyncEngine};
use phantom::kv::{CacheError, TokenId};
use phantom::scheduler::{Request, Scheduler, SchedulerError};

fn make_engine() -> SyncEngine<2> {
    SyncEngine::<2>::new_heap(32, 4, 5)
}

fn make_request(tokens: Vec<TokenId>, agent: AgentId) -> Request {
    let n_blocks = tokens.len() / 2;
    let kv_data: Vec<Vec<u8>> = (0..n_blocks).map(|i| vec![i as u8; 8]).collect();
    Request { tokens, kv_data, agent }
}

#[test]
fn handle_cold_miss_registers_and_returns_blocks() {
    let engine = make_engine();
    let sched = Scheduler::new(engine);
    let req = make_request(vec![0, 1, 2, 3], 0);
    let resp = sched.handle(&req).expect("cold miss must succeed");
    assert_eq!(resp.blocks.len(), 2, "2-block artifact must return 2 blocks");
}

#[test]
fn handle_cache_hit_reads_existing_artifact() {
    let engine = make_engine();
    let tokens: Vec<TokenId> = vec![0, 1, 2, 3];
    let data: Vec<Vec<u8>> = (0..2).map(|i| vec![i as u8; 8]).collect();
    let slices: Vec<&[u8]> = data.iter().map(|v| v.as_slice()).collect();
    let id = engine.register(&tokens, &slices, 0).unwrap();

    let sched = Scheduler::new(engine);
    let req = make_request(tokens, 1);
    let resp = sched.handle(&req).expect("cache hit must succeed");
    assert_eq!(resp.artifact_id, id, "hit must return the pre-registered artifact");
    assert_eq!(resp.blocks.len(), 2);
}

#[test]
fn handle_kbound_recovery_succeeds() {
    let engine = SyncEngine::<2>::new_heap(32, 4, 0);
    let tokens: Vec<TokenId> = vec![0, 1, 2, 3];
    let data: Vec<Vec<u8>> = (0..2).map(|i| vec![i as u8; 8]).collect();
    let slices: Vec<&[u8]> = data.iter().map(|v| v.as_slice()).collect();
    let id = engine.register(&tokens, &slices, 0).unwrap();

    engine.read(id, 1).unwrap();
    engine.invalidate(id).unwrap();
    engine.acquire(id, 0).unwrap();
    let ext_tokens: Vec<TokenId> = vec![0, 1, 2, 3, 4, 5];
    let ext_data: Vec<Vec<u8>> = (0..3).map(|i| vec![i as u8; 8]).collect();
    let ext_slices: Vec<&[u8]> = ext_data.iter().map(|v| v.as_slice()).collect();
    engine.write(id, 0, &ext_tokens, &ext_slices).unwrap();
    engine.writeback(id).unwrap();

    let sched = Scheduler::new(engine);
    let req = make_request(ext_tokens, 1);
    let resp = sched.handle(&req).expect("K-bound recovery must succeed");
    assert!(!resp.blocks.is_empty(), "recovery must return valid blocks");
    sched.check_invariants().expect("engine invariants must hold after K-bound recovery");
}


#[test]
fn end_to_end_two_agents_shared_prompt() {
    let engine = SyncEngine::<2>::new_heap(32, 4, 5);
    let sched = Scheduler::new(engine.clone());

    let prompt: Vec<TokenId> = vec![0, 1, 2, 3];
    let resp0 = sched.handle(&make_request(prompt.clone(), 0))
        .expect("agent 0 cold miss must succeed");
    assert_eq!(resp0.blocks.len(), 2);
    engine.check_invariants().unwrap();

    let resp1 = sched.handle(&make_request(prompt.clone(), 1))
        .expect("agent 1 cache hit must succeed");
    assert_eq!(resp1.artifact_id, resp0.artifact_id, "both agents must reference same artifact");
    assert_eq!(resp1.blocks, resp0.blocks, "same prompt → same blocks");
    engine.check_invariants().unwrap();

    let long_query: Vec<TokenId> = vec![0, 1, 2, 3, 4, 5];
    let resp2 = sched.handle(&make_request(long_query, 2))
        .expect("agent 2 with extended query must succeed");
    assert_eq!(resp2.blocks.len(), 2, "prefix hit on 2-block base must return 2 blocks");
    engine.check_invariants().unwrap();
}

#[test]
fn end_to_end_prefix_hit_multiple_agents() {
    let engine = SyncEngine::<2>::new_heap(32, 4, 5);
    let sched = Scheduler::new(engine.clone());

    let base: Vec<TokenId> = vec![0, 1, 2, 3];
    let resp_base = sched.handle(&make_request(base.clone(), 0)).unwrap();
    engine.check_invariants().unwrap();

    let ext1: Vec<TokenId> = vec![0, 1, 2, 3, 4, 5];
    let resp1 = sched.handle(&make_request(ext1, 1)).unwrap();
    engine.check_invariants().unwrap();

    let ext2: Vec<TokenId> = vec![0, 1, 2, 3, 6, 7];
    let resp2 = sched.handle(&make_request(ext2, 2)).unwrap();
    engine.check_invariants().unwrap();

    assert_eq!(resp1.blocks, resp_base.blocks, "agent 1 prefix hit must return base blocks");
    assert_eq!(resp2.blocks, resp_base.blocks, "agent 2 prefix hit must return base blocks");
    assert_eq!(resp1.artifact_id, resp_base.artifact_id, "agent 1 must route to base artifact");
    assert_eq!(resp2.artifact_id, resp_base.artifact_id, "agent 2 must route to base artifact");
}

#[test]
fn hits_and_misses_are_told_apart() {
    let sched = Scheduler::new(make_engine());
    let first = sched.handle(&make_request(vec![0, 1, 2, 3], 0)).unwrap();
    assert!(!first.cache_hit);
    let second = sched.handle(&make_request(vec![0, 1, 2, 3], 1)).unwrap();
    assert!(second.cache_hit);
    assert_eq!(second.blocks, first.blocks);
    assert_eq!(sched.stats(), (2, 32));
}

#[test]
fn failures_name_their_cause() {
    let sched = Scheduler::new(SyncEngine::<2>::new_heap(1, 4, 5));
    let full = SchedulerError::Coherence(CoherenceError::KvError(CacheError::OutOfBlocks));
    assert_eq!(sched.handle(&make_request(vec![0, 1, 2, 3], 0)).unwrap_err(), full);
    let wrong = SchedulerError::Coherence(CoherenceError::KvError(CacheError::DataSizeMismatch));
    let req = Request { tokens: vec![0, 1], kv_data: vec![vec![0; 7]], agent: 0 };
    assert_eq!(sched.handle(&req).unwrap_err(), wrong);
    let req = Request { tokens: vec![], kv_data: vec![vec![0; 8]], agent: 0 };
    assert_eq!(sched.handle(&req).unwrap_err(), wrong);
    assert_eq!(sched.stats(), (0, 1));
}

#[test]
fn a_stale_reader_has_the_artifact_renewed() {
    let mut engine = CoherenceEngine::<2>::new_heap(8, 4, 0);
    let data: Vec<Vec<u8>> = vec![vec![1; 8]];
    let slices: Vec<&[u8]> = data.iter().map(|v| v.as_slice()).collect();
    let id = engine.register(&[1, 2], &slices, 0).unwrap();
    engine.read(id, 5).unwrap();
    engine.invalidate(id).unwrap();
    engine.acquire(id, 0).unwrap();
    engine.write(id, 0, &[1, 2], &slices).unwrap();
    engine.writeback(id).unwrap();
    assert_eq!(engine.read(id, 5), Err(CoherenceError::KBoundExceeded));
    let req = make_request(vec![1, 2], 5);
    let resp = Scheduler::handle_with(&mut engine, &req).unwrap();
    assert!(resp.cache_hit);
    assert_eq!(resp.artifact_id, id);
    assert_eq!(resp.blocks.len(), 1);
    let entry = &engine.artifacts[&id.0];
    assert_eq!((entry.ver, entry.state), (2, MesiState::Shared));
    assert_eq!(entry.seen[&5], 2);
    assert!(engine.check_invariants().is_ok());
}

#[test]
fn a_renewal_that_does_not_fit_fails() {
    let mut engine = CoherenceEngine::<2>::new_heap(1, 4, 0);
    let data: Vec<Vec<u8>> = vec![vec![1; 8]];
    let slices: Vec<&[u8]> = data.iter().map(|v| v.as_slice()).collect();
    let id = engine.register(&[1, 2], &slices, 0).unwrap();
    engine.read(id, 5).unwrap();
    engine.invalidate(id).unwrap();
    engine.acquire(id, 0).unwrap();
    engine.write(id, 0, &[1, 2], &slices).unwrap();
    engine.writeback(id).unwrap();
    let err = Scheduler::handle_with(&mut engine, &make_request(vec![1, 2, 3, 4], 5)).unwrap_err();
    assert_eq!(
        err,
        SchedulerError::Coherence(CoherenceError::KvError(CacheError::OutOfBlocks))
    );
    assert!(engine.check_invariants().is_ok());
}

#[test]
fn equal_requests_hit_whoever_asks() {
    let sched = Scheduler::new(make_engine());
    let first = sched.handle(&make_request(vec![0, 1, 2, 3], 0)).unwrap();
    assert!(!first.cache_hit);
    for agent in [0, 1, 7] {
        let next = sched.handle(&make_request(vec![0, 1, 2, 3], agent)).unwrap();
        assert!(next.cache_hit);
        assert_eq!((next.artifact_id, &next.blocks), (first.artifact_id, &first.blocks));
    }
    let longer = sched.handle(&make_request(vec![0, 1, 2, 3, 4, 5], 1)).unwrap();
    assert!(longer.cache_hit);
    assert_eq!(longer.blocks, first.blocks);
    assert_eq!(sched.stats().0, 2);
}
