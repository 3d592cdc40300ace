use phantom::api::{answer, metrics_text, prepare, ApiError, Counters, ServeRequest};
use phantom::coherence::{ArtifactId, CoherenceError, SyncEngine};
use phantom::kv::{BlockId, CacheError};
use phantom::scheduler::{Response, Scheduler, SchedulerError};

fn serve_request(tokens: Vec<u32>, agent_id: u64, kv_data: Vec<u8>) -> ServeRequest {
    ServeRequest { tokens, agent_id, kv_data }
}

fn complaint(req: ServeRequest) -> (u16, String) {
    match prepare::<16>(req, 64) {
        Ok(_) => panic!("the request must be refused"),
        Err(e) => (e.status(), e.message()),
    }
}

#[test]
fn a_request_is_cut_into_blocks() {
    let req = serve_request((0..32).collect(), 7, (0..64).collect());
    let prepared = prepare::<16>(req, 2).unwrap();
    assert_eq!(prepared.tokens, (0..32).collect::<Vec<u32>>());
    assert_eq!(prepared.agent, 7);
    assert_eq!(prepared.kv_data, vec![(0..32).collect::<Vec<u8>>(), (32..64).collect()]);
}

#[test]
fn requests_without_sense_are_refused() {
    let tokens = "tokens.len() must be a non-zero multiple of 16".to_string();
    assert_eq!(complaint(serve_request((0..31).collect(), 0, vec![1; 8])), (400, tokens.clone()));
    assert_eq!(complaint(serve_request(vec![], 0, vec![])), (400, tokens));
    assert_eq!(
        complaint(serve_request((0..32).collect(), 0, vec![])),
        (400, "kv_data must not be empty".to_string())
    );
    assert_eq!(
        complaint(serve_request((0..32).collect(), 0, vec![1; 7])),
        (400, "kv_data.len() must be divisible by n_blocks".to_string())
    );
}

#[test]
fn data_of_the_wrong_size_is_refused() {
    let mismatch = (400, "kv_data block size mismatch".to_string());
    for bytes in [2, 6, 2 * 16 * 63, 2 * 16 * 65] {
        assert_eq!(complaint(serve_request((0..32).collect(), 0, vec![1; bytes])), mismatch);
    }
    let req = serve_request((0..32).collect(), 0, vec![1; 64]);
    assert_eq!(prepare::<16>(req, usize::MAX).err().map(|e| e.status()), Some(400));
    let req = serve_request((0..32).collect(), 0, vec![1; 2 * 16 * 64]);
    assert!(prepare::<16>(req, 64).is_ok());
}

#[test]
fn errors_have_a_status_and_a_message() {
    let said = |e: SchedulerError| {
        let e = ApiError::from(e);
        (e.status(), e.message())
    };
    let kv = |e: CacheError| CoherenceError::KvError(e);
    assert_eq!(
        said(SchedulerError::Coherence(kv(CacheError::OutOfBlocks))),
        (507, "slab full".to_string())
    );
    assert_eq!(
        said(SchedulerError::Coherence(kv(CacheError::DataSizeMismatch))),
        (400, "kv_data block size mismatch".to_string())
    );
    let internal = (500, "internal error".to_string());
    assert_eq!(said(SchedulerError::Coherence(CoherenceError::WrongState)), internal);
    assert_eq!(said(SchedulerError::RecoveryFailed(kv(CacheError::OutOfBlocks))), internal);
}

#[test]
fn an_answer_lists_the_blocks() {
    let response = Response {
        artifact_id: ArtifactId(1),
        blocks: vec![BlockId(3), BlockId(0)],
        cache_hit: true,
    };
    let answered = answer(Ok(response), 12).unwrap();
    assert!(answered.cache_hit);
    assert_eq!(answered.block_ids, vec![3, 0]);
    assert_eq!(answered.latency_ns, 12);
    let refused = answer(Err(SchedulerError::Coherence(CoherenceError::NotFound)), 12);
    assert!(matches!(refused, Err(ApiError::Internal)));
}

#[test]
fn served_requests_are_answered() {
    let sched = Scheduler::new(SyncEngine::<16>::new_heap(2, 64, 100));
    let body = |from: u32, agent: u64| {
        let req = serve_request((from..from + 32).collect(), agent, vec![1; 2 * 16 * 64]);
        prepare::<16>(req, sched.element_stride()).unwrap()
    };
    let cold = answer(sched.handle(&body(0, 0)), 1).unwrap();
    assert!(!cold.cache_hit);
    assert_eq!(cold.block_ids.len(), 2);
    let hit = answer(sched.handle(&body(0, 1)), 1).unwrap();
    assert!(hit.cache_hit);
    assert_eq!(hit.block_ids, cold.block_ids);
    let full = answer(sched.handle(&body(100, 0)), 1).unwrap_err();
    assert_eq!(full.status(), 507);
}

#[test]
fn hits_and_misses_are_counted() {
    let mut counters = Counters { hits: 0, misses: u64::MAX };
    counters.record(true);
    counters.record(true);
    counters.record(false);
    assert_eq!(counters, Counters { hits: 2, misses: 0 });
}

#[test]
fn metrics_are_written_for_prometheus() {
    let text = metrics_text(Counters { hits: 1, misses: 20 }, 305, 1024);
    let expected = "# HELP phantom_cache_hits_total Total cache hits\n\
        # TYPE phantom_cache_hits_total counter\n\
        phantom_cache_hits_total 1\n\
        # HELP phantom_cache_misses_total Total cache misses\n\
        # TYPE phantom_cache_misses_total counter\n\
        phantom_cache_misses_total 20\n\
        # HELP phantom_blocks_used Current allocated blocks\n\
        # TYPE phantom_blocks_used gauge\n\
        phantom_blocks_used 305\n\
        # HELP phantom_blocks_total Total slab capacity\n\
        # TYPE phantom_blocks_total gauge\n\
        phantom_blocks_total 1024\n";
    assert_eq!(text, expected);
    let zero = metrics_text(Counters { hits: 0, misses: u64::MAX }, 0, 0);
    assert!(zero.contains("phantom_cache_hits_total 0\n"));
    assert!(zero.contains("phantom_cache_misses_total 18446744073709551615\n"));
}
