use phantom::coherence::SyncEngine;
use phantom::kv::TokenId;
use phantom::router::Router;

fn make_engine() -> SyncEngine<2> {
    SyncEngine::<2>::new_heap(16, 4, 5)
}

fn make_data(n: usize) -> Vec<Vec<u8>> {
    (0..n).map(|i| vec![i as u8; 8]).collect()
}

#[test]
fn route_cold_miss_returns_none() {
    let engine = make_engine();
    let router = Router::new(engine);
    assert!(router.route(&[0u32, 1, 2, 3]).is_none());
}

#[test]
fn route_hit_returns_artifact() {
    let engine = make_engine();
    let tokens: Vec<TokenId> = vec![0, 1, 2, 3];
    let data = make_data(2);
    let slices: Vec<&[u8]> = data.iter().map(|v| v.as_slice()).collect();
    let id = engine.register(&tokens, &slices, 0).unwrap();
    let router = Router::new(engine);
    let result = router.route(&tokens).expect("must find registered artifact");
    assert_eq!(result.artifact_id, id);
    assert_eq!(result.matched_tokens, 4);
}

#[test]
fn route_skips_invalidated_artifact() {
    let engine = make_engine();
    let tokens: Vec<TokenId> = vec![0, 1, 2, 3];
    let data = make_data(2);
    let slices: Vec<&[u8]> = data.iter().map(|v| v.as_slice()).collect();
    let id = engine.register(&tokens, &slices, 0).unwrap();
    engine.invalidate(id).unwrap();
    let router = Router::new(engine);
    assert!(router.route(&tokens).is_none(), "Invalid artifact must not be routed");
}

#[test]
fn a_cloned_router_routes_the_same_engine() {
    let engine = make_engine();
    let router = Router::new(engine.clone());
    let other = router.clone();
    let data = make_data(1);
    let slices: Vec<&[u8]> = data.iter().map(|v| v.as_slice()).collect();
    let id = engine.register(&[7, 8], &slices, 0).unwrap();
    assert_eq!(other.route(&[7, 8, 9]).unwrap().artifact_id, id);
    assert_eq!(router.route(&[7, 8, 9]).unwrap().blocks.len(), 1);
}
