use phantom::coherence::routing::RoutingIndex;
use phantom::coherence::ArtifactId;
use phantom::kv::TokenId;

fn seq(start: u32, n_blocks: usize) -> Vec<TokenId> {
    (start..start + (n_blocks * 2) as u32).collect()
}

#[test]
fn cold_miss_returns_none() {
    let idx = RoutingIndex::<2>::new();
    assert!(idx.longest_prefix(&seq(0, 2)).is_none());
}

#[test]
fn insert_then_longest_prefix_exact() {
    let mut idx = RoutingIndex::<2>::new();
    let id = ArtifactId(42);
    idx.insert(&seq(0, 3), id);
    let result = idx.longest_prefix(&seq(0, 3));
    assert_eq!(result, Some((id, 3)));
}

#[test]
fn longest_prefix_partial_query() {
    let mut idx = RoutingIndex::<2>::new();
    let id = ArtifactId(7);
    idx.insert(&seq(0, 2), id);
    let result = idx.longest_prefix(&seq(0, 4));
    assert_eq!(result, Some((id, 2)));
}

#[test]
fn longest_prefix_deeper_wins() {
    let mut idx = RoutingIndex::<2>::new();
    let id_a = ArtifactId(1);
    let id_b = ArtifactId(2);
    idx.insert(&seq(0, 2), id_a);
    idx.insert(&seq(0, 4), id_b);
    let result = idx.longest_prefix(&seq(0, 4));
    assert_eq!(result, Some((id_b, 4)), "deeper match must win");
}

#[test]
fn remove_clears_artifact_id() {
    let mut idx = RoutingIndex::<2>::new();
    let id = ArtifactId(99);
    idx.insert(&seq(0, 2), id);
    idx.remove(&seq(0, 2));
    assert!(idx.longest_prefix(&seq(0, 2)).is_none());
}

#[test]
fn remove_noop_for_unregistered_does_not_panic() {
    let mut idx = RoutingIndex::<2>::new();
    idx.remove(&seq(0, 2));
}

#[test]
fn nested_prefixes_both_reachable() {
    let mut idx = RoutingIndex::<2>::new();
    let id_a = ArtifactId(10);
    let id_b = ArtifactId(20);
    idx.insert(&seq(0, 1), id_a);
    idx.insert(&seq(0, 2), id_b);
    assert_eq!(idx.longest_prefix(&seq(0, 2)), Some((id_b, 2)));
    let one_block_query: Vec<TokenId> = (0..2).collect();
    assert_eq!(idx.longest_prefix(&one_block_query), Some((id_a, 1)));
}

#[test]
fn colliding_routes_lead_to_their_own_artifacts() {
    let mut idx = RoutingIndex::<2>::new();
    idx.insert_keyed(&[1, 2], &[7], ArtifactId(1));
    idx.insert_keyed(&[3, 4], &[7], ArtifactId(2));
    idx.insert_keyed(&[3, 4, 1, 2], &[7, 7], ArtifactId(3));
    assert_eq!(idx.longest_prefix_keyed(&[1, 2], &[7]), Some((ArtifactId(1), 1)));
    assert_eq!(idx.longest_prefix_keyed(&[3, 4], &[7]), Some((ArtifactId(2), 1)));
    assert_eq!(idx.longest_prefix_keyed(&[3, 4, 1, 2], &[7, 7]), Some((ArtifactId(3), 2)));
    assert_eq!(idx.longest_prefix_keyed(&[1, 2, 1, 2], &[7, 7]), Some((ArtifactId(1), 1)));
    assert_eq!(idx.longest_prefix_keyed(&[5, 6], &[7]), None);
    idx.remove_keyed(&[3, 4], &[7]);
    assert_eq!(idx.longest_prefix_keyed(&[3, 4], &[7]), None);
    assert_eq!(idx.longest_prefix_keyed(&[3, 4, 1, 2], &[7, 7]), Some((ArtifactId(3), 2)));
}

#[test]
fn a_route_keeps_all_that_is_filed_there() {
    let mut idx = RoutingIndex::<2>::new();
    let (a, b, c) = (ArtifactId(1), ArtifactId(2), ArtifactId(3));
    for id in [a, b, c] {
        idx.insert_keyed(&[1, 2], &[7], id);
    }
    assert_eq!(idx.longest_prefix_keyed(&[1, 2], &[7]), Some((c, 1)));
    idx.insert_keyed(&[1, 2], &[7], a);
    assert_eq!(idx.longest_prefix_keyed(&[1, 2], &[7]), Some((a, 1)));
    idx.withdraw_keyed(&[1, 2], &[7], a);
    assert_eq!(idx.longest_prefix_keyed(&[1, 2], &[7]), Some((c, 1)));
    idx.withdraw_keyed(&[1, 2], &[7], a);
    idx.withdraw_keyed(&[1, 2, 3, 4], &[7, 8], c);
    idx.withdraw_keyed(&[], &[], c);
    idx.withdraw_keyed(&[1, 2], &[7], c);
    assert_eq!(idx.longest_prefix_keyed(&[1, 2], &[7]), Some((b, 1)));
    idx.withdraw_keyed(&[1, 2], &[7], b);
    assert_eq!(idx.longest_prefix_keyed(&[1, 2], &[7]), None);
}

#[test]
fn a_new_route_leaves_the_others_alone() {
    let mut idx = RoutingIndex::<2>::new();
    idx.insert(&seq(0, 2), ArtifactId(1));
    idx.insert(&seq(0, 4), ArtifactId(2));
    idx.insert(&[0, 1, 9, 9], ArtifactId(3));
    idx.insert_keyed(&[], &[], ArtifactId(4));
    assert_eq!(idx.longest_prefix(&seq(0, 3)), Some((ArtifactId(1), 2)));
    assert_eq!(idx.longest_prefix(&seq(0, 4)), Some((ArtifactId(2), 4)));
    assert_eq!(idx.longest_prefix(&[0, 1]), None);
    assert_eq!(idx.longest_prefix(&[]), None);
}

#[test]
fn removing_a_route_leaves_longer_and_shorter_ones() {
    let mut idx = RoutingIndex::<2>::new();
    idx.insert(&seq(0, 1), ArtifactId(1));
    idx.insert(&seq(0, 2), ArtifactId(2));
    idx.insert(&seq(0, 3), ArtifactId(3));
    idx.remove(&seq(0, 2));
    assert_eq!(idx.longest_prefix(&seq(0, 2)), Some((ArtifactId(1), 1)));
    assert_eq!(idx.longest_prefix(&seq(0, 3)), Some((ArtifactId(3), 3)));
    idx.remove_keyed(&[], &[]);
    idx.remove(&[0, 1, 2]);
    idx.remove(&[]);
    assert_eq!(idx.longest_prefix(&seq(0, 3)), Some((ArtifactId(3), 3)));
}

#[test]
fn a_route_can_be_made_anew() {
    let mut idx = RoutingIndex::<2>::new();
    idx.insert(&seq(0, 2), ArtifactId(1));
    idx.insert(&seq(0, 2), ArtifactId(2));
    assert_eq!(idx.longest_prefix(&seq(0, 2)), Some((ArtifactId(2), 2)));
    assert_eq!(idx.longest_prefix(&[0, 1, 9, 9]), None);
}
