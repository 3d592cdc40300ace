use phantom::coherence::entry::ArtifactEntry;
use phantom::coherence::MesiState;
use phantom::kv::BlockId;

fn entry_valid_exclusive(k: u64) -> bool {
    let e = ArtifactEntry::new_exclusive(0, vec![BlockId(0)]);
    e.invariants_hold(k)
}

#[test]
fn new_exclusive_satisfies_invariants() {
    assert!(entry_valid_exclusive(1));
}

#[test]
fn modified_with_sharers_violates_swmr() {
    let mut e = ArtifactEntry::new_exclusive(0, vec![]);
    e.state = MesiState::Modified;
    e.sharers.insert(1);
    assert!(!e.invariants_hold(5));
}

#[test]
fn seen_past_ver_violates_seen_bound() {
    let mut e = ArtifactEntry::new_exclusive(0, vec![]);
    e.seen.insert(1, 99);
    assert!(!e.invariants_hold(5));
}

#[test]
fn sharer_stale_beyond_k_violates_kbound() {
    let mut e = ArtifactEntry::new_exclusive(0, vec![]);
    e.state = MesiState::Shared;
    e.owner = None;
    e.ver = 5;
    e.sharers.insert(1);
    e.seen.insert(1, 3);
    assert!(!e.invariants_hold(1));
}

#[test]
fn shared_state_with_owner_violates_owner_consistency() {
    let mut e = ArtifactEntry::new_exclusive(0, vec![]);
    e.state = MesiState::Shared;
    assert!(!e.invariants_hold(5));
}

#[test]
fn an_exclusive_artifact_without_owner_is_not_coherent() {
    let mut e = ArtifactEntry::new_exclusive(0, vec![]);
    e.owner = None;
    assert!(!e.invariants_hold(5));
}

#[test]
fn a_sharer_that_has_seen_nothing_counts_from_zero() {
    let mut e = ArtifactEntry::new_exclusive(0, vec![]);
    e.state = MesiState::Shared;
    e.owner = None;
    e.ver = 3;
    e.sharers.insert(1);
    assert!(e.invariants_hold(3));
    assert!(!e.invariants_hold(2));
    e.seen.insert(1, 2);
    assert!(e.invariants_hold(1));
}
