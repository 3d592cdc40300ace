use phantom::coherence::ArtifactId;
use phantom::kv::tokens::{block_keys, block_slice, encode_tokens, hash_tokens, same_tokens};

#[test]
fn tokens_are_encoded_least_significant_byte_first() {
    assert_eq!(
        encode_tokens(&[0x04030201, 0xff]),
        vec![1u8, 2, 3, 4, 0xff, 0, 0, 0]
    );
}

#[test]
fn keys_are_xxh3_digests() {
    assert_eq!(hash_tokens(&[]), 0x2d06800538d394c2);
    let bytes: Vec<u8> = vec![1, 0, 0, 0, 2, 0, 0, 0];
    assert_eq!(hash_tokens(&[1, 2]), xxhash_rust::xxh3::xxh3_64(&bytes));
    assert_eq!(ArtifactId::from_tokens(&[1, 2]), ArtifactId(hash_tokens(&[1, 2])));
}

#[test]
fn whole_blocks_have_keys() {
    let keys = block_keys::<2>(&[1, 2, 3, 4, 5]);
    assert_eq!(keys, vec![hash_tokens(&[1, 2]), hash_tokens(&[3, 4])]);
    assert_eq!(block_slice::<2>(&[1, 2, 3, 4, 5], 1), &[3u32, 4][..]);
}

#[test]
fn token_runs_are_compared_by_content() {
    assert!(same_tokens(&[1, 2], &[1, 2]));
    assert!(!same_tokens(&[1, 2], &[1, 3]));
    assert!(!same_tokens(&[1, 2], &[1, 2, 3]));
    assert!(same_tokens(&[], &[]));
}
