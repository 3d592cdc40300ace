use phantom::kv::{BlockError, BlockId, BlockSlab};

#[test]
fn alloc_returns_valid_id() {
    let mut slab = BlockSlab::<16>::new_heap(4, 8);
    let id = slab.alloc_block().expect("fresh slab must yield a block");
    assert!(id.0 < 4, "block id must be within capacity");
}

#[test]
fn decref_to_zero_frees_slot() {
    let mut slab = BlockSlab::<16>::new_heap(1, 8);
    let id = slab.alloc_block().unwrap();
    assert!(slab.alloc_block().is_none(), "slab must be exhausted after one alloc");
    slab.decref(id);
    assert!(slab.alloc_block().is_some(), "decreffed slot must be re-allocable");
}

#[test]
fn alloc_exhaustion_returns_none() {
    let mut slab = BlockSlab::<16>::new_heap(2, 8);
    let _ = slab.alloc_block().unwrap();
    let _ = slab.alloc_block().unwrap();
    assert!(slab.alloc_block().is_none(), "third alloc from capacity-2 slab must return None");
}

#[test]
fn uncommitted_block_ptr_returns_err() {
    let mut slab = BlockSlab::<4>::new_heap(1, 2);
    let id = slab.alloc_block().unwrap();
    assert!(
        matches!(slab.block_ptr(id), Err(BlockError::NotCommitted)),
        "block_ptr on uncommitted block must return Err(NotCommitted)"
    );
}

#[test]
fn commit_write_read_roundtrip() {
    let mut slab = BlockSlab::<4>::new_heap(1, 2);
    let id = slab.alloc_block().unwrap();
    let data: Vec<u8> = (0u8..8).collect();
    slab.commit_block(id, &data);
    let read_back = slab.block_ptr(id).expect("committed block must be readable");
    assert_eq!(read_back, data.as_slice(), "bytes written must be bytes read");
}

#[test]
fn the_block_freed_last_is_handed_out_first() {
    let mut slab = BlockSlab::<2>::new_heap(3, 1);
    assert_eq!(slab.alloc_block(), Some(BlockId(2)));
    assert_eq!(slab.alloc_block(), Some(BlockId(1)));
    slab.decref(BlockId(2));
    assert_eq!(slab.free_count(), 2);
    assert_eq!(slab.alloc_block(), Some(BlockId(2)));
    assert_eq!(slab.alloc_block(), Some(BlockId(0)));
    assert_eq!(slab.alloc_block(), None);
}

#[test]
fn a_block_is_free_with_its_last_reference() {
    let mut slab = BlockSlab::<2>::new_heap(1, 1);
    let id = slab.alloc_block().unwrap();
    slab.commit_block(id, &[1, 2]);
    slab.incref(id);
    slab.decref(id);
    assert_eq!(slab.free_count(), 0);
    assert_eq!(slab.block_ptr(id).unwrap(), &[1u8, 2][..]);
    slab.decref(id);
    assert_eq!(slab.free_count(), 1);
    assert_eq!(slab.block_ptr(id), Err(BlockError::NotCommitted));
}

#[test]
fn a_write_leaves_the_other_blocks() {
    let mut slab = BlockSlab::<2>::new_heap(3, 2);
    let a = slab.alloc_block().unwrap();
    let b = slab.alloc_block().unwrap();
    let c = slab.alloc_block().unwrap();
    slab.commit_block(a, &[1; 4]);
    slab.commit_block(c, &[3; 4]);
    slab.commit_block(b, &[2, 2, 2, 2, 9, 9]);
    assert_eq!(slab.block_ptr(a).unwrap(), &[1u8; 4][..]);
    assert_eq!(slab.block_ptr(b).unwrap(), &[2u8; 4][..]);
    assert_eq!(slab.block_ptr(c).unwrap(), &[3u8; 4][..]);
    slab.incref_all(&[a, b]);
    slab.decref_all(&[a, b, c]);
    assert_eq!(slab.free_count(), 1);
}

#[test]
fn the_size_of_a_slab_is_checked() {
    assert_eq!(BlockSlab::<16>::size_bytes(1024, 64), Some(1024 * 16 * 64));
    assert_eq!(BlockSlab::<16>::size_bytes(0, 64), Some(0));
    assert_eq!(BlockSlab::<16>::size_bytes(usize::MAX, 0), None);
    assert_eq!(BlockSlab::<1024>::size_bytes(usize::MAX / 2048, 2048), None);
    let slab = BlockSlab::<16>::new_heap(4, 8);
    assert_eq!((slab.capacity(), slab.element_stride()), (4, 8));
}

#[test]
fn references_are_counted() {
    let mut slab = BlockSlab::<2>::new_heap(2, 4);
    let id = slab.alloc_block().unwrap();
    assert_eq!(slab.references(id), 1);
    slab.incref(id);
    assert_eq!(slab.references(id), 2);
    slab.decref(id);
    slab.decref(id);
    assert_eq!(slab.references(id), 0);
}
